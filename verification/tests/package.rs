use pkgsync::package::{describe_malformed, parse_line, parse_package_list, serialize_packages, Package};

// A small helper so tests read cleanly.
fn pkg(name: &str, version: &str) -> Package {
    Package {
        name: name.to_string(),
        version: version.to_string(),
    }
}

#[test]
fn parses_multiple_packages() {
    let raw = "alacritty 0.17.0-1\nhyprland 0.46.2-1\n";
    let parsed = parse_package_list(raw).unwrap();
    assert_eq!(parsed, vec![pkg("alacritty", "0.17.0-1"), pkg("hyprland", "0.46.2-1")]);
}

#[test]
fn skips_blank_lines_and_trailing_newline() {
    let raw = "\nalacritty 0.17.0-1\n\n   \nhyprland 0.46.2-1\n";
    let parsed = parse_package_list(raw).unwrap();
    assert_eq!(parsed.len(), 2);
}

#[test]
fn preserves_complex_version_strings() {
    // epoch:version-release form must survive intact.
    let parsed = parse_package_list("ffmpeg 2:7.1-3\n").unwrap();
    assert_eq!(parsed, vec![pkg("ffmpeg", "2:7.1-3")]);
}

#[test]
fn tolerates_extra_internal_whitespace() {
    let parsed = parse_package_list("alacritty    0.17.0-1\n").unwrap();
    assert_eq!(parsed, vec![pkg("alacritty", "0.17.0-1")]);
}

#[test]
fn errors_on_line_missing_version() {
    // "vim" has no version field -> error pointing at line 2.
    let err = parse_package_list("alacritty 0.17.0-1\nvim\n").unwrap_err();
    assert_eq!(err.line_number, 2);
    assert_eq!(err.content, "vim");
}

#[test]
fn errors_on_line_with_extra_field() {
    let err = parse_package_list("name 1.0 garbage\n").unwrap_err();
    assert_eq!(err.line_number, 1);
}

#[test]
fn empty_input_is_empty_list() {
    assert_eq!(parse_package_list("").unwrap(), vec![]);
}

#[test]
fn serialize_round_trips_with_parse() {
    let pkgs = vec![pkg("alacritty", "0.17.0-1"), pkg("ffmpeg", "2:7.1-3")];
    let text = serialize_packages(&pkgs);
    assert_eq!(parse_package_list(&text).unwrap(), pkgs);
}

#[test]
fn serialized_text_is_exact() {
    assert_eq!(serialize_packages(&[pkg("vim", "9.1"), pkg("git", "2.45")]), "vim 9.1\ngit 2.45\n");
    assert_eq!(serialize_packages(&[]), "");
}

#[test]
fn first_malformed_line_is_reported_with_its_text() {
    let err = parse_package_list("a 1\n\r\n  b  \nc\n").unwrap_err();
    assert_eq!(err.line_number, 3);
    assert_eq!(err.content, "  b  ");
}

#[test]
fn carriage_returns_end_lines_only_before_a_feed() {
    assert_eq!(parse_package_list("a 1\r\nb 2\r").unwrap(), vec![pkg("a", "1"), pkg("b", "2")]);
    let err = parse_package_list("a\r\nb\r").unwrap_err();
    assert_eq!(err.content, "a");
    let err = parse_package_list("a 1\nb\r").unwrap_err();
    assert_eq!(err.content, "b\r");
}

#[test]
fn parse_line_wants_exactly_two_words() {
    assert_eq!(parse_line("\ta\u{2003}1 "), Some(pkg("a", "1")));
    assert_eq!(parse_line("a"), None);
    assert_eq!(parse_line("a 1 x"), None);
    assert_eq!(parse_line(""), None);
}

#[test]
fn malformed_lines_are_described() {
    let err = parse_package_list("a 1\nsay \"hi\" there\n").unwrap_err();
    assert_eq!(
        err.message(),
        "line 2: expected `<name> <version>`, got \"say \\\"hi\\\" there\""
    );
    assert_eq!(describe_malformed(120, "'x'"), "line 120: expected `<name> <version>`, got 'x'");
}

#[test]
fn names_with_spaces_do_not_round_trip() {
    let text = serialize_packages(&[pkg("a b", "1")]);
    assert!(parse_package_list(&text).is_err());
}
