use pkgsync::known::{
    line_to_spec, load_recent, menu_sources, parse_recent, parse_ssh_config_hosts, recent_file,
    record, remember, serialize_recent, spec_to_line, ssh_config_file, ssh_config_hosts, state_dir,
    Stored,
};
use pkgsync::source::SourceSpec;

#[test]
fn spec_line_round_trips() {
    let ssh = SourceSpec::Ssh("office".into());
    assert_eq!(line_to_spec(&spec_to_line(&ssh).unwrap()), Some(ssh));

    let file = SourceSpec::File("/state/office.pkgs".into());
    assert_eq!(line_to_spec(&spec_to_line(&file).unwrap()), Some(file));

    // Local is not persisted.
    assert_eq!(spec_to_line(&SourceSpec::Local), None);
}

#[test]
fn parse_recent_skips_garbage() {
    let text = "ssh office\nnonsense\nfile /x.pkgs\n\nssh \n";
    assert_eq!(
        parse_recent(text),
        vec![
            SourceSpec::Ssh("office".into()),
            SourceSpec::File("/x.pkgs".into()),
        ]
    );
}

#[test]
fn serialize_then_parse_is_identity() {
    let specs = vec![
        SourceSpec::Ssh("a".into()),
        SourceSpec::File("/b.pkgs".into()),
    ];
    assert_eq!(parse_recent(&serialize_recent(&specs)), specs);
}

#[test]
fn ssh_config_parsing_extracts_hosts_and_skips_wildcards() {
    let text = "\
Host office laptop
    HostName 10.0.0.5
host server
Host *
    ForwardAgent yes
Host pi-?
Host box
";
    assert_eq!(
        parse_ssh_config_hosts(text),
        vec!["office", "laptop", "server", "box"]
    );
}

#[test]
fn stored_lines_are_exact() {
    assert_eq!(spec_to_line(&SourceSpec::Ssh("h".into())).unwrap(), "ssh h");
    assert_eq!(spec_to_line(&SourceSpec::File("/p q".into())).unwrap(), "file /p q");
    assert_eq!(
        serialize_recent(&[SourceSpec::Ssh("h".into()), SourceSpec::Local, SourceSpec::File("f".into())]),
        "ssh h\nfile f\n"
    );
    assert_eq!(line_to_spec("  ssh   a b  "), Some(SourceSpec::Ssh("a b".into())));
    assert_eq!(line_to_spec("ssh\ta"), None);
    assert_eq!(line_to_spec("SSH a"), None);
    assert_eq!(line_to_spec("ssh"), None);
    assert_eq!(line_to_spec(""), None);
}

#[test]
fn recording_moves_to_the_front_and_caps() {
    let mut stored = String::new();
    for i in 0..12 {
        stored = record(Stored::Text(&stored), &SourceSpec::Ssh(format!("h{}", i))).unwrap();
    }
    let recent = load_recent(Some(&stored));
    assert_eq!(recent.len(), 10);
    assert_eq!(recent[0], SourceSpec::Ssh("h11".into()));
    assert_eq!(recent[9], SourceSpec::Ssh("h2".into()));

    let again = record(Stored::Text(&stored), &SourceSpec::Ssh("h5".into())).unwrap();
    let recent = load_recent(Some(&again));
    assert_eq!(recent.len(), 10);
    assert_eq!(recent[0], SourceSpec::Ssh("h5".into()));
    assert_eq!(recent[1], SourceSpec::Ssh("h11".into()));
    assert_eq!(record(Stored::Text(&again), &SourceSpec::Ssh("h5".into())), Some(again.clone()));

    assert_eq!(record(Stored::Text("ssh a\n"), &SourceSpec::Local), None);
    assert_eq!(record(Stored::Missing, &SourceSpec::Ssh("a".into())).unwrap(), "ssh a\n");
    assert_eq!(load_recent(None), vec![]);
}

#[test]
fn files_are_remembered_by_their_components() {
    let recent = vec![SourceSpec::File("/a//b".into()), SourceSpec::Ssh("/a/b".into())];
    let now = remember(&recent, &SourceSpec::File("/a/b/".into()));
    assert_eq!(now.len(), 2);
    match &now[0] {
        SourceSpec::File(path) => assert_eq!(path, "/a/b/"),
        other => panic!("expected a file, got {:?}", other),
    }
    assert_eq!(now[1], SourceSpec::Ssh("/a/b".into()));
}

#[test]
fn config_hosts_are_listed_once() {
    let text = "HOST a b\n host\tb !c d* a e\nHostName x\nHosts y\n\nhost";
    assert_eq!(ssh_config_hosts(Some(text)), vec!["a", "b", "e"]);
    assert!(ssh_config_hosts(None).is_empty());
}

#[test]
fn menu_offers_recent_sources_and_then_new_hosts() {
    let menu = menu_sources(Some("file /x\nssh b\n"), Some("Host a b c\n"));
    assert_eq!(
        menu,
        vec![
            SourceSpec::File("/x".into()),
            SourceSpec::Ssh("b".into()),
            SourceSpec::Ssh("a".into()),
            SourceSpec::Ssh("c".into()),
        ]
    );
    assert!(menu_sources(None, None).is_empty());
}

#[test]
fn state_lives_in_the_state_directory() {
    assert_eq!(state_dir(Some("/s"), Some("/h")).unwrap(), "/s/pkgsync");
    assert_eq!(state_dir(Some(""), Some("/h")).unwrap(), "/h/.local/state/pkgsync");
    assert_eq!(state_dir(None, Some("/h/")).unwrap(), "/h/.local/state/pkgsync");
    assert_eq!(state_dir(Some(""), None), None);
    assert_eq!(recent_file(None, Some("/h")).unwrap(), "/h/.local/state/pkgsync/recent");
    assert_eq!(recent_file(None, None), None);
    assert_eq!(ssh_config_file("/h"), "/h/.ssh/config");
}

#[test]
fn an_unreadable_history_is_left_alone() {
    assert_eq!(record(Stored::Unreadable, &SourceSpec::Ssh("a".into())), None);
    assert_eq!(record(Stored::Unreadable, &SourceSpec::File("/x".into())), None);
    assert_eq!(record(Stored::Missing, &SourceSpec::Local), None);
    let text = record(Stored::Missing, &SourceSpec::File("/x".into())).unwrap();
    assert_eq!(load_recent(Some(&text)), vec![SourceSpec::File("/x".into())]);
}
