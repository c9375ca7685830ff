use pkgsync::package::{Package, ParseError};
use pkgsync::source::{
    discover, fetch_with_fallback, finish_command, prefer, run_command, Command, CommandOutput,
    DirectoryEntry, FileSource, Found, LocalSource, Origin, Reply, Request, Source, SourceError,
    SourceSpec, SshSource, Target,
};

fn output(success: bool, code: Option<i32>, stdout: &[u8], stderr: &[u8]) -> CommandOutput {
    CommandOutput { success, code, stdout: stdout.to_vec(), stderr: stderr.to_vec() }
}

fn target(arg: &str, found: Found) -> Target {
    Target { arg: arg.to_string(), found }
}

fn files(names: &[&str]) -> Vec<DirectoryEntry> {
    names
        .iter()
        .map(|name| DirectoryEntry { name: name.to_string(), is_file: true })
        .collect()
}

#[test]
fn file_source_reads_and_parses() {
    let source = FileSource::new("pkgsync_test_source.pkgs");
    let packages = source
        .fetch(Ok("alacritty 0.17.0-1\nhyprland 0.46.2-1\n".to_string()))
        .unwrap();
    assert_eq!(packages.len(), 2);
    assert_eq!(packages[0].name, "alacritty");
}

#[test]
fn file_source_missing_file_is_readfile_error() {
    let source = FileSource::new("/definitely/not/here.pkgs");
    let err = source
        .fetch(Err("No such file or directory (os error 2)".to_string()))
        .unwrap_err();
    assert!(matches!(err, SourceError::ReadFile { .. }));
    assert_eq!(
        err.message(),
        "could not read /definitely/not/here.pkgs: No such file or directory (os error 2)"
    );
}

// A stand-in source so we can test the fallback logic deterministically,
// with no real processes or files involved.
struct Fake {
    result: Result<Vec<Package>, ()>,
}
impl Source for Fake {
    fn name(&self) -> String {
        "fake".into()
    }
    fn fetch(&self) -> Result<Vec<Package>, SourceError> {
        self.result.clone().map_err(|_| SourceError::Parse(ParseError {
            line_number: 0,
            content: "boom".into(),
        }))
    }
}

#[test]
fn fallback_used_only_when_primary_fails() {
    let pkg = vec![Package { name: "vim".into(), version: "9".into() }];

    // primary ok -> use primary, no fallback.
    let (_, origin) = fetch_with_fallback(
        &Fake { result: Ok(pkg.clone()) },
        &Fake { result: Err(()) },
    )
    .unwrap();
    assert_eq!(origin, Origin::Primary);

    // primary fails -> fall back.
    let (got, origin) = fetch_with_fallback(
        &Fake { result: Err(()) },
        &Fake { result: Ok(pkg.clone()) },
    )
    .unwrap();
    assert_eq!(origin, Origin::Fallback);
    assert_eq!(got, pkg);

    // both fail -> error surfaces.
    assert!(fetch_with_fallback(&Fake { result: Err(()) }, &Fake { result: Err(()) }).is_err());
}

#[test]
fn fallback_takes_trait_objects_and_returns_its_own_error() {
    let fail: &dyn Source = &Fake { result: Err(()) };
    assert!(fetch_with_fallback(fail, fail).is_err());
    let first = SourceError::ReadFile { path: "a".into(), error: "x".into() };
    let second = SourceError::ReadFile { path: "b".into(), error: "y".into() };
    let err = prefer(Err(first), Err(second)).unwrap_err();
    assert_eq!(err.message(), "could not read b: y");
    let (got, origin) = prefer(Ok(vec![]), Err(err)).unwrap();
    assert!(got.is_empty());
    assert_eq!(origin, Origin::Primary);
}

#[test]
fn discover_classifies_args() {
    // A non-path arg is an SSH host.
    let specs = discover(&[target("office", Found::Nothing)]);
    assert_eq!(specs, vec![SourceSpec::Ssh("office".to_string())]);
}

#[test]
fn discover_scans_directory_for_pkgs_files() {
    let dir = "/tmp/pkgsync_discover_test";
    let names = files(&["office.pkgs", "README.md", "laptop.pkgs"]);
    let specs = discover(&[target(dir, Found::Directory(names))]);
    assert_eq!(
        specs,
        vec![
            SourceSpec::File(format!("{}/laptop.pkgs", dir)),
            SourceSpec::File(format!("{}/office.pkgs", dir)),
        ]
    ); // sorted, .md excluded
}

#[test]
fn discover_mixes_targets_in_order() {
    let names = files(&[
        "b.pkgs", "a.pkgs", ".pkgs", "x.PKGS", "c.pkgs.bak", "pkgs", "é.pkgs", "a-1.pkgs",
    ]);
    let specs = discover(&[
        target("host-a", Found::Nothing),
        target("d/", Found::Directory(names)),
        target("x.txt", Found::File),
        target("empty", Found::Directory(vec![])),
    ]);
    assert_eq!(
        specs,
        vec![
            SourceSpec::Ssh("host-a".into()),
            SourceSpec::File("d/a-1.pkgs".into()),
            SourceSpec::File("d/a.pkgs".into()),
            SourceSpec::File("d/b.pkgs".into()),
            SourceSpec::File("d/é.pkgs".into()),
            SourceSpec::File("x.txt".into()),
        ]
    );
}

#[test]
fn spec_labels_are_distinct() {
    assert!(SourceSpec::Local.label().contains("local"));
    assert!(SourceSpec::Ssh("h".into()).label().starts_with("ssh:"));
    assert!(SourceSpec::File("/x.pkgs".into()).label().starts_with("file:"));
}

#[test]
fn labels_and_names_are_exact() {
    assert_eq!(SourceSpec::Local.label(), "local (pacman -Qe)");
    assert_eq!(LocalSource.name(), "local (pacman -Qe)");
    assert_eq!(SshSource::new("office").name(), "ssh: office");
    assert_eq!(FileSource::new("/x").name(), "file: /x");
}

#[test]
fn sources_ask_for_what_they_need() {
    assert_eq!(
        SourceSpec::Local.build(),
        Request::Run(Command { program: "pacman".into(), args: vec!["-Qe".into()] })
    );
    assert_eq!(SourceSpec::File("/x".into()).build(), Request::Read("/x".into()));
    match SourceSpec::Ssh("office".into()).build() {
        Request::Run(command) => {
            assert_eq!(command.program, "ssh");
            assert_eq!(
                command.args,
                vec!["-o", "BatchMode=yes", "-o", "ConnectTimeout=8", "office", "pacman", "-Qe"]
            );
        }
        other => panic!("expected a command, got {:?}", other),
    }
}

#[test]
fn replies_become_package_lists_or_errors() {
    let good = Reply::Run(Ok(output(true, Some(0), b"vim 9\n", b"")));
    assert_eq!(SourceSpec::Local.fetch(good).unwrap()[0].version, "9");

    let bad = Reply::Run(Ok(output(false, Some(255), b"vim 9\n", b" no route \n")));
    let err = SourceSpec::Ssh("office".into()).fetch(bad).unwrap_err();
    assert_eq!(err.message(), "`ssh` failed (exit 255): no route");

    let killed = Reply::Run(Ok(output(false, None, b"", b"")));
    let err = SourceSpec::Local.fetch(killed).unwrap_err();
    assert_eq!(err.message(), "`pacman` failed (exit signal): ");

    let absent = Reply::Run(Err("not found".into()));
    let err = SourceSpec::Local.fetch(absent).unwrap_err();
    assert_eq!(err.message(), "could not run `pacman`: not found");

    let read = Reply::Read(Ok("vim\n".into()));
    let err = SourceSpec::File("/x".into()).fetch(read).unwrap_err();
    assert_eq!(
        err.message(),
        "parse error: line 1: expected `<name> <version>`, got \"vim\""
    );
}

#[test]
fn output_bytes_are_decoded_lossily() {
    assert_eq!(run_command("p", Ok(output(true, Some(0), "é\n".as_bytes(), b""))).unwrap(), "é\n");
    assert_eq!(run_command("p", Ok(output(true, Some(0), b"a\xffb", b""))).unwrap(), "a\u{fffd}b");
    let err = run_command("p", Ok(output(false, Some(-1), b"", b"\xfe!"))).unwrap_err();
    assert_eq!(err.message(), "`p` failed (exit -1): \u{fffd}!");
    assert_eq!(finish_command("p", true, None, "out".into(), "err").unwrap(), "out");
}

#[test]
fn equal_sources_are_compared_by_components() {
    assert_eq!(SourceSpec::File("a//b/".into()), SourceSpec::File("a/./b".into()));
    assert_ne!(SourceSpec::File("./a".into()), SourceSpec::File("a".into()));
    assert_ne!(SourceSpec::Ssh("a/".into()), SourceSpec::Ssh("a".into()));
    assert_ne!(SourceSpec::Ssh("a".into()), SourceSpec::File("a".into()));
}

#[test]
fn only_files_of_a_directory_are_sources() {
    let old = DirectoryEntry { name: "old.pkgs".to_string(), is_file: false };
    assert_eq!(discover(&[target("d", Found::Directory(vec![old.clone()]))]), vec![]);
    let mut entries = files(&["office.pkgs"]);
    entries.push(old);
    assert_eq!(
        discover(&[target("d", Found::Directory(entries))]),
        vec![SourceSpec::File("d/office.pkgs".into())]
    );
}
