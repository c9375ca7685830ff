use pkgsync::action::{Outcome, Plan, PlannedCommand, Step, StringHashSet};
use pkgsync::diff::{diff, DiffEntry, DiffKind};
use pkgsync::package::Package;

fn entries() -> Vec<DiffEntry> {
    vec![
        DiffEntry {
            name: "btop".into(),
            kind: DiffKind::Missing { remote_version: "1.4".into() },
        },
        DiffEntry {
            name: "hyprland".into(),
            kind: DiffKind::VersionSkew {
                local_version: "0.45".into(),
                remote_version: "0.46".into(),
            },
        },
        DiffEntry {
            name: "discord".into(),
            kind: DiffKind::Extra { local_version: "0.1".into() },
        },
    ]
}

fn names(items: &[&str]) -> StringHashSet {
    let mut set = StringHashSet::new();
    for item in items {
        set.insert(item.to_string());
    }
    set
}

#[test]
fn buckets_only_selected_entries() {
    let plan = Plan::from_selection(&entries(), &names(&["btop", "discord"]));
    assert_eq!(plan.install, vec!["btop"]);
    assert_eq!(plan.remove, vec!["discord"]);
    assert!(plan.upgrade.is_empty()); // hyprland wasn't selected
    assert_eq!(plan.total(), 2);
}

#[test]
fn empty_selection_is_empty_plan() {
    let plan = Plan::from_selection(&entries(), &names(&[]));
    assert!(plan.is_empty());
    assert!(plan.commands().is_empty());
}

#[test]
fn install_uses_needed_but_upgrade_does_not() {
    let plan = Plan::from_selection(&entries(), &names(&["btop", "hyprland"]));
    let cmds = plan.commands();

    let install = cmds.iter().find(|c| c.description.starts_with("install")).unwrap();
    assert_eq!(install.args, vec!["-S", "--needed", "btop"]);

    let upgrade = cmds.iter().find(|c| c.description.starts_with("upgrade")).unwrap();
    assert_eq!(upgrade.args, vec!["-S", "hyprland"]);
}

#[test]
fn remove_uses_rns() {
    let plan = Plan::from_selection(&entries(), &names(&["discord"]));
    let cmds = plan.commands();
    assert_eq!(cmds.len(), 1);
    assert_eq!(cmds[0].program, "yay");
    assert_eq!(cmds[0].args, vec!["-Rns", "discord"]);
}

#[test]
fn commands_are_described_and_shown() {
    let plan = Plan {
        install: vec!["a".into(), "b".into()],
        upgrade: vec!["c".into()],
        remove: vec!["d".into()],
    };
    let cmds = plan.commands();
    let descriptions: Vec<&str> = cmds.iter().map(|c| c.description.as_str()).collect();
    assert_eq!(
        descriptions,
        vec!["install 2 package(s)", "upgrade 1 package(s)", "remove 1 package(s)"]
    );
    let shown: Vec<String> = cmds.iter().map(|c| c.display()).collect();
    assert_eq!(shown, vec!["yay -S --needed a b", "yay -S c", "yay -Rns d"]);
    assert_eq!(plan.total(), 4);
    assert!(!plan.is_empty());
    let bare = PlannedCommand { description: "x".into(), program: "p".into(), args: vec![] };
    assert_eq!(bare.display(), "p ");
}

#[test]
fn execution_runs_in_order_until_a_failure() {
    let plan = Plan::from_selection(&entries(), &names(&["btop", "hyprland", "discord"]));
    let cmds = plan.commands();
    match plan.execute(&[]) {
        Step::Run { banner, command } => {
            assert_eq!(banner, "\n[pkgsync] install 1 package(s) → yay -S --needed btop");
            assert_eq!(command, cmds[0]);
        }
        other => panic!("expected a command, got {:?}", other),
    }
    match plan.execute(&[Outcome::Succeeded]) {
        Step::Run { command, .. } => assert_eq!(command, cmds[1]),
        other => panic!("expected a command, got {:?}", other),
    }
    assert_eq!(
        plan.execute(&[Outcome::Succeeded, Outcome::Failed]),
        Step::Halt { notice: "[pkgsync] `yay -S hyprland` failed — stopping.".to_string() }
    );
    assert_eq!(
        plan.execute(&[Outcome::Succeeded, Outcome::Succeeded, Outcome::Succeeded]),
        Step::Done
    );
    assert_eq!(Plan::default().execute(&[]), Step::Done);
}

#[test]
fn ticking_everything_gives_the_remote_names() {
    let pkg = |name: &str, version: &str| Package { name: name.into(), version: version.into() };
    let local = vec![pkg("vim", "9.1"), pkg("zsh", "5.9")];
    let remote = vec![pkg("vim", "9.2"), pkg("btop", "1.4.0")];
    let entries = diff(&local, &remote);
    let plan = Plan::from_selection(&entries, &names(&["vim", "zsh", "btop", "absent"]));
    assert_eq!(plan.install, vec!["btop"]);
    assert_eq!(plan.upgrade, vec!["vim"]);
    assert_eq!(plan.remove, vec!["zsh"]);
    // Packages that are not ticked are left alone.
    let plan = Plan::from_selection(&entries, &names(&["vim", "absent"]));
    assert_eq!(plan, Plan { install: vec![], upgrade: vec!["vim".into()], remove: vec![] });
}

#[test]
fn a_command_that_cannot_be_started_ends_the_run_with_its_error() {
    let plan = Plan::from_selection(&entries(), &names(&["btop", "hyprland", "discord"]));
    let absent = || Outcome::NotStarted("No such file or directory (os error 2)".to_string());
    let abort = || Step::Abort { error: "No such file or directory (os error 2)".to_string() };
    assert_eq!(plan.execute(&[absent()]), abort());
    assert_eq!(plan.execute(&[Outcome::Succeeded, absent()]), abort());
    assert_eq!(plan.execute(&[absent(), Outcome::Succeeded]), abort());
    // What stands behind a failure does not count.
    assert!(matches!(plan.execute(&[Outcome::Failed, absent()]), Step::Halt { .. }));
}
