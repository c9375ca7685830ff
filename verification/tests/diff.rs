use pkgsync::diff::{diff, Category, DiffEntry, DiffKind};
use pkgsync::package::Package;

fn pkg(name: &str, version: &str) -> Package {
    Package {
        name: name.to_string(),
        version: version.to_string(),
    }
}

#[test]
fn identical_lists_produce_no_diff() {
    let a = vec![pkg("vim", "9.1"), pkg("git", "2.45")];
    assert!(diff(&a, &a).is_empty());
}

#[test]
fn detects_missing_package() {
    let local = vec![pkg("vim", "9.1")];
    let remote = vec![pkg("vim", "9.1"), pkg("btop", "1.4.0")];
    let result = diff(&local, &remote);
    assert_eq!(
        result,
        vec![DiffEntry {
            name: "btop".to_string(),
            kind: DiffKind::Missing {
                remote_version: "1.4.0".to_string()
            },
        }]
    );
}

#[test]
fn detects_extra_package() {
    let local = vec![pkg("vim", "9.1"), pkg("discord", "0.0.49")];
    let remote = vec![pkg("vim", "9.1")];
    let result = diff(&local, &remote);
    assert_eq!(
        result,
        vec![DiffEntry {
            name: "discord".to_string(),
            kind: DiffKind::Extra {
                local_version: "0.0.49".to_string()
            },
        }]
    );
}

#[test]
fn detects_version_skew() {
    let local = vec![pkg("hyprland", "0.45")];
    let remote = vec![pkg("hyprland", "0.46")];
    let result = diff(&local, &remote);
    assert_eq!(
        result,
        vec![DiffEntry {
            name: "hyprland".to_string(),
            kind: DiffKind::VersionSkew {
                local_version: "0.45".to_string(),
                remote_version: "0.46".to_string(),
            },
        }]
    );
}

#[test]
fn mixed_scenario_is_sorted_by_name() {
    let local = vec![pkg("vim", "9.1"), pkg("zsh", "5.9"), pkg("hyprland", "0.45")];
    let remote = vec![pkg("vim", "9.1"), pkg("btop", "1.4.0"), pkg("hyprland", "0.46")];
    let result = diff(&local, &remote);

    // btop (install), hyprland (upgrade), zsh (remove) — alphabetical.
    let names: Vec<&str> = result.iter().map(|e| e.name.as_str()).collect();
    assert_eq!(names, vec!["btop", "hyprland", "zsh"]);

    let categories: Vec<Category> = result.iter().map(|e| e.kind.category()).collect();
    assert_eq!(
        categories,
        vec![Category::Install, Category::Upgrade, Category::Remove]
    );
}

#[test]
fn category_maps_each_variant() {
    assert_eq!(
        DiffKind::Missing { remote_version: "1".into() }.category(),
        Category::Install
    );
    assert_eq!(
        DiffKind::Extra { local_version: "1".into() }.category(),
        Category::Remove
    );
    assert_eq!(
        DiffKind::VersionSkew { local_version: "1".into(), remote_version: "2".into() }.category(),
        Category::Upgrade
    );
}

#[test]
fn repeated_names_count_with_their_last_version() {
    let local = vec![pkg("a", "1"), pkg("a", "2")];
    let remote = vec![pkg("a", "2"), pkg("a", "1"), pkg("b", "1"), pkg("b", "0")];
    assert_eq!(
        diff(&local, &remote),
        vec![
            DiffEntry {
                name: "a".into(),
                kind: DiffKind::VersionSkew { local_version: "2".into(), remote_version: "1".into() },
            },
            DiffEntry { name: "b".into(), kind: DiffKind::Missing { remote_version: "1".into() } },
            DiffEntry { name: "b".into(), kind: DiffKind::Missing { remote_version: "0".into() } },
        ]
    );
    assert_eq!(diff(&local, &local).len(), 1);
}

#[test]
fn swapping_the_machines_mirrors_the_diff() {
    let local = vec![pkg("vim", "9.1"), pkg("zsh", "5.9"), pkg("hyprland", "0.45")];
    let remote = vec![pkg("vim", "9.1"), pkg("btop", "1.4.0"), pkg("hyprland", "0.46")];
    let there = diff(&local, &remote);
    let back = diff(&remote, &local);
    assert_eq!(there.len(), 3);
    assert_eq!(
        back,
        vec![
            DiffEntry { name: "btop".into(), kind: DiffKind::Extra { local_version: "1.4.0".into() } },
            DiffEntry {
                name: "hyprland".into(),
                kind: DiffKind::VersionSkew {
                    local_version: "0.46".into(),
                    remote_version: "0.45".into(),
                },
            },
            DiffEntry { name: "zsh".into(), kind: DiffKind::Missing { remote_version: "5.9".into() } },
        ]
    );
}

#[test]
fn applying_the_diff_gives_the_remote_names() {
    let local = vec![pkg("vim", "9.1"), pkg("zsh", "5.9")];
    let remote = vec![pkg("vim", "9.2"), pkg("btop", "1.4.0")];
    let mut names: Vec<String> = local.iter().map(|p| p.name.clone()).collect();
    for e in diff(&local, &remote) {
        match e.kind.category() {
            Category::Install => names.push(e.name),
            Category::Remove => names.retain(|n| *n != e.name),
            Category::Upgrade => {}
        }
    }
    assert_eq!(names, vec!["vim", "btop"]);
}
