use pkgsync::app::{expand_tilde, App, Filter, InputKind, MenuItem, Mode, Screen};
use pkgsync::diff::{Category, DiffEntry, DiffKind};
use pkgsync::keys::{KeyCode, ListState};
use pkgsync::source::SourceSpec;

fn sample() -> Vec<DiffEntry> {
    vec![
        DiffEntry {
            name: "btop".into(),
            kind: DiffKind::Missing { remote_version: "1.4".into() },
        },
        DiffEntry {
            name: "discord".into(),
            kind: DiffKind::Extra { local_version: "0.1".into() },
        },
        DiffEntry {
            name: "hyprland".into(),
            kind: DiffKind::VersionSkew {
                local_version: "0.45".into(),
                remote_version: "0.46".into(),
            },
        },
    ]
}

fn specs() -> Vec<SourceSpec> {
    vec![
        SourceSpec::Ssh("office".into()),
        SourceSpec::Ssh("laptop".into()),
    ]
}

fn press(app: &mut App, keys: &str) {
    for c in keys.chars() {
        app.handle_key(KeyCode::Char(c));
    }
}

fn shown(app: &App) -> Vec<String> {
    app.visible().iter().map(|e| e.name.clone()).collect()
}

// --- the diff ---

#[test]
fn starts_on_first_entry() {
    let app = App::demo(sample());
    assert_eq!(app.screen, Screen::Diff);
    assert_eq!(app.selected_entry().unwrap().name, "btop");
}

#[test]
fn empty_diff_has_no_selection() {
    let app = App::demo(vec![]);
    assert!(app.selected_entry().is_none());
}

#[test]
fn movement_wraps_both_ways() {
    let mut app = App::demo(sample());
    app.move_up();
    assert_eq!(app.selected_entry().unwrap().name, "hyprland");
    app.move_down();
    assert_eq!(app.selected_entry().unwrap().name, "btop");
}

#[test]
fn toggle_adds_then_removes() {
    let mut app = App::demo(sample());
    app.toggle_current();
    assert!(app.is_selected("btop"));
    app.toggle_current();
    assert!(!app.is_selected("btop"));
}

#[test]
fn filter_limits_visible_and_clamps_cursor() {
    let mut app = App::demo(sample());
    app.move_down();
    app.move_down();
    app.set_filter(Filter::Install);
    assert_eq!(app.visible().len(), 1);
    assert_eq!(app.selected_entry().unwrap().name, "btop");
}

#[test]
fn confirm_flow_raises_apply_request_once() {
    let mut app = App::demo(sample());
    app.toggle_current();
    app.handle_key(KeyCode::Enter);
    assert_eq!(app.mode, Mode::Confirm);
    app.handle_key(KeyCode::Char('y'));
    assert_eq!(app.mode, Mode::Browse);
    assert!(app.take_apply_request());
    assert!(!app.take_apply_request());
}

#[test]
fn esc_in_browse_returns_to_entry_screen() {
    // demo has no CLI specs, so "back" is the interactive menu.
    let mut app = App::demo(sample());
    app.handle_key(KeyCode::Esc);
    assert_eq!(app.screen, Screen::Menu);

    // with CLI specs, "back" is the picker instead.
    let mut app = App::new(specs());
    app.on_fetch_result(app.current_epoch(), Ok(sample()));
    app.handle_key(KeyCode::Esc);
    assert_eq!(app.screen, Screen::Picker);
}

// --- the picker and the fetches ---

#[test]
fn multiple_specs_start_at_picker() {
    let app = App::new(specs());
    assert_eq!(app.screen, Screen::Picker);
    assert_eq!(app.picker_state.selected(), Some(0));
}

#[test]
fn single_spec_auto_fetches() {
    let mut app = App::new(vec![SourceSpec::Ssh("office".into())]);
    assert_eq!(app.screen, Screen::Loading);
    assert!(app.take_fetch_request().is_some());
}

#[test]
fn picker_navigation_wraps() {
    let mut app = App::new(specs());
    app.handle_key(KeyCode::Up); // from 0 wraps to last (1)
    assert_eq!(app.picker_state.selected(), Some(1));
}

#[test]
fn selecting_in_picker_requests_fetch() {
    let mut app = App::new(specs());
    app.handle_key(KeyCode::Enter);
    assert_eq!(app.screen, Screen::Loading);
    assert_eq!(app.take_fetch_request(), Some(SourceSpec::Ssh("office".into())));
}

#[test]
fn fetch_ok_shows_diff_and_err_shows_error() {
    let mut app = App::new(specs());
    let epoch = app.current_epoch();
    app.on_fetch_result(epoch, Ok(sample()));
    assert_eq!(app.screen, Screen::Diff);
    app.on_fetch_result(epoch, Err("host down".into()));
    assert_eq!(app.screen, Screen::Error("host down".into()));
}

#[test]
fn refresh_requeues_current_source() {
    let mut app = App::new(vec![SourceSpec::Ssh("office".into())]);
    let _ = app.take_fetch_request(); // drain the auto-fetch
    let epoch = app.current_epoch();
    app.on_fetch_result(epoch, Ok(sample())); // now in Diff
    app.refresh();
    assert_eq!(app.screen, Screen::Loading);
    assert_eq!(app.take_fetch_request(), Some(SourceSpec::Ssh("office".into())));
}

#[test]
fn cancelling_loading_ignores_the_stale_result() {
    let mut app = App::new(vec![SourceSpec::Ssh("office".into())]); // auto-fetch -> Loading
    let stale_epoch = app.current_epoch();
    let _ = app.take_fetch_request();

    app.handle_key(KeyCode::Esc); // cancel
    assert_eq!(app.screen, Screen::Picker); // specs non-empty -> picker

    // The abandoned fetch finishes late; its result must be ignored.
    app.on_fetch_result(stale_epoch, Ok(sample()));
    assert_eq!(app.screen, Screen::Picker);
}

// --- the menu and the input field ---

#[test]
fn interactive_starts_at_menu() {
    let app = App::interactive(Vec::new());
    assert_eq!(app.screen, Screen::Menu);
    assert_eq!(app.menu_state.selected(), Some(0));
    // empty known list -> just the two "enter new" prompts
    assert_eq!(app.menu_items, vec![MenuItem::NewSsh, MenuItem::NewFile]);
}

#[test]
fn known_sources_come_first_and_fetch_on_select() {
    let mut app = App::interactive(vec![SourceSpec::Ssh("office".into())]);
    // row 0 = office, row 1 = NewSsh, row 2 = NewFile
    assert_eq!(app.menu_items.len(), 3);
    app.handle_key(KeyCode::Enter); // pick "office"
    assert_eq!(app.screen, Screen::Loading);
    assert_eq!(app.take_fetch_request(), Some(SourceSpec::Ssh("office".into())));
}

#[test]
fn new_ssh_prompt_is_after_known_sources() {
    let mut app = App::interactive(vec![SourceSpec::Ssh("office".into())]);
    app.handle_key(KeyCode::Down); // -> row 1 = NewSsh
    app.handle_key(KeyCode::Enter);
    assert_eq!(app.screen, Screen::Input);
    assert_eq!(app.input_kind, InputKind::Ssh);
}

#[test]
fn menu_enter_opens_ssh_input() {
    let mut app = App::interactive(Vec::new());
    app.handle_key(KeyCode::Enter); // item 0 = SSH
    assert_eq!(app.screen, Screen::Input);
    assert_eq!(app.input_kind, InputKind::Ssh);
}

#[test]
fn menu_down_then_enter_opens_file_input() {
    let mut app = App::interactive(Vec::new());
    app.handle_key(KeyCode::Down);
    app.handle_key(KeyCode::Enter); // item 1 = File
    assert_eq!(app.input_kind, InputKind::File);
}

#[test]
fn typing_editing_then_submit_requests_ssh_fetch() {
    let mut app = App::interactive(Vec::new());
    app.handle_key(KeyCode::Enter); // SSH input
    for c in "office".chars() {
        app.handle_key(KeyCode::Char(c));
    }
    app.handle_key(KeyCode::Backspace);
    assert_eq!(app.input, "offic");
    app.handle_key(KeyCode::Enter);
    assert_eq!(app.screen, Screen::Loading);
    assert_eq!(app.take_fetch_request(), Some(SourceSpec::Ssh("offic".into())));
}

#[test]
fn empty_submit_stays_in_input() {
    let mut app = App::interactive(Vec::new());
    app.handle_key(KeyCode::Enter); // input
    app.handle_key(KeyCode::Enter); // submit blank -> no-op
    assert_eq!(app.screen, Screen::Input);
}

#[test]
fn esc_from_input_returns_to_menu() {
    let mut app = App::interactive(Vec::new());
    app.handle_key(KeyCode::Enter);
    app.handle_key(KeyCode::Esc);
    assert_eq!(app.screen, Screen::Menu);
}

#[test]
fn file_input_expands_tilde() {
    let home = "/home/user";
    let mut app = App::interactive(Vec::new());
    app.home = Some(home.to_string());
    app.handle_key(KeyCode::Down);
    app.handle_key(KeyCode::Enter); // file input
    for c in "~/x.pkgs".chars() {
        app.handle_key(KeyCode::Char(c));
    }
    app.handle_key(KeyCode::Enter);
    match app.take_fetch_request() {
        Some(SourceSpec::File(p)) => {
            assert_eq!(p, std::path::PathBuf::from(home).join("x.pkgs").display().to_string());
        }
        other => panic!("expected file spec, got {:?}", other),
    }
}

// --- further behaviour ---

#[test]
fn only_a_leading_tilde_is_expanded() {
    assert_eq!(expand_tilde("~/a", Some("/h")), "/h/a");
    assert_eq!(expand_tilde("~/a", Some("/h/")), "/h/a");
    assert_eq!(expand_tilde("~//a", Some("/h")), "/h/a");
    assert_eq!(expand_tilde("~//x.pkgs", Some("/home/u")), "/home/u/x.pkgs");
    assert_eq!(expand_tilde("~///", Some("/h")), "/h/");
    assert_eq!(expand_tilde("~//a//b", Some("/")), "/a//b");
    assert_eq!(expand_tilde("~/", Some("/h")), "/h/");
    assert_eq!(expand_tilde("~", Some("/h")), "~");
    assert_eq!(expand_tilde("~a/b", Some("/h")), "~a/b");
    assert_eq!(expand_tilde("/~/b", Some("/h")), "/~/b");
    assert_eq!(expand_tilde("~/a", None), "~/a");
}

#[test]
fn typed_text_is_trimmed_before_it_is_used() {
    let mut app = App::interactive(Vec::new());
    app.handle_key(KeyCode::Enter);
    press(&mut app, "   ");
    app.handle_key(KeyCode::Enter);
    assert_eq!(app.screen, Screen::Input);
    press(&mut app, "host ");
    app.handle_key(KeyCode::Enter);
    assert_eq!(app.take_fetch_request(), Some(SourceSpec::Ssh("host".into())));
    assert_eq!(app.take_fetch_request(), None);
}

#[test]
fn backspace_takes_back_one_character() {
    let mut app = App::interactive(Vec::new());
    app.handle_key(KeyCode::Enter);
    app.handle_key(KeyCode::Backspace);
    assert_eq!(app.input, "");
    press(&mut app, "aé");
    app.handle_key(KeyCode::Backspace);
    assert_eq!(app.input, "a");
    press(&mut app, "q");
    assert_eq!(app.input, "aq");
    assert!(!app.should_quit);
    // A new prompt starts blank.
    app.handle_key(KeyCode::Esc);
    app.handle_key(KeyCode::Enter);
    assert_eq!(app.input, "");
}

#[test]
fn control_c_quits_from_anywhere_and_releases_do_nothing() {
    let mut app = App::interactive(Vec::new());
    app.handle_event(false, false, KeyCode::Char('q'));
    app.handle_event(false, true, KeyCode::Char('c'));
    assert!(!app.should_quit);
    app.handle_event(true, false, KeyCode::Enter);
    app.handle_event(true, false, KeyCode::Char('c'));
    assert_eq!(app.input, "c");
    app.handle_event(true, true, KeyCode::Char('c'));
    assert!(app.should_quit);
    assert_eq!(app.input, "c");
}

#[test]
fn quit_keys_depend_on_the_screen() {
    let mut app = App::interactive(Vec::new());
    app.handle_key(KeyCode::Esc);
    assert!(app.should_quit);

    let mut app = App::new(specs());
    press(&mut app, "q");
    assert!(app.should_quit);

    let mut app = App::demo(sample());
    app.toggle_current();
    app.handle_key(KeyCode::Enter);
    press(&mut app, "q");
    assert!(!app.should_quit);
    assert_eq!(app.mode, Mode::Confirm);
    press(&mut app, "n");
    assert_eq!(app.mode, Mode::Browse);
    assert!(!app.take_apply_request());
    press(&mut app, "q");
    assert!(app.should_quit);
}

#[test]
fn enter_without_ticks_does_not_ask_for_confirmation() {
    let mut app = App::demo(sample());
    app.handle_key(KeyCode::Enter);
    assert_eq!(app.mode, Mode::Browse);
    press(&mut app, "y");
    assert!(!app.take_apply_request());
}

#[test]
fn ticks_survive_filtering() {
    let mut app = App::demo(sample());
    app.handle_key(KeyCode::Tab);
    press(&mut app, "r ");
    press(&mut app, "u");
    assert_eq!(shown(&app), vec!["hyprland"]);
    press(&mut app, "a");
    assert!(app.is_selected("btop"));
    assert!(app.is_selected("discord"));
    assert!(!app.is_selected("hyprland"));
    assert_eq!(app.selected.len(), 2);
}

#[test]
fn filters_divide_the_diff() {
    let mut app = App::demo(sample());
    for (key, names) in [
        ('i', vec!["btop"]),
        ('u', vec!["hyprland"]),
        ('r', vec!["discord"]),
        ('a', vec!["btop", "discord", "hyprland"]),
    ] {
        app.handle_key(KeyCode::Char(key));
        assert_eq!(shown(&app), names);
    }
    let labels: Vec<&str> = [Filter::All, Filter::Install, Filter::Upgrade, Filter::Remove]
        .iter()
        .map(|f| f.label())
        .collect();
    assert_eq!(labels, vec!["all", "install", "upgrade", "remove"]);
    assert!(Filter::All.matches(Category::Remove));
    assert!(!Filter::Install.matches(Category::Remove));
}

#[test]
fn filtering_everything_away_leaves_no_cursor() {
    let mut app = App::demo(sample()[..1].to_vec());
    app.set_filter(Filter::Remove);
    assert!(app.selected_entry().is_none());
    assert_eq!(app.list_state.selected(), None);
    app.move_down();
    app.move_up();
    app.toggle_current();
    assert_eq!(app.selected.len(), 0);
    app.set_filter(Filter::All);
    assert_eq!(app.list_state.selected(), Some(0));
}

#[test]
fn down_and_up_undo_each_other_everywhere() {
    let mut app = App::demo(sample());
    for _ in 0..3 {
        let row = app.list_state.selected();
        press(&mut app, "jk");
        assert_eq!(app.list_state.selected(), row);
        press(&mut app, "kj");
        assert_eq!(app.list_state.selected(), row);
        app.move_down();
    }
    let mut app = App::interactive(specs());
    press(&mut app, "k");
    assert_eq!(app.menu_state.selected(), Some(3));
    press(&mut app, "jj");
    assert_eq!(app.menu_state.selected(), Some(1));
}

#[test]
fn errors_lead_back_to_the_entry_screen() {
    let mut app = App::interactive(specs());
    app.handle_key(KeyCode::Enter);
    app.on_fetch_result(app.current_epoch(), Err("down".into()));
    assert_eq!(app.screen, Screen::Error("down".into()));
    app.handle_key(KeyCode::Null);
    assert_eq!(app.screen, Screen::Menu);
    assert_eq!(app.menu_items[2..], [MenuItem::NewSsh, MenuItem::NewFile]);
}

#[test]
fn a_newer_request_makes_older_results_void() {
    let mut app = App::new(specs());
    app.handle_key(KeyCode::Enter);
    let first = app.current_epoch();
    app.handle_key(KeyCode::Esc);
    app.handle_key(KeyCode::Enter);
    app.on_fetch_result(first, Ok(sample()));
    assert_eq!(app.screen, Screen::Loading);
    app.on_fetch_result(app.current_epoch(), Ok(sample()));
    assert_eq!(app.screen, Screen::Diff);
    assert_eq!(app.entries, sample());
    assert_eq!(app.current_epoch(), 3);
}

#[test]
fn ticks_survive_a_refetch_of_the_same_source() {
    let btop = sample()[..1].to_vec();
    let mut app = App::new(vec![SourceSpec::Ssh("office".into())]);
    app.on_fetch_result(app.current_epoch(), Ok(btop.clone()));
    app.toggle_current();
    app.refresh();
    app.on_fetch_result(app.current_epoch(), Ok(btop));
    assert!(app.is_selected("btop"));

    // A package that no longer differs loses its tick, also for later.
    app.refresh();
    app.on_fetch_result(app.current_epoch(), Ok(sample()[1..].to_vec()));
    assert!(!app.is_selected("btop"));
    app.refresh();
    app.on_fetch_result(app.current_epoch(), Ok(sample()));
    assert!(!app.is_selected("btop"));
    assert_eq!(app.selected.len(), 0);
}

#[test]
fn ticks_survive_a_failed_refetch_and_paths_count_by_components() {
    let mut app = App::new(vec![
        SourceSpec::File("/a/b".into()),
        SourceSpec::File("/a//b/".into()),
    ]);
    app.handle_key(KeyCode::Enter);
    app.on_fetch_result(app.current_epoch(), Ok(sample()));
    app.toggle_current();
    app.refresh();
    app.on_fetch_result(app.current_epoch(), Err("down".into()));
    assert!(app.is_selected("btop"));
    app.handle_key(KeyCode::Null);
    app.handle_key(KeyCode::Down);
    app.handle_key(KeyCode::Enter);
    app.on_fetch_result(app.current_epoch(), Ok(sample()));
    assert!(app.is_selected("btop"));
}

#[test]
fn another_source_starts_without_ticks() {
    let mut app = App::new(specs());
    app.handle_key(KeyCode::Enter);
    app.on_fetch_result(app.current_epoch(), Ok(sample()));
    app.toggle_current();
    app.handle_key(KeyCode::Esc);
    app.handle_key(KeyCode::Down);
    app.handle_key(KeyCode::Enter);
    app.on_fetch_result(app.current_epoch(), Ok(sample()));
    assert_eq!(app.selected.len(), 0);
}

#[test]
fn ticks_stay_until_a_diff_of_another_source_arrives() {
    let mut app = App::new(specs());
    app.handle_key(KeyCode::Enter);
    app.on_fetch_result(app.current_epoch(), Ok(sample()));
    app.toggle_current();
    app.handle_key(KeyCode::Esc);
    app.handle_key(KeyCode::Down);
    app.handle_key(KeyCode::Enter);
    assert_eq!(app.screen, Screen::Loading);
    assert!(app.is_selected("btop"));
    app.on_fetch_result(app.current_epoch(), Err("down".into()));
    assert!(app.is_selected("btop"));
    // Back at the first source the tick is still there.
    app.handle_key(KeyCode::Null);
    app.handle_key(KeyCode::Up);
    app.handle_key(KeyCode::Enter);
    app.on_fetch_result(app.current_epoch(), Ok(sample()));
    assert!(app.is_selected("btop"));
}

#[test]
fn a_new_diff_is_shown_from_its_top() {
    let mut app = App::new(specs());
    app.on_fetch_result(0, Ok(sample()));
    app.toggle_current();
    press(&mut app, "r");
    app.handle_key(KeyCode::Enter);
    app.on_fetch_result(0, Ok(sample()));
    assert_eq!(app.filter, Filter::All);
    assert_eq!(app.mode, Mode::Browse);
    assert_eq!(app.list_state.selected(), Some(0));
}

#[test]
fn reload_keys_ask_for_the_current_source() {
    for key in [KeyCode::Char('R'), KeyCode::F(5)] {
        let mut app = App::new(vec![SourceSpec::File("/x".into())]);
        let _ = app.take_fetch_request();
        app.on_fetch_result(1, Ok(sample()));
        app.handle_key(key);
        assert_eq!(app.take_fetch_request(), Some(SourceSpec::File("/x".into())));
    }
    // There is nothing to reload in the demo.
    let mut app = App::demo(sample());
    app.handle_key(KeyCode::F(5));
    app.handle_key(KeyCode::F(4));
    assert_eq!(app.screen, Screen::Diff);
    assert_eq!(app.take_fetch_request(), None);
}

#[test]
fn spinner_turns_and_names_the_source() {
    let mut app = App::new(vec![SourceSpec::Ssh("office".into())]);
    assert_eq!(app.loading_label(), "ssh: office");
    let mut frames = String::new();
    for _ in 0..11 {
        frames.push(app.spinner_frame());
        app.tick();
    }
    assert_eq!(frames, "⠋⠙⠹⠸⠼⠴⠦⠧⠇⠏⠋");
    app.refresh();
    assert_eq!(app.spinner_frame(), '⠋');
    assert_eq!(App::demo(vec![]).loading_label(), "…");
}

#[test]
fn cursors_beyond_the_list_do_no_harm() {
    let mut app = App::new(specs());
    app.picker_state.select(Some(9));
    app.handle_key(KeyCode::Enter);
    assert_eq!(app.screen, Screen::Picker);
    app.handle_key(KeyCode::Down);
    assert_eq!(app.picker_state.selected(), Some(0));
    app.picker_state.select(None);
    app.handle_key(KeyCode::Enter);
    assert_eq!(app.screen, Screen::Picker);
    app.handle_key(KeyCode::Up);
    assert_eq!(app.picker_state.selected(), Some(1));

    let mut app = App::new(vec![]);
    app.handle_key(KeyCode::Down);
    assert_eq!(app.picker_state.selected(), None);
}

#[test]
fn a_list_without_a_cursor_is_scrolled_to_its_top() {
    let mut state = ListState { offset: 4, selected: Some(7) };
    state.select(Some(5));
    assert_eq!(state, ListState { offset: 4, selected: Some(5) });
    state.select(None);
    assert_eq!(state, ListState::default());
}

#[test]
fn list_and_key_types_agree_with_ratatui() {
    let mut ours = ListState::default();
    let mut theirs = ratatui::widgets::ListState::default();
    for row in [Some(3), Some(0), None, Some(9)] {
        *theirs.offset_mut() = 2;
        ours.offset = 2;
        ours.select(row);
        theirs.select(row);
        assert_eq!(ours.selected(), theirs.selected());
        assert_eq!(ours.offset, theirs.offset());
    }
}

#[test]
fn looking_around_applies_nothing() {
    let mut app = App::interactive(specs());
    app.handle_key(KeyCode::Down);
    app.on_fetch_result(app.current_epoch(), Ok(sample()));
    for key in [
        KeyCode::Tab,
        KeyCode::Char(' '),
        KeyCode::Char('i'),
        KeyCode::Tab,
        KeyCode::Char('n'),
        KeyCode::Char('a'),
        KeyCode::Down,
        KeyCode::F(5),
        KeyCode::Esc,
    ] {
        app.handle_key(key);
        assert!(!app.take_apply_request());
    }
    assert_eq!(app.screen, Screen::Menu);
}
