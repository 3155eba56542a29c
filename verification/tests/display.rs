use rom::activity_model::{BuildStatus as ModelStatus, DependencyState, State as Model, StorePath as ModelPath};
use rom::display::{truncate_name, Display, DisplayConfig, Frame};
use rom::icons::{nerd, select, unicode};
use rom::nix::{Actions, Activities, ProgressState, Verbosity};
use rom::term::{
    begin_sync, clear_lines, end_sync, hide_cursor, paint, paint_bold, show_cursor, Color,
    CursorGuard,
};

#[test]
fn paint_wraps_text_in_color_codes() {
    assert_eq!(paint("x", Color::Red), "\x1b[91mx\x1b[0m");
    assert_eq!(paint_bold("ok", Color::DarkGreen), "\x1b[32;1mok\x1b[0m");
    assert_eq!(Color::Default.code(), "39");
}

#[test]
fn clear_lines_moves_up_and_clears() {
    assert_eq!(clear_lines(3), "\x1b[3A\x1b[G\x1b[J");
    assert_eq!(clear_lines(12), "\x1b[12A\x1b[G\x1b[J");
    assert_eq!(clear_lines(0), "");
}

#[test]
fn sync_and_cursor_sequences() {
    assert_eq!(begin_sync(), "\x1b[?2026h");
    assert_eq!(end_sync(), "\x1b[?2026l");
    assert_eq!(hide_cursor(), "\x1b[?25l");
    assert_eq!(show_cursor(), "\x1b[?25h");
    assert_eq!(CursorGuard::hidden().release_text(), "\x1b[?25h");
    assert_eq!(CursorGuard::noop().release_text(), "");
}

#[test]
fn icon_sets_are_selected_by_the_variable() {
    assert_eq!(select(Some("1")).running, nerd().running);
    assert_eq!(select(Some("yes")).done, nerd().done);
    assert_eq!(select(Some("no")).running, unicode().running);
    assert_eq!(select(None).failed, "\u{2717}");
    assert_eq!(unicode().summary, "\u{2211}");
}

#[test]
fn display_config_defaults() {
    let c = DisplayConfig::default();
    assert!(c.show_timers);
    assert_eq!(c.max_tree_depth, 10);
    assert_eq!(c.max_visible_lines, 100);
    assert!(c.use_color);
    assert_eq!(c.icons.running, unicode().running);
}

#[test]
fn frames_print_new_logs_once_and_replace_the_graph() {
    let mut d = Display::new(DisplayConfig::default());
    assert_eq!(d.lines_to_clear(), 0);
    let f1 = d.next_frame(2, 5);
    assert_eq!(
        f1,
        Frame { logs_from: 0, clear_before_logs: 0, clear_before_graph: 0, graph_lines: 5 }
    );
    assert_eq!(d.lines_to_clear(), 5);
    let f2 = d.next_frame(2, 4);
    assert_eq!(
        f2,
        Frame { logs_from: 2, clear_before_logs: 0, clear_before_graph: 5, graph_lines: 4 }
    );
    let f3 = d.next_frame(3, 500);
    assert_eq!(
        f3,
        Frame { logs_from: 2, clear_before_logs: 4, clear_before_graph: 0, graph_lines: 100 }
    );
    assert_eq!(d.printed_log_lines, 3);
}

#[test]
fn names_are_cut_with_an_ellipsis() {
    assert_eq!(truncate_name("hello", 10), "hello");
    assert_eq!(truncate_name("hello-world", 6), "hello\u{2026}");
    assert_eq!(truncate_name("abc", 3), "abc");
}

#[test]
fn model_counts_activities() {
    let mut m = Model::new();
    assert_eq!(m.progress, ProgressState::JustStarted);
    m.imbibe(Actions::Start {
        id: 4,
        level: Verbosity::Info,
        parent: 0,
        text: String::new(),
        activity: Activities::Build,
        fields: vec![],
    });
    assert_eq!(m.derivations.get(&4).unwrap().store_path, "/nix/store/placeholder");
    assert_eq!(m.builds.get(&4).unwrap().state, ModelStatus::Running);
    assert_eq!(m.store_paths.get(&4), Some(&ModelPath::Downloading));
    assert_eq!(m.dependency_states.get(&4), Some(&DependencyState::Running));
    m.imbibe(Actions::Stop { id: 4 });
    assert_eq!(m.builds.get(&4).unwrap().state, ModelStatus::Complete);
    m.imbibe(Actions::Stop { id: 9 });
    assert_eq!(m.builds.len(), 1);
    m.imbibe(Actions::Message { level: Verbosity::Info, msg: String::new() });
    assert_eq!(m.progress, ProgressState::InputReceived);
}
