use std::path::PathBuf;

use needle::app::NeedleApp;
use needle::buffer::BufferError;
use needle::frontend::{
    apply_editor_text, find_next_start, find_previous_end, match_status, parse_line_number,
    region_from_chars, selection_clipboard_text, untitled_view_title, SearchCache, SearchProgress,
    SearchRefresh,
};
use needle::ids::ViewId;
use needle::search::{
    ProjectSearchMatch, ProjectTextSearchBatch, ProjectTextSearchEvent, ProjectTextSearchSummary,
};
use needle::keys::{KeyBindingConfig, KeyName};
use needle::selection::Region;
use needle::shortcuts::{builtin_shortcut_actions, fired_binding_commands, KeyInput, ShortcutAction};
use needle::frontend::{find_count_label, search_result_label};

fn scratch(text: &str) -> NeedleApp {
    let mut app = NeedleApp::new("Needle");
    app.open_scratch_buffer();
    assert_eq!(apply_editor_text(app.state_mut(), text), Ok(true));
    app
}

fn content(app: &NeedleApp) -> String {
    app.state().active_buffer().expect("buffer").content().to_string()
}

fn found(line: usize) -> ProjectSearchMatch {
    ProjectSearchMatch {
        path: PathBuf::from("/p/a.rs"),
        relative_path: "a.rs".to_string(),
        line_number: line,
        line_text: "alpha".to_string(),
    }
}

#[test]
fn editor_text_reaches_the_core_by_a_minimal_edit() {
    let mut app = scratch("hello world");
    assert_eq!(apply_editor_text(app.state_mut(), "hello brave world"), Ok(true));
    assert_eq!(content(&app), "hello brave world");
    assert_eq!(apply_editor_text(app.state_mut(), "hello brave world"), Ok(false));
    assert_eq!(app.state().undo_depth(), 2);
    app.state_mut().undo().expect("undo");
    assert_eq!(content(&app), "hello world");
}

#[test]
fn editor_text_without_view_or_on_read_only_buffer() {
    let mut empty = NeedleApp::new("Needle");
    assert_eq!(apply_editor_text(empty.state_mut(), "text"), Ok(false));

    let mut app = scratch("abc");
    app.state_mut().active_buffer_mut().expect("buffer").set_read_only(true);
    assert_eq!(apply_editor_text(app.state_mut(), "abcd"), Err(BufferError::ReadOnly));
    assert_eq!(content(&app), "abc");
}

#[test]
fn clipboard_text_joins_selected_pieces() {
    let mut app = scratch("abc\ndef");
    app.state_mut()
        .set_active_selections(vec![Region::new(0, 2), Region::new(3, 3), Region::new(4, 7)])
        .expect("selections");
    assert_eq!(selection_clipboard_text(app.state()), Ok(Some("ab\ndef".to_string())));
    app.state_mut().set_active_selections(vec![Region::new(1, 1)]).expect("caret");
    assert_eq!(selection_clipboard_text(app.state()), Ok(None));
    let empty = NeedleApp::new("Needle");
    assert_eq!(selection_clipboard_text(empty.state()), Err(BufferError::NoActiveView));
}

#[test]
fn search_progress_reports() {
    let mut progress = SearchProgress::new();
    let mut results = Vec::new();
    let batch = ProjectTextSearchBatch { matches: vec![found(1)], scanned_files: 1, total_matches: 1 };
    let (status, done) = progress.on_event(ProjectTextSearchEvent::Batch(batch), &mut results);
    assert_eq!(status, "Searching… 1 match(es) in 1 file(s)");
    assert!(!done);
    assert_eq!(results.len(), 1);
    assert_eq!(progress.on_disconnect(), "Search stopped at 1 match(es) in 1 file(s)");

    let summary = ProjectTextSearchSummary { scanned_files: 3, total_matches: 2 };
    let (status, done) = progress.on_event(ProjectTextSearchEvent::Complete(summary), &mut results);
    assert_eq!(status, "Found 2 match(es) in 3 file(s)");
    assert!(done);
    assert_eq!(progress, SearchProgress { scanned_files: 3, total_matches: 2 });

    let none = ProjectTextSearchSummary { scanned_files: 4, total_matches: 0 };
    let (status, _) = SearchProgress::new().on_event(ProjectTextSearchEvent::Complete(none), &mut results);
    assert_eq!(status, "No matches in 4 file(s)");
}

#[test]
fn search_cache_decides_when_to_search_again() {
    let mut cache = SearchCache::new();
    assert!(matches!(cache.refresh("   ", false, 5), SearchRefresh::Idle));
    match cache.refresh("  alpha ", false, 5) {
        SearchRefresh::Start(query) => {
            assert_eq!(query.text, "alpha");
            assert!(!query.case_sensitive);
            assert_eq!(query.limit, 200);
            assert_eq!(query.batch_size, 24);
        }
        other => panic!("expected a new search, got {other:?}"),
    }
    assert!(matches!(cache.refresh("alpha", false, 5), SearchRefresh::Unchanged));
    assert!(matches!(cache.refresh("alpha", true, 5), SearchRefresh::Start(_)));
    assert!(matches!(cache.refresh("alpha", true, 6), SearchRefresh::Start(_)));
    cache.invalidate();
    assert!(matches!(cache.refresh("alpha", true, 6), SearchRefresh::Start(_)));
    assert!(matches!(cache.refresh("alpha", true, 6), SearchRefresh::Unchanged));
}

#[test]
fn find_starts_from_the_last_selection() {
    let mut app = scratch("one two one");
    app.state_mut()
        .set_active_selections(vec![Region::new(0, 0), Region::new(8, 4)])
        .expect("selections");
    assert_eq!(find_next_start(app.state(), 11), 8);
    assert_eq!(find_previous_end(app.state(), 11), 4);
    assert_eq!(find_next_start(app.state(), 6), 6);
    let empty = NeedleApp::new("Needle");
    assert_eq!(find_next_start(empty.state(), 11), 0);
    assert_eq!(find_previous_end(empty.state(), 11), 11);
}

#[test]
fn status_texts() {
    assert_eq!(match_status("a\nb", 0, 3), "Matched: a\\nb");
    assert_eq!(match_status("a好b", 0, 2), "Matched: ");
    assert_eq!(match_status("abc", 2, 9), "Matched: ");
    assert_eq!(untitled_view_title(ViewId(3)), "Untitled 3");
    assert_eq!(region_from_chars("a好b", 3, 1), Region::new(1, 5));
}

#[test]
fn goto_line_numbers_parse_as_u64() {
    assert_eq!(parse_line_number(" 42 "), Some(42));
    assert_eq!(parse_line_number("+7"), Some(7));
    assert_eq!(parse_line_number("-1"), None);
    assert_eq!(parse_line_number(""), None);
    assert_eq!(parse_line_number("+"), None);
    assert_eq!(parse_line_number("18446744073709551615"), Some(u64::MAX));
    assert_eq!(parse_line_number("18446744073709551616"), None);
    assert_eq!(parse_line_number("4x"), None);
    assert_eq!(parse_line_number("++1"), None);
    assert_eq!(parse_line_number("0042"), Some(42));
    assert_eq!(parse_line_number("\u{663}"), None);
    assert_eq!(parse_line_number("99999999999999999999x"), None);
}

fn input(command: bool, shift: bool, alt: bool, pressed: &[KeyName]) -> KeyInput {
    KeyInput { command, shift, alt, pressed: pressed.to_vec() }
}

#[test]
fn builtin_shortcuts_follow_modifiers() {
    assert_eq!(builtin_shortcut_actions(&input(true, false, false, &[KeyName::S])), vec![ShortcutAction::Save]);
    assert_eq!(builtin_shortcut_actions(&input(true, true, false, &[KeyName::S])), vec![ShortcutAction::SaveAs]);
    assert_eq!(
        builtin_shortcut_actions(&input(true, true, false, &[KeyName::O])),
        vec![ShortcutAction::Open, ShortcutAction::OpenFolder]
    );
    assert_eq!(builtin_shortcut_actions(&input(true, true, false, &[KeyName::Z])), vec![ShortcutAction::Redo]);
    assert_eq!(builtin_shortcut_actions(&input(true, false, false, &[KeyName::Y])), vec![ShortcutAction::Redo]);
    assert_eq!(
        builtin_shortcut_actions(&input(true, false, false, &[KeyName::W, KeyName::N])),
        vec![ShortcutAction::NewFile, ShortcutAction::Close]
    );
    assert!(builtin_shortcut_actions(&input(false, false, false, &[KeyName::S])).is_empty());
}

#[test]
fn keybindings_fire_on_exact_modifiers() {
    let bindings = vec![
        KeyBindingConfig { command: "show_find".to_string(), key: "f".to_string(), modifiers: vec!["Ctrl".to_string()] },
        KeyBindingConfig { command: "duplicate_line".to_string(), key: "D".to_string(), modifiers: vec!["command".to_string(), "shift".to_string()] },
        KeyBindingConfig { command: "bad".to_string(), key: "F13".to_string(), modifiers: vec![] },
    ];
    assert_eq!(fired_binding_commands(&bindings, &input(true, false, false, &[KeyName::F])), vec!["show_find".to_string()]);
    assert!(fired_binding_commands(&bindings, &input(true, true, false, &[KeyName::F])).is_empty());
    assert_eq!(
        fired_binding_commands(&bindings, &input(true, true, false, &[KeyName::D, KeyName::F])),
        vec!["duplicate_line".to_string()]
    );
}

#[test]
fn panel_labels() {
    assert_eq!(find_count_label(true, 3, None), "0 matches");
    assert_eq!(find_count_label(false, 3, Some(1)), "3 matches · current 2/3");
    assert_eq!(find_count_label(false, 3, None), "3 matches");
    assert_eq!(search_result_label(&found(7)), "a.rs:7  alpha");
}
