use needle::app::{NeedleApp, NeedleAppBuilder};
use needle::buffer::{Buffer, BufferError};
use needle::command::{
    ArgValue, CommandArgs, CommandBus, CommandError, CommandHandler, CommandInvocation, CommandOutput,
    CommandSpec, CommandTarget,
};
use needle::editor::{
    current_match_index, find_backward, find_forward, match_ranges, palette_matches, replace_matches,
    selected_texts, selection_status,
};
use needle::ids::{BufferId, IdAllocator, ViewId, WindowId};
use needle::keys::{
    active_keybindings, keybinding_signature, parse_key, wanted_modifiers, KeyBindingConfig, KeyName,
    ResolvedSettings,
};
use needle::selection::{Region, SelectionSet};
use needle::settings::Settings;
use needle::text_edit::{byte_index_to_char_index, char_index_to_byte_index, eq_mod};

fn message(output: Result<CommandOutput, CommandError>) -> String {
    output.expect("command succeeds").message.expect("a message")
}

fn app_with_text(text: &str) -> NeedleApp {
    let mut app = NeedleApp::new("Needle");
    app.open_scratch_buffer();
    let mut args = CommandArgs::new();
    args.insert("text".to_string(), ArgValue::Text(text.to_string()));
    let invocation = app.default_invocation().with_args(args);
    app.execute_command("insert_text", invocation).expect("insert");
    app
}

fn content(app: &NeedleApp) -> String {
    app.state().active_buffer().expect("buffer").content().to_string()
}

#[test]
fn builder_names_the_app() {
    let app = NeedleApp::builder().name("Custom".to_string()).build();
    assert_eq!(app.name(), "Custom");
    assert_eq!(app.state().app_name(), "Custom");
    let default_app = NeedleAppBuilder::new().build();
    assert_eq!(default_app.name(), "Project Needle");
    assert_eq!(NeedleAppBuilder::default().build().name(), "");
}

#[test]
fn builtin_commands_are_registered_and_listed_by_name() {
    let app = NeedleApp::new("Needle");
    let specs = app.command_bus().specs();
    assert_eq!(specs.len(), 24);
    let names: Vec<&str> = specs.iter().map(|s| s.name.as_str()).collect();
    let mut sorted = names.clone();
    sorted.sort();
    assert_eq!(names, sorted);
    assert!(app.command_bus().contains("goto_line"));
    assert!(!app.command_bus().contains("launch_rockets"));
}

#[test]
fn unknown_command_is_not_found() {
    let mut app = NeedleApp::new("Needle");
    let err = app.execute_command("launch_rockets", CommandInvocation::new(CommandTarget::Application));
    match err {
        Err(CommandError::NotFound(name)) => assert_eq!(name, "launch_rockets"),
        other => panic!("expected not found, got {other:?}"),
    }
}

#[test]
fn commands_without_a_view_report_it() {
    let mut app = NeedleApp::new("Needle");
    let err = app.execute_command("move_left", CommandInvocation::new(CommandTarget::Application));
    assert!(matches!(err, Err(CommandError::NoActiveView)));
    let err = app.execute_command("buffer_info", CommandInvocation::new(CommandTarget::Application));
    assert!(matches!(err, Err(CommandError::NoActiveView)));
}

#[test]
fn insert_text_requires_its_argument() {
    let mut app = NeedleApp::new("Needle");
    app.open_scratch_buffer();
    let invocation = app.default_invocation();
    match app.execute_command("insert_text", invocation) {
        Err(CommandError::MissingArgument(name)) => assert_eq!(name, "text"),
        other => panic!("expected missing argument, got {other:?}"),
    }
    let invocation = app.default_invocation();
    match app.execute_command("goto_line", invocation) {
        Err(CommandError::MissingArgument(name)) => assert_eq!(name, "line"),
        other => panic!("expected missing argument, got {other:?}"),
    }
}

#[test]
fn command_messages_report_counts() {
    let mut app = NeedleApp::new("Needle");
    let created = message(app.execute_command("new_file", CommandInvocation::new(CommandTarget::Application)));
    assert_eq!(created, "created view 1");

    let mut args = CommandArgs::new();
    args.insert("text".to_string(), ArgValue::Text("héllo\nworld".to_string()));
    let invocation = app.default_invocation().with_args(args);
    assert_eq!(
        message(app.execute_command("insert_text", invocation)),
        "updated 1 selection(s) with 12 bytes"
    );
    assert_eq!(content(&app), "héllo\nworld");

    let inv = app.default_invocation();
    assert_eq!(message(app.execute_command("move_left", inv)), "moved 1 selection(s) left");
    let inv = app.default_invocation();
    assert_eq!(message(app.execute_command("delete_backward", inv)), "deleted across 1 selection(s)");
    assert_eq!(content(&app), "héllo\nword");

    let inv = app.default_invocation();
    assert_eq!(
        message(app.execute_command("buffer_info", inv)),
        "len=11, lines=2, selections=1, caret=(1, 3)"
    );

    let mut args = CommandArgs::new();
    args.insert("line".to_string(), ArgValue::Unsigned(1));
    let invocation = app.default_invocation().with_args(args);
    assert_eq!(message(app.execute_command("goto_line", invocation)), "moved 1 caret(s) to line 1");

    let inv = app.default_invocation();
    assert_eq!(message(app.execute_command("select_all", inv)), "selected 11 bytes");

    let inv = app.default_invocation();
    assert_eq!(message(app.execute_command("undo", inv)), "undid 1 edit(s)");
    assert_eq!(content(&app), "héllo\nworld");
    let inv = app.default_invocation();
    assert_eq!(message(app.execute_command("redo", inv)), "redid 1 edit(s)");
    assert_eq!(content(&app), "héllo\nword");
    let inv = app.default_invocation();
    assert_eq!(message(app.execute_command("redo", inv)), "nothing to redo");
}

#[test]
fn undo_with_nothing_to_undo() {
    let mut app = NeedleApp::new("Needle");
    app.open_scratch_buffer();
    let inv = app.default_invocation();
    assert_eq!(message(app.execute_command("undo", inv)), "nothing to undo");
}

#[test]
fn line_commands_through_the_app() {
    let mut app = app_with_text("a\nb\nc\n");
    let mut args = CommandArgs::new();
    args.insert("line".to_string(), ArgValue::Unsigned(3));
    let inv = app.default_invocation().with_args(args);
    assert_eq!(message(app.execute_command("goto_line", inv)), "moved 1 caret(s) to line 3");
    let inv = app.default_invocation();
    assert_eq!(message(app.execute_command("move_lines_up", inv)), "moved 1 line block(s) up");
    assert_eq!(content(&app), "a\nc\nb\n");
    let inv = app.default_invocation();
    assert_eq!(message(app.execute_command("duplicate_line", inv)), "duplicated 1 line selection(s)");
    assert_eq!(content(&app), "a\nc\nb\nb\n");

    let mut args = CommandArgs::new();
    args.insert("text".to_string(), ArgValue::Text("new".to_string()));
    let inv = app.default_invocation().with_args(args);
    assert_eq!(
        message(app.execute_command("insert_line_before", inv)),
        "inserted line before for 1 selection(s)"
    );
    let inv = app.default_invocation();
    assert_eq!(message(app.execute_command("select_line", inv)), "selected 1 line(s)");
}

#[test]
fn read_only_buffer_refuses_edits() {
    let mut app = app_with_text("abc");
    app.state_mut().active_buffer_mut().expect("buffer").set_read_only(true);
    let inv = app.default_invocation();
    match app.execute_command("delete_backward", inv) {
        Err(CommandError::Buffer(text)) => assert_eq!(text, "buffer is read-only"),
        other => panic!("expected buffer error, got {other:?}"),
    }
    assert_eq!(content(&app), "abc");
}

#[test]
fn error_messages() {
    assert_eq!(CommandError::NotFound("x".to_string()).message(), "command not found: x");
    assert_eq!(CommandError::MissingArgument("text".to_string()).message(), "missing argument: text");
    assert_eq!(CommandError::InvalidArgument("line".to_string()).message(), "invalid argument: line");
    assert_eq!(CommandError::NoActiveView.message(), "no active view");
    assert_eq!(CommandError::Buffer("oops".to_string()).message(), "buffer operation failed: oops");
    assert_eq!(BufferError::NoActiveView.message(), "no active view");
    assert_eq!(BufferError::ReadOnly.message(), "buffer is read-only");
    assert_eq!(
        BufferError::InvalidRange { start: 3, end: 12, len: 10 }.message(),
        "range 3..12 is out of bounds for buffer length 10"
    );
    assert_eq!(BufferError::InvalidRow { row: 7 }.message(), "row 7 is out of bounds");
}

#[test]
fn buffer_refuses_out_of_range_edits() {
    let mut buffer = Buffer::from_text(&mut IdAllocator::new(), "abc");
    assert_eq!(buffer.replace(2..9, "x"), Err(BufferError::InvalidRange { start: 2, end: 9, len: 3 }));
    assert_eq!(buffer.text_point(5, 0), Err(BufferError::InvalidRow { row: 5 }));
    buffer.set_read_only(true);
    assert_eq!(buffer.insert(0, "x"), Err(BufferError::ReadOnly));
    assert_eq!(buffer.content(), "abc");
    assert_eq!(buffer.revision(), 0);
}

#[test]
fn command_bus_registers_and_replaces() {
    let mut bus = CommandBus::new();
    bus.register(CommandSpec::new("b", "second"), CommandHandler::Undo);
    bus.register(CommandSpec::new("a", "first"), CommandHandler::Redo);
    bus.register(CommandSpec::new("b", "again"), CommandHandler::SelectAll);
    let specs = bus.specs();
    assert_eq!(specs.len(), 2);
    assert_eq!(specs[0].name, "a");
    assert_eq!(specs[1].description, "again");
    assert!(matches!(bus.handler("b"), Some(CommandHandler::SelectAll)));
    assert!(bus.handler("c").is_none());
}

#[test]
fn command_args_keep_the_last_value() {
    let mut args = CommandArgs::new();
    args.insert("line".to_string(), ArgValue::Unsigned(3));
    args.insert("line".to_string(), ArgValue::Unsigned(4));
    args.insert("text".to_string(), ArgValue::Other);
    assert_eq!(args.unsigned("line"), Some(4));
    assert_eq!(args.text("text"), None);
    assert_eq!(args.text("missing"), None);
}

#[test]
fn ids_advance() {
    let mut ids = IdAllocator::new();
    assert_eq!(BufferId::next(&mut ids), BufferId(1));
    assert_eq!(BufferId::next(&mut ids), BufferId(2));
    assert_eq!(ViewId::next(&mut ids), ViewId(1));
    assert_eq!(WindowId::next(&mut ids), WindowId(1));
    let first = Buffer::from_text(&mut ids, "a");
    let second = Buffer::new_empty(&mut ids);
    assert_eq!(first.id(), BufferId(3));
    assert_eq!(second.id(), BufferId(4));
    let mut app = NeedleApp::new("Needle");
    app.open_scratch_buffer();
    app.open_scratch_buffer();
    let ids: Vec<u64> = app.state().view_ids().iter().map(|v| v.0).collect();
    assert_eq!(ids, vec![1, 2]);
}

#[test]
fn settings_store_values() {
    let mut settings = Settings::new();
    settings.set("wrap".to_string(), serde_json::Value::Bool(true));
    settings.set("theme".to_string(), serde_json::Value::String("dark".to_string()));
    assert_eq!(settings.get_bool("wrap"), Some(true));
    assert_eq!(settings.get_str("theme"), Some("dark"));
    assert_eq!(settings.get_bool("theme"), None);
    assert!(settings.has("wrap"));
    let keys: Vec<&str> = settings.as_map().iter().map(|(k, _)| k.as_str()).collect();
    assert_eq!(keys, vec!["theme", "wrap"]);
    let copy = settings.clone();
    assert_eq!(copy.get_str("theme"), Some("dark"));
    assert_eq!(settings.erase("wrap"), Some(serde_json::Value::Bool(true)));
    assert!(!settings.has("wrap"));
    assert_eq!(settings.as_map().len(), 1);
}

#[test]
fn selection_set_subtracts_and_covers() {
    let mut set = SelectionSet::new();
    set.add(Region::new(5, 10));
    set.add(Region::new(0, 3));
    set.add(Region::new(12, 12));
    set.subtract(Region::new(12, 12));
    set.subtract(Region::new(5, 9));
    assert_eq!(set.as_slice(), &[Region::new(0, 3), Region::new(5, 10)]);
    assert_eq!(Region::new(8, 2).cover(&Region::new(9, 12)), Region::new(2, 12));
    assert!(Region::new(2, 5).intersects(&Region::new(4, 9)));
    assert_eq!(set.iter_rev(), vec![Region::new(5, 10), Region::new(0, 3)]);
}

#[test]
fn find_wraps_around() {
    let text = "one two one";
    assert_eq!(find_forward(text, "one", 1), Some(8));
    assert_eq!(find_forward(text, "one", 9), Some(0));
    assert_eq!(find_forward(text, "three", 0), None);
    assert_eq!(find_backward(text, "one", 8), Some(0));
    assert_eq!(find_backward(text, "one", 0), Some(8));
    assert_eq!(find_backward(text, "one", 100), Some(8));
}

#[test]
fn match_ranges_and_current_match() {
    let ranges = match_ranges("aXbXc", "X");
    assert_eq!(ranges, vec![1..2, 3..4]);
    assert_eq!(current_match_index(&ranges, Region::new(4, 3)), Some(1));
    assert_eq!(current_match_index(&ranges, Region::new(0, 1)), None);
    assert!(match_ranges("abc", "").is_empty());
    assert_eq!(match_ranges("aaaa", "aa"), vec![0..2, 2..4]);
}

#[test]
fn replace_all_counts_occurrences() {
    assert_eq!(replace_matches("a-b-c", "-", "+="), ("a+=b+=c".to_string(), 2));
    assert_eq!(replace_matches("aaa", "aa", "b"), ("ba".to_string(), 1));
    assert_eq!(replace_matches("xyz", "q", "r"), ("xyz".to_string(), 0));
}

#[test]
fn selected_texts_and_status() {
    let mut app = app_with_text("abc\ndef");
    assert_eq!(selection_status(app.state()), "Ln 2, Col 4");
    app.state_mut()
        .set_active_selections(vec![Region::new(0, 2), Region::new(3, 3), Region::new(4, 7)])
        .expect("selections");
    assert_eq!(selected_texts(app.state()), Ok(vec!["ab".to_string(), "def".to_string()]));
    assert_eq!(selection_status(app.state()), "Ln 2, Col 4");
    let empty = NeedleApp::new("Needle");
    assert_eq!(selection_status(empty.state()), "Ln 1, Col 1");
    assert_eq!(selected_texts(empty.state()), Err(BufferError::NoActiveView));
}

#[test]
fn palette_filters_by_name_and_description() {
    let specs = vec![
        CommandSpec::new("undo", "Undo last buffer edit"),
        CommandSpec::new("select_all", "Select the full active buffer"),
        CommandSpec::new("goto_line", "Move cursor to a 1-based line number"),
    ];
    let found = palette_matches(specs.clone(), "  BUFFER ");
    assert_eq!(found.iter().map(|s| s.name.as_str()).collect::<Vec<_>>(), vec!["undo", "select_all"]);
    assert_eq!(palette_matches(specs.clone(), "").len(), 3);
    assert_eq!(palette_matches(specs, "goto").len(), 1);
}

#[test]
fn keybinding_signatures_merge() {
    let binding = |command: &str, key: &str, modifiers: &[&str]| KeyBindingConfig {
        command: command.to_string(),
        key: key.to_string(),
        modifiers: modifiers.iter().map(|m| m.to_string()).collect(),
    };
    assert_eq!(keybinding_signature(&binding("x", "f", &["Shift", "command"])), "command+shift::F");
    let settings = ResolvedSettings {
        show_hidden_files: false,
        sidebar_width_bits: 0,
        keybindings: vec![
            binding("show_find", "F", &["command"]),
            binding("show_project_search", "F", &["command", "shift"]),
            binding("find_again", "f", &["COMMAND"]),
        ],
    };
    let active = active_keybindings(&settings);
    assert_eq!(active.len(), 2);
    assert_eq!(active[0].command, "find_again");
    assert_eq!(active[1].command, "show_project_search");
    assert_eq!(wanted_modifiers(&binding("x", "F", &["Ctrl", "option"])), (true, false, true));
    assert_eq!(wanted_modifiers(&binding("x", "F", &["SHIFT"])), (false, true, false));
    assert_eq!(ResolvedSettings::default().sidebar_width_bits, 220.0f32.to_bits());
}

#[test]
fn keys_parse_without_case() {
    assert_eq!(parse_key("f"), Some(KeyName::F));
    assert_eq!(parse_key("Up"), Some(KeyName::ArrowUp));
    assert_eq!(parse_key("arrowleft"), Some(KeyName::ArrowLeft));
    assert_eq!(parse_key("F13"), None);
}

#[test]
fn char_and_byte_offsets_convert() {
    let text = "a好b";
    assert_eq!(char_index_to_byte_index(text, 2), 4);
    assert_eq!(char_index_to_byte_index(text, 9), 5);
    assert_eq!(byte_index_to_char_index(text, 4), 2);
    assert_eq!(byte_index_to_char_index(text, 5), 3);
    assert!(eq_mod("Needle", "nEEDLE"));
    assert!(!eq_mod("Needle", "needles"));
}
