use needle::buffer::Buffer;
use needle::ids::IdAllocator;
use needle::selection::{Region, SelectionSet};
use needle::state::AppState;

#[test]
fn buffer_replace_updates_revision() {
    let mut buffer = Buffer::from_text(&mut IdAllocator::new(), "hello world");
    buffer.replace(6..11, "needle").unwrap();

    assert_eq!(buffer.content(), "hello needle");
    assert_eq!(buffer.revision(), 1);
    assert!(buffer.is_dirty());
}

#[test]
fn buffer_row_col_and_text_point_roundtrip() {
    let buffer = Buffer::from_text(&mut IdAllocator::new(), "abc\ndef\nxyz");
    let point = buffer.text_point(1, 2).unwrap();
    assert_eq!(point, 6);
    assert_eq!(buffer.row_col(point).unwrap(), (1, 2));
}

#[test]
fn buffer_line_ranges_work() {
    let buffer = Buffer::from_text(&mut IdAllocator::new(), "abc\ndef\n");
    assert_eq!(buffer.line(5).unwrap(), Region::new(4, 7));
    assert_eq!(buffer.full_line(5).unwrap(), Region::new(4, 8));
}

#[test]
fn buffer_prev_and_next_char_helpers_work() {
    let buffer = Buffer::from_text(&mut IdAllocator::new(), "a好b");
    assert_eq!(buffer.prev_char_start(4).unwrap(), Some(1));
    assert_eq!(buffer.next_char_end(1).unwrap(), Some(4));
}

#[test]
fn selection_merges_overlapping_regions() {
    let mut selection = SelectionSet::new();
    selection.add(Region::new(1, 4));
    selection.add(Region::new(3, 8));

    assert_eq!(selection.len(), 1);
    assert_eq!(selection.first(), Some(&Region::new(1, 8)));
}

#[test]
fn region_caret_returns_b_side() {
    let region = Region::new(9, 3);
    assert_eq!(region.caret(), 3);
}

#[test]
fn app_state_undo_redo_roundtrip() {
    let mut state = AppState::new("Needle");
    let (buffer_id, _view_id) = state.create_empty_buffer_and_view();

    state.apply_edit(buffer_id, 0..0, "hello").unwrap();
    assert_eq!(state.buffer(buffer_id).unwrap().content(), "hello");

    state.undo().unwrap();
    assert_eq!(state.buffer(buffer_id).unwrap().content(), "");

    state.redo().unwrap();
    assert_eq!(state.buffer(buffer_id).unwrap().content(), "hello");
}

#[test]
fn replace_active_selections_updates_all_carets() {
    let mut state = AppState::new("Needle");
    let (buffer_id, view_id) = state.create_empty_buffer_and_view();
    state.apply_edit(buffer_id, 0..0, "abc\ndef").unwrap();
    let view = state.view_mut(view_id).unwrap();
    view.set_selections(vec![Region::new(1, 1), Region::new(5, 5)]);

    state.replace_active_selections("X").unwrap();

    assert_eq!(state.buffer(buffer_id).unwrap().content(), "aXbc\ndXef");
    let sels = state.active_selection_regions().unwrap();
    assert_eq!(sels, vec![Region::new(2, 2), Region::new(6, 6)]);
}

#[test]
fn delete_backward_from_empty_selection_deletes_previous_char() {
    let mut state = AppState::new("Needle");
    let (buffer_id, view_id) = state.create_empty_buffer_and_view();
    state.apply_edit(buffer_id, 0..0, "ab").unwrap();
    state
        .view_mut(view_id)
        .unwrap()
        .set_single_selection(Region::new(2, 2));

    state.delete_backward_from_active_selections().unwrap();

    assert_eq!(state.buffer(buffer_id).unwrap().content(), "a");
    assert_eq!(state.active_selection_regions().unwrap(), vec![Region::new(1, 1)]);
}

#[test]
fn delete_forward_from_empty_selection_deletes_next_char() {
    let mut state = AppState::new("Needle");
    let (buffer_id, view_id) = state.create_empty_buffer_and_view();
    state.apply_edit(buffer_id, 0..0, "ab").unwrap();
    state
        .view_mut(view_id)
        .unwrap()
        .set_single_selection(Region::new(0, 0));

    state.delete_forward_from_active_selections().unwrap();

    assert_eq!(state.buffer(buffer_id).unwrap().content(), "b");
    assert_eq!(state.active_selection_regions().unwrap(), vec![Region::new(0, 0)]);
}

#[test]
fn move_to_line_boundaries_updates_caret() {
    let mut state = AppState::new("Needle");
    let (buffer_id, view_id) = state.create_empty_buffer_and_view();
    state.apply_edit(buffer_id, 0..0, "abc\ndef").unwrap();
    state
        .view_mut(view_id)
        .unwrap()
        .set_single_selection(Region::new(5, 5));

    state.move_to_beginning_of_line().unwrap();
    assert_eq!(state.active_selection_regions().unwrap(), vec![Region::new(4, 4)]);

    state.move_to_end_of_line().unwrap();
    assert_eq!(state.active_selection_regions().unwrap(), vec![Region::new(7, 7)]);
}

#[test]
fn insert_line_before_and_after_work() {
    let mut state = AppState::new("Needle");
    let (buffer_id, view_id) = state.create_empty_buffer_and_view();
    state.apply_edit(buffer_id, 0..0, "abc").unwrap();
    state
        .view_mut(view_id)
        .unwrap()
        .set_single_selection(Region::new(1, 1));

    state.insert_line_before("").unwrap();
    assert_eq!(state.buffer(buffer_id).unwrap().content(), "\nabc");
    assert_eq!(state.active_selection_regions().unwrap(), vec![Region::new(0, 0)]);

    state.insert_line_after("").unwrap();
    assert_eq!(state.buffer(buffer_id).unwrap().content(), "\n\nabc");
    assert_eq!(state.active_selection_regions().unwrap(), vec![Region::new(1, 1)]);
}

#[test]
fn move_up_down_and_select_line_work() {
    let mut state = AppState::new("Needle");
    let (buffer_id, view_id) = state.create_empty_buffer_and_view();
    state.apply_edit(buffer_id, 0..0, "abc\ndef\nxyz").unwrap();
    state
        .view_mut(view_id)
        .unwrap()
        .set_single_selection(Region::new(5, 5));

    state.move_caret_up().unwrap();
    assert_eq!(state.active_selection_regions().unwrap(), vec![Region::new(1, 1)]);

    state.move_caret_down().unwrap();
    assert_eq!(state.active_selection_regions().unwrap(), vec![Region::new(5, 5)]);

    state.select_current_lines().unwrap();
    assert_eq!(state.active_selection_regions().unwrap(), vec![Region::new(4, 8)]);
}

#[test]
fn duplicate_and_delete_to_line_edges_work() {
    let mut state = AppState::new("Needle");
    let (buffer_id, view_id) = state.create_empty_buffer_and_view();
    state.apply_edit(buffer_id, 0..0, "abc\ndef").unwrap();
    state
        .view_mut(view_id)
        .unwrap()
        .set_single_selection(Region::new(1, 1));

    state.duplicate_current_lines().unwrap();
    assert_eq!(state.buffer(buffer_id).unwrap().content(), "abc\nabc\ndef");

    state
        .view_mut(view_id)
        .unwrap()
        .set_single_selection(Region::new(5, 5));
    state.delete_to_beginning_of_line().unwrap();
    assert_eq!(state.buffer(buffer_id).unwrap().content(), "abc\nbc\ndef");

    state
        .view_mut(view_id)
        .unwrap()
        .set_single_selection(Region::new(4, 4));
    state.delete_to_end_of_line().unwrap();
    assert_eq!(state.buffer(buffer_id).unwrap().content(), "abc\n\ndef");
}

#[test]
fn goto_line_and_split_selection_into_lines_work() {
    let mut state = AppState::new("Needle");
    let (buffer_id, view_id) = state.create_empty_buffer_and_view();
    state.apply_edit(buffer_id, 0..0, "abc\ndef\nxyz").unwrap();

    state.goto_line(3).unwrap();
    assert_eq!(state.active_selection_regions().unwrap(), vec![Region::new(8, 8)]);

    state
        .view_mut(view_id)
        .unwrap()
        .set_single_selection(Region::new(1, 9));
    state.split_selection_into_lines().unwrap();
    assert_eq!(
        state.active_selection_regions().unwrap(),
        vec![Region::new(0, 0), Region::new(4, 4), Region::new(8, 8)]
    );
}

#[test]
fn move_selected_lines_up_and_down_work() {
    let mut state = AppState::new("Needle");
    let (buffer_id, view_id) = state.create_empty_buffer_and_view();
    state.apply_edit(buffer_id, 0..0, "a\nb\nc\n").unwrap();
    state
        .view_mut(view_id)
        .unwrap()
        .set_single_selection(Region::new(2, 2));

    state.move_selected_lines_down().unwrap();
    assert_eq!(state.buffer(buffer_id).unwrap().content(), "a\nc\nb\n");

    state.move_selected_lines_up().unwrap();
    assert_eq!(state.buffer(buffer_id).unwrap().content(), "a\nb\nc\n");
}

#[test]
fn insert_then_delete_restores_content() {
    let mut buffer = Buffer::from_text(&mut IdAllocator::new(), "alpha beta");
    buffer.insert(6, "gamma ").unwrap();
    assert_eq!(buffer.content(), "alpha gamma beta");
    buffer.delete(6..12).unwrap();
    assert_eq!(buffer.content(), "alpha beta");
    assert_eq!(buffer.revision(), 2);
    assert!(buffer.is_dirty());
}

#[test]
fn line_text_holds_no_newline_and_full_line_adds_it() {
    let buffer = Buffer::from_text(&mut IdAllocator::new(), "one\ntwo\nlast");
    let text = buffer.line_text(5).unwrap();
    assert_eq!(text, "two");
    assert!(!text.contains('\n'));
    let line = buffer.line(5).unwrap();
    let full = buffer.full_line(5).unwrap();
    assert_eq!(full, Region::new(line.begin(), line.end() + 1));
    let last_line = buffer.line(9).unwrap();
    assert_eq!(buffer.full_line(9).unwrap(), last_line);
}

#[test]
fn next_char_end_steps_over_one_character() {
    let buffer = Buffer::from_text(&mut IdAllocator::new(), "aé😀b");
    let after_e = buffer.next_char_end(1).unwrap().unwrap();
    assert_eq!(after_e, 3);
    assert_eq!(buffer.content()[1..after_e].chars().count(), 1);
    let after_emoji = buffer.next_char_end(3).unwrap().unwrap();
    assert_eq!(after_emoji, 7);
    assert_eq!(buffer.prev_char_start(after_emoji).unwrap(), Some(3));
    assert_eq!(buffer.next_char_end(8).unwrap(), None);
}

#[test]
fn edit_record_round_trips_through_replace() {
    let mut ids = IdAllocator::new();
    let mut buffer = Buffer::from_text(&mut ids, "hello world");
    let record = needle::history::EditRecord {
        buffer_id: buffer.id(),
        range_start: 6,
        old_text: "world".to_string(),
        new_text: "there!".to_string(),
    };
    buffer.replace(record.redo_range(), &record.new_text).unwrap();
    assert_eq!(buffer.content(), "hello there!");
    assert_eq!(record.undo_range(), 6..12);
    buffer.replace(record.undo_range(), &record.old_text).unwrap();
    assert_eq!(buffer.content(), "hello world");
}

#[test]
fn normalize_keeps_lone_reversed_region_and_merges_forward() {
    let mut selection = SelectionSet::new();
    selection.add(Region::new(9, 5));
    selection.add(Region::new(3, 1));
    selection.add(Region::new(2, 0));
    assert_eq!(selection.as_slice(), &[Region::new(0, 3), Region::new(9, 5)]);
}

#[test]
fn add_all_matches_adding_each_in_any_order() {
    let regions = vec![
        Region::new(12, 10),
        Region::new(3, 1),
        Region::new(2, 4),
        Region::new(20, 20),
        Region::new(7, 9),
    ];
    let mut at_once = SelectionSet::new();
    at_once.add(Region::new(30, 25));
    at_once.add_all(regions.clone());

    let mut forward = SelectionSet::new();
    forward.add(Region::new(30, 25));
    for region in regions.iter() {
        forward.add(*region);
    }

    let mut backward = SelectionSet::new();
    backward.add(Region::new(30, 25));
    for region in regions.iter().rev() {
        backward.add(*region);
    }

    assert_eq!(at_once.as_slice(), forward.as_slice());
    assert_eq!(at_once.as_slice(), backward.as_slice());
    assert_eq!(
        at_once.as_slice(),
        &[
            Region::new(1, 4),
            Region::new(7, 9),
            Region::new(12, 10),
            Region::new(20, 20),
            Region::new(30, 25),
        ]
    );
}

#[test]
fn insert_line_text_lands_where_the_line_ends() {
    let mut state = AppState::new("Needle");
    let (buffer_id, view_id) = state.create_empty_buffer_and_view();
    state.apply_edit(buffer_id, 0..0, "ab\ncd").unwrap();
    state
        .view_mut(view_id)
        .unwrap()
        .set_single_selection(Region::new(1, 1));

    state.insert_line_after("x").unwrap();
    assert_eq!(state.buffer(buffer_id).unwrap().content(), "ab\nxcd");
    assert_eq!(state.active_selection_regions().unwrap(), vec![Region::new(4, 4)]);

    state.insert_line_after("y").unwrap();
    assert_eq!(state.buffer(buffer_id).unwrap().content(), "ab\nxcd\ny");
    assert_eq!(state.active_selection_regions().unwrap(), vec![Region::new(8, 8)]);

    state.insert_line_before("z").unwrap();
    assert_eq!(state.buffer(buffer_id).unwrap().content(), "ab\nxcd\nz\ny");
    assert_eq!(state.active_selection_regions().unwrap(), vec![Region::new(8, 8)]);
}
