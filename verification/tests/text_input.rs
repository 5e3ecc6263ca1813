use todo_core::screen::submit_input;
use todo_core::task_list::TaskList;
use todo_core::text_input::TextInput;

fn input_with(content: &str, start: usize, end: usize) -> TextInput {
    let mut input = TextInput::new("新しいタスクを入力...");
    input.content = content.to_string();
    input.selected_range = start..end;
    input
}

#[test]
fn new_input_is_empty() {
    let input = TextInput::new("ph");
    assert_eq!(input.content, "");
    assert_eq!(input.placeholder, "ph");
    assert_eq!(input.selected_range, 0..0);
    assert!(!input.selection_reversed);
    assert_eq!(input.marked_range, None);
}

#[test]
fn offset_from_utf16_walks_characters() {
    let input = input_with("aあ😀b", 0, 0);
    assert_eq!(input.offset_from_utf16(0), 0);
    assert_eq!(input.offset_from_utf16(1), 1);
    assert_eq!(input.offset_from_utf16(2), 4);
    assert_eq!(input.offset_from_utf16(3), 8);
    assert_eq!(input.offset_from_utf16(4), 8);
    assert_eq!(input.offset_from_utf16(5), 9);
    assert_eq!(input.offset_from_utf16(100), 9);
}

#[test]
fn offset_to_utf16_walks_characters() {
    let input = input_with("aあ😀b", 0, 0);
    assert_eq!(input.offset_to_utf16(0), 0);
    assert_eq!(input.offset_to_utf16(1), 1);
    assert_eq!(input.offset_to_utf16(2), 2);
    assert_eq!(input.offset_to_utf16(4), 2);
    assert_eq!(input.offset_to_utf16(5), 4);
    assert_eq!(input.offset_to_utf16(8), 4);
    assert_eq!(input.offset_to_utf16(9), 5);
    assert_eq!(input.offset_to_utf16(50), 5);
}

#[test]
fn utf16_round_trip_on_boundaries() {
    let input = input_with("aあ😀b", 0, 0);
    for b in [0usize, 1, 4, 8, 9] {
        assert_eq!(input.offset_from_utf16(input.offset_to_utf16(b)), b);
    }
}

#[test]
fn ranges_convert_both_ways() {
    let input = input_with("aあ😀b", 0, 0);
    assert_eq!(input.range_to_utf16(&(1..8)), 1..4);
    assert_eq!(input.range_from_utf16(&(1..4)), 1..8);
}

#[test]
fn clamp_range_cuts_orders_and_aligns() {
    let input = input_with("aあ😀b", 0, 0);
    assert_eq!(input.clamp_range(2..100), 1..9);
    assert_eq!(input.clamp_range(7..3), 1..4);
    assert_eq!(input.clamp_range(4..8), 4..8);
    assert_eq!(input.clamp_range(20..30), 9..9);
    let clamped = input.clamp_range(6..2);
    assert_eq!(input.clamp_range(clamped.clone()), clamped);
}

#[test]
fn cursor_offset_follows_direction() {
    let mut input = input_with("abc", 1, 3);
    assert_eq!(input.cursor_offset(), 3);
    input.selection_reversed = true;
    assert_eq!(input.cursor_offset(), 1);
}

#[test]
fn select_to_swaps_when_ends_cross() {
    let mut input = input_with("abcd", 2, 2);
    input.select_to(0);
    assert_eq!(input.selected_range, 0..2);
    assert!(input.selection_reversed);
    input.select_to(3);
    assert_eq!(input.selected_range, 2..3);
    assert!(!input.selection_reversed);
}

#[test]
fn move_to_leaves_empty_selection() {
    let mut input = input_with("abcd", 1, 3);
    input.move_to(2);
    assert_eq!(input.selected_range, 2..2);
}

#[test]
fn boundaries_follow_grapheme_clusters() {
    let input = input_with("ae\u{301}🇯🇵x", 0, 0);
    assert_eq!(input.previous_boundary(4), 1);
    assert_eq!(input.previous_boundary(1), 0);
    assert_eq!(input.previous_boundary(0), 0);
    assert_eq!(input.next_boundary(1), 4);
    assert_eq!(input.next_boundary(4), 12);
    assert_eq!(input.next_boundary(12), 13);
    assert_eq!(input.next_boundary(13), 13);
}

#[test]
fn left_and_right_step_over_clusters() {
    let mut input = input_with("ae\u{301}", 4, 4);
    input.left();
    assert_eq!(input.selected_range, 1..1);
    input.left();
    assert_eq!(input.selected_range, 0..0);
    input.left();
    assert_eq!(input.selected_range, 0..0);
    input.right();
    assert_eq!(input.selected_range, 1..1);
    input.right();
    assert_eq!(input.selected_range, 4..4);
    input.right();
    assert_eq!(input.selected_range, 4..4);
}

#[test]
fn left_and_right_collapse_a_selection() {
    let mut input = input_with("abcd", 1, 3);
    input.left();
    assert_eq!(input.selected_range, 1..1);
    let mut input = input_with("abcd", 1, 3);
    input.right();
    assert_eq!(input.selected_range, 3..3);
}

#[test]
fn home_and_end() {
    let mut input = input_with("aあ", 1, 1);
    input.end();
    assert_eq!(input.selected_range, 4..4);
    input.home();
    assert_eq!(input.selected_range, 0..0);
}

#[test]
fn backspace_removes_previous_cluster() {
    let mut input = input_with("ae\u{301}", 4, 4);
    input.backspace();
    assert_eq!(input.content, "a");
    assert_eq!(input.selected_range, 1..1);
}

#[test]
fn backspace_at_start_does_nothing() {
    let mut input = input_with("ab", 0, 0);
    input.backspace();
    assert_eq!(input.content, "ab");
    assert_eq!(input.selected_range, 0..0);
}

#[test]
fn backspace_removes_selection() {
    let mut input = input_with("abcd", 1, 3);
    input.backspace();
    assert_eq!(input.content, "ad");
    assert_eq!(input.selected_range, 1..1);
}

#[test]
fn delete_removes_next_cluster() {
    let mut input = input_with("🇯🇵a", 0, 0);
    input.delete();
    assert_eq!(input.content, "a");
    assert_eq!(input.selected_range, 0..0);
}

#[test]
fn delete_at_end_does_nothing() {
    let mut input = input_with("ab", 2, 2);
    input.delete();
    assert_eq!(input.content, "ab");
    assert_eq!(input.selected_range, 2..2);
}

#[test]
fn replace_text_uses_utf16_range() {
    let mut input = input_with("abc", 0, 0);
    input.replace_text_in_range(Some(1..2), "X");
    assert_eq!(input.content, "aXc");
    assert_eq!(input.selected_range, 2..2);
    assert_eq!(input.marked_range, None);
}

#[test]
fn replace_text_defaults_to_selection() {
    let mut input = input_with("hello", 1, 4);
    input.replace_text_in_range(None, "あ");
    assert_eq!(input.content, "hあo");
    assert_eq!(input.selected_range, 4..4);
}

#[test]
fn replace_text_clamps_out_of_range_selection() {
    let mut input = input_with("aあ", 9, 2);
    input.replace_text_in_range(None, "z");
    assert_eq!(input.content, "az");
    assert_eq!(input.selected_range, 2..2);
}

#[test]
fn composition_marks_then_commits() {
    let mut input = TextInput::new("");
    input.replace_and_mark_text_in_range(None, "かな", Some(0..1));
    assert_eq!(input.content, "かな");
    assert_eq!(input.marked_range, Some(0..6));
    assert_eq!(input.selected_range, 0..3);
    assert_eq!(input.marked_text_range(), Some(0..2));
    input.replace_text_in_range(None, "仮名");
    assert_eq!(input.content, "仮名");
    assert_eq!(input.marked_range, None);
    assert_eq!(input.selected_range, 6..6);
}

#[test]
fn marking_empty_text_clears_mark() {
    let mut input = input_with("ab", 1, 1);
    input.marked_range = Some(0..1);
    input.replace_and_mark_text_in_range(None, "", None);
    assert_eq!(input.content, "b");
    assert_eq!(input.marked_range, None);
    assert_eq!(input.selected_range, 0..0);
}

#[test]
fn replace_and_mark_shifts_new_selection() {
    let mut input = input_with("xy", 1, 1);
    input.replace_and_mark_text_in_range(None, "ab", Some(1..2));
    assert_eq!(input.content, "xaby");
    assert_eq!(input.marked_range, Some(1..3));
    assert_eq!(input.selected_range, 2..3);
}

#[test]
fn unmark_text_forgets_mark() {
    let mut input = input_with("ab", 0, 0);
    input.marked_range = Some(0..1);
    input.unmark_text();
    assert_eq!(input.marked_range, None);
    assert_eq!(input.content, "ab");
}

#[test]
fn text_for_range_reports_actual_range() {
    let input = input_with("aあ😀b", 0, 0);
    let mut actual = None;
    let text = input.text_for_range(1..3, &mut actual);
    assert_eq!(text, Some("あ😀".to_string()));
    assert_eq!(actual, Some(1..4));
}

#[test]
fn selected_text_range_in_utf16() {
    let mut input = input_with("aあ😀b", 8, 9);
    input.selection_reversed = true;
    let sel = input.selected_text_range().unwrap();
    assert_eq!(sel.range, 4..5);
    assert!(sel.reversed);
    assert_eq!(input.marked_text_range(), None);
}

#[test]
fn take_content_empties_input() {
    let mut input = input_with("abc", 1, 2);
    input.marked_range = Some(0..1);
    input.selection_reversed = true;
    let taken = input.take_content();
    assert_eq!(taken, "abc");
    assert_eq!(input.content, "");
    assert_eq!(input.selected_range, 0..0);
    assert!(!input.selection_reversed);
    assert_eq!(input.marked_range, None);
}

#[test]
fn display_text_shows_placeholder_when_empty() {
    let input = TextInput::new("入力...");
    assert_eq!(input.display_text(), ("入力...", true));
    let input = input_with("x", 0, 0);
    assert_eq!(input.display_text(), ("x", false));
}

#[test]
fn submit_adds_trimmed_title_and_clears_input() {
    let mut list = TaskList::new();
    let mut input = input_with("  買い物 ", 5, 5);
    assert_eq!(submit_input(&mut list, &mut input), Some(1));
    assert_eq!(list.tasks()[0].title, "買い物");
    assert_eq!(input.content, "");
    assert_eq!(input.selected_range, 0..0);
}

#[test]
fn submit_of_blank_input_adds_nothing() {
    let mut list = TaskList::new();
    let mut input = input_with(" \t", 0, 0);
    assert_eq!(submit_input(&mut list, &mut input), None);
    assert_eq!(list.tasks().len(), 0);
    assert_eq!(input.content, "");
}
