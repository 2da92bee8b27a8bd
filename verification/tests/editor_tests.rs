use supno::editor_key_outcome;
use supno::Direction;
use supno::EditorOutcome;
use supno::TextBuffer;

#[test]
fn typing_and_deleting() {
    let mut b = TextBuffer::from_text("");
    b.insert('a');
    b.insert('b');
    b.insert('\n');
    b.insert('c');
    assert_eq!(b.content_string(), "ab\nc");
    assert_eq!(b.cursor(), (1, 1));
    b.delete_before_cursor();
    b.delete_before_cursor();
    assert_eq!(b.content_string(), "ab");
    assert_eq!(b.cursor(), (2, 0));
}

#[test]
fn deleting_at_line_start_merges_lines() {
    let mut b = TextBuffer::from_text("ab\ncd");
    b.move_cursor(Direction::Down);
    assert_eq!(b.cursor(), (0, 1));
    b.delete_before_cursor();
    assert_eq!(b.content_string(), "abcd");
    assert_eq!(b.cursor(), (2, 0));
}

#[test]
fn delete_at_document_start_is_a_no_op() {
    let mut b = TextBuffer::from_text("ab");
    b.delete_before_cursor();
    assert_eq!(b.content_string(), "ab");
    assert_eq!(b.cursor(), (0, 0));
}

#[test]
fn vertical_moves_compound_the_clamp() {
    let mut b = TextBuffer::from_text("aaaaa\nbb\ncccccccc");
    for _ in 0..5 {
        b.move_cursor(Direction::Right);
    }
    assert_eq!(b.cursor(), (5, 0));
    b.move_cursor(Direction::Down);
    assert_eq!(b.cursor(), (2, 1));
    b.move_cursor(Direction::Down);
    assert_eq!(b.cursor(), (2, 2));
}

#[test]
fn moves_stop_at_the_document_edges() {
    let mut b = TextBuffer::from_text("ab\ncd");
    b.move_cursor(Direction::Up);
    assert_eq!(b.cursor(), (0, 0));
    b.move_cursor(Direction::Left);
    assert_eq!(b.cursor(), (0, 0));
    b.move_cursor(Direction::Down);
    b.move_cursor(Direction::Right);
    b.move_cursor(Direction::Right);
    assert_eq!(b.cursor(), (2, 1));
    b.move_cursor(Direction::Right);
    assert_eq!(b.cursor(), (2, 1));
    b.move_cursor(Direction::Down);
    assert_eq!(b.cursor(), (2, 1));
}

#[test]
fn horizontal_moves_wrap_across_line_ends() {
    let mut b = TextBuffer::from_text("ab\ncd");
    b.move_cursor(Direction::Right);
    b.move_cursor(Direction::Right);
    assert_eq!(b.cursor(), (2, 0));
    b.move_cursor(Direction::Right);
    assert_eq!(b.cursor(), (0, 1));
    b.move_cursor(Direction::Left);
    assert_eq!(b.cursor(), (2, 0));
}

#[test]
fn inserting_a_break_splits_the_line() {
    let mut b = TextBuffer::from_text("abcd");
    b.move_cursor(Direction::Right);
    b.move_cursor(Direction::Right);
    b.insert('\n');
    assert_eq!(b.content_string(), "ab\ncd");
    assert_eq!(b.cursor(), (0, 1));
}

#[test]
fn buffer_preserves_trailing_break() {
    let b = TextBuffer::from_text("ab\n");
    assert_eq!(b.content_string(), "ab\n");
    let empty = TextBuffer::from_text("");
    assert_eq!(empty.content_string(), "");
}

#[test]
fn editor_chords_decide_the_session() {
    assert_eq!(editor_key_outcome(true, 'x'), EditorOutcome::SaveAndExit);
    assert_eq!(editor_key_outcome(true, 'q'), EditorOutcome::DiscardAndExit);
    assert_eq!(editor_key_outcome(true, 's'), EditorOutcome::SaveAndContinue);
    assert_eq!(editor_key_outcome(true, 'y'), EditorOutcome::Continue);
    assert_eq!(editor_key_outcome(false, 'x'), EditorOutcome::Continue);
}
