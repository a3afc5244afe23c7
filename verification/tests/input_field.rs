use message_board::input_field::{Clipboard, ClipboardError, Cursor, InputFieldState};

/// In-memory stand-in for the platform clipboard; can be told to fail.
struct FakeClipboard {
    content: Option<String>,
    fail: bool,
}

impl FakeClipboard {
    fn empty() -> Self {
        FakeClipboard { content: None, fail: false }
    }

    fn holding(text: &str) -> Self {
        FakeClipboard { content: Some(String::from(text)), fail: false }
    }

    fn broken() -> Self {
        FakeClipboard { content: None, fail: true }
    }
}

impl Clipboard for FakeClipboard {
    fn read_text(&mut self) -> Result<String, ClipboardError> {
        if self.fail {
            return Err(ClipboardError { message: String::from("clipboard unavailable") });
        }
        match &self.content {
            Some(text) => Ok(text.clone()),
            None => Err(ClipboardError { message: String::from("clipboard is empty") }),
        }
    }

    fn write_text(&mut self, text: &str) -> Result<(), ClipboardError> {
        if self.fail {
            return Err(ClipboardError { message: String::from("clipboard unavailable") });
        }
        self.content = Some(String::from(text));
        Ok(())
    }
}

fn state_with(text: &str) -> InputFieldState {
    let mut s = InputFieldState::default();
    for c in text.chars() {
        s.insert(c);
    }
    s
}

#[test]
fn starts_empty_in_caret_mode() {
    let s = InputFieldState::default();
    assert_eq!(s.text(), "");
    assert_eq!(s.cursor(), Cursor::Caret(0));
    assert!(!s.is_in_selection_mode());
    assert!(s.caret_is_at_end());
}

#[test]
fn scenario_insert_select_replace() {
    let mut s = InputFieldState::default();
    s.insert('h');
    s.insert('i');
    assert_eq!(s.text(), "hi");
    assert_eq!(s.cursor(), Cursor::Caret(2));
    s.select_left();
    assert_eq!(s.cursor(), Cursor::Selection { start: 1, end: 2 });
    assert!(s.is_in_selection_mode());
    s.insert('o');
    assert_eq!(s.text(), "ho");
    assert_eq!(s.cursor(), Cursor::Caret(2));
    assert!(!s.is_in_selection_mode());
}

#[test]
fn scenario_emoji_caret_right_stops() {
    let mut s = state_with("a\u{1F600}b");
    assert_eq!(s.text(), "a😀b");
    s.caret_left_end();
    assert_eq!(s.cursor(), Cursor::Caret(0));
    s.caret_right();
    assert_eq!(s.cursor(), Cursor::Caret(1));
    s.caret_right();
    assert_eq!(s.cursor(), Cursor::Caret(5));
    s.caret_right();
    assert_eq!(s.cursor(), Cursor::Caret(6));
    assert!(s.caret_is_at_end());
    s.caret_right();
    assert_eq!(s.cursor(), Cursor::Caret(6));
}

#[test]
fn insert_delete_backward_round_trip_ascii() {
    let mut s = state_with("hello");
    s.caret_left();
    s.caret_left();
    assert_eq!(s.cursor(), Cursor::Caret(3));
    s.insert('x');
    assert_eq!(s.text(), "helxlo");
    s.delete_backward();
    assert_eq!(s.text(), "hello");
    assert_eq!(s.cursor(), Cursor::Caret(3));
}

#[test]
fn insert_delete_backward_round_trip_emoji() {
    let mut s = state_with("a\u{00E9}\u{20AC}b");
    s.caret_left();
    s.caret_left();
    assert_eq!(s.cursor(), Cursor::Caret(3));
    s.insert('\u{1F600}');
    assert_eq!(s.text(), "aé😀€b");
    s.delete_backward();
    assert_eq!(s.text(), "aé€b");
    assert_eq!(s.cursor(), Cursor::Caret(3));
}

#[test]
fn selection_replace_matches_splice() {
    // selection [1, 3) over "hello", replaced by one codepoint
    let mut s = state_with("hello");
    s.caret_left_end();
    s.caret_right();
    s.select_right();
    s.select_right();
    assert_eq!(s.cursor(), Cursor::Selection { start: 1, end: 3 });
    s.insert('\u{00E9}');
    assert_eq!(s.text(), "hélo");
    assert_eq!(s.cursor(), Cursor::Caret(3));
    assert!(!s.is_in_selection_mode());
}

#[test]
fn plain_navigation_collapses_to_moving_endpoint() {
    // selection [0, 5) over "a😀b" anchored at 0: caret_right steps from 5
    let mut s = state_with("a\u{1F600}b");
    s.caret_left_end();
    s.select_right();
    s.select_right();
    assert_eq!(s.cursor(), Cursor::Selection { start: 0, end: 5 });
    s.caret_right();
    assert_eq!(s.cursor(), Cursor::Caret(6));
    assert!(!s.is_in_selection_mode());

    // the symmetric selection anchored at the end: caret_left steps from 1
    let mut s = state_with("a\u{1F600}b");
    s.select_left();
    s.select_left();
    assert_eq!(s.cursor(), Cursor::Selection { start: 1, end: 6 });
    s.caret_left();
    assert_eq!(s.cursor(), Cursor::Caret(0));
    assert!(!s.is_in_selection_mode());
}

#[test]
fn delete_backward_at_start_is_a_no_op() {
    let mut s = state_with("abc");
    s.caret_left_end();
    s.delete_backward();
    assert_eq!(s.text(), "abc");
    assert_eq!(s.cursor(), Cursor::Caret(0));
}

#[test]
fn delete_backward_removes_multibyte_codepoint() {
    let mut s = state_with("a\u{1F600}b");
    s.caret_left();
    assert_eq!(s.cursor(), Cursor::Caret(5));
    s.delete_backward();
    assert_eq!(s.text(), "ab");
    assert_eq!(s.cursor(), Cursor::Caret(1));
}

#[test]
fn delete_forward_removes_codepoint_at_caret() {
    let mut s = state_with("a\u{1F600}b");
    s.caret_left_end();
    s.caret_right();
    s.delete_forward();
    assert_eq!(s.text(), "ab");
    assert_eq!(s.cursor(), Cursor::Caret(1));
}

#[test]
fn delete_forward_at_end_is_a_no_op() {
    let mut s = state_with("abc");
    s.delete_forward();
    assert_eq!(s.text(), "abc");
    assert_eq!(s.cursor(), Cursor::Caret(3));
}

#[test]
fn delete_with_selection_removes_range_only() {
    let mut s = state_with("hello");
    s.select_left();
    s.select_left();
    assert_eq!(s.cursor(), Cursor::Selection { start: 3, end: 5 });
    s.delete_backward();
    assert_eq!(s.text(), "hel");
    assert_eq!(s.cursor(), Cursor::Caret(3));

    let mut s = state_with("hello");
    s.select_left();
    s.delete_forward();
    assert_eq!(s.text(), "hell");
    assert_eq!(s.cursor(), Cursor::Caret(4));
}

#[test]
fn caret_end_jumps_collapse_selection() {
    let mut s = state_with("hi");
    s.select_left();
    s.caret_left_end();
    assert_eq!(s.cursor(), Cursor::Caret(0));
    assert!(!s.is_in_selection_mode());
    s.select_right();
    s.caret_right_end();
    assert_eq!(s.cursor(), Cursor::Caret(2));
    assert!(!s.is_in_selection_mode());
}

#[test]
fn select_at_buffer_edge_stays_in_caret_mode() {
    let mut s = state_with("hi");
    s.caret_left_end();
    s.select_left();
    assert!(!s.is_in_selection_mode());
    assert_eq!(s.cursor(), Cursor::Caret(0));
    s.caret_right_end();
    s.select_right();
    assert!(!s.is_in_selection_mode());
    assert_eq!(s.cursor(), Cursor::Caret(2));
}

#[test]
fn select_back_onto_caret_collapses() {
    let mut s = state_with("ab");
    s.caret_left();
    assert_eq!(s.cursor(), Cursor::Caret(1));
    s.select_left();
    assert_eq!(s.cursor(), Cursor::Selection { start: 0, end: 1 });
    s.select_right();
    assert!(!s.is_in_selection_mode());
    assert_eq!(s.cursor(), Cursor::Caret(1));
}

#[test]
fn select_to_ends() {
    let mut s = state_with("hi");
    s.caret_left();
    s.select_left_end();
    assert_eq!(s.cursor(), Cursor::Selection { start: 0, end: 1 });
    s.select_right_end();
    assert_eq!(s.cursor(), Cursor::Selection { start: 1, end: 2 });
    s.caret_left_end();
    s.select_left_end();
    assert!(!s.is_in_selection_mode());
    s.caret_right_end();
    s.select_right_end();
    assert!(!s.is_in_selection_mode());
}

#[test]
fn take_text_returns_contents_and_resets() {
    let mut s = state_with("a\u{1F600}b");
    s.caret_left();
    let text = s.take_text();
    assert_eq!(text, "a😀b");
    assert_eq!(s.text(), "");
    assert_eq!(s.cursor(), Cursor::Caret(0));
    assert!(!s.is_in_selection_mode());
}

#[test]
fn clear_resets_everything() {
    let mut s = state_with("hello");
    s.select_left();
    s.clear();
    assert_eq!(s.text(), "");
    assert_eq!(s.cursor(), Cursor::Caret(0));
    assert!(!s.is_in_selection_mode());
}

#[test]
fn insert_text_replaces_selection_with_whole_string() {
    let mut s = state_with("hello");
    s.caret_left_end();
    s.caret_right();
    s.select_right();
    s.select_right();
    assert_eq!(s.cursor(), Cursor::Selection { start: 1, end: 3 });
    s.insert_text("x\u{1F600}y");
    assert_eq!(s.text(), "hx😀ylo");
    assert_eq!(s.cursor(), Cursor::Caret(7));
    assert!(!s.is_in_selection_mode());
}

#[test]
fn insert_empty_text_changes_nothing() {
    let mut s = state_with("hi");
    s.select_left();
    s.insert_text("");
    assert_eq!(s.text(), "hi");
    assert_eq!(s.cursor(), Cursor::Selection { start: 1, end: 2 });
    assert!(s.is_in_selection_mode());
}

#[test]
fn selected_text_is_the_normalized_range() {
    let mut s = state_with("a\u{1F600}b");
    assert!(s.selected_text().is_none());
    s.select_left();
    s.select_left();
    assert_eq!(s.selected_text(), Some("😀b"));
}

#[test]
fn copy_without_selection_succeeds_and_writes_nothing() {
    let s = state_with("hi");
    let mut clipboard = FakeClipboard::empty();
    assert!(s.copy(&mut clipboard).is_ok());
    assert!(clipboard.content.is_none());
    assert_eq!(s.text(), "hi");
}

#[test]
fn copy_writes_selected_text() {
    let mut s = state_with("a\u{1F600}b");
    s.select_left();
    s.select_left();
    let mut clipboard = FakeClipboard::empty();
    assert!(s.copy(&mut clipboard).is_ok());
    assert_eq!(clipboard.content.as_deref(), Some("😀b"));
    // copy never mutates editor state
    assert_eq!(s.text(), "a😀b");
    assert_eq!(s.cursor(), Cursor::Selection { start: 1, end: 6 });
}

#[test]
fn copy_reports_clipboard_failure() {
    let mut s = state_with("hi");
    s.select_left();
    let mut clipboard = FakeClipboard::broken();
    let r = s.copy(&mut clipboard);
    assert!(r.is_err());
    assert_eq!(r.unwrap_err().message, "clipboard unavailable");
    assert_eq!(s.text(), "hi");
    assert_eq!(s.cursor(), Cursor::Selection { start: 1, end: 2 });
}

#[test]
fn paste_inserts_clipboard_text() {
    let mut s = state_with("hb");
    s.caret_left();
    let mut clipboard = FakeClipboard::holding("i\u{1F600}");
    assert!(s.paste(&mut clipboard).is_ok());
    assert_eq!(s.text(), "hi😀b");
    assert_eq!(s.cursor(), Cursor::Caret(6));
}

#[test]
fn paste_replaces_selection() {
    let mut s = state_with("hello");
    s.select_left();
    s.select_left();
    let mut clipboard = FakeClipboard::holding("p!");
    assert!(s.paste(&mut clipboard).is_ok());
    assert_eq!(s.text(), "help!");
    assert_eq!(s.cursor(), Cursor::Caret(5));
}

#[test]
fn paste_failure_leaves_state_unchanged() {
    let mut s = state_with("hi");
    s.select_left();
    let mut clipboard = FakeClipboard::broken();
    let r = s.paste(&mut clipboard);
    assert!(r.is_err());
    assert_eq!(r.unwrap_err().message, "clipboard unavailable");
    assert_eq!(s.text(), "hi");
    assert_eq!(s.cursor(), Cursor::Selection { start: 1, end: 2 });
}

#[test]
fn round_trip_on_empty_buffer() {
    let mut s = InputFieldState::default();
    s.insert('a');
    s.delete_backward();
    assert_eq!(s.text(), "");
    assert_eq!(s.cursor(), Cursor::Caret(0));
}

#[test]
fn round_trip_at_buffer_ends() {
    let mut s = state_with("\u{1F600}");
    s.insert('\u{20AC}');
    s.delete_backward();
    assert_eq!(s.text(), "😀");
    assert_eq!(s.cursor(), Cursor::Caret(4));
    s.caret_left_end();
    s.insert('x');
    s.delete_backward();
    assert_eq!(s.text(), "😀");
    assert_eq!(s.cursor(), Cursor::Caret(0));
}

#[test]
fn caret_left_at_start_is_a_no_op() {
    let mut s = state_with("ab");
    s.caret_left_end();
    s.caret_left();
    assert_eq!(s.cursor(), Cursor::Caret(0));
}

#[test]
fn cursor_normalizes_either_endpoint_order() {
    // endpoint to the left of the caret
    let mut s = state_with("abc");
    s.select_left();
    assert_eq!(s.cursor(), Cursor::Selection { start: 2, end: 3 });
    // endpoint to the right of the caret
    let mut s = state_with("abc");
    s.caret_left_end();
    s.select_right();
    assert_eq!(s.cursor(), Cursor::Selection { start: 0, end: 1 });
}

#[test]
fn text_round_trips_multibyte_contents() {
    let mut s = InputFieldState::default();
    s.insert('\u{1F600}');
    assert_eq!(s.text(), "😀");
    assert_eq!(s.text().len(), 4);
    s.insert('\u{00E9}');
    s.insert('z');
    assert_eq!(s.text(), "😀éz");
    assert_eq!(s.take_text(), "😀éz");
}
