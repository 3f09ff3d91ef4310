use dojo::components::description_editor::{shortcut_message, Message, State, UndoStack};

#[test]
fn undo_stack_snapshots_at_word_boundaries() {
    let mut s = UndoStack::new("ab".to_string());
    assert!(!s.should_snapshot("abc"));
    assert!(s.should_snapshot("ab c"));
    assert!(s.should_snapshot("ab\n"));
    assert!(!s.should_snapshot("a"));
    assert!(s.should_snapshot(""));
    assert!(!s.should_snapshot("ab"));

    s.push("abc".to_string());
    assert_eq!(s.undo(), None);
    s.push("abc ".to_string());
    assert_eq!(s.undo(), Some("abc".to_string()));
    assert_eq!(s.undo(), None);
    assert_eq!(s.redo(), Some("abc ".to_string()));
    assert_eq!(s.redo(), None);
}

#[test]
fn undo_then_redo_restores_text() {
    let mut s = UndoStack::new(String::new());
    s.push("one ".to_string());
    s.push("one two ".to_string());
    assert_eq!(s.undo(), Some("one ".to_string()));
    assert_eq!(s.undo(), Some(String::new()));
    assert_eq!(s.redo(), Some("one ".to_string()));
    assert_eq!(s.redo(), Some("one two ".to_string()));
    assert_eq!(s.redo(), None);
}

#[test]
fn new_edit_drops_redo_states() {
    let mut s = UndoStack::new(String::new());
    s.push("a ".to_string());
    assert_eq!(s.undo(), Some(String::new()));
    s.push("b ".to_string());
    assert_eq!(s.redo(), None);
    assert_eq!(s.undo(), Some(String::new()));
}

#[test]
fn deletions_count_characters() {
    let s = UndoStack::new("é".to_string());
    // Deleting one character is no word boundary, however many bytes it has.
    assert!(!s.should_snapshot(""));
    let t = UndoStack::new("éü".to_string());
    assert!(t.should_snapshot(""));
    assert!(!s.should_snapshot("éü"));
    assert!(s.should_snapshot("é ü"));
}

#[test]
fn space_typed_anywhere_snapshots() {
    let s = UndoStack::new("ab".to_string());
    assert!(s.should_snapshot(" ab"));
    assert!(s.should_snapshot("a\nb"));
    assert!(!s.should_snapshot("xab"));
    let spaced = UndoStack::new("a b".to_string());
    // The text grew but holds no more spaces than before.
    assert!(!spaced.should_snapshot("ab c"));
    // Same length: nothing was typed on top of the text.
    assert!(!spaced.should_snapshot("a  "));
}

#[test]
fn editor_state_tracks_changes() {
    let mut st = State::new();
    assert!(!st.editing);
    assert_eq!(st.get_text(), "");
    st.start_editing("Hello");
    assert!(st.editing);
    assert!(!st.has_changes());
    st.update(Message::Edited("Hello ".to_string()));
    assert!(st.has_changes());
    assert_eq!(st.get_text(), "Hello ");
    st.update(Message::Undo);
    assert_eq!(st.get_text(), "Hello");
    assert!(!st.has_changes());
    st.update(Message::Redo);
    assert_eq!(st.get_text(), "Hello ");
    st.update(Message::Save);
    assert_eq!(st.get_text(), "Hello ");
    assert!(st.editing);
    st.cancel();
    assert!(!st.editing);
    assert_eq!(st.get_text(), "");
    assert!(!st.has_changes());
}

#[test]
fn undo_with_no_history_keeps_text() {
    let mut st = State::default();
    st.start_editing("x");
    st.update(Message::Edited("xy".to_string()));
    st.update(Message::Undo);
    assert_eq!(st.get_text(), "xy");
}

#[test]
fn keyboard_shortcuts() {
    assert!(matches!(shortcut_message(true, false, Some("z")), Some(Message::Undo)));
    assert!(matches!(shortcut_message(true, true, Some("z")), Some(Message::Redo)));
    assert!(shortcut_message(false, false, Some("z")).is_none());
    assert!(shortcut_message(true, false, Some("y")).is_none());
    assert!(shortcut_message(true, false, Some("Z")).is_none());
    assert!(shortcut_message(true, false, None).is_none());
    assert!(shortcut_message(true, false, Some("zz")).is_none());
}
