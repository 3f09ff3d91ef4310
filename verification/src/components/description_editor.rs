//! Description editor with undo (Ctrl+Z) and redo (Ctrl+Shift+Z).

use vstd::prelude::*;
use vstd::std_specs::iter::IteratorSpec;
use vstd::utf8::encode_utf8;

use crate::repo::texts;

verus! {

/// The UTF-8 length of a text, in bytes.
pub open spec fn byte_len(t: Seq<char>) -> int {
    encode_utf8(t).len() as int
}

/// How many times `c` occurs in `t`.
pub open spec fn count_char(t: Seq<char>, c: char) -> nat
    decreases t.len(),
{
    if t.len() == 0 {
        0
    } else {
        count_char(t.drop_last(), c) + if t.last() == c {
            1nat
        } else {
            0nat
        }
    }
}

/// Whether replacing `current` by `new` is a change at a word boundary: the
/// text grew and a space or a newline was entered (it holds more spaces or
/// more newlines than before, wherever they were typed), or it shrank by more
/// than one character at once.
pub open spec fn snapshot_due(current: Seq<char>, new: Seq<char>) -> bool {
    if new.len() > current.len() {
        count_char(new, ' ') > count_char(current, ' ') || count_char(new, '\n') > count_char(
            current,
            '\n',
        )
    } else {
        current.len() > new.len() + 1
    }
}

/// The content of an undo stack.
pub struct UndoView {
    pub history: Seq<Seq<char>>,
    pub future: Seq<Seq<char>>,
    pub current: Seq<char>,
    pub last_snapshot_len: usize,
}

/// Undo/redo stack for text editing: past states oldest first, redo states
/// newest last, and the current text.
#[derive(Debug)]
pub struct UndoStack {
    history: Vec<String>,
    future: Vec<String>,
    current: String,
    last_snapshot_len: usize,
}

impl View for UndoStack {
    type V = UndoView;

    closed spec fn view(&self) -> UndoView {
        UndoView {
            history: texts(self.history@),
            future: texts(self.future@),
            current: self.current@,
            last_snapshot_len: self.last_snapshot_len,
        }
    }
}

/// The stack after recording `text`: at a word boundary that changes the text,
/// the current text goes onto the history and the redo states are dropped;
/// the text becomes current in any case.
pub open spec fn spec_push(v: UndoView, text: Seq<char>) -> UndoView {
    if snapshot_due(v.current, text) && v.current != text {
        UndoView {
            history: v.history.push(v.current),
            future: Seq::empty(),
            current: text,
            last_snapshot_len: byte_len(v.current) as usize,
        }
    } else {
        UndoView { current: text, ..v }
    }
}

/// The stack after an undo, and the text it restores: the newest past state
/// becomes current and the current text becomes a redo state.
pub open spec fn spec_undo(v: UndoView) -> (UndoView, Option<Seq<char>>) {
    if v.history.len() > 0 {
        (
            UndoView {
                history: v.history.drop_last(),
                future: v.future.push(v.current),
                current: v.history.last(),
                ..v
            },
            Some(v.history.last()),
        )
    } else {
        (v, None)
    }
}

/// The stack after a redo, and the text it restores: the newest redo state
/// becomes current and the current text goes back onto the history.
pub open spec fn spec_redo(v: UndoView) -> (UndoView, Option<Seq<char>>) {
    if v.future.len() > 0 {
        (
            UndoView {
                history: v.history.push(v.current),
                future: v.future.drop_last(),
                current: v.future.last(),
                ..v
            },
            Some(v.future.last()),
        )
    } else {
        (v, None)
    }
}

/// The length of `s` in characters, and how many spaces and newlines it holds.
fn char_counts(s: &str) -> (res: (usize, usize, usize))
    ensures
        res.0 == s@.len(),
        res.1 == count_char(s@, ' '),
        res.2 == count_char(s@, '\n'),
{
    let n = s.unicode_len();
    let ghost t = s@;
    let mut spaces: usize = 0;
    let mut newlines: usize = 0;
    let mut it = s.chars();
    let mut i: usize = 0;
    proof {
        assert(t.take(0) =~= Seq::<char>::empty());
    }
    loop
        invariant
            n == t.len(),
            i <= n,
            it.remaining() == t.skip(i as int),
            spaces == count_char(t.take(i as int), ' '),
            newlines == count_char(t.take(i as int), '\n'),
            spaces <= i,
            newlines <= i,
        ensures
            i == n,
            spaces == count_char(t.take(i as int), ' '),
            newlines == count_char(t.take(i as int), '\n'),
        decreases n - i,
    {
        match it.next() {
            None => {
                break;
            },
            Some(c) => {
                proof {
                    assert(c == t[i as int]);
                    assert(t.take(i + 1).drop_last() =~= t.take(i as int));
                    assert(t.take(i + 1).last() == c);
                    assert(t.skip(i as int).drop_first() =~= t.skip(i + 1));
                }
                if c == ' ' {
                    spaces = spaces + 1;
                }
                if c == '\n' {
                    newlines = newlines + 1;
                }
                i = i + 1;
            },
        }
    }
    proof {
        assert(t.take(n as int) =~= t);
    }
    (n, spaces, newlines)
}

impl UndoStack {
    /// A stack whose current text is `initial`, with no past or redo states.
    pub fn new(initial: String) -> (res: UndoStack)
        ensures
            res@ == (UndoView {
                history: Seq::empty(),
                future: Seq::empty(),
                current: initial@,
                last_snapshot_len: byte_len(initial@) as usize,
            }),
    {
        let len = initial.as_str().as_bytes().len();
        let res = UndoStack {
            last_snapshot_len: len,
            current: initial,
            history: Vec::new(),
            future: Vec::new(),
        };
        proof {
            assert(res@.history =~= Seq::<Seq<char>>::empty());
            assert(res@.future =~= Seq::<Seq<char>>::empty());
        }
        res
    }

    /// Whether replacing the current text by `new_text` is at a word boundary.
    pub fn should_snapshot(&self, new_text: &str) -> (res: bool)
        ensures
            res == snapshot_due(self@.current, new_text@),
    {
        let (cur_len, cur_spaces, cur_newlines) = char_counts(self.current.as_str());
        let (new_len, new_spaces, new_newlines) = char_counts(new_text);
        if new_len > cur_len {
            return new_spaces > cur_spaces || new_newlines > cur_newlines;
        }
        cur_len > new_len && cur_len - new_len > 1
    }

    /// Records a new text, after a change in the editor. A past state is kept
    /// only at word boundaries (a space or newline typed, or more than one
    /// character deleted at once).
    pub fn push(&mut self, text: String)
        ensures
            final(self)@ == spec_push(old(self)@, text@),
    {
        let should_snapshot = self.should_snapshot(text.as_str());
        if should_snapshot && self.current != text {
            let ghost h = texts(self.history@);
            self.history.push(self.current.clone());
            self.future.clear();
            self.last_snapshot_len = self.current.as_str().as_bytes().len();
            proof {
                assert(texts(self.history@) =~= h.push(old(self)@.current));
                assert(texts(self.future@) =~= Seq::<Seq<char>>::empty());
            }
        }
        self.current = text;
    }

    /// Steps back to the newest past state, if any, and returns it.
    pub fn undo(&mut self) -> (res: Option<String>)
        ensures
            final(self)@ == spec_undo(old(self)@).0,
            match res {
                Some(t) => spec_undo(old(self)@).1 == Some(t@),
                None => spec_undo(old(self)@).1 is None,
            },
    {
        let ghost h = texts(self.history@);
        let ghost f = texts(self.future@);
        if let Some(prev) = self.history.pop() {
            self.future.push(self.current.clone());
            self.current = prev.clone();
            proof {
                assert(texts(self.history@) =~= h.drop_last());
                assert(texts(self.future@) =~= f.push(old(self)@.current));
                assert(prev@ == h.last());
            }
            Some(prev)
        } else {
            None
        }
    }

    /// Steps forward to the newest redo state, if any, and returns it.
    pub fn redo(&mut self) -> (res: Option<String>)
        ensures
            final(self)@ == spec_redo(old(self)@).0,
            match res {
                Some(t) => spec_redo(old(self)@).1 == Some(t@),
                None => spec_redo(old(self)@).1 is None,
            },
    {
        let ghost h = texts(self.history@);
        let ghost f = texts(self.future@);
        if let Some(next) = self.future.pop() {
            self.history.push(self.current.clone());
            self.current = next.clone();
            proof {
                assert(texts(self.future@) =~= f.drop_last());
                assert(texts(self.history@) =~= h.push(old(self)@.current));
                assert(next@ == f.last());
            }
            Some(next)
        } else {
            None
        }
    }
}

impl Default for UndoStack {
    fn default() -> (res: UndoStack)
        ensures
            res@ == (UndoView {
                history: Seq::empty(),
                future: Seq::empty(),
                current: Seq::empty(),
                last_snapshot_len: 0,
            }),
    {
        let res = UndoStack::new(String::new());
        proof {
            assert(encode_utf8(Seq::<char>::empty()) =~= Seq::<u8>::empty());
        }
        res
    }
}

/// An undo that restores a past state is taken back by a redo: the stack is
/// as it was, and the redo gives back the text that was current.
pub proof fn lemma_undo_then_redo(v: UndoView)
    requires
        v.history.len() > 0,
    ensures
        spec_redo(spec_undo(v).0).0 == v,
        spec_redo(spec_undo(v).0).1 == Some(v.current),
{
    assert(v.history.drop_last().push(v.history.last()) =~= v.history);
    assert(v.future.push(v.current).drop_last() =~= v.future);
}

/// A redo that restores a state is taken back by an undo.
pub proof fn lemma_redo_then_undo(v: UndoView)
    requires
        v.future.len() > 0,
    ensures
        spec_undo(spec_redo(v).0).0 == v,
        spec_undo(spec_redo(v).0).1 == Some(v.current),
{
    assert(v.history.push(v.current).drop_last() =~= v.history);
    assert(v.future.drop_last().push(v.future.last()) =~= v.future);
}

/// A change at a word boundary can be undone: the undo restores the text as it
/// was before the change, and nothing is left to redo before it.
pub proof fn lemma_snapshot_is_undoable(v: UndoView, text: Seq<char>)
    requires
        snapshot_due(v.current, text),
        v.current != text,
    ensures
        spec_push(v, text).future.len() == 0,
        spec_undo(spec_push(v, text)).1 == Some(v.current),
        spec_undo(spec_push(v, text)).0.history == v.history,
        spec_undo(spec_push(v, text)).0.current == v.current,
{
    assert(v.history.push(v.current).drop_last() =~= v.history);
}

/// A change that is not at a word boundary keeps the past and redo states.
pub proof fn lemma_no_snapshot_keeps_history(v: UndoView, text: Seq<char>)
    requires
        !snapshot_due(v.current, text) || v.current == text,
    ensures
        spec_push(v, text).history == v.history,
        spec_push(v, text).future == v.future,
        spec_push(v, text).current == text,
{
}

/// Messages for the description editor.
#[derive(Debug, Clone)]
pub enum Message {
    /// The editor holds this text after an edit (typing, deleting, pasting).
    Edited(String),
    /// Save the description.
    Save,
    /// Cancel editing.
    Cancel,
    /// Undo last change.
    Undo,
    /// Redo last undone change.
    Redo,
}

/// State for the description editor.
#[derive(Debug)]
pub struct State {
    /// Whether the editor is active.
    pub editing: bool,
    /// The text in the editor.
    text: String,
    /// The text that editing started from, to detect changes.
    original: String,
    /// Undo/redo stack.
    undo_stack: UndoStack,
}

impl State {
    /// Whether the editor is active.
    pub closed spec fn is_editing(&self) -> bool {
        self.editing
    }

    /// The text in the editor.
    pub closed spec fn spec_text(&self) -> Seq<char> {
        self.text@
    }

    /// The text that editing started from.
    pub closed spec fn spec_original(&self) -> Seq<char> {
        self.original@
    }

    /// The undo/redo stack.
    pub closed spec fn spec_undo(&self) -> UndoView {
        self.undo_stack@
    }

    /// The editor text is the current text of the stack.
    pub open spec fn wf(&self) -> bool {
        self.spec_undo().current == self.spec_text()
    }

    /// A new inactive description editor state.
    pub fn new() -> (res: State)
        ensures
            !res.is_editing(),
            res.spec_text() == Seq::<char>::empty(),
            res.spec_original() == Seq::<char>::empty(),
            res.spec_undo().history.len() == 0,
            res.spec_undo().future.len() == 0,
            res.wf(),
    {
        State {
            editing: false,
            text: String::new(),
            original: String::new(),
            undo_stack: UndoStack::default(),
        }
    }

    /// Start editing the given description.
    pub fn start_editing(&mut self, description: &str)
        ensures
            final(self).is_editing(),
            final(self).spec_text() == description@,
            final(self).spec_original() == description@,
            final(self).spec_undo() == (UndoView {
                history: Seq::empty(),
                future: Seq::empty(),
                current: description@,
                last_snapshot_len: byte_len(description@) as usize,
            }),
            final(self).wf(),
    {
        self.editing = true;
        self.original = description.to_owned();
        self.text = description.to_owned();
        self.undo_stack = UndoStack::new(description.to_owned());
    }

    /// Cancel editing and reset the state.
    pub fn cancel(&mut self)
        ensures
            !final(self).is_editing(),
            final(self).spec_text() == Seq::<char>::empty(),
            final(self).spec_original() == Seq::<char>::empty(),
            final(self).spec_undo().history.len() == 0,
            final(self).spec_undo().future.len() == 0,
            final(self).wf(),
    {
        self.editing = false;
        self.text = String::new();
        self.original = String::new();
        self.undo_stack = UndoStack::default();
    }

    /// The current text content.
    pub fn get_text(&self) -> (res: String)
        ensures
            res@ == self.spec_text(),
    {
        self.text.clone()
    }

    /// Whether the text differs from the text that editing started from.
    pub fn has_changes(&self) -> (res: bool)
        ensures
            res == (self.spec_text() != self.spec_original()),
    {
        self.text != self.original
    }

    /// Updates the editor: an edit is recorded, undo and redo restore a text
    /// when there is one; saving and cancelling are left to the parent.
    pub fn update(&mut self, message: Message)
        requires
            old(self).wf(),
        ensures
            final(self).wf(),
            final(self).is_editing() == old(self).is_editing(),
            final(self).spec_original() == old(self).spec_original(),
            match message {
                Message::Edited(t) => final(self).spec_undo() == spec_push(
                    old(self).spec_undo(),
                    t@,
                ),
                Message::Undo => final(self).spec_undo() == spec_undo(old(self).spec_undo()).0,
                Message::Redo => final(self).spec_undo() == spec_redo(old(self).spec_undo()).0,
                _ => final(self).spec_undo() == old(self).spec_undo() && final(self).spec_text()
                    == old(self).spec_text(),
            },
    {
        match message {
            Message::Edited(text) => {
                self.text = text.clone();
                self.undo_stack.push(text);
            },
            Message::Undo => {
                if let Some(text) = self.undo_stack.undo() {
                    self.text = text;
                }
            },
            Message::Redo => {
                if let Some(text) = self.undo_stack.redo() {
                    self.text = text;
                }
            },
            Message::Save | Message::Cancel => {},
        }
    }
}

impl Default for State {
    fn default() -> (res: State)
        ensures
            !res.is_editing(),
            res.spec_text() == Seq::<char>::empty(),
            res.spec_original() == Seq::<char>::empty(),
            res.wf(),
    {
        State::new()
    }
}

/// Whether a key's character is `z`.
pub open spec fn is_z_key(character: Option<&str>) -> bool {
    match character {
        Some(c) => c@ == seq!['z'],
        None => false,
    }
}

/// The editor message of a key press: Ctrl+Z undoes and Ctrl+Shift+Z redoes;
/// `character` is the key's character, if it is one.
pub fn shortcut_message(control: bool, shift: bool, character: Option<&str>) -> (res: Option<
    Message,
>)
    ensures
        match res {
            Some(Message::Undo) => control && !shift && is_z_key(character),
            Some(Message::Redo) => control && shift && is_z_key(character),
            Some(_) => false,
            None => !(control && is_z_key(character)),
        },
{
    if control {
        if let Some(c) = character {
            if c.unicode_len() == 1 && c.get_char(0) == 'z' {
                proof {
                    assert(c@ =~= seq!['z']);
                }
                return Some(
                    if shift {
                        Message::Redo
                    } else {
                        Message::Undo
                    },
                );
            }
        }
    }
    None
}

} // verus!
