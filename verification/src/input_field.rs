//! State of input fields: a flat UTF-8 text buffer with a caret/selection
//! model working directly on byte offsets.
//!
//! The state is either in *caret mode* (a single insertion point `caret`) or
//! in *selection mode* (a secondary endpoint `caret2` is present; the
//! selection is the byte range between the two, in either order).  Every
//! operation keeps both offsets on codepoint boundaries, so the buffer can
//! never be cut inside a multi-byte encoding, and a zero-length selection
//! never persists: whenever an operation would make the endpoints equal, the
//! state collapses back to caret mode.

use vstd::prelude::*;

verus! {

use vstd::seq::Seq;
use vstd::slice::slice_subrange;
use vstd::string::{StringExecFns, StringSliceAdditionalSpecFns};
use vstd::utf8::{
    decode_utf8, encode_scalar, encode_utf8, encode_utf8_decode_utf8, is_char_boundary,
    is_char_boundary_start_end_of_seq, length_of_first_scalar, length_of_last_scalar, valid_utf8,
    valid_utf8_concat, valid_utf8_split,
};

use crate::scanner::{
    cp_len_at, encode_char, lemma_boundary_in_range, lemma_boundary_in_suffix,
    lemma_concat_boundary, lemma_encode_scalar_single, lemma_encode_utf8_push,
    lemma_last_scalar_of_append, step_next, step_prev, str_of_bytes,
};

/// Failure of the clipboard adapter: the platform clipboard was unavailable
/// or a read/write on it failed.  Carries a human-readable description.
#[derive(Debug, Clone)]
pub struct ClipboardError {
    pub message: String,
}

/// Clipboard adapter capability: the editor calls it for `copy`/`paste` and
/// treats every failure as non-fatal.  It is injected by the caller, so an
/// application can pass the platform clipboard and a test can pass an
/// in-memory fake.
pub trait Clipboard {
    /// Read the clipboard's current text.
    fn read_text(&mut self) -> Result<String, ClipboardError>;

    /// Replace the clipboard's contents by `text`.
    fn write_text(&mut self, text: &str) -> Result<(), ClipboardError>;
}

/// Read-only view of the cursor, recomputed on every read: either a single
/// caret at a byte offset, or a selection over a normalized byte range
/// (`start <= end`).
#[derive(Debug, Clone, Copy, PartialEq, Eq, Structural)]
pub enum Cursor {
    Caret(usize),
    Selection { start: usize, end: usize },
}

/// The editing core: an owned, always-valid-UTF-8 text buffer, a caret, and
/// an optional selection endpoint.
#[derive(Debug)]
pub struct InputFieldState {
    text: Vec<u8>,
    /// If `caret2` is `Some`, the input field is in selection mode.
    caret: usize,
    /// The moving end of the selection; `caret` is the anchor.
    caret2: Option<usize>,
}

/// Form an ordered pair out of two `usize`.  Unlike `x..y`, this function
/// orders `x` and `y` so the smaller one comes first.
fn range(x: usize, y: usize) -> (r: (usize, usize))
    ensures
        (r.0 == x && r.1 == y) || (r.0 == y && r.1 == x),
        r.0 <= r.1,
{
    if x <= y {
        (x, y)
    } else {
        (y, x)
    }
}

impl InputFieldState {
    /// The buffer's bytes.
    pub closed spec fn text_bytes(self) -> Seq<u8> {
        self.text@
    }

    /// The buffer's characters.
    pub open spec fn text_chars(self) -> Seq<char> {
        decode_utf8(self.text_bytes())
    }

    /// The caret's byte offset.
    pub closed spec fn caret_pos(self) -> int {
        self.caret as int
    }

    /// The selection endpoint's byte offset, present exactly in selection
    /// mode.
    pub closed spec fn sel_pos(self) -> Option<int> {
        match self.caret2 {
            Some(c2) => Some(c2 as int),
            None => None,
        }
    }

    /// Start of the normalized selection range; the caret itself in caret
    /// mode.
    pub open spec fn sel_start(self) -> int {
        match self.sel_pos() {
            Some(p) => if p < self.caret_pos() {
                p
            } else {
                self.caret_pos()
            },
            None => self.caret_pos(),
        }
    }

    /// End of the normalized selection range; the caret itself in caret
    /// mode.
    pub open spec fn sel_end(self) -> int {
        match self.sel_pos() {
            Some(p) => if p < self.caret_pos() {
                self.caret_pos()
            } else {
                p
            },
            None => self.caret_pos(),
        }
    }

    /// Boundary invariant of every reachable state: the buffer is valid
    /// UTF-8, the caret and (if present) the selection endpoint lie on
    /// codepoint boundaries within the buffer, and a present selection
    /// endpoint differs from the caret.
    pub open spec fn cursor_in_bounds(self) -> bool {
        &&& valid_utf8(self.text_bytes())
        &&& is_char_boundary(self.text_bytes(), self.caret_pos())
        &&& match self.sel_pos() {
            Some(p) => is_char_boundary(self.text_bytes(), p) && p != self.caret_pos(),
            None => true,
        }
    }

    #[verifier::type_invariant]
    spec fn wf(self) -> bool {
        self.cursor_in_bounds()
    }

    /// The buffer with the normalized selection range (or the empty range at
    /// the caret) replaced by `ins`.
    pub open spec fn replaced(pre: Self, ins: Seq<u8>) -> Seq<u8> {
        pre.text_bytes().subrange(0, pre.sel_start()) + ins + pre.text_bytes().subrange(
            pre.sel_end(),
            pre.text_bytes().len() as int,
        )
    }

    /// How `insert` changes the state: the selection (or the empty range at
    /// the caret) is replaced by the character's encoding, the caret ends
    /// just after it, and selection mode is exited.
    pub open spec fn insert_post(pre: Self, c: char, post: Self) -> bool {
        &&& post.text_bytes() == Self::replaced(pre, encode_scalar(c as u32))
        &&& post.caret_pos() == pre.sel_start() + encode_scalar(c as u32).len()
        &&& post.sel_pos() is None
    }

    /// How inserting a whole string changes the state: as if each of its
    /// codepoints were inserted in order.  Inserting nothing changes
    /// nothing.
    pub open spec fn insert_text_post(pre: Self, s: Seq<char>, post: Self) -> bool {
        if s.len() == 0 {
            post == pre
        } else {
            &&& post.text_bytes() == Self::replaced(pre, encode_utf8(s))
            &&& post.caret_pos() == pre.sel_start() + encode_utf8(s).len()
            &&& post.sel_pos() is None
        }
    }

    /// How deleting the selection changes the state: the normalized range is
    /// removed, the caret ends at its start, and selection mode is exited.
    pub open spec fn delete_selection_post(pre: Self, post: Self) -> bool {
        &&& post.text_bytes() == Self::replaced(pre, Seq::<u8>::empty())
        &&& post.caret_pos() == pre.sel_start()
        &&& post.sel_pos() is None
    }

    /// How `delete_backward` changes the state: in selection mode the
    /// selection is deleted; in caret mode the codepoint just before the
    /// caret is removed and the caret moves back over it (a no-op at the
    /// buffer's start).
    pub open spec fn delete_backward_post(pre: Self, post: Self) -> bool {
        match pre.sel_pos() {
            Some(_) => Self::delete_selection_post(pre, post),
            None => {
                let t = pre.text_bytes();
                let k = pre.caret_pos();
                if k == 0 {
                    post == pre
                } else {
                    let l = length_of_last_scalar(t.subrange(0, k));
                    &&& post.text_bytes() == t.subrange(0, k - l) + t.subrange(k, t.len() as int)
                    &&& post.caret_pos() == k - l
                    &&& post.sel_pos() is None
                }
            },
        }
    }

    /// How `delete_forward` changes the state: in selection mode the
    /// selection is deleted; in caret mode the codepoint starting at the
    /// caret is removed and the caret stays put (a no-op at the buffer's
    /// end).
    pub open spec fn delete_forward_post(pre: Self, post: Self) -> bool {
        match pre.sel_pos() {
            Some(_) => Self::delete_selection_post(pre, post),
            None => {
                let t = pre.text_bytes();
                let k = pre.caret_pos();
                if k == t.len() {
                    post == pre
                } else {
                    let l = length_of_first_scalar(t.subrange(k, t.len() as int));
                    &&& post.text_bytes() == t.subrange(0, k) + t.subrange(k + l, t.len() as int)
                    &&& post.caret_pos() == k
                    &&& post.sel_pos() is None
                }
            },
        }
    }

    /// How `caret_left` changes the state: a selection collapses to its
    /// moving endpoint, and from there the caret steps one codepoint
    /// backward (staying at 0 when already there).
    pub open spec fn caret_left_post(pre: Self, post: Self) -> bool {
        let t = pre.text_bytes();
        let j = match pre.sel_pos() {
            Some(p) => p,
            None => pre.caret_pos(),
        };
        &&& post.text_bytes() == t
        &&& post.sel_pos() is None
        &&& post.caret_pos() == if 0 < j {
            j - length_of_last_scalar(t.subrange(0, j))
        } else {
            j
        }
    }

    /// How `caret_right` changes the state: a selection collapses to its
    /// moving endpoint, and from there the caret steps one codepoint forward
    /// (staying at the end when already there).
    pub open spec fn caret_right_post(pre: Self, post: Self) -> bool {
        let t = pre.text_bytes();
        let j = match pre.sel_pos() {
            Some(p) => p,
            None => pre.caret_pos(),
        };
        &&& post.text_bytes() == t
        &&& post.sel_pos() is None
        &&& post.caret_pos() == if j < t.len() {
            j + length_of_first_scalar(t.subrange(j, t.len() as int))
        } else {
            j
        }
    }

    /// How `select_left` changes the state: the selection endpoint (created
    /// at the caret when absent) steps one codepoint backward; if it lands
    /// on the caret, selection mode is exited (so the call is a no-op at the
    /// buffer's start in caret mode).
    pub open spec fn select_left_post(pre: Self, post: Self) -> bool {
        let t = pre.text_bytes();
        let j = match pre.sel_pos() {
            Some(p) => p,
            None => pre.caret_pos(),
        };
        let j2 = if 0 < j {
            j - length_of_last_scalar(t.subrange(0, j))
        } else {
            j
        };
        &&& post.text_bytes() == t
        &&& post.caret_pos() == pre.caret_pos()
        &&& post.sel_pos() == if j2 == pre.caret_pos() {
            None::<int>
        } else {
            Some(j2)
        }
    }

    /// How `select_right` changes the state: the selection endpoint (created
    /// at the caret when absent) steps one codepoint forward; if it lands on
    /// the caret, selection mode is exited (so the call is a no-op at the
    /// buffer's end in caret mode).
    pub open spec fn select_right_post(pre: Self, post: Self) -> bool {
        let t = pre.text_bytes();
        let j = match pre.sel_pos() {
            Some(p) => p,
            None => pre.caret_pos(),
        };
        let j2 = if j < t.len() {
            j + length_of_first_scalar(t.subrange(j, t.len() as int))
        } else {
            j
        };
        &&& post.text_bytes() == t
        &&& post.caret_pos() == pre.caret_pos()
        &&& post.sel_pos() == if j2 == pre.caret_pos() {
            None::<int>
        } else {
            Some(j2)
        }
    }
}

/// Replace the byte range `[a, b)` of `text` by `ins`, where `a` and `b` are
/// codepoint boundaries and `ins` is itself valid UTF-8.  Returns the new
/// buffer together with the offset just past the inserted bytes, which is a
/// boundary of the new buffer again.
fn replace_range(text: &Vec<u8>, a: usize, b: usize, ins: &Vec<u8>) -> (r: (Vec<u8>, usize))
    requires
        valid_utf8(text@),
        is_char_boundary(text@, a as int),
        is_char_boundary(text@, b as int),
        a <= b,
        valid_utf8(ins@),
    ensures
        r.0@ == text@.subrange(0, a as int) + ins@ + text@.subrange(b as int, text@.len() as int),
        r.1 == a + ins@.len(),
        valid_utf8(r.0@),
        is_char_boundary(r.0@, r.1 as int),
{
    proof {
        lemma_boundary_in_range(text@, b as int);
        valid_utf8_split(text@, a as int);
        valid_utf8_split(text@, b as int);
        valid_utf8_concat(text@.subrange(0, a as int), ins@);
        lemma_concat_boundary(
            text@.subrange(0, a as int) + ins@,
            text@.subrange(b as int, text@.len() as int),
        );
    }
    let mut t: Vec<u8> = Vec::new();
    t.extend_from_slice(slice_subrange(text.as_slice(), 0, a));
    t.extend_from_slice(ins.as_slice());
    let after_ins = t.len();
    t.extend_from_slice(slice_subrange(text.as_slice(), b, text.len()));
    proof {
        assert(t@ =~= text@.subrange(0, a as int) + ins@ + text@.subrange(
            b as int,
            text@.len() as int,
        ));
    }
    (t, after_ins)
}

impl Default for InputFieldState {
    /// An empty buffer with the caret at 0, in caret mode.
    fn default() -> (r: Self)
        ensures
            r.text_bytes() == Seq::<u8>::empty(),
            r.caret_pos() == 0,
            r.sel_pos() is None,
            r.cursor_in_bounds(),
    {
        InputFieldState { text: Vec::new(), caret: 0, caret2: None }
    }
}

impl InputFieldState {
    /// The current buffer contents; no mutation.
    pub fn text(&self) -> (r: &str)
        ensures
            r.spec_bytes() == self.text_bytes(),
            r@ == self.text_chars(),
    {
        proof {
            use_type_invariant(self);
        }
        let r = str_of_bytes(self.text.as_slice());
        proof {
            encode_utf8_decode_utf8(r@);
        }
        r
    }

    /// The current cursor: a caret at a byte offset, or the normalized
    /// selection range.
    pub fn cursor(&self) -> (r: Cursor)
        ensures
            match r {
                Cursor::Caret(p) => self.sel_pos() is None && p == self.caret_pos(),
                Cursor::Selection { start, end } => {
                    &&& self.sel_pos() is Some
                    &&& start == self.sel_start()
                    &&& end == self.sel_end()
                },
            },
    {
        match self.caret2 {
            None => Cursor::Caret(self.caret),
            Some(caret2) => {
                let (start, end) = range(self.caret, caret2);
                Cursor::Selection { start, end }
            },
        }
    }

    /// Reset the buffer to empty, the caret to 0, and exit selection mode.
    pub fn clear(&mut self)
        ensures
            final(self).text_bytes() == Seq::<u8>::empty(),
            final(self).caret_pos() == 0,
            final(self).sel_pos() is None,
            final(self).cursor_in_bounds(),
    {
        self.take_text();
    }

    /// Return the current buffer contents and reset the state exactly as
    /// `clear` does.
    pub fn take_text(&mut self) -> (r: String)
        ensures
            r@ == old(self).text_chars(),
            encode_utf8(r@) == old(self).text_bytes(),
            final(self).text_bytes() == Seq::<u8>::empty(),
            final(self).caret_pos() == 0,
            final(self).sel_pos() is None,
            final(self).cursor_in_bounds(),
    {
        proof {
            use_type_invariant(&*self);
        }
        let s = str_of_bytes(self.text.as_slice());
        proof {
            encode_utf8_decode_utf8(s@);
        }
        let r = String::from_str(s);
        *self = InputFieldState { text: Vec::new(), caret: 0, caret2: None };
        r
    }

    /// Whether a selection endpoint is present.
    pub fn is_in_selection_mode(&self) -> (r: bool)
        ensures
            r == (self.sel_pos() is Some),
    {
        self.caret2.is_some()
    }

    /// Whether the caret sits one past the last byte of the buffer.
    pub fn caret_is_at_end(&self) -> (r: bool)
        ensures
            r == (self.caret_pos() == self.text_bytes().len()),
    {
        self.caret == self.text.len()
    }

    /// Collapse any selection and jump the caret to the buffer's start.
    pub fn caret_left_end(&mut self)
        ensures
            final(self).text_bytes() == old(self).text_bytes(),
            final(self).caret_pos() == 0,
            final(self).sel_pos() is None,
            final(self).cursor_in_bounds(),
    {
        proof {
            use_type_invariant(&*self);
        }
        if self.caret2.is_some() {
            self.caret2 = None;
        }
        self.caret = 0;
    }

    /// Collapse any selection and jump the caret one past the buffer's last
    /// byte.
    pub fn caret_right_end(&mut self)
        ensures
            final(self).text_bytes() == old(self).text_bytes(),
            final(self).caret_pos() == final(self).text_bytes().len(),
            final(self).sel_pos() is None,
            final(self).cursor_in_bounds(),
    {
        proof {
            use_type_invariant(&*self);
            is_char_boundary_start_end_of_seq(self.text@);
        }
        if self.caret2.is_some() {
            self.caret2 = None;
        }
        self.caret = self.text.len();
    }

    /// If in selection mode, delete the selection first (collapsing to caret
    /// mode at the deletion point); then insert the UTF-8 encoding of `c` at
    /// the caret and advance the caret past it.
    pub fn insert(&mut self, c: char)
        ensures
            Self::insert_post(*old(self), c, *final(self)),
            final(self).cursor_in_bounds(),
    {
        proof {
            use_type_invariant(&*self);
        }
        let (a, b) = match self.caret2 {
            Some(c2) => range(self.caret, c2),
            None => (self.caret, self.caret),
        };
        let enc = encode_char(c);
        proof {
            lemma_encode_scalar_single(c);
        }
        let (t, after_ins) = replace_range(&self.text, a, b, &enc);
        *self = InputFieldState { text: t, caret: after_ins, caret2: None };
    }

    /// Delete the selection: remove the normalized range, put the caret at
    /// its start, exit selection mode.
    fn delete_selection(&mut self)
        requires
            old(self).caret2 is Some,
        ensures
            Self::delete_selection_post(*old(self), *final(self)),
            final(self).cursor_in_bounds(),
    {
        proof {
            use_type_invariant(&*self);
        }
        let c2 = self.caret2.unwrap();
        let (a, b) = range(self.caret, c2);
        let empty: Vec<u8> = Vec::new();
        let (t, after_ins) = replace_range(&self.text, a, b, &empty);
        *self = InputFieldState { text: t, caret: after_ins, caret2: None };
    }

    /// In selection mode, delete the selected range and collapse.  In caret
    /// mode, remove the codepoint just before the caret and move the caret
    /// back over it; a no-op when the caret is already at 0.
    pub fn delete_backward(&mut self)
        ensures
            Self::delete_backward_post(*old(self), *final(self)),
            final(self).cursor_in_bounds(),
    {
        proof {
            use_type_invariant(&*self);
        }
        if self.caret2.is_some() {
            self.delete_selection();
            return ;
        }
        let mut idx = self.caret;
        if step_prev(self.text.as_slice(), &mut idx) {
            let empty: Vec<u8> = Vec::new();
            let (t, after_ins) = replace_range(&self.text, idx, self.caret, &empty);
            *self = InputFieldState { text: t, caret: after_ins, caret2: None };
        }
    }

    /// In selection mode, delete the selected range and collapse.  In caret
    /// mode, remove the codepoint starting at the caret; a no-op when the
    /// caret is at the end.
    pub fn delete_forward(&mut self)
        ensures
            Self::delete_forward_post(*old(self), *final(self)),
            final(self).cursor_in_bounds(),
    {
        proof {
            use_type_invariant(&*self);
        }
        if self.caret2.is_some() {
            self.delete_selection();
            return ;
        }
        proof {
            vstd::std_specs::vec::axiom_spec_len(&self.text);
        }
        match cp_len_at(self.text.as_slice(), self.caret) {
            None => {},
            Some(l) => {
                let empty: Vec<u8> = Vec::new();
                let k = self.caret;
                let (t, _after_ins) = replace_range(&self.text, k, k + l, &empty);
                *self = InputFieldState { text: t, caret: k, caret2: None };
            },
        }
    }

    /// Collapse any selection to its moving endpoint, then step the caret
    /// one codepoint backward; a no-op at the buffer's start.
    pub fn caret_left(&mut self)
        ensures
            Self::caret_left_post(*old(self), *final(self)),
            final(self).cursor_in_bounds(),
    {
        proof {
            use_type_invariant(&*self);
        }
        match self.caret2 {
            Some(c2) => {
                self.caret2 = None;
                self.caret = c2;
            },
            None => {},
        }
        let mut idx = self.caret;
        step_prev(self.text.as_slice(), &mut idx);
        self.caret = idx;
    }

    /// Collapse any selection to its moving endpoint, then step the caret
    /// one codepoint forward; a no-op at the buffer's end.
    pub fn caret_right(&mut self)
        ensures
            Self::caret_right_post(*old(self), *final(self)),
            final(self).cursor_in_bounds(),
    {
        proof {
            use_type_invariant(&*self);
        }
        match self.caret2 {
            Some(c2) => {
                self.caret2 = None;
                self.caret = c2;
            },
            None => {},
        }
        let mut idx = self.caret;
        step_next(self.text.as_slice(), &mut idx);
        self.caret = idx;
    }

    /// `<S-LEFT>` by convention: extend (or create) the selection by one
    /// codepoint to the left; collapses back to caret mode when the
    /// endpoint lands on the caret.
    pub fn select_left(&mut self)
        ensures
            Self::select_left_post(*old(self), *final(self)),
            final(self).cursor_in_bounds(),
    {
        proof {
            use_type_invariant(&*self);
        }
        match self.caret2 {
            Some(c2) => {
                let mut idx = c2;
                step_prev(self.text.as_slice(), &mut idx);
                if idx == self.caret {
                    self.caret2 = None;
                } else {
                    self.caret2 = Some(idx);
                }
            },
            None => {
                let mut idx = self.caret;
                if step_prev(self.text.as_slice(), &mut idx) {
                    self.caret2 = Some(idx);
                }
            },
        }
    }

    /// `<S-RIGHT>` by convention: extend (or create) the selection by one
    /// codepoint to the right; collapses back to caret mode when the
    /// endpoint lands on the caret.
    pub fn select_right(&mut self)
        ensures
            Self::select_right_post(*old(self), *final(self)),
            final(self).cursor_in_bounds(),
    {
        proof {
            use_type_invariant(&*self);
        }
        match self.caret2 {
            Some(c2) => {
                let mut idx = c2;
                step_next(self.text.as_slice(), &mut idx);
                if idx == self.caret {
                    self.caret2 = None;
                } else {
                    self.caret2 = Some(idx);
                }
            },
            None => {
                let mut idx = self.caret;
                if step_next(self.text.as_slice(), &mut idx) {
                    self.caret2 = Some(idx);
                }
            },
        }
    }

    /// Extend (or create) the selection with its endpoint jumping to the
    /// buffer's start; collapses back to caret mode when the caret is
    /// already there.
    pub fn select_left_end(&mut self)
        ensures
            final(self).text_bytes() == old(self).text_bytes(),
            final(self).caret_pos() == old(self).caret_pos(),
            final(self).sel_pos() == if old(self).caret_pos() == 0 {
                None::<int>
            } else {
                Some(0int)
            },
            final(self).cursor_in_bounds(),
    {
        proof {
            use_type_invariant(&*self);
        }
        if self.caret == 0 {
            self.caret2 = None;
        } else {
            self.caret2 = Some(0);
        }
    }

    /// Extend (or create) the selection with its endpoint jumping one past
    /// the buffer's last byte; collapses back to caret mode when the caret
    /// is already there.
    pub fn select_right_end(&mut self)
        ensures
            final(self).text_bytes() == old(self).text_bytes(),
            final(self).caret_pos() == old(self).caret_pos(),
            final(self).sel_pos() == if old(self).caret_pos() == old(self).text_bytes().len() {
                None::<int>
            } else {
                Some(old(self).text_bytes().len() as int)
            },
            final(self).cursor_in_bounds(),
    {
        proof {
            use_type_invariant(&*self);
            is_char_boundary_start_end_of_seq(self.text@);
        }
        let n = self.text.len();
        if self.caret == n {
            self.caret2 = None;
        } else {
            self.caret2 = Some(n);
        }
    }

    /// The selected substring, present exactly in selection mode.
    pub fn selected_text(&self) -> (r: Option<&str>)
        ensures
            match r {
                None => self.sel_pos() is None,
                Some(s) => {
                    &&& self.sel_pos() is Some
                    &&& s.spec_bytes() == self.text_bytes().subrange(
                        self.sel_start(),
                        self.sel_end(),
                    )
                },
            },
    {
        proof {
            use_type_invariant(self);
        }
        match self.caret2 {
            None => None,
            Some(c2) => {
                let (a, b) = range(self.caret, c2);
                proof {
                    lemma_boundary_in_range(self.text@, b as int);
                    lemma_boundary_in_suffix(self.text@, a as int, b as int);
                    let suf = self.text@.subrange(a as int, self.text@.len() as int);
                    valid_utf8_split(suf, b - a);
                    assert(suf.subrange(0, b - a) =~= self.text@.subrange(a as int, b as int));
                }
                Some(str_of_bytes(slice_subrange(self.text.as_slice(), a, b)))
            },
        }
    }

    /// Insert each codepoint of `text` in order at the current position:
    /// the first insertion replaces any selection, the rest follow it, and
    /// inserting the empty string changes nothing.
    pub fn insert_text(&mut self, text: &str)
        ensures
            Self::insert_text_post(*old(self), text@, *final(self)),
            final(self).cursor_in_bounds(),
    {
        proof {
            use_type_invariant(&*self);
        }
        let n = text.unicode_len();
        let mut i: usize = 0;
        while i < n
            invariant
                n == text@.len(),
                0 <= i <= n,
                old(self).cursor_in_bounds(),
                Self::insert_text_post(*old(self), text@.subrange(0, i as int), *self),
            decreases n - i,
        {
            let ghost mid = *self;
            let c = text.get_char(i);
            self.insert(c);
            proof {
                Self::lemma_insert_text_step(*old(self), mid, *self, text@, i as int);
            }
            i += 1;
        }
        proof {
            use_type_invariant(&*self);
            assert(text@.subrange(0, n as int) =~= text@);
        }
    }

    /// Extending the insertion of a string prefix by inserting the next
    /// character yields the insertion of the longer prefix.
    proof fn lemma_insert_text_step(pre: Self, mid: Self, post: Self, s: Seq<char>, i: int)
        requires
            pre.cursor_in_bounds(),
            0 <= i < s.len(),
            Self::insert_text_post(pre, s.subrange(0, i), mid),
            Self::insert_post(mid, s[i], post),
        ensures
            Self::insert_text_post(pre, s.subrange(0, i + 1), post),
    {
        let c = s[i];
        let e = encode_scalar(c as u32);
        let t = pre.text_bytes();
        let a = pre.sel_start();
        let b = pre.sel_end();
        lemma_boundary_in_range(t, a);
        lemma_boundary_in_range(t, b);
        lemma_encode_scalar_single(c);
        lemma_encode_utf8_push(s.subrange(0, i), c);
        assert(s.subrange(0, i).push(c) =~= s.subrange(0, i + 1));
        if i == 0 {
            assert(mid == pre);
            assert(encode_utf8(s.subrange(0, 1)) =~= e) by {
                assert(s.subrange(0, 0) =~= Seq::<char>::empty());
                assert(encode_utf8(Seq::<char>::empty()) =~= Seq::<u8>::empty());
                assert(Seq::<u8>::empty() + e =~= e);
            }
            assert(Self::replaced(pre, encode_utf8(s.subrange(0, 1))) =~= Self::replaced(pre, e));
        } else {
            let ei = encode_utf8(s.subrange(0, i));
            // mid is pre with the selection replaced by the encoded prefix
            assert(mid.text_bytes() == t.subrange(0, a) + ei + t.subrange(b, t.len() as int));
            assert(mid.caret_pos() == a + ei.len());
            assert(mid.sel_start() == mid.caret_pos() && mid.sel_end() == mid.caret_pos());
            // inserting c at mid's caret appends e right after the prefix
            assert(mid.text_bytes().subrange(0, a + ei.len()) =~= t.subrange(0, a) + ei);
            assert(mid.text_bytes().subrange(
                a + ei.len(),
                mid.text_bytes().len() as int,
            ) =~= t.subrange(b, t.len() as int));
            assert(post.text_bytes() =~= t.subrange(0, a) + (ei + e) + t.subrange(
                b,
                t.len() as int,
            ));
        }
    }

    /// If in selection mode, hand the selected substring to the clipboard
    /// adapter and report its outcome; editor state is never mutated.  In
    /// caret mode nothing is written and the call succeeds.
    pub fn copy<C: Clipboard>(&self, clipboard: &mut C) -> (r: Result<(), ClipboardError>)
        ensures
            self.sel_pos() is None ==> r is Ok,
    {
        match self.selected_text() {
            None => Ok(()),
            Some(s) => clipboard.write_text(s),
        }
    }

    /// Read text from the clipboard adapter; on success insert it codepoint
    /// by codepoint at the current position (replacing any selection), on
    /// failure report the error with the editor state unchanged.
    pub fn paste<C: Clipboard>(&mut self, clipboard: &mut C) -> (r: Result<(), ClipboardError>)
        ensures
            r is Ok ==> exists|s: Seq<char>|
                Self::insert_text_post(*old(self), s, *final(self)),
            r is Err ==> *final(self) == *old(self),
            final(self).cursor_in_bounds(),
    {
        match clipboard.read_text() {
            Ok(t) => {
                self.insert_text(t.as_str());
                proof {
                    assert(Self::insert_text_post(*old(self), t@, *self));
                }
                Ok(())
            },
            Err(e) => {
                proof {
                    use_type_invariant(&*self);
                }
                Err(e)
            },
        }
    }
}

/// Boundary invariant: in every reachable state the caret and, if present,
/// the selection endpoint are codepoint-boundary offsets in
/// `[0, len(text)]`; in particular the buffer on either side of each offset
/// is itself valid UTF-8, so no offset ever splits a multi-byte encoding.
/// Every constructor and operation of `InputFieldState` establishes
/// `cursor_in_bounds`, so this holds of every reachable state.
pub proof fn lemma_boundary_invariant(s: InputFieldState)
    requires
        s.cursor_in_bounds(),
    ensures
        0 <= s.caret_pos() <= s.text_bytes().len(),
        valid_utf8(s.text_bytes().subrange(0, s.caret_pos())),
        valid_utf8(s.text_bytes().subrange(s.caret_pos(), s.text_bytes().len() as int)),
        match s.sel_pos() {
            Some(p) => {
                &&& 0 <= p <= s.text_bytes().len()
                &&& valid_utf8(s.text_bytes().subrange(0, p))
                &&& valid_utf8(s.text_bytes().subrange(p, s.text_bytes().len() as int))
            },
            None => true,
        },
{
    lemma_boundary_in_range(s.text_bytes(), s.caret_pos());
    valid_utf8_split(s.text_bytes(), s.caret_pos());
    match s.sel_pos() {
        Some(p) => {
            lemma_boundary_in_range(s.text_bytes(), p);
            valid_utf8_split(s.text_bytes(), p);
        },
        None => {},
    }
}

/// Insert/delete round trip: from any caret-mode state, `insert(c)` followed
/// by `delete_backward()` restores the buffer and the caret exactly, for
/// every codepoint `c`.
pub proof fn lemma_insert_delete_round_trip(
    s0: InputFieldState,
    c: char,
    s1: InputFieldState,
    s2: InputFieldState,
)
    requires
        s0.cursor_in_bounds(),
        s0.sel_pos() is None,
        InputFieldState::insert_post(s0, c, s1),
        InputFieldState::delete_backward_post(s1, s2),
    ensures
        s2.text_bytes() == s0.text_bytes(),
        s2.caret_pos() == s0.caret_pos(),
        s2.sel_pos() is None,
{
    let t = s0.text_bytes();
    let k = s0.caret_pos();
    let e = encode_scalar(c as u32);
    let pre = t.subrange(0, k);
    let suf = t.subrange(k, t.len() as int);
    lemma_boundary_in_range(t, k);
    valid_utf8_split(t, k);
    lemma_encode_scalar_single(c);
    assert(s1.text_bytes() == pre + e + suf);
    assert(s1.caret_pos() == k + e.len());
    assert(s1.text_bytes().subrange(0, s1.caret_pos()) =~= pre + e);
    lemma_last_scalar_of_append(pre, e);
    let l = length_of_last_scalar(s1.text_bytes().subrange(0, s1.caret_pos()));
    assert(l == e.len());
    assert(s2.text_bytes() == s1.text_bytes().subrange(0, k) + s1.text_bytes().subrange(
        s1.caret_pos(),
        s1.text_bytes().len() as int,
    ));
    assert(s1.text_bytes().subrange(0, k) =~= pre);
    assert(s1.text_bytes().subrange(s1.caret_pos(), s1.text_bytes().len() as int) =~= suf);
    assert(pre + suf =~= t);
}

/// Multi-byte safety: inserting and then backward-deleting a codepoint with
/// a 4-byte UTF-8 encoding (an emoji, say) leaves the buffer byte-for-byte
/// identical and the caret where it was, whatever surrounding ASCII or
/// multi-byte context the buffer holds.
pub proof fn lemma_multibyte_insert_delete(
    s0: InputFieldState,
    c: char,
    s1: InputFieldState,
    s2: InputFieldState,
)
    requires
        s0.cursor_in_bounds(),
        s0.sel_pos() is None,
        encode_scalar(c as u32).len() == 4,
        InputFieldState::insert_post(s0, c, s1),
        InputFieldState::delete_backward_post(s1, s2),
    ensures
        s2.text_bytes() == s0.text_bytes(),
        s2.caret_pos() == s0.caret_pos(),
        s2.sel_pos() is None,
{
    lemma_insert_delete_round_trip(s0, c, s1, s2);
}

/// Selection collapse on plain navigation, rightward: with a selection
/// anchored at the caret and endpoint `b` to its right, `caret_right` exits
/// selection mode and steps the caret one codepoint forward from `b` — not
/// from the anchor — staying at `b` only when `b` is already the buffer's
/// end.
pub proof fn lemma_caret_right_collapse(s0: InputFieldState, s1: InputFieldState)
    requires
        s0.cursor_in_bounds(),
        s0.sel_pos() is Some,
        s0.caret_pos() < s0.sel_pos()->0,
        InputFieldState::caret_right_post(s0, s1),
    ensures
        s1.sel_pos() is None,
        s1.text_bytes() == s0.text_bytes(),
        s0.caret_pos() < s1.caret_pos(),
        s0.sel_pos()->0 < s0.text_bytes().len() ==> s1.caret_pos() == s0.sel_pos()->0
            + length_of_first_scalar(
            s0.text_bytes().subrange(s0.sel_pos()->0, s0.text_bytes().len() as int),
        ),
        s0.sel_pos()->0 == s0.text_bytes().len() ==> s1.caret_pos() == s0.sel_pos()->0,
{
    let t = s0.text_bytes();
    let b = s0.sel_pos()->0;
    lemma_boundary_in_range(t, b);
    if b < t.len() {
        crate::scanner::lemma_scalar_after_boundary(t, b);
    }
}

/// Selection collapse on plain navigation, leftward: with a selection
/// anchored at the caret and endpoint `a` to its left, `caret_left` exits
/// selection mode and steps the caret one codepoint backward from `a` — not
/// from the anchor — staying at `a` only when `a` is already 0.
pub proof fn lemma_caret_left_collapse(s0: InputFieldState, s1: InputFieldState)
    requires
        s0.cursor_in_bounds(),
        s0.sel_pos() is Some,
        s0.sel_pos()->0 < s0.caret_pos(),
        InputFieldState::caret_left_post(s0, s1),
    ensures
        s1.sel_pos() is None,
        s1.text_bytes() == s0.text_bytes(),
        s1.caret_pos() < s0.caret_pos(),
        0 < s0.sel_pos()->0 ==> s1.caret_pos() == s0.sel_pos()->0 - length_of_last_scalar(
            s0.text_bytes().subrange(0, s0.sel_pos()->0),
        ) && s1.caret_pos() < s0.sel_pos()->0,
        s0.sel_pos()->0 == 0 ==> s1.caret_pos() == 0,
{
    let t = s0.text_bytes();
    let a = s0.sel_pos()->0;
    lemma_boundary_in_range(t, a);
    if 0 < a {
        crate::scanner::lemma_scalar_before_boundary(t, a);
    }
}

} // verus!
