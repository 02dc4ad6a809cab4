//! The multi-cursor text buffer.
use vstd::prelude::*;
use vstd::string::*;

use crate::cursor::{Cursor, IdxSize};
use crate::lines::{
    chars_of, index_at, last_line, lemma_index_at_within, lemma_line_of_offset, line_len, line_begin, line_bounds, line_end_from, pos_in, text_pos,
    lemma_line_begin_at,
};
use crate::keyboard::{same_text, Bindings, Keyboard};
use crate::words::{char_string, jump_target, word_jump};
use crate::splice::{
    all_at_most, lemma_spliced_len, lemma_total_len_grows, lemma_total_len_step, splice_at, spliced,
    strictly_increasing, texts, total_len,
};
use crate::regions::{
    descending, lemma_merge_order_independent, lemma_sequential_removal, remove_each, remove_one,
    add_region, cut, cut_regions, ends_within, insert_region, lemma_merged_canonical, lemma_merged_ends_within,
    lemma_shifted_bounds, merged, same_cover, separated, shift_index, shifted, well_formed, Region,
};

verus! {

/// The class of the last character typed, used to group edits for undo.
#[derive(Clone, Copy, Debug, PartialEq, Eq, Structural)]
pub enum CharClass {
    Alphabetic,
    Numeric,
    Other,
}

/// Names what `char::is_alphabetic` answers for a character.
pub uninterp spec fn alphabetic(c: char) -> bool;

/// Names what `char::is_numeric` answers for a character.
pub uninterp spec fn numeric(c: char) -> bool;

/// Relies on `char::is_alphabetic`, the Unicode `Alphabetic` property.
#[verifier::external_body]
fn is_alphabetic(c: char) -> (r: bool)
    ensures
        r == alphabetic(c),
{
    c.is_alphabetic()
}

/// Relies on `char::is_numeric`, the Unicode numeric general categories.
#[verifier::external_body]
fn is_numeric(c: char) -> (r: bool)
    ensures
        r == numeric(c),
{
    c.is_numeric()
}

/// Names what `str::to_lowercase` returns for a text.
pub uninterp spec fn lower_of(s: Seq<char>) -> Seq<char>;

/// Relies on `str::to_lowercase`: the lowercase mapping of each character,
/// which depends on the text alone.
#[verifier::external_body]
fn lowercase(s: &str) -> (r: String)
    ensures
        r@ == lower_of(s@),
{
    s.to_lowercase()
}

/// The symbol a key gives with shift held, for the keys that have one.
pub open spec fn shift_symbol(c: char) -> Option<char> {
    match c {
        '`' => Some('~'),
        '1' => Some('!'),
        '2' => Some('@'),
        '3' => Some('#'),
        '4' => Some('$'),
        '5' => Some('%'),
        '6' => Some('^'),
        '7' => Some('&'),
        '8' => Some('*'),
        '9' => Some('('),
        '0' => Some(')'),
        '-' => Some('_'),
        '=' => Some('+'),
        '[' => Some('{'),
        ']' => Some('}'),
        '\\' => Some('|'),
        ';' => Some(':'),
        '\'' => Some('"'),
        ',' => Some('<'),
        '.' => Some('>'),
        '/' => Some('?'),
        _ => None,
    }
}

fn shift_symbol_of(c: char) -> (r: Option<char>)
    ensures
        r == shift_symbol(c),
{
    match c {
        '`' => Some('~'),
        '1' => Some('!'),
        '2' => Some('@'),
        '3' => Some('#'),
        '4' => Some('$'),
        '5' => Some('%'),
        '6' => Some('^'),
        '7' => Some('&'),
        '8' => Some('*'),
        '9' => Some('('),
        '0' => Some(')'),
        '-' => Some('_'),
        '=' => Some('+'),
        '[' => Some('{'),
        ']' => Some('}'),
        '\\' => Some('|'),
        ';' => Some(':'),
        '\'' => Some('"'),
        ',' => Some('<'),
        '.' => Some('>'),
        '/' => Some('?'),
        _ => None,
    }
}

/// The text a key types: with shift, a symbol key gives its symbol and any
/// other key its own name; without, the name in lowercase.
pub open spec fn key_text(shift: bool, key: Seq<char>) -> Seq<char> {
    if shift {
        if key.len() == 1 && shift_symbol(key[0]) is Some {
            seq![shift_symbol(key[0])->0]
        } else {
            key
        }
    } else {
        lower_of(key)
    }
}

/// `k` spaces.
pub open spec fn spaces(k: int) -> Seq<char> {
    Seq::new(k as nat, |_i: int| ' ')
}

/// What a tab inserts at a caret in column `col`: spaces up to the next
/// multiple of four.
pub open spec fn tab_fill(col: int) -> Seq<char> {
    spaces(4 - col % 4)
}

/// `n` copies of `t`.
pub open spec fn copies(n: int, t: Seq<char>) -> Seq<Seq<char>> {
    Seq::new(n as nat, |_i: int| t)
}

/// The class of a typed character.
pub open spec fn class_of(c: char) -> CharClass {
    if alphabetic(c) {
        CharClass::Alphabetic
    } else if numeric(c) {
        CharClass::Numeric
    } else {
        CharClass::Other
    }
}

/// `c` with the column of its offset in `s` as its preferred column.
pub open spec fn remember_column(c: Cursor, s: Seq<char>) -> Cursor {
    Cursor {
        idx: c.idx,
        selection_idx: c.selection_idx,
        preferred_column: text_pos(s, c.idx as int).1 as IdxSize,
    }
}

/// `c` is a plain caret at `p` that remembers the column of `p` in `s`.
pub open spec fn is_caret(c: Cursor, s: Seq<char>, p: int) -> bool {
    &&& c.idx == p
    &&& c.selection_idx is None
    &&& c.preferred_column == text_pos(s, p).1 as IdxSize
}

/// The selected spans of the cursors that have a selection, in order.
pub open spec fn selected_ranges(cs: Seq<Cursor>) -> Seq<Region>
    decreases cs.len(),
{
    if cs.len() == 0 {
        Seq::empty()
    } else {
        let rest = selected_ranges(cs.drop_last());
        if cs.last().selection_idx is Some {
            rest.push(cs.last().range_of())
        } else {
            rest
        }
    }
}

/// `c` with its selection dropped.
pub open spec fn deselected(c: Cursor) -> Cursor {
    Cursor { idx: c.idx, selection_idx: None, preferred_column: c.preferred_column }
}

/// `c` after a horizontal step without the selection modifier, in a text of
/// length `n`: a selection collapses to its left or right edge; a caret
/// moves one place that way if `step` is set and the text allows.
pub open spec fn stepped(c: Cursor, left: bool, step: bool, n: int) -> Cursor {
    let idx: int = match c.selection_idx {
        Some(s) => if left == (s <= c.idx) {
            s as int
        } else {
            c.idx as int
        },
        None => if !step {
            c.idx as int
        } else if left {
            if c.idx > 0 {
                c.idx - 1
            } else {
                0
            }
        } else if c.idx < n {
            c.idx + 1
        } else {
            c.idx as int
        },
    };
    Cursor { idx: idx as IdxSize, selection_idx: None, preferred_column: c.preferred_column }
}

/// How many of the cursors stand before offset `p`.
pub open spec fn count_below(cs: Seq<Cursor>, p: int) -> int
    decreases cs.len(),
{
    if cs.len() == 0 {
        0
    } else {
        count_below(cs.drop_last(), p) + if cs.last().idx < p {
            1int
        } else {
            0int
        }
    }
}

/// The offsets of the cursors.
pub open spec fn offsets(cs: Seq<Cursor>) -> Seq<usize> {
    cs.map_values(|c: Cursor| c.idx)
}

/// The cursors stand at strictly increasing offsets, none of them at `p`.
pub open spec fn apart_from(cs: Seq<Cursor>, p: int) -> bool {
    &&& forall|i: int, k: int| 0 <= i < k < cs.len() ==> #[trigger] cs[i].idx < #[trigger] cs[k].idx
    &&& forall|i: int| 0 <= i < cs.len() ==> #[trigger] cs[i].idx != p
}

/// The cursors before `p` come first, the others after.
pub proof fn lemma_count_below_split(cs: Seq<Cursor>, p: int)
    requires
        apart_from(cs, p),
    ensures
        0 <= count_below(cs, p) <= cs.len(),
        forall|i: int| 0 <= i < count_below(cs, p) ==> #[trigger] cs[i].idx < p,
        forall|i: int| count_below(cs, p) <= i < cs.len() ==> #[trigger] cs[i].idx > p,
    decreases cs.len(),
{
    if cs.len() > 0 {
        let init = cs.drop_last();
        assert(apart_from(init, p)) by {
            assert forall|i: int, k: int| 0 <= i < k < init.len() implies #[trigger] init[i].idx < #[trigger] init[k].idx by {
                assert(cs[i].idx < cs[k].idx);
            }
            assert forall|i: int| 0 <= i < init.len() implies #[trigger] init[i].idx != p by {
                assert(cs[i].idx != p);
            }
        }
        lemma_count_below_split(init, p);
        let n = cs.len() - 1;
        assert(cs[n].idx != p);
        assert forall|i: int| 0 <= i < n implies #[trigger] cs[i] == init[i] by {}
        if cs[n].idx < p {
            assert forall|i: int| 0 <= i < n implies #[trigger] cs[i].idx < p by {
                assert(cs[i].idx < cs[n].idx);
            }
            if count_below(init, p) < n {
                assert(init[count_below(init, p)].idx > p);
                assert(cs[count_below(init, p)].idx < p);
            }
            assert(count_below(cs, p) == cs.len());
        } else {
            assert forall|i: int| 0 <= i < count_below(cs, p) implies #[trigger] cs[i].idx < p by {
                assert(init[i].idx < p);
            }
            assert forall|i: int| count_below(cs, p) <= i < cs.len() implies #[trigger] cs[i].idx > p by {
                if i < n {
                    assert(init[i].idx > p);
                }
            }
        }
    }
}

/// The offsets of `mid`'s cursors in increasing order, given that its
/// secondaries increase and none stands at the primary's offset.
pub open spec fn ordered_offsets(mid: TextInputHandler) -> Seq<usize> {
    let k = count_below(mid.cursors@, mid.cursor.idx as int);
    let sec = offsets(mid.cursors@);
    sec.take(k) + seq![mid.cursor.idx] + sec.skip(k)
}

/// `pieces` (one per cursor, the primary first) in the order of `ordered_offsets`.
pub open spec fn ordered_pieces(mid: TextInputHandler, pieces: Seq<Seq<char>>) -> Seq<Seq<char>> {
    let k = count_below(mid.cursors@, mid.cursor.idx as int);
    let sec = pieces.skip(1);
    sec.take(k) + seq![pieces[0]] + sec.skip(k)
}

/// Where secondary cursor `i` of `mid` stands among the ordered offsets.
pub open spec fn order_of(mid: TextInputHandler, i: int) -> int {
    if i < count_below(mid.cursors@, mid.cursor.idx as int) {
        i
    } else {
        i + 1
    }
}

/// What a tab inserts at each cursor of `mid`, the primary first.
pub open spec fn tab_pieces(mid: TextInputHandler) -> Seq<Seq<char>> {
    mid.all_cursors().map_values(|c: Cursor| tab_fill(text_pos(mid.content@, c.idx as int).1))
}

/// `c` moved one line up or down in `s`, to its preferred column clamped to
/// the length of that line. Past the first line it goes to the start of the
/// text and forgets its column; past the last, to the end of the text,
/// remembering the length of the line it was on. The selection stays.
pub open spec fn moved_vertically(c: Cursor, s: Seq<char>, up: bool) -> Cursor {
    let l = text_pos(s, c.idx as int).0;
    if up {
        if l == 0 {
            Cursor { idx: 0, selection_idx: c.selection_idx, preferred_column: 0 }
        } else {
            Cursor {
                idx: index_at(s, l - 1, c.preferred_column as int)->0 as IdxSize,
                selection_idx: c.selection_idx,
                preferred_column: c.preferred_column,
            }
        }
    } else if l + 1 > last_line(s) {
        Cursor {
            idx: s.len() as IdxSize,
            selection_idx: c.selection_idx,
            preferred_column: line_len(s, l) as IdxSize,
        }
    } else {
        Cursor {
            idx: index_at(s, l + 1, c.preferred_column as int)->0 as IdxSize,
            selection_idx: c.selection_idx,
            preferred_column: c.preferred_column,
        }
    }
}

/// `c` moved a word left (`left`) or right within its line in `s`; see
/// `left_target` and `right_target`. The selection and column stay.
pub open spec fn word_moved(c: Cursor, s: Seq<char>, left: bool) -> Cursor {
    let p = text_pos(s, c.idx as int);
    let b = line_begin(s, p.0 as nat);
    let line = s.subrange(b, line_end_from(s, b));
    let col = jump_target(line, p.1, left);
    Cursor { idx: (b + col) as IdxSize, selection_idx: c.selection_idx, preferred_column: c.preferred_column }
}

/// `c` with a selection anchored where it stands, unless it has one.
pub open spec fn anchored(c: Cursor) -> Cursor {
    Cursor {
        idx: c.idx,
        selection_idx: if c.selection_idx is None {
            Some(c.idx)
        } else {
            c.selection_idx
        },
        preferred_column: c.preferred_column,
    }
}

/// `c` moved one place left or right within `[0, n]`, its selection kept.
pub open spec fn nudged(c: Cursor, left: bool, n: int) -> Cursor {
    Cursor {
        idx: if left {
            if c.idx > 0 {
                (c.idx - 1) as IdxSize
            } else {
                0
            }
        } else if c.idx < n {
            (c.idx + 1) as IdxSize
        } else {
            c.idx
        },
        selection_idx: c.selection_idx,
        preferred_column: c.preferred_column,
    }
}

/// A key that the handler acts on, other than a typed character.
pub open spec fn named_key(key: Seq<char>) -> bool {
    ||| key == "Tab"@
    ||| key == "Backspace"@
    ||| key == "Delete"@
    ||| key == "Return"@
    ||| key == "Keypad Enter"@
    ||| key == "Left"@
    ||| key == "Right"@
    ||| key == "Up"@
    ||| key == "Down"@
}

/// `c` is a plain caret at `targets[j + 1]` for some `j < n`.
pub open spec fn caret_at_some(c: Cursor, s: Seq<char>, n: int, targets: Seq<int>) -> bool {
    exists|j: int| 0 <= j < n && #[trigger] is_caret(c, s, targets[j + 1])
}

/// The span each cursor removes on a backspace.
pub open spec fn backspace_ranges(cs: Seq<Cursor>) -> Seq<Region> {
    cs.map_values(|c: Cursor| c.backspace_range_of())
}

/// The span each cursor removes on a delete, in a text of length `n`.
pub open spec fn delete_ranges(cs: Seq<Cursor>, n: IdxSize) -> Seq<Region> {
    cs.map_values(|c: Cursor| c.delete_range_of(n))
}

/// The span each cursor selects.
pub open spec fn selection_ranges(cs: Seq<Cursor>) -> Seq<Region> {
    cs.map_values(|c: Cursor| c.range_of())
}

/// A text buffer edited through a primary cursor and any number of secondary ones.
pub struct TextInputHandler {
    pub content: String,
    pub allow_newlines: bool,
    pub max_length: IdxSize,
    pub enforce_max_length: bool,
    pub allow_editing: bool,
    pub cursor: Cursor,
    pub cursors: Vec<Cursor>,
    pub focus_cursor: bool,
    pub update_history: bool,
    pub last_typed: Option<CharClass>,
}

impl TextInputHandler {
    /// Every cursor, the primary first.
    pub open spec fn all_cursors(self) -> Seq<Cursor> {
        seq![self.cursor] + self.cursors@
    }

    /// Every cursor lies within the content.
    pub open spec fn wf(self) -> bool {
        forall|i: int|
            0 <= i < self.all_cursors().len() ==> #[trigger] self.all_cursors()[i].within(
                self.content@.len() as int,
            )
    }

    pub open spec fn allows_newlines(self) -> bool {
        self.allow_newlines
    }

    pub open spec fn allows_editing(self) -> bool {
        self.allow_editing
    }

    /// The length limit, if one is enforced.
    pub open spec fn length_limit(self) -> Option<IdxSize> {
        if self.enforce_max_length {
            Some(self.max_length)
        } else {
            None
        }
    }

    pub open spec fn focus_flag(self) -> bool {
        self.focus_cursor
    }

    pub open spec fn history_flag(self) -> bool {
        self.update_history
    }

    pub open spec fn typed_class(self) -> Option<CharClass> {
        self.last_typed
    }

    /// The same settings as `other`.
    pub open spec fn same_settings(self, other: Self) -> bool {
        &&& self.allow_newlines == other.allow_newlines
        &&& self.allow_editing == other.allow_editing
        &&& self.max_length == other.max_length
        &&& self.enforce_max_length == other.enforce_max_length
    }

    /// The same signal flags as `other`.
    pub open spec fn same_flags(self, other: Self) -> bool {
        &&& self.focus_cursor == other.focus_cursor
        &&& self.update_history == other.update_history
        &&& self.last_typed == other.last_typed
    }

    /// `self` is `before` with every cursor remembering the column it stands in.
    pub open spec fn columns_remembered(self, before: Self) -> bool {
        &&& self.content == before.content
        &&& self.cursor == remember_column(before.cursor, before.content@)
        &&& self.cursors@.len() == before.cursors@.len()
        &&& forall|i: int|
            0 <= i < self.cursors@.len() ==> #[trigger] self.cursors@[i] == remember_column(
                before.cursors@[i],
                before.content@,
            )
    }

    /// `self` is `before` with its secondary cursors sorted by offset, without
    /// duplicates and without any equal to the primary cursor.
    pub open spec fn cursors_truncated(self, before: Self) -> bool {
        &&& self.content == before.content
        &&& self.cursor == before.cursor
        &&& forall|i: int|
            0 <= i < self.cursors@.len() ==> before.cursors@.contains(#[trigger] self.cursors@[i])
                && self.cursors@[i] != self.cursor
        &&& forall|j: int|
            0 <= j < before.cursors@.len() ==> #[trigger] before.cursors@[j] == before.cursor
                || self.cursors@.contains(before.cursors@[j])
        &&& forall|i: int, k: int|
            0 <= i < k < self.cursors@.len() ==> #[trigger] self.cursors@[i]
                != #[trigger] self.cursors@[k] && self.cursors@[i].idx <= self.cursors@[k].idx
    }

    /// `after` is `self` once a backspace is done (see `backspace_at_cursor`).
    pub open spec fn backspaced_into(self, after: Self) -> bool {
        &&& !self.allow_editing ==> after == self
        &&& self.allow_editing ==> after.after_removal(self, backspace_ranges(self.all_cursors()))
        &&& self.allow_editing ==> after.retyped_after(self, merged(backspace_ranges(self.all_cursors())))
    }

    /// `after` is `self` once a delete is done (see `delete_at_cursor`).
    pub open spec fn deleted_into(self, after: Self) -> bool {
        &&& !self.allow_editing ==> after == self
        &&& self.allow_editing ==> after.after_removal(
            self,
            delete_ranges(self.all_cursors(), self.content@.len() as IdxSize),
        )
        &&& self.allow_editing ==> after.same_flags(self)
    }

    /// The most characters the text may hold: the length limit where one is
    /// enforced, else what a `usize` counts.
    pub open spec fn room(self) -> int {
        if self.enforce_max_length {
            self.max_length as int
        } else {
            usize::MAX as int
        }
    }

    /// `after` is `self` once `t` is typed at every caret, the selections
    /// deleted first (`done`), or `self` unchanged (`!done`) where editing is
    /// off or the whole edit would take the text past `room()`.
    pub open spec fn text_inserted(self, after: Self, t: Seq<char>, done: bool) -> bool {
        &&& after.same_settings(self)
        &&& !self.allow_editing ==> after == self && !done
        &&& self.allow_editing ==> exists|mid: Self|
            #[trigger] mid.after_removal(self, selection_ranges(self.all_cursors())) && if mid.content@.len()
                + t.len() * mid.all_cursors().len() <= self.room() {
                &&& done
                &&& after.inserted(mid, copies(mid.all_cursors().len() as int, t))
                &&& after.same_flags(self)
            } else {
                !done && after == self
            }
    }

    /// `after` is `self` once a tab is typed at every caret, the selections
    /// deleted first (`done`), or `self` unchanged (`!done`) where editing is
    /// off or the whole edit would take the text past `room()`.
    pub open spec fn tab_inserted(self, after: Self, done: bool) -> bool {
        &&& after.same_settings(self)
        &&& !self.allow_editing ==> after == self && !done
        &&& self.allow_editing ==> exists|mid: Self|
            #[trigger] mid.after_removal(self, selection_ranges(self.all_cursors())) && if mid.content@.len()
                + total_len(tab_pieces(mid)) <= self.room() {
                &&& done
                &&& after.inserted(mid, tab_pieces(mid))
                &&& after.same_flags(self)
            } else {
                !done && after == self
            }
    }

    /// `u` with the class of a typed character `c` recorded where `done`.
    pub open spec fn class_recorded(self, u: Self, done: bool, c: Option<char>) -> bool {
        &&& self.content == u.content
        &&& self.cursor == u.cursor
        &&& self.cursors == u.cursors
        &&& self.same_settings(u)
        &&& self.focus_cursor == u.focus_cursor
        &&& if done && c is Some {
            let k = class_of(c->0);
            &&& self.last_typed == Some(k)
            &&& self.update_history == (u.update_history || u.last_typed != Some(k))
        } else {
            &&& self.last_typed == u.last_typed
            &&& self.update_history == u.update_history
        }
    }

    /// `after` is `self` once the key `key` is typed with shift held or not
    /// (see `insert_at_cursor`): the key's text goes in as `text_inserted`
    /// says, refused where it would pass the length limit, and a typed
    /// one-character key records its class.
    pub open spec fn typed_into(self, after: Self, shift: bool, key: Seq<char>) -> bool {
        exists|u: Self, done: bool|
            #[trigger] self.text_inserted(u, key_text(shift, key), done) && after.class_recorded(
                u,
                done,
                if key.len() == 1 {
                    Some(key[0])
                } else {
                    None
                },
            )
    }

    /// `after` is `self` once a tab is typed (see `tab_at_cursor`): the
    /// spaces go in as `tab_inserted` says, and a space is recorded as typed.
    pub open spec fn tabbed_into(self, after: Self) -> bool {
        exists|u: Self, done: bool|
            #[trigger] self.tab_inserted(u, done) && after.class_recorded(u, done, Some(' '))
    }

    /// `after` is `self` with `f` applied to every cursor.
    pub open spec fn moved_by(self, after: Self, f: spec_fn(Cursor) -> Cursor) -> bool {
        &&& after.content == self.content
        &&& after.same_settings(self)
        &&& after.same_flags(self)
        &&& after.cursor == f(self.cursor)
        &&& after.cursors@ == self.cursors@.map_values(f)
    }

    /// `self` is `t` with the focus flag raised.
    pub open spec fn focused_from(self, t: Self) -> bool {
        &&& self.content == t.content
        &&& self.cursor == t.cursor
        &&& self.cursors == t.cursors
        &&& self.same_settings(t)
        &&& self.focus_cursor
        &&& self.update_history == t.update_history
        &&& self.last_typed == t.last_typed
    }

    /// What a left or right arrow does to one cursor: with shift it
    /// extends the selection, with ctrl it moves by words, and without
    /// either a selection collapses to its edge and a caret moves one place.
    pub open spec fn horizontal(self, left: bool, shift: bool, ctrl: bool) -> spec_fn(Cursor) -> Cursor {
        let s = self.content@;
        |c: Cursor|
            if shift {
                if ctrl {
                    word_moved(anchored(c), s, left)
                } else {
                    nudged(anchored(c), left, s.len() as int)
                }
            } else if ctrl {
                word_moved(c, s, left)
            } else {
                stepped(c, left, true, s.len() as int)
            }
    }

    /// What an up or down arrow does to one cursor: with shift it extends
    /// the selection, without it the selection ends at its right edge; then
    /// the cursor moves one line.
    pub open spec fn vertical(self, up: bool, shift: bool) -> spec_fn(Cursor) -> Cursor {
        let s = self.content@;
        |c: Cursor|
            moved_vertically(
                if shift {
                    anchored(c)
                } else {
                    stepped(c, false, false, s.len() as int)
                },
                s,
                up,
            )
    }

    /// The steps of a left or right arrow: the cursors move (`m`), the
    /// duplicates go (`t`), the columns are remembered (`u`), and the focus
    /// flag is raised (`after`).
    pub open spec fn horizontal_steps(self, m: Self, t: Self, u: Self, after: Self, left: bool, shift: bool, ctrl: bool) -> bool {
        &&& self.moved_by(m, self.horizontal(left, shift, ctrl))
        &&& t.cursors_truncated(m)
        &&& t.same_settings(m)
        &&& t.same_flags(m)
        &&& u.columns_remembered(t)
        &&& u.same_settings(t)
        &&& u.same_flags(t)
        &&& after.focused_from(u)
    }

    /// The steps of an up or down arrow: the cursors move (`m`), the
    /// duplicates go (`t`), and the focus flag is raised (`after`).
    pub open spec fn vertical_steps(self, m: Self, t: Self, after: Self, up: bool, shift: bool) -> bool {
        &&& self.moved_by(m, self.vertical(up, shift))
        &&& t.cursors_truncated(m)
        &&& t.same_settings(m)
        &&& t.same_flags(m)
        &&& after.focused_from(t)
    }

    /// `after` is `self` once the key `key` is handled (see `process_key`).
    pub open spec fn key_step(self, after: Self, key: Seq<char>, kb: Keyboard, b: Bindings) -> bool {
        if b.any || kb.alt_held {
            after == self
        } else if key.len() == 1 {
            exists|t: Self| #[trigger] self.typed_into(t, kb.shift_held, key) && after.focused_from(t)
        } else if key == "Tab"@ {
            exists|t: Self| #[trigger] self.tabbed_into(t) && after.focused_from(t)
        } else if key == "Backspace"@ {
            exists|t: Self| #[trigger] self.backspaced_into(t) && after.focused_from(t)
        } else if key == "Delete"@ {
            exists|t: Self| #[trigger] self.deleted_into(t) && after.focused_from(t)
        } else if key == "Return"@ || key == "Keypad Enter"@ {
            exists|t: Self|
                #[trigger] self.returned_into(t) && after.content == t.content && after.cursor == t.cursor
                    && after.cursors == t.cursors && after.same_settings(t) && after.focus_cursor
                    && after.update_history && after.last_typed == t.last_typed
        } else if key == "Left"@ || key == "Right"@ {
            let left = key == "Left"@;
            exists|m: Self, t: Self, u: Self|
                #[trigger] self.horizontal_steps(m, t, u, after, left, kb.shift_held, kb.ctrl_held)
        } else if key == "Up"@ || key == "Down"@ {
            let up = key == "Up"@;
            exists|m: Self, t: Self| #[trigger] self.vertical_steps(m, t, after, up, kb.shift_held)
        } else {
            after == self
        }
    }

    /// `after` is `self` once Return is pressed, before the flags: where
    /// newlines are allowed a newline goes in as `text_inserted` says.
    pub open spec fn returned_into(self, after: Self) -> bool {
        if self.allow_newlines {
            exists|done: bool| #[trigger] self.text_inserted(after, seq!['\n'], done)
        } else {
            after == self
        }
    }

    /// Creates a handler over `content` with a single cursor at its start.
    /// `max_length` of `None` sets no limit on the length.
    pub fn new(content: String, allow_newlines: bool, max_length: Option<IdxSize>, allow_editing: bool) -> (r: Self)
        ensures
            r.content@ == content@,
            r.cursor == (Cursor { idx: 0, selection_idx: None, preferred_column: 0 }),
            r.cursors@.len() == 0,
            r.allows_newlines() == allow_newlines,
            r.allows_editing() == allow_editing,
            r.length_limit() == max_length,
            !r.focus_flag(),
            !r.history_flag(),
            r.typed_class() is None,
            r.wf(),
    {
        let r = TextInputHandler {
            content,
            allow_newlines,
            max_length: match max_length {
                Some(m) => m,
                None => 0,
            },
            enforce_max_length: max_length.is_some(),
            allow_editing,
            cursor: Cursor::new(0),
            cursors: Vec::new(),
            focus_cursor: false,
            update_history: false,
            last_typed: None,
        };
        assert(r.all_cursors()[0] == r.cursor);
        r
    }

    /// Whether the cursor moved in a way that should bring it into view.
    /// Reading the flag clears it.
    pub fn should_focus_cursor(&mut self) -> (r: bool)
        ensures
            old(self).wf() ==> final(self).wf(),
            r == old(self).focus_flag(),
            !final(self).focus_flag(),
            final(self).history_flag() == old(self).history_flag(),
            final(self).typed_class() == old(self).typed_class(),
            final(self).content == old(self).content,
            final(self).cursor == old(self).cursor,
            final(self).cursors == old(self).cursors,
            final(self).same_settings(*old(self)),
    {
        let out = self.focus_cursor;
        if out {
            self.set_focus_cursor(false);
        }
        out
    }

    pub fn set_focus_cursor(&mut self, val: bool)
        ensures
            old(self).wf() ==> final(self).wf(),
            final(self).focus_flag() == val,
            final(self).history_flag() == old(self).history_flag(),
            final(self).typed_class() == old(self).typed_class(),
            final(self).content == old(self).content,
            final(self).cursor == old(self).cursor,
            final(self).cursors == old(self).cursors,
            final(self).same_settings(*old(self)),
    {
        let ghost before = *self;
        self.focus_cursor = val;
        proof {
            if before.wf() {
                lemma_wf_same_cursors(before, *self);
            }
        }
    }

    /// Whether an edit boundary was crossed that should be recorded in the
    /// history. Reading the flag clears it.
    pub fn should_update_history(&mut self) -> (r: bool)
        ensures
            old(self).wf() ==> final(self).wf(),
            r == old(self).history_flag(),
            !final(self).history_flag(),
            final(self).focus_flag() == old(self).focus_flag(),
            final(self).typed_class() == old(self).typed_class(),
            final(self).content == old(self).content,
            final(self).cursor == old(self).cursor,
            final(self).cursors == old(self).cursors,
            final(self).same_settings(*old(self)),
    {
        let out = self.update_history;
        if out {
            self.set_update_history(false);
        }
        out
    }

    pub fn set_update_history(&mut self, val: bool)
        ensures
            old(self).wf() ==> final(self).wf(),
            final(self).history_flag() == val,
            final(self).focus_flag() == old(self).focus_flag(),
            final(self).typed_class() == old(self).typed_class(),
            final(self).content == old(self).content,
            final(self).cursor == old(self).cursor,
            final(self).cursors == old(self).cursors,
            final(self).same_settings(*old(self)),
    {
        let ghost before = *self;
        self.update_history = val;
        proof {
            if before.wf() {
                lemma_wf_same_cursors(before, *self);
            }
        }
    }

    /// Records the class of a typed character; a change of class marks an
    /// edit boundary for the history.
    pub fn set_typing_flags(&mut self, c: char)
        ensures
            old(self).wf() ==> final(self).wf(),
            final(self).typed_class() == Some(class_of(c)),
            final(self).history_flag() == (old(self).history_flag() || old(self).typed_class()
                != Some(class_of(c))),
            final(self).focus_flag() == old(self).focus_flag(),
            final(self).content == old(self).content,
            final(self).cursor == old(self).cursor,
            final(self).cursors == old(self).cursors,
            final(self).same_settings(*old(self)),
    {
        let class = if is_alphabetic(c) {
            CharClass::Alphabetic
        } else if is_numeric(c) {
            CharClass::Numeric
        } else {
            CharClass::Other
        };
        let changed = match self.last_typed {
            Some(prev) => prev != class,
            None => true,
        };
        let ghost before = *self;
        self.last_typed = Some(class);
        proof {
            if before.wf() {
                lemma_wf_same_cursors(before, *self);
            }
        }
        if changed {
            self.set_update_history(true);
        }
    }

    /// Line `line` of the content, without its newline, if it exists.
    pub fn get_line(&self, line: IdxSize) -> (r: Option<&str>)
        ensures
            r is Some <==> line <= last_line(self.content@),
            r is Some ==> r->0@ == self.content@.subrange(
                line_begin(self.content@, line as nat),
                line_end_from(self.content@, line_begin(self.content@, line as nat)),
            ),
    {
        let v = chars_of(self.content.as_str());
        match line_bounds(&v, line) {
            Some((b, e)) => {
                proof {
                    crate::lines::lemma_line_bounds_order(v@, line as nat);
                }
                Some(self.content.as_str().substring_char(b, e))
            },
            None => None,
        }
    }

    /// The offset at which line `line` begins. A line just past the last one
    /// is found too when the content does not end with a newline; it begins
    /// at the end of the content.
    pub fn get_line_start_index(&self, line: IdxSize) -> (r: Option<IdxSize>)
        ensures
            line <= last_line(self.content@) ==> r == Some(line_begin(self.content@, line as nat) as IdxSize),
            line == last_line(self.content@) + 1 && self.content@.len() > 0
                && self.content@.last() != '\n' ==> r == Some(self.content@.len() as IdxSize),
            line > last_line(self.content@) + 1 || (line == last_line(self.content@) + 1 && (
            self.content@.len() == 0 || self.content@.last() == '\n')) ==> r is None,
    {
        let v = chars_of(self.content.as_str());
        match line_bounds(&v, line) {
            Some((b, _)) => Some(b),
            None => {
                let n = v.len();
                if line >= 1 && n > 0 && v[n - 1] != '\n' {
                    match line_bounds(&v, line - 1) {
                        Some(_) => Some(n),
                        None => None,
                    }
                } else {
                    None
                }
            },
        }
    }

    /// The line and column of offset `idx`, counted from zero; `None` past
    /// the end of the content. The end itself is a valid position.
    pub fn get_text_pos(&self, idx: IdxSize) -> (r: Option<(IdxSize, IdxSize)>)
        ensures
            r is Some <==> idx <= self.content@.len(),
            match r {
                Some((l, c)) => (l as int, c as int) == text_pos(self.content@, idx as int),
                None => true,
            },
    {
        let v = chars_of(self.content.as_str());
        pos_in(&v, idx)
    }

    /// The offset at column `column` of line `line`, the column clamped to the
    /// line's length; `None` if the line does not exist.
    pub fn get_index(&self, line: IdxSize, column: IdxSize) -> (r: Option<IdxSize>)
        ensures
            match r {
                Some(i) => index_at(self.content@, line as int, column as int) == Some(i as int),
                None => index_at(self.content@, line as int, column as int) is None,
            },
    {
        let v = chars_of(self.content.as_str());
        match line_bounds(&v, line) {
            Some((b, e)) => {
                proof {
                    crate::lines::lemma_line_bounds_order(v@, line as nat);
                }
                if column <= e - b {
                    Some(b + column)
                } else {
                    Some(e)
                }
            },
            None => None,
        }
    }

    /// Drops the secondary cursors and any selection, and puts the cursor at
    /// `idx`, clamped to the length of the content.
    pub fn set_cursor_index(&mut self, idx: IdxSize)
        requires
            old(self).wf(),
        ensures
            final(self).cursors@.len() == 0,
            final(self).cursor.idx == if idx <= old(self).content@.len() { idx as int } else { old(self).content@.len() as int },
            final(self).cursor.selection_idx is None,
            final(self).cursor.preferred_column == old(self).cursor.preferred_column,
            final(self).content == old(self).content,
            final(self).wf(),
    {
        self.cursors.clear();
        let n = self.content.as_str().unicode_len();
        self.cursor.idx = if idx <= n { idx } else { n };
        self.cursor.selection_idx = None;
        assert(self.all_cursors()[0] == self.cursor);
    }

    /// Makes every cursor remember the column it stands in.
    pub fn set_cursor_preference(&mut self)
        requires
            old(self).wf(),
        ensures
            final(self).columns_remembered(*old(self)),
            final(self).same_settings(*old(self)),
            final(self).same_flags(*old(self)),
            final(self).wf(),
    {
        let v = chars_of(self.content.as_str());
        proof {
            assert(self.all_cursors()[0] == self.cursor);
            assert(self.all_cursors()[0].within(self.content@.len() as int));
        }
        let col = match pos_in(&v, self.cursor.idx) {
            Some((_, c)) => c,
            None => 0,
        };
        let mut out: Vec<Cursor> = Vec::new();
        let mut i: usize = 0;
        while i < self.cursors.len()
            invariant
                self.wf(),
                v@ == self.content@,
                i <= self.cursors.len(),
                out@.len() == i,
                forall|j: int|
                    0 <= j < i ==> #[trigger] out@[j] == remember_column(self.cursors@[j], self.content@),
            decreases self.cursors.len() - i,
        {
            let c = self.cursors[i];
            proof {
                assert(self.all_cursors()[i + 1] == c);
                assert(self.all_cursors()[i + 1].within(self.content@.len() as int));
            }
            let col_i = match pos_in(&v, c.idx) {
                Some((_, k)) => k,
                None => 0,
            };
            out.push(Cursor { idx: c.idx, selection_idx: c.selection_idx, preferred_column: col_i });
            i = i + 1;
        }
        let ghost before = *self;
        self.cursor.preferred_column = col;
        self.cursors = out;
        proof {
            assert forall|j: int| 0 <= j < self.all_cursors().len() implies #[trigger] self.all_cursors()[j].within(
                self.content@.len() as int,
            ) by {
                assert(before.all_cursors()[j].within(self.content@.len() as int));
                if j > 0 {
                    assert(self.all_cursors()[j] == self.cursors@[j - 1]);
                    assert(before.all_cursors()[j] == before.cursors@[j - 1]);
                }
            }
        }
    }

    /// Sorts the secondary cursors by offset, and drops duplicates and those
    /// equal to the primary cursor.
    pub fn truncate_cursors(&mut self)
        requires
            old(self).wf(),
        ensures
            final(self).cursors_truncated(*old(self)),
            final(self).same_settings(*old(self)),
            final(self).same_flags(*old(self)),
            final(self).wf(),
    {
        let mut out: Vec<Cursor> = Vec::new();
        let n = self.cursors.len();
        let mut j: usize = 0;
        while j < n
            invariant
                n == self.cursors.len(),
                j <= n,
                forall|i: int|
                    0 <= i < out@.len() ==> self.cursors@.subrange(0, j as int).contains(
                        #[trigger] out@[i],
                    ) && out@[i] != self.cursor,
                forall|m: int|
                    0 <= m < j ==> #[trigger] self.cursors@[m] == self.cursor || out@.contains(
                        self.cursors@[m],
                    ),
                forall|i: int, k: int|
                    0 <= i < k < out@.len() ==> #[trigger] out@[i] != #[trigger] out@[k]
                        && out@[i].idx <= out@[k].idx,
            decreases n - j,
        {
            let c = self.cursors[j];
            let ghost prev = out@;
            let mut found = c == self.cursor;
            let mut pos: usize = 0;
            let mut q: usize = 0;
            while q < out.len()
                invariant
                    out@ == prev,
                    q <= out.len(),
                    forall|a: int, b: int|
                        0 <= a < b < out@.len() ==> #[trigger] out@[a].idx <= #[trigger] out@[b].idx,
                    pos <= q,
                    found ==> (c == self.cursor || out@.contains(c)),
                    !found ==> c != self.cursor && forall|t: int| 0 <= t < q ==> #[trigger] out@[t] != c,
                    forall|t: int| 0 <= t < pos ==> #[trigger] out@[t].idx <= c.idx,
                    forall|t: int| pos <= t < q ==> #[trigger] out@[t].idx > c.idx,
                decreases out.len() - q,
            {
                if out[q] == c {
                    found = true;
                }
                if out[q].idx <= c.idx {
                    proof {
                        assert forall|t: int| pos <= t < q implies #[trigger] out@[t].idx <= c.idx by {
                            assert(out@[t].idx <= out@[q as int].idx);
                        }
                    }
                    pos = q + 1;
                }
                q = q + 1;
            }
            if !found {
                out.insert(pos, c);
                proof {
                    assert forall|i: int, k: int| 0 <= i < k < out@.len() implies #[trigger] out@[i]
                        != #[trigger] out@[k] && out@[i].idx <= out@[k].idx by {
                        if k == pos {
                            assert(out@[i] == prev[i]);
                        } else if i == pos {
                            assert(out@[k] == prev[k - 1]);
                        } else if i < pos && k < pos {
                            assert(out@[i] == prev[i] && out@[k] == prev[k]);
                        } else if i < pos {
                            assert(out@[i] == prev[i] && out@[k] == prev[k - 1]);
                        } else {
                            assert(out@[i] == prev[i - 1] && out@[k] == prev[k - 1]);
                        }
                    }
                    assert(out@[pos as int] == c);
                }
            }
            proof {
                assert forall|i: int| 0 <= i < out@.len() implies self.cursors@.subrange(0, j + 1).contains(
                    #[trigger] out@[i],
                ) && out@[i] != self.cursor by {
                    if !found && i == pos {
                        assert(self.cursors@.subrange(0, j + 1)[j as int] == c);
                    } else {
                        let i0 = if !found && i > pos { i - 1 } else { i };
                        assert(out@[i] == prev[i0]);
                        assert(self.cursors@.subrange(0, j as int).contains(prev[i0]));
                        let w = choose|w: int| 0 <= w < j && self.cursors@.subrange(0, j as int)[w] == prev[i0];
                        assert(self.cursors@.subrange(0, j + 1)[w] == prev[i0]);
                    }
                }
                assert forall|m: int| 0 <= m < j + 1 implies #[trigger] self.cursors@[m] == self.cursor
                    || out@.contains(self.cursors@[m]) by {
                    if m < j && self.cursors@[m] != self.cursor {
                        assert(prev.contains(self.cursors@[m]));
                        let w = choose|w: int| 0 <= w < prev.len() && prev[w] == self.cursors@[m];
                        if !found && w >= pos {
                            assert(out@[w + 1] == prev[w]);
                        } else {
                            assert(out@[w] == prev[w]);
                        }
                    }
                    if m == j && !found {
                        assert(out@[pos as int] == c);
                    }
                }
            }
            j = j + 1;
        }
        let ghost before = *self;
        self.cursors = out;
        proof {
            assert(before.cursors@.subrange(0, n as int) =~= before.cursors@);
            assert forall|i: int| 0 <= i < self.all_cursors().len() implies #[trigger] self.all_cursors()[i].within(
                self.content@.len() as int,
            ) by {
                if i == 0 {
                    assert(before.all_cursors()[0] == self.cursor);
                } else {
                    let c = self.cursors@[i - 1];
                    assert(before.cursors@.contains(c));
                    let w = choose|w: int| 0 <= w < before.cursors@.len() && before.cursors@[w] == c;
                    assert(before.all_cursors()[w + 1] == c);
                }
            }
        }
    }

    /// The cursors are plain carets that remember their columns: the primary
    /// at `targets[0]`, each secondary at `targets[j + 1]` for some `j < n`,
    /// every `targets[j + 1]` taken by some cursor, the secondaries in
    /// increasing order of offset and none at the primary's offset.
    pub open spec fn settled(self, n: int, targets: Seq<int>) -> bool {
        &&& is_caret(self.cursor, self.content@, targets[0])
        &&& forall|j: int|
            0 <= j < n ==> #[trigger] targets[j + 1] == self.cursor.idx || exists|i: int|
                0 <= i < self.cursors@.len() && #[trigger] self.cursors@[i].idx == targets[j + 1]
        &&& forall|i: int|
            0 <= i < self.cursors@.len() ==> caret_at_some(#[trigger] self.cursors@[i], self.content@, n, targets)
        &&& forall|i: int, k: int|
            0 <= i < k < self.cursors@.len() ==> #[trigger] self.cursors@[i].idx
                < #[trigger] self.cursors@[k].idx
        &&& forall|i: int|
            0 <= i < self.cursors@.len() ==> #[trigger] self.cursors@[i].idx != self.cursor.idx
    }

    /// `self` is what is left of `before` once the spans `ranges`, one for
    /// each cursor with the primary first, are merged and taken out: every
    /// cursor becomes a plain caret where the start of its span landed, and
    /// cursors that land together become one.
    pub open spec fn after_removal(self, before: Self, ranges: Seq<Region>) -> bool {
        &&& self.content@ == cut(before.content@, merged(ranges))
        &&& self.same_settings(before)
        &&& self.settled(before.cursors@.len() as int, landing(ranges))
    }

    /// Takes out the merge of `ranges`, one span for each cursor, and puts
    /// each cursor, without selection, where the start of its span landed.
    /// Returns the merged spans.
    fn cut_and_place(&mut self, ranges: Vec<Region>) -> (rs: Vec<Region>)
        requires
            old(self).wf(),
            ranges@.len() == old(self).all_cursors().len(),
            well_formed(ranges@),
            ends_within(ranges@, old(self).content@.len() as int),
        ensures
            rs@ == merged(ranges@),
            final(self).content@ == cut(old(self).content@, rs@),
            final(self).cursor.idx == landing(ranges@)[0],
            final(self).cursor.selection_idx is None,
            final(self).cursors@.len() == old(self).cursors@.len(),
            forall|t: int|
                0 <= t < final(self).cursors@.len() ==> (#[trigger] final(self).cursors@[t]).idx
                    == landing(ranges@)[t + 1] && final(self).cursors@[t].selection_idx is None,
            final(self).same_settings(*old(self)),
            final(self).same_flags(*old(self)),
            final(self).wf(),
    {
        let ghost before = *self;
        let mut ranges = ranges;
        let ghost orig = ranges@;
        let n = ranges.len();
        let mut starts: Vec<usize> = Vec::new();
        let mut i: usize = 0;
        while i < n
            invariant
                n == ranges.len(),
                i <= n,
                starts@.len() == i,
                forall|j: int| 0 <= j < i ==> #[trigger] starts@[j] == ranges@[j].0,
            decreases n - i,
        {
            starts.push(ranges[i].0);
            i = i + 1;
        }
        TextInputHandler::merge_groups(&mut ranges);
        proof {
            lemma_merged_ends_within(orig, before.content@.len() as int);
        }
        let new_content = cut_regions(&self.content, &ranges);
        proof {
            assert forall|j: int| 0 <= j < n implies #[trigger] starts@[j] <= before.content@.len() by {
                assert(orig[j].0 <= orig[j].1);
                assert(orig[j].1 <= before.content@.len());
            }
            lemma_shifted_bounds(before.content@, ranges@, starts@[0] as int);
        }
        let primary_at = shift_index(&ranges, starts[0]);
        let mut moved: Vec<Cursor> = Vec::new();
        let m = self.cursors.len();
        let mut j: usize = 0;
        while j < m
            invariant
                m == self.cursors.len(),
                *self == before,
                n == m + 1,
                starts@.len() == n,
                separated(ranges@),
                ends_within(ranges@, before.content@.len() as int),
                new_content@ == cut(before.content@, ranges@),
                forall|t: int| 0 <= t < n ==> #[trigger] starts@[t] <= before.content@.len(),
                j <= m,
                moved@.len() == j,
                forall|t: int|
                    0 <= t < j ==> (#[trigger] moved@[t]).idx == shifted(ranges@, starts@[t + 1] as int)
                        && moved@[t].selection_idx is None && moved@[t].idx <= new_content@.len(),
            decreases m - j,
        {
            proof {
                lemma_shifted_bounds(before.content@, ranges@, starts@[j + 1] as int);
            }
            let p = shift_index(&ranges, starts[j + 1]);
            moved.push(Cursor { idx: p, selection_idx: None, preferred_column: self.cursors[j].preferred_column });
            j = j + 1;
        }
        self.content = new_content;
        self.cursor = Cursor { idx: primary_at, selection_idx: None, preferred_column: self.cursor.preferred_column };
        self.cursors = moved;
        proof {
            assert forall|t: int| 0 <= t < self.all_cursors().len() implies #[trigger] self.all_cursors()[t].within(
                self.content@.len() as int,
            ) by {
                if t > 0 {
                    assert(self.all_cursors()[t] == moved@[t - 1]);
                }
            }
            assert forall|t: int| 0 <= t < self.cursors@.len() implies (#[trigger] self.cursors@[t]).idx
                == landing(orig)[t + 1] by {
                assert(starts@[t + 1] == orig[t + 1].0);
            }
            assert(starts@[0] == orig[0].0);
        }
        ranges
    }

    /// Takes out the merge of `ranges`, one span for each cursor, and moves
    /// the cursors to match. Returns the merged spans.
    fn apply_removal(&mut self, ranges: Vec<Region>) -> (rs: Vec<Region>)
        requires
            old(self).wf(),
            ranges@.len() == old(self).all_cursors().len(),
            well_formed(ranges@),
            ends_within(ranges@, old(self).content@.len() as int),
        ensures
            rs@ == merged(ranges@),
            final(self).after_removal(*old(self), ranges@),
            final(self).same_flags(*old(self)),
            final(self).wf(),
    {
        let ghost before = *self;
        let ghost orig = ranges@;
        let rs = self.cut_and_place(ranges);
        let ghost placed = *self;
        self.set_cursor_preference();
        let ghost prefd = *self;
        self.truncate_cursors();
        proof {
            lemma_settled(placed, prefd, *self, landing(orig));
        }
        rs
    }

    /// The class that a backspace leaves recorded: that of the character just
    /// after the last removed span, when there is one.
    pub open spec fn retyped_after(self, before: Self, rs: Seq<Region>) -> bool {
        let q = shifted(rs, rs.last().0 as int);
        &&& self.focus_cursor == before.focus_cursor
        &&& if rs.len() > 0 && q < self.content@.len() {
            let c = class_of(self.content@[q]);
            &&& self.last_typed == Some(c)
            &&& self.update_history == (before.update_history || before.last_typed != Some(c))
        } else {
            &&& self.last_typed == before.last_typed
            &&& self.update_history == before.update_history
        }
    }

    /// Every cursor, the primary first.
    fn cursor_list(&self) -> (r: Vec<Cursor>)
        ensures
            r@ == self.all_cursors(),
    {
        let mut r: Vec<Cursor> = Vec::new();
        r.push(self.cursor);
        let mut i: usize = 0;
        while i < self.cursors.len()
            invariant
                i <= self.cursors.len(),
                r@ == seq![self.cursor] + self.cursors@.take(i as int),
            decreases self.cursors.len() - i,
        {
            r.push(self.cursors[i]);
            proof {
                assert(seq![self.cursor] + self.cursors@.take(i + 1) =~= (seq![self.cursor]
                    + self.cursors@.take(i as int)).push(self.cursors@[i as int]));
            }
            i = i + 1;
        }
        proof {
            assert(self.cursors@.take(i as int) =~= self.cursors@);
        }
        r
    }

    /// Deletes the selections, or the character before each caret that has
    /// none. Spans that touch or overlap are removed once, and the cursors
    /// follow the text.
    pub fn backspace_at_cursor(&mut self)
        requires
            old(self).wf(),
        ensures
            old(self).backspaced_into(*final(self)),
            final(self).wf(),
    {
        if !self.allow_editing {
            return;
        }
        let ghost before = *self;
        let list = self.cursor_list();
        let mut ranges: Vec<Region> = Vec::new();
        let mut i: usize = 0;
        while i < list.len()
            invariant
                *self == before,
                self.wf(),
                list@ == self.all_cursors(),
                i <= list.len(),
                ranges@.len() == i,
                forall|j: int| 0 <= j < i ==> #[trigger] ranges@[j] == list@[j].backspace_range_of(),
                well_formed(ranges@),
                ends_within(ranges@, self.content@.len() as int),
            decreases list.len() - i,
        {
            proof {
                assert(self.all_cursors()[i as int].within(self.content@.len() as int));
            }
            ranges.push(list[i].get_backspace_range());
            i = i + 1;
        }
        proof {
            assert(ranges@ =~= backspace_ranges(before.all_cursors()));
            lemma_merged_canonical(ranges@);
        }
        let rs = self.apply_removal(ranges);
        let ghost removed = *self;
        if rs.len() > 0 {
            let last = rs[rs.len() - 1];
            let q = shift_index(&rs, last.0);
            let n = self.content.as_str().unicode_len();
            if q < n {
                let c = self.content.as_str().get_char(q);
                self.set_typing_flags(c);
            }
        }
        proof {
            assert forall|t: int| 0 <= t < self.all_cursors().len() implies #[trigger] self.all_cursors()[t].within(
                self.content@.len() as int,
            ) by {
                assert(self.all_cursors()[t] == removed.all_cursors()[t]);
            }
        }
    }

    /// Deletes the selections, or the character after each caret that has
    /// none. Spans that touch or overlap are removed once, and the cursors
    /// follow the text.
    pub fn delete_at_cursor(&mut self)
        requires
            old(self).wf(),
        ensures
            old(self).deleted_into(*final(self)),
            final(self).wf(),
    {
        if !self.allow_editing {
            return;
        }
        let ghost before = *self;
        let n = self.content.as_str().unicode_len();
        let list = self.cursor_list();
        let mut ranges: Vec<Region> = Vec::new();
        let mut i: usize = 0;
        while i < list.len()
            invariant
                *self == before,
                self.wf(),
                n == self.content@.len(),
                list@ == self.all_cursors(),
                i <= list.len(),
                ranges@.len() == i,
                forall|j: int| 0 <= j < i ==> #[trigger] ranges@[j] == list@[j].delete_range_of(n),
                well_formed(ranges@),
                ends_within(ranges@, self.content@.len() as int),
            decreases list.len() - i,
        {
            proof {
                assert(self.all_cursors()[i as int].within(self.content@.len() as int));
            }
            ranges.push(list[i].get_delete_range(n));
            i = i + 1;
        }
        proof {
            assert(ranges@ =~= delete_ranges(before.all_cursors(), n));
        }
        self.apply_removal(ranges);
    }

    /// Deletes the selected text. Cursors that end up in the same place
    /// become one.
    pub fn collapse_selections(&mut self)
        requires
            old(self).wf(),
        ensures
            !old(self).allow_editing ==> *final(self) == *old(self),
            old(self).allow_editing ==> final(self).after_removal(
                *old(self),
                selection_ranges(old(self).all_cursors()),
            ),
            old(self).allow_editing ==> final(self).same_flags(*old(self)),
            final(self).wf(),
    {
        if !self.allow_editing {
            return;
        }
        let ghost before = *self;
        let list = self.cursor_list();
        let mut ranges: Vec<Region> = Vec::new();
        let mut i: usize = 0;
        while i < list.len()
            invariant
                *self == before,
                self.wf(),
                list@ == self.all_cursors(),
                i <= list.len(),
                ranges@.len() == i,
                forall|j: int| 0 <= j < i ==> #[trigger] ranges@[j] == list@[j].range_of(),
                well_formed(ranges@),
                ends_within(ranges@, self.content@.len() as int),
            decreases list.len() - i,
        {
            proof {
                assert(self.all_cursors()[i as int].within(self.content@.len() as int));
            }
            ranges.push(list[i].get_range());
            i = i + 1;
        }
        proof {
            assert(ranges@ =~= selection_ranges(before.all_cursors()));
        }
        self.apply_removal(ranges);
    }

    /// The selected spans of all cursors, merged.
    pub fn get_selections(&self) -> (r: Vec<Region>)
        ensures
            r@ == merged(selected_ranges(self.all_cursors())),
            separated(r@),
    {
        let list = self.cursor_list();
        let mut ranges: Vec<Region> = Vec::new();
        let mut i: usize = 0;
        while i < list.len()
            invariant
                i <= list.len(),
                ranges@ == selected_ranges(list@.take(i as int)),
                well_formed(ranges@),
            decreases list.len() - i,
        {
            let c = list[i];
            proof {
                assert(list@.take(i + 1).drop_last() =~= list@.take(i as int));
            }
            if c.selection_idx.is_some() {
                ranges.push(c.get_range());
            }
            i = i + 1;
        }
        proof {
            assert(list@.take(i as int) =~= list@);
        }
        TextInputHandler::merge_groups(&mut ranges);
        ranges
    }

    /// Drops every selection; the cursors stay where they are.
    pub fn deselect_all(&mut self)
        requires
            old(self).wf(),
        ensures
            final(self).content == old(self).content,
            final(self).cursor == deselected(old(self).cursor),
            final(self).cursors@ == old(self).cursors@.map_values(|c: Cursor| deselected(c)),
            final(self).same_settings(*old(self)),
            final(self).same_flags(*old(self)),
            final(self).wf(),
    {
        let ghost before = *self;
        self.cursor.selection_idx = None;
        let mut out: Vec<Cursor> = Vec::new();
        let mut i: usize = 0;
        while i < self.cursors.len()
            invariant
                self.cursors == before.cursors,
                i <= self.cursors.len(),
                out@ == before.cursors@.take(i as int).map_values(|c: Cursor| deselected(c)),
            decreases self.cursors.len() - i,
        {
            let c = self.cursors[i];
            out.push(Cursor { idx: c.idx, selection_idx: None, preferred_column: c.preferred_column });
            proof {
                assert(before.cursors@.take(i + 1).map_values(|c: Cursor| deselected(c)) =~= before.cursors@.take(
                    i as int,
                ).map_values(|c: Cursor| deselected(c)).push(deselected(c)));
            }
            i = i + 1;
        }
        proof {
            assert(before.cursors@.take(i as int) =~= before.cursors@);
        }
        self.cursors = out;
        proof {
            assert forall|t: int| 0 <= t < self.all_cursors().len() implies #[trigger] self.all_cursors()[t].within(
                self.content@.len() as int,
            ) by {
                assert(before.all_cursors()[t].within(self.content@.len() as int));
                if t > 0 {
                    assert(self.all_cursors()[t] == deselected(before.all_cursors()[t]));
                }
            }
        }
    }

    /// Ends every selection at its left edge (`left`) or right edge, without
    /// moving; with `move_cursors`, carets without a selection move one place
    /// that way, within the text.
    pub fn deselect_all_directional(&mut self, left: bool, move_cursors: bool)
        requires
            old(self).wf(),
        ensures
            final(self).content == old(self).content,
            final(self).cursor == stepped(old(self).cursor, left, move_cursors, old(self).content@.len() as int),
            final(self).cursors@ == old(self).cursors@.map_values(
                |c: Cursor| stepped(c, left, move_cursors, old(self).content@.len() as int),
            ),
            final(self).same_settings(*old(self)),
            final(self).same_flags(*old(self)),
            final(self).wf(),
    {
        let ghost before = *self;
        let n = self.content.as_str().unicode_len();
        proof {
            assert(before.all_cursors()[0].within(n as int));
        }
        self.cursor = step_cursor(self.cursor, left, move_cursors, n);
        let mut out: Vec<Cursor> = Vec::new();
        let mut i: usize = 0;
        while i < self.cursors.len()
            invariant
                self.cursors == before.cursors,
                self.content == before.content,
                before.wf(),
                n == before.content@.len(),
                i <= self.cursors.len(),
                out@ == before.cursors@.take(i as int).map_values(|c: Cursor| stepped(c, left, move_cursors, n as int)),
            decreases self.cursors.len() - i,
        {
            let c = self.cursors[i];
            proof {
                assert(before.all_cursors()[i + 1] == c);
                assert(before.all_cursors()[i + 1].within(n as int));
            }
            out.push(step_cursor(c, left, move_cursors, n));
            proof {
                assert(before.cursors@.take(i + 1).map_values(|c: Cursor| stepped(c, left, move_cursors, n as int))
                    =~= before.cursors@.take(i as int).map_values(
                    |c: Cursor| stepped(c, left, move_cursors, n as int),
                ).push(stepped(c, left, move_cursors, n as int)));
            }
            i = i + 1;
        }
        proof {
            assert(before.cursors@.take(i as int) =~= before.cursors@);
        }
        self.cursors = out;
        proof {
            assert forall|t: int| 0 <= t < self.all_cursors().len() implies #[trigger] self.all_cursors()[t].within(
                self.content@.len() as int,
            ) by {
                assert(before.all_cursors()[t].within(n as int));
                if t > 0 {
                    assert(self.all_cursors()[t] == stepped(before.all_cursors()[t], left, move_cursors, n as int));
                }
            }
        }
    }

    /// Copying is left to the host: nothing is copied and the text returned is empty.
    pub fn copy_at_cursor(&self) -> (r: String)
        ensures
            r@ == Seq::<char>::empty(),
    {
        String::new()
    }

    /// Pasting is left to the host: the handler is unchanged.
    pub fn paste_at_cursor(&mut self)
        ensures
            *final(self) == *old(self),
    {
    }

    /// Cutting is left to the host: the handler is unchanged and the text
    /// returned is empty.
    pub fn cut_at_cursor(&mut self) -> (r: String)
        ensures
            *final(self) == *old(self),
            r@ == Seq::<char>::empty(),
    {
        String::new()
    }

    /// `self` is `mid` with `pieces[0]` inserted at the primary cursor and
    /// `pieces[i + 1]` at secondary cursor `i`, each cursor a plain caret just
    /// after its piece.
    pub open spec fn inserted(self, mid: Self, pieces: Seq<Seq<char>>) -> bool {
        let k = count_below(mid.cursors@, mid.cursor.idx as int);
        let ts = ordered_pieces(mid, pieces);
        &&& self.content@ == spliced(mid.content@, ordered_offsets(mid), ts)
        &&& self.same_settings(mid)
        &&& is_caret(self.cursor, self.content@, mid.cursor.idx + total_len(ts.take(k + 1)))
        &&& self.cursors@.len() == mid.cursors@.len()
        &&& forall|i: int|
            0 <= i < self.cursors@.len() ==> is_caret(
                #[trigger] self.cursors@[i],
                self.content@,
                mid.cursors@[i].idx + total_len(ts.take(order_of(mid, i) + 1)),
            )
    }

    /// How many secondary cursors stand before the primary one.
    fn primary_rank(&self) -> (k: usize)
        requires
            apart_from(self.cursors@, self.cursor.idx as int),
        ensures
            k == count_below(self.cursors@, self.cursor.idx as int),
            k <= self.cursors@.len(),
            forall|i: int| 0 <= i < k ==> #[trigger] self.cursors@[i].idx < self.cursor.idx,
            forall|i: int| k <= i < self.cursors@.len() ==> #[trigger] self.cursors@[i].idx > self.cursor.idx,
    {
        let primary_at = self.cursor.idx;
        let m = self.cursors.len();
        let mut k: usize = 0;
        let mut i: usize = 0;
        while i < m
            invariant
                m == self.cursors.len(),
                i <= m,
                k == count_below(self.cursors@.take(i as int), primary_at as int),
                k <= i,
            decreases m - i,
        {
            proof {
                assert(self.cursors@.take(i + 1).drop_last() =~= self.cursors@.take(i as int));
            }
            if self.cursors[i].idx < primary_at {
                k = k + 1;
            }
            i = i + 1;
        }
        proof {
            assert(self.cursors@.take(m as int) =~= self.cursors@);
            lemma_count_below_split(self.cursors@, primary_at as int);
        }
        k
    }

    /// The cursors' offsets in increasing order, with their pieces.
    fn ordered_lists(&self, pieces: &Vec<String>, k: usize) -> (r: (Vec<usize>, Vec<String>))
        requires
            pieces@.len() == self.all_cursors().len(),
            k == count_below(self.cursors@, self.cursor.idx as int),
            k <= self.cursors@.len(),
        ensures
            r.0@ == ordered_offsets(*self),
            texts(r.1@) == ordered_pieces(*self, texts(pieces@)),
    {
        let ghost vs = texts(pieces@);
        let ghost ps_spec = ordered_offsets(*self);
        let ghost ts_spec = ordered_pieces(*self, vs);
        let m = self.cursors.len();
        let total = pieces.len();
        assert(total == m + 1);
        let mut ps: Vec<usize> = Vec::new();
        let mut ts: Vec<String> = Vec::new();
        let mut j: usize = 0;
        while j < total
            invariant
                m == self.cursors.len(),
                total == m + 1,
                k <= m,
                pieces@.len() == total,
                vs == texts(pieces@),
                ps_spec == ordered_offsets(*self),
                ts_spec == ordered_pieces(*self, vs),
                k == count_below(self.cursors@, self.cursor.idx as int),
                j <= total,
                ps@ == ps_spec.take(j as int),
                texts(ts@) == ts_spec.take(j as int),
            decreases total - j,
        {
            let (p, t) = if j < k {
                (self.cursors[j].idx, pieces[j + 1].clone())
            } else if j == k {
                (self.cursor.idx, pieces[0].clone())
            } else {
                (self.cursors[j - 1].idx, pieces[j].clone())
            };
            proof {
                assert(ps_spec[j as int] == p);
                assert(ts_spec[j as int] == t@);
            }
            let ghost prev_ts = ts@;
            ps.push(p);
            ts.push(t);
            proof {
                assert(ps@ =~= ps_spec.take(j + 1));
                assert(texts(ts@) =~= texts(prev_ts).push(t@));
                assert(texts(ts@) =~= ts_spec.take(j + 1));
            }
            j = j + 1;
        }
        proof {
            assert(ps@ =~= ps_spec);
            assert(texts(ts@) =~= ts_spec);
        }
        (ps, ts)
    }

    /// Inserts `pieces[0]` at the primary cursor and `pieces[i + 1]` at
    /// secondary cursor `i`, moving each cursor past its piece.
    fn insert_at_carets(&mut self, pieces: Vec<String>)
        requires
            old(self).wf(),
            apart_from(old(self).cursors@, old(self).cursor.idx as int),
            pieces@.len() == old(self).all_cursors().len(),
            old(self).content@.len() + total_len(texts(pieces@)) <= usize::MAX,
        ensures
            final(self).inserted(*old(self), texts(pieces@)),
            final(self).same_flags(*old(self)),
            final(self).wf(),
    {
        let ghost before = *self;
        let ghost vs = texts(pieces@);
        let primary_at = self.cursor.idx;
        let m = self.cursors.len();
        let k = self.primary_rank();
        let ghost ps_spec = ordered_offsets(before);
        let ghost ts_spec = ordered_pieces(before, vs);
        let (ps, ts) = self.ordered_lists(&pieces, k);
        proof {
            assert(ps_spec.len() == m + 1);
            assert(ps@ =~= ps_spec);
            assert(texts(ts@) =~= ts_spec);
            assert(strictly_increasing(ps@)) by {
                assert forall|a: int, b: int| 0 <= a < b < ps@.len() implies #[trigger] ps@[a] < #[trigger] ps@[b] by {
                    if b < k {
                        assert(self.cursors@[a].idx < self.cursors@[b].idx);
                    } else if b == k {
                        assert(self.cursors@[a].idx < primary_at);
                    } else if a < k {
                        assert(self.cursors@[a].idx < primary_at && self.cursors@[b - 1].idx > primary_at);
                    } else if a == k {
                        assert(self.cursors@[b - 1].idx > primary_at);
                    } else {
                        assert(self.cursors@[a - 1].idx < self.cursors@[b - 1].idx);
                    }
                }
            }
            assert(all_at_most(ps@, self.content@.len() as int)) by {
                assert forall|a: int| 0 <= a < ps@.len() implies #[trigger] ps@[a] <= self.content@.len() by {
                    assert(before.all_cursors()[0].within(self.content@.len() as int));
                    if a < k {
                        assert(before.all_cursors()[a + 1].within(self.content@.len() as int));
                    } else if a > k {
                        assert(before.all_cursors()[a].within(self.content@.len() as int));
                    }
                }
            }
            assert(total_len(texts(ts@)) == total_len(vs)) by {
                lemma_total_len_perm(vs, k as int);
            }
            lemma_spliced_len(self.content@, ps@, texts(ts@));
        }
        let new_content = splice_at(&self.content, &ps, &ts);
        let mut ends: Vec<usize> = Vec::new();
        let mut sum: usize = 0;
        let mut q: usize = 0;
        let total = ps.len();
        while q < total
            invariant
                total == m + 1,
                ps@.len() == m + 1,
                ts@.len() == m + 1,
                all_at_most(ps@, before.content@.len() as int),
                before.content@.len() + total_len(texts(ts@)) <= usize::MAX,
                q <= m + 1,
                sum == total_len(texts(ts@).take(q as int)),
                ends@.len() == q,
                forall|a: int| 0 <= a < q ==> #[trigger] ends@[a] == ps@[a] + total_len(texts(ts@).take(a + 1)),
            decreases m + 1 - q,
        {
            proof {
                lemma_total_len_step(texts(ts@), q as int);
                lemma_total_len_grows(texts(ts@), q + 1, m + 1);
            }
            sum = sum + ts[q].as_str().unicode_len();
            ends.push(ps[q] + sum);
            q = q + 1;
        }
        let mut moved: Vec<Cursor> = Vec::new();
        let mut r: usize = 0;
        while r < m
            invariant
                m == self.cursors.len(),
                *self == before,
                k <= m,
                ends@.len() == m + 1,
                r <= m,
                moved@.len() == r,
                forall|a: int|
                    0 <= a < r ==> (#[trigger] moved@[a]).idx == ends@[order_of(before, a)]
                        && moved@[a].selection_idx is None,
                k == count_below(before.cursors@, before.cursor.idx as int),
            decreases m - r,
        {
            let e = if r < k {
                ends[r]
            } else {
                ends[r + 1]
            };
            moved.push(Cursor { idx: e, selection_idx: None, preferred_column: 0 });
            r = r + 1;
        }
        let ghost ends_g = ends@;
        self.content = new_content;
        self.cursor = Cursor { idx: ends[k], selection_idx: None, preferred_column: 0 };
        self.cursors = moved;
        proof {
            let n2 = self.content@.len();
            assert(n2 == before.content@.len() + total_len(ts_spec));
            assert forall|a: int| 0 <= a <= m implies #[trigger] ends_g[a] <= n2 by {
                lemma_total_len_grows(ts_spec, a + 1, m + 1);
            }
            assert forall|t: int| 0 <= t < self.all_cursors().len() implies #[trigger] self.all_cursors()[t].within(
                n2 as int,
            ) by {
                if t > 0 {
                    assert(self.all_cursors()[t] == moved@[t - 1]);
                    assert(0 <= order_of(before, t - 1) <= m);
                }
            }
        }
        let ghost placed = *self;
        self.set_cursor_preference();
        proof {
            assert forall|i: int| 0 <= i < self.cursors@.len() implies is_caret(
                #[trigger] self.cursors@[i],
                self.content@,
                before.cursors@[i].idx + total_len(ts_spec.take(order_of(before, i) + 1)),
            ) by {
                assert(self.cursors@[i] == remember_column(placed.cursors@[i], placed.content@));
                let o = order_of(before, i);
                assert(ps_spec[o] == before.cursors@[i].idx);
            }
            assert(ps_spec[k as int] == primary_at);
        }
    }

    /// A copy of this handler.
    fn duplicate(&self) -> (r: Self)
        ensures
            r.content == self.content,
            r.cursor == self.cursor,
            r.cursors@ == self.cursors@,
            r.same_settings(*self),
            r.same_flags(*self),
    {
        let mut cursors: Vec<Cursor> = Vec::new();
        let mut i: usize = 0;
        while i < self.cursors.len()
            invariant
                i <= self.cursors.len(),
                cursors@ == self.cursors@.take(i as int),
            decreases self.cursors.len() - i,
        {
            cursors.push(self.cursors[i]);
            proof {
                assert(self.cursors@.take(i + 1) =~= self.cursors@.take(i as int).push(self.cursors@[i as int]));
            }
            i = i + 1;
        }
        proof {
            assert(self.cursors@.take(i as int) =~= self.cursors@);
        }
        TextInputHandler {
            content: self.content.clone(),
            allow_newlines: self.allow_newlines,
            max_length: self.max_length,
            enforce_max_length: self.enforce_max_length,
            allow_editing: self.allow_editing,
            cursor: self.cursor,
            cursors,
            focus_cursor: self.focus_cursor,
            update_history: self.update_history,
            last_typed: self.last_typed,
        }
    }

    /// `room()` as a number.
    fn room_of(&self) -> (r: usize)
        ensures
            r == self.room(),
    {
        if self.enforce_max_length {
            self.max_length
        } else {
            usize::MAX
        }
    }

    /// One copy of `t` for every cursor.
    fn copies_for(&self, t: &String) -> (pieces: Vec<String>)
        ensures
            texts(pieces@) == copies(self.all_cursors().len() as int, t@),
            total_len(texts(pieces@)) == t@.len() * self.all_cursors().len(),
    {
        let count = self.cursor_list().len();
        let mut pieces: Vec<String> = Vec::new();
        let mut i: usize = 0;
        while i < count
            invariant
                i <= count,
                pieces@.len() == i,
                forall|j: int| 0 <= j < i ==> (#[trigger] pieces@[j])@ == t@,
            decreases count - i,
        {
            pieces.push(t.clone());
            i = i + 1;
        }
        proof {
            assert(texts(pieces@) =~= copies(count as int, t@));
            lemma_total_len_copies(count as int, t@);
            assert(count * t@.len() == t@.len() * count) by (nonlinear_arith);
        }
        pieces
    }

    /// Types `t` at every caret, the selections deleted first, unless
    /// editing is off or the whole edit would take the text past `room()`.
    /// Returns whether it was typed.
    fn insert_text(&mut self, t: &String) -> (done: bool)
        requires
            old(self).wf(),
        ensures
            final(self).wf(),
            old(self).text_inserted(*final(self), t@, done),
    {
        if !self.allow_editing {
            return false;
        }
        let mut trial = self.duplicate();
        proof {
            lemma_wf_same_cursors(*self, trial);
        }
        trial.collapse_selections();
        let ghost mid = trial;
        proof {
            assert(mid.after_removal(*self, selection_ranges(self.all_cursors())));
        }
        let pieces = trial.copies_for(t);
        let n = trial.content.as_str().unicode_len();
        let room = self.room_of();
        if !fits_in(n, &pieces, room) {
            return false;
        }
        *self = trial;
        self.insert_at_carets(pieces);
        true
    }

    /// Types a tab at every caret, the selections deleted first, unless
    /// editing is off or the whole edit would take the text past `room()`.
    /// Returns whether it was typed.
    fn insert_tab_text(&mut self) -> (done: bool)
        requires
            old(self).wf(),
        ensures
            final(self).wf(),
            old(self).tab_inserted(*final(self), done),
    {
        if !self.allow_editing {
            return false;
        }
        let mut trial = self.duplicate();
        proof {
            lemma_wf_same_cursors(*self, trial);
        }
        trial.collapse_selections();
        let ghost mid = trial;
        proof {
            assert(mid.after_removal(*self, selection_ranges(self.all_cursors())));
        }
        let pieces = trial.tab_pieces_of();
        let n = trial.content.as_str().unicode_len();
        let room = self.room_of();
        if !fits_in(n, &pieces, room) {
            return false;
        }
        *self = trial;
        self.insert_at_carets(pieces);
        true
    }

    /// For every cursor, the spaces up to the next multiple of four columns.
    fn tab_pieces_of(&self) -> (pieces: Vec<String>)
        requires
            self.wf(),
        ensures
            texts(pieces@) == tab_pieces(*self),
    {
        let ghost mid = *self;
        let v = chars_of(self.content.as_str());
        let list = self.cursor_list();
        let count = list.len();
        let space = char_string(' ');
        let mut pieces: Vec<String> = Vec::new();
        let mut i: usize = 0;
        let ghost want = tab_pieces(mid);
        while i < count
            invariant
                *self == mid,
                mid.wf(),
                v@ == mid.content@,
                list@ == mid.all_cursors(),
                count == list@.len(),
                space@ == seq![' '],
                want == tab_pieces(mid),
                i <= count,
                pieces@.len() == i,
                forall|j: int| 0 <= j < i ==> (#[trigger] pieces@[j])@ == want[j],
                forall|j: int| 0 <= j < i ==> (#[trigger] pieces@[j])@.len() <= 4,
            decreases count - i,
        {
            proof {
                assert(mid.all_cursors()[i as int].within(mid.content@.len() as int));
            }
            let col = match pos_in(&v, list[i].idx) {
                Some((_, c)) => c,
                None => 0,
            };
            let k = 4 - col % 4;
            let mut fill = String::new();
            let mut q: usize = 0;
            while q < k
                invariant
                    q <= k,
                    k <= 4,
                    space@ == seq![' '],
                    fill@ == spaces(q as int),
                decreases k - q,
            {
                fill.append(space.as_str());
                proof {
                    assert(fill@ =~= spaces(q + 1));
                }
                q = q + 1;
            }
            proof {
                assert(fill@ == want[i as int]);
            }
            pieces.push(fill);
            i = i + 1;
        }
        proof {
            assert(texts(pieces@) =~= want);
        }
        pieces
    }

    /// The text that a key types, given whether shift is held.
    pub fn mod_char(&self, shift: bool, c: &str) -> (r: String)
        ensures
            r@ == key_text(shift, c@),
    {
        if shift {
            let n = c.unicode_len();
            if n == 1 {
                match shift_symbol_of(c.get_char(0)) {
                    Some(x) => {
                        return char_string(x);
                    },
                    None => {},
                }
            }
            String::from_str(c)
        } else {
            lowercase(c)
        }
    }

    /// Types `content` at every cursor: the selections are deleted first,
    /// then the key's text (see `key_text`) goes in at each caret. Nothing
    /// happens where editing is off or the edit would take the text past its
    /// length limit. A typed one-character key records its class for the
    /// history.
    pub fn insert_at_cursor(&mut self, shift: bool, content: String)
        requires
            old(self).wf(),
        ensures
            final(self).wf(),
            old(self).typed_into(*final(self), shift, content@),
    {
        let ghost before = *self;
        let t = self.mod_char(shift, content.as_str());
        let done = self.insert_text(&t);
        let ghost u = *self;
        if done && content.as_str().unicode_len() == 1 {
            self.set_typing_flags(content.as_str().get_char(0));
        }
        proof {
            assert(before.text_inserted(u, key_text(shift, content@), done));
            if !(done && content@.len() == 1) {
                lemma_wf_same_cursors(u, *self);
            }
        }
    }

    /// Inserts spaces at every caret up to the next multiple of four columns;
    /// the selections are deleted first. Nothing happens where editing is
    /// off or the edit would take the text past its length limit. A typed
    /// tab records a space as typed.
    pub fn tab_at_cursor(&mut self)
        requires
            old(self).wf(),
        ensures
            final(self).wf(),
            old(self).tabbed_into(*final(self)),
    {
        let ghost before = *self;
        let done = self.insert_tab_text();
        let ghost u = *self;
        if done {
            self.set_typing_flags(' ');
        }
        proof {
            assert(before.tab_inserted(u, done));
        }
    }

    /// Moves every cursor one line up (`up`) or down; see `moved_vertically`.
    /// Selections are left as they are.
    pub fn move_cursors(&mut self, up: bool)
        requires
            old(self).wf(),
        ensures
            final(self).content == old(self).content,
            final(self).cursor == moved_vertically(old(self).cursor, old(self).content@, up),
            final(self).cursors@ == old(self).cursors@.map_values(
                |c: Cursor| moved_vertically(c, old(self).content@, up),
            ),
            final(self).same_settings(*old(self)),
            final(self).same_flags(*old(self)),
            final(self).wf(),
    {
        let ghost before = *self;
        let v = chars_of(self.content.as_str());
        proof {
            assert(before.all_cursors()[0].within(v@.len() as int));
        }
        self.cursor = vertical_step(&v, self.cursor, up);
        let mut out: Vec<Cursor> = Vec::new();
        let mut i: usize = 0;
        while i < self.cursors.len()
            invariant
                self.cursors == before.cursors,
                self.content == before.content,
                before.wf(),
                v@ == before.content@,
                i <= self.cursors.len(),
                out@ == before.cursors@.take(i as int).map_values(|c: Cursor| moved_vertically(c, v@, up)),
            decreases self.cursors.len() - i,
        {
            let c = self.cursors[i];
            proof {
                assert(before.all_cursors()[i + 1] == c);
                assert(before.all_cursors()[i + 1].within(v@.len() as int));
            }
            out.push(vertical_step(&v, c, up));
            proof {
                assert(before.cursors@.take(i + 1).map_values(|c: Cursor| moved_vertically(c, v@, up))
                    =~= before.cursors@.take(i as int).map_values(|c: Cursor| moved_vertically(c, v@, up)).push(
                    moved_vertically(c, v@, up),
                ));
            }
            i = i + 1;
        }
        proof {
            assert(before.cursors@.take(i as int) =~= before.cursors@);
        }
        self.cursors = out;
        proof {
            assert forall|t: int| 0 <= t < self.all_cursors().len() implies #[trigger] self.all_cursors()[t].within(
                self.content@.len() as int,
            ) by {
                assert(before.all_cursors()[t].within(v@.len() as int));
                if t > 0 {
                    assert(self.all_cursors()[t] == moved_vertically(before.all_cursors()[t], v@, up));
                }
                lemma_moved_within(before.all_cursors()[t], v@, up);
            }
        }
    }

    /// Moves every cursor a word left (`left`) or right within its line;
    /// see `word_moved`. Selections are left as they are.
    pub fn ctrl_move(&mut self, left: bool)
        requires
            old(self).wf(),
        ensures
            final(self).content == old(self).content,
            final(self).cursor == word_moved(old(self).cursor, old(self).content@, left),
            final(self).cursors@ == old(self).cursors@.map_values(
                |c: Cursor| word_moved(c, old(self).content@, left),
            ),
            final(self).same_settings(*old(self)),
            final(self).same_flags(*old(self)),
            final(self).wf(),
    {
        let ghost before = *self;
        let v = chars_of(self.content.as_str());
        proof {
            assert(before.all_cursors()[0].within(v@.len() as int));
        }
        self.cursor = word_step(self.content.as_str(), &v, self.cursor, left);
        let mut out: Vec<Cursor> = Vec::new();
        let mut i: usize = 0;
        while i < self.cursors.len()
            invariant
                self.cursors == before.cursors,
                self.content == before.content,
                before.wf(),
                v@ == before.content@,
                i <= self.cursors.len(),
                out@ == before.cursors@.take(i as int).map_values(|c: Cursor| word_moved(c, v@, left)),
            decreases self.cursors.len() - i,
        {
            let c = self.cursors[i];
            proof {
                assert(before.all_cursors()[i + 1] == c);
                assert(before.all_cursors()[i + 1].within(v@.len() as int));
            }
            out.push(word_step(self.content.as_str(), &v, c, left));
            proof {
                assert(before.cursors@.take(i + 1).map_values(|c: Cursor| word_moved(c, v@, left))
                    =~= before.cursors@.take(i as int).map_values(|c: Cursor| word_moved(c, v@, left)).push(
                    word_moved(c, v@, left),
                ));
            }
            i = i + 1;
        }
        proof {
            assert(before.cursors@.take(i as int) =~= before.cursors@);
        }
        self.cursors = out;
        proof {
            assert forall|t: int| 0 <= t < self.all_cursors().len() implies #[trigger] self.all_cursors()[t].within(
                self.content@.len() as int,
            ) by {
                assert(before.all_cursors()[t].within(v@.len() as int));
                if t > 0 {
                    assert(self.all_cursors()[t] == word_moved(before.all_cursors()[t], v@, left));
                }
                lemma_word_moved_within(before.all_cursors()[t], v@, left);
            }
        }
    }

    /// Anchors a selection at every cursor that has none.
    fn anchor_selections(&mut self)
        requires
            old(self).wf(),
        ensures
            final(self).content == old(self).content,
            final(self).cursor == anchored(old(self).cursor),
            final(self).cursors@ == old(self).cursors@.map_values(|c: Cursor| anchored(c)),
            final(self).same_settings(*old(self)),
            final(self).same_flags(*old(self)),
            final(self).wf(),
    {
        let ghost before = *self;
        let c = self.cursor;
        self.cursor = Cursor {
            idx: c.idx,
            selection_idx: if c.selection_idx.is_none() {
                Some(c.idx)
            } else {
                c.selection_idx
            },
            preferred_column: c.preferred_column,
        };
        let mut out: Vec<Cursor> = Vec::new();
        let mut i: usize = 0;
        while i < self.cursors.len()
            invariant
                self.cursors == before.cursors,
                i <= self.cursors.len(),
                out@ == before.cursors@.take(i as int).map_values(|c: Cursor| anchored(c)),
            decreases self.cursors.len() - i,
        {
            let c = self.cursors[i];
            out.push(
                Cursor {
                    idx: c.idx,
                    selection_idx: if c.selection_idx.is_none() {
                        Some(c.idx)
                    } else {
                        c.selection_idx
                    },
                    preferred_column: c.preferred_column,
                },
            );
            proof {
                assert(before.cursors@.take(i + 1).map_values(|c: Cursor| anchored(c)) =~= before.cursors@.take(
                    i as int,
                ).map_values(|c: Cursor| anchored(c)).push(anchored(c)));
            }
            i = i + 1;
        }
        proof {
            assert(before.cursors@.take(i as int) =~= before.cursors@);
        }
        self.cursors = out;
        proof {
            assert forall|t: int| 0 <= t < self.all_cursors().len() implies #[trigger] self.all_cursors()[t].within(
                self.content@.len() as int,
            ) by {
                assert(before.all_cursors()[t].within(self.content@.len() as int));
                if t > 0 {
                    assert(self.all_cursors()[t] == anchored(before.all_cursors()[t]));
                }
            }
        }
    }

    /// Moves every cursor one place left or right, keeping selections.
    fn nudge(&mut self, left: bool)
        requires
            old(self).wf(),
        ensures
            final(self).content == old(self).content,
            final(self).cursor == nudged(old(self).cursor, left, old(self).content@.len() as int),
            final(self).cursors@ == old(self).cursors@.map_values(
                |c: Cursor| nudged(c, left, old(self).content@.len() as int),
            ),
            final(self).same_settings(*old(self)),
            final(self).same_flags(*old(self)),
            final(self).wf(),
    {
        let ghost before = *self;
        let n = self.content.as_str().unicode_len();
        proof {
            assert(before.all_cursors()[0].within(n as int));
        }
        self.cursor = nudge_cursor(self.cursor, left, n);
        let mut out: Vec<Cursor> = Vec::new();
        let mut i: usize = 0;
        while i < self.cursors.len()
            invariant
                self.cursors == before.cursors,
                before.wf(),
                n == before.content@.len(),
                i <= self.cursors.len(),
                out@ == before.cursors@.take(i as int).map_values(|c: Cursor| nudged(c, left, n as int)),
            decreases self.cursors.len() - i,
        {
            let c = self.cursors[i];
            proof {
                assert(before.all_cursors()[i + 1] == c);
                assert(before.all_cursors()[i + 1].within(n as int));
            }
            out.push(nudge_cursor(c, left, n));
            proof {
                assert(before.cursors@.take(i + 1).map_values(|c: Cursor| nudged(c, left, n as int))
                    =~= before.cursors@.take(i as int).map_values(|c: Cursor| nudged(c, left, n as int)).push(
                    nudged(c, left, n as int),
                ));
            }
            i = i + 1;
        }
        proof {
            assert(before.cursors@.take(i as int) =~= before.cursors@);
        }
        self.cursors = out;
        proof {
            assert forall|t: int| 0 <= t < self.all_cursors().len() implies #[trigger] self.all_cursors()[t].within(
                self.content@.len() as int,
            ) by {
                assert(before.all_cursors()[t].within(n as int));
                if t > 0 {
                    assert(self.all_cursors()[t] == nudged(before.all_cursors()[t], left, n as int));
                }
            }
        }
    }

    /// Moves the cursors for a left or right arrow; see `horizontal`.
    fn key_horizontal(&mut self, left: bool, shift: bool, ctrl: bool)
        requires
            old(self).wf(),
        ensures
            final(self).wf(),
            exists|m: Self, t: Self, u: Self|
                #[trigger] old(self).horizontal_steps(m, t, u, *final(self), left, shift, ctrl),
    {
        let ghost before = *self;
        let ghost f = before.horizontal(left, shift, ctrl);
        if shift {
            self.anchor_selections();
            let ghost a = *self;
            if ctrl {
                self.ctrl_move(left);
            } else {
                self.nudge(left);
            }
            proof {
                assert(self.cursors@ =~= before.cursors@.map_values(f));
            }
        } else if ctrl {
            self.ctrl_move(left);
            proof {
                assert(self.cursors@ =~= before.cursors@.map_values(f));
            }
        } else {
            self.deselect_all_directional(left, true);
            proof {
                assert(self.cursors@ =~= before.cursors@.map_values(f));
            }
        }
        let ghost m = *self;
        self.truncate_cursors();
        let ghost t = *self;
        self.set_cursor_preference();
        let ghost u = *self;
        self.set_focus_cursor(true);
        proof {
            assert(before.moved_by(m, f));
            assert(before.horizontal_steps(m, t, u, *self, left, shift, ctrl));
        }
    }

    /// Moves the cursors for an up or down arrow; see `vertical`.
    fn key_vertical(&mut self, up: bool, shift: bool)
        requires
            old(self).wf(),
        ensures
            final(self).wf(),
            exists|m: Self, t: Self| #[trigger] old(self).vertical_steps(m, t, *final(self), up, shift),
    {
        let ghost before = *self;
        let ghost f = before.vertical(up, shift);
        if shift {
            self.anchor_selections();
        } else {
            self.deselect_all_directional(false, false);
        }
        self.move_cursors(up);
        proof {
            assert(self.cursors@ =~= before.cursors@.map_values(f));
        }
        let ghost m = *self;
        self.truncate_cursors();
        let ghost t = *self;
        self.set_focus_cursor(true);
        proof {
            assert(before.moved_by(m, f));
            assert(before.vertical_steps(m, t, *self, up, shift));
        }
    }

    /// Handles one key of the frame (see `key_step`) and returns whether the
    /// text changed. While a keybinding matches or alt is held, keys do
    /// nothing. A single character is typed; `Tab`, `Backspace`, `Delete` and
    /// `Return` (or `Keypad Enter`, a newline where newlines are allowed)
    /// edit; the arrows move the cursors, extending the selections with shift
    /// and going by words with ctrl.
    pub fn process_key(&mut self, key: &str, keyboard: &Keyboard, bindings: &Bindings) -> (changed: bool)
        requires
            old(self).wf(),
        ensures
            final(self).wf(),
            final(self).same_settings(*old(self)),
            old(self).key_step(*final(self), key@, *keyboard, *bindings),
            changed == (final(self).content@ != old(self).content@),
    {
        proof {
            reveal_strlit("Tab");
            reveal_strlit("Backspace");
            reveal_strlit("Delete");
            reveal_strlit("Return");
            reveal_strlit("Keypad Enter");
            reveal_strlit("Left");
            reveal_strlit("Right");
            reveal_strlit("Up");
            reveal_strlit("Down");
        }
        let ghost before = *self;
        if bindings.any || keyboard.alt_held {
            return false;
        }
        let old_text = self.content.clone();
        if key.unicode_len() == 1 {
            let text = String::from_str(key);
            self.insert_at_cursor(keyboard.shift_held, text);
            let ghost t = *self;
            self.set_focus_cursor(true);
            proof {
                assert(before.typed_into(t, keyboard.shift_held, key@));
            }
        } else if same_text(key, "Tab") {
            self.tab_at_cursor();
            let ghost t = *self;
            self.set_focus_cursor(true);
            proof {
                assert(before.tabbed_into(t));
            }
        } else if same_text(key, "Backspace") {
            self.backspace_at_cursor();
            let ghost t = *self;
            self.set_focus_cursor(true);
            proof {
                assert(before.backspaced_into(t));
            }
        } else if same_text(key, "Delete") {
            proof {
                assert(key@[0] == 'D');
            }
            self.delete_at_cursor();
            let ghost t = *self;
            self.set_focus_cursor(true);
            proof {
                assert(before.deleted_into(t));
            }
        } else if same_text(key, "Return") || same_text(key, "Keypad Enter") {
            if self.allow_newlines {
                let newline = char_string('\n');
                let done = self.insert_text(&newline);
                proof {
                    assert(before.text_inserted(*self, seq!['\n'], done));
                }
            }
            let ghost t = *self;
            self.set_focus_cursor(true);
            self.set_update_history(true);
            proof {
                assert(before.returned_into(t));
            }
        } else {
            let left = same_text(key, "Left");
            let right = same_text(key, "Right");
            let up = same_text(key, "Up");
            let down = same_text(key, "Down");
            if left || right {
                proof {
                    if right {
                        assert(key@[0] == 'R');
                    }
                }
                self.key_horizontal(left, keyboard.shift_held, keyboard.ctrl_held);
            } else if up || down {
                self.key_vertical(up, keyboard.shift_held);
            }
        }
        !(self.content == old_text)
    }

    /// `after` is `self` once the bound actions of the frame are done: a copy
    /// or cut (left to the host) remembers the columns and raises the focus
    /// flag, a cut or paste marks the history, a paste is skipped at the
    /// length limit, and select-all selects the whole text with one cursor.
    pub open spec fn bound_step(self, after: Self, b: Bindings) -> bool {
        let full = self.enforce_max_length && self.content@.len() >= self.max_length;
        if b.copy || b.cut || (b.paste && !full) {
            &&& after.columns_remembered(self)
            &&& after.same_settings(self)
            &&& after.focus_cursor
            &&& after.update_history == (self.update_history || !b.copy)
            &&& after.last_typed == self.last_typed
        } else if b.select_all && !b.paste {
            &&& after.content == self.content
            &&& after.cursor == (Cursor {
                idx: self.content@.len() as IdxSize,
                selection_idx: Some(0),
                preferred_column: self.cursor.preferred_column,
            })
            &&& after.cursors@.len() == 0
            &&& after.same_settings(self)
            &&& after.same_flags(self)
        } else {
            after == self
        }
    }

    /// `states` runs through a frame's keys: `states[i + 1]` is `states[i]`
    /// once key `i` is handled.
    pub open spec fn runs_through(states: Seq<Self>, keys: Seq<String>, kb: Keyboard, b: Bindings) -> bool {
        &&& states.len() == keys.len() + 1
        &&& forall|i: int|
            0 <= i < keys.len() ==> #[trigger] states[i].key_step(states[i + 1], keys[i]@, kb, b)
    }

    /// Some key among the first `upto` of the run changed the text.
    pub open spec fn some_key_changes(states: Seq<Self>, upto: int) -> bool {
        exists|i: int| 0 <= i < upto && #[trigger] states[i + 1].content@ != states[i].content@
    }

    /// Handles one frame of input: the bound copy, cut, paste or select-all
    /// first (see `bound_step`), then each key that fired, in order (see
    /// `key_step`). Returns whether any key was acted on. Nothing happens
    /// while editing is off.
    pub fn process(&mut self, keyboard: &Keyboard, bindings: &Bindings) -> (changed: bool)
        requires
            old(self).wf(),
        ensures
            final(self).wf(),
            final(self).same_settings(*old(self)),
            !old(self).allow_editing ==> *final(self) == *old(self) && !changed,
            old(self).allow_editing ==> exists|states: Seq<Self>|
                #[trigger] Self::runs_through(states, keyboard.triggered_keys@, *keyboard, *bindings)
                    && old(self).bound_step(states[0], *bindings)
                    && states.last() == *final(self)
                    && changed == Self::some_key_changes(states, keyboard.triggered_keys@.len() as int),
    {
        if !self.allow_editing {
            return false;
        }
        let ghost start = *self;
        if bindings.copy || bindings.cut {
            if bindings.copy {
                self.copy_at_cursor();
            } else {
                self.cut_at_cursor();
            }
            self.set_cursor_preference();
            self.set_focus_cursor(true);
            if !bindings.copy {
                self.set_update_history(true);
            }
        } else if bindings.paste {
            let n = self.content.as_str().unicode_len();
            if !(self.enforce_max_length && n >= self.max_length) {
                self.paste_at_cursor();
                self.set_cursor_preference();
                self.set_focus_cursor(true);
                self.set_update_history(true);
            }
        } else if bindings.select_all {
            let n = self.content.as_str().unicode_len();
            self.cursor.idx = n;
            self.cursor.selection_idx = Some(0);
            self.cursors.clear();
            assert(self.all_cursors().len() == 1);
            assert(self.all_cursors()[0] == self.cursor);
            assert(self.all_cursors()[0].within(self.content@.len() as int));
        }
        proof {
            assert(start.bound_step(*self, *bindings));
        }
        let ghost keys = keyboard.triggered_keys@;
        let ghost swallowed = bindings.any || keyboard.alt_held;
        let ghost mut states: Seq<Self> = seq![*self];
        let mut out = false;
        let mut i: usize = 0;
        while i < keyboard.triggered_keys.len()
            invariant
                self.wf(),
                self.same_settings(start),
                start.allow_editing,
                keys == keyboard.triggered_keys@,
                swallowed == (bindings.any || keyboard.alt_held),
                i <= keys.len(),
                states.len() == i + 1,
                start.bound_step(states[0], *bindings),
                states[i as int] == *self,
                forall|j: int| 0 <= j < i ==> #[trigger] states[j].key_step(states[j + 1], keys[j]@, *keyboard, *bindings),
                out == Self::some_key_changes(states, i as int),
            decreases keys.len() - i,
        {
            let ghost here = *self;
            let acted = self.process_key(keyboard.triggered_keys[i].as_str(), keyboard, bindings);
            proof {
                let prev = states;
                states = states.push(*self);
                assert forall|j: int| 0 <= j < i + 1 implies #[trigger] states[j].key_step(
                    states[j + 1],
                    keys[j]@,
                    *keyboard,
                    *bindings,
                ) by {
                    if j < i {
                        assert(states[j] == prev[j] && states[j + 1] == prev[j + 1]);
                    }
                }
                assert(states[i as int] == here);
                if Self::some_key_changes(states, i + 1) {
                    let w = choose|w: int| 0 <= w < i + 1 && #[trigger] states[w + 1].content@ != states[w].content@;
                    if w < i {
                        assert(states[w] == prev[w] && states[w + 1] == prev[w + 1]);
                        assert(Self::some_key_changes(prev, i as int));
                    }
                }
                if Self::some_key_changes(prev, i as int) {
                    let w = choose|w: int| 0 <= w < i && #[trigger] prev[w + 1].content@ != prev[w].content@;
                    assert(states[w] == prev[w] && states[w + 1] == prev[w + 1]);
                }
                if acted {
                    assert(states[i + 1].content@ != states[i as int].content@);
                }
            }
            if acted {
                out = true;
            }
            i = i + 1;
        }
        proof {
            assert(Self::runs_through(states, keys, *keyboard, *bindings));
        }
        out
    }

    /// Merges a list of regions into the sorted list of regions that holds
    /// the same offsets, in which no two regions touch or overlap.
    pub fn merge_groups(ranges: &mut Vec<Region>)
        requires
            well_formed(old(ranges)@),
        ensures
            final(ranges)@ == merged(old(ranges)@),
            separated(final(ranges)@),
            same_cover(final(ranges)@, old(ranges)@),
    {
        let n = ranges.len();
        let mut acc: Vec<Region> = Vec::new();
        let mut i: usize = 0;
        while i < n
            invariant
                n == ranges.len(),
                i <= n,
                well_formed(ranges@),
                acc@ == merged(ranges@.take(i as int)),
            decreases n - i,
        {
            proof {
                assert(well_formed(ranges@.take(i as int)));
                lemma_merged_canonical(ranges@.take(i as int));
            }
            acc = insert_region(&acc, ranges[i]);
            proof {
                let t = ranges@.take(i + 1);
                assert(t.drop_last() =~= ranges@.take(i as int));
            }
            i = i + 1;
        }
        proof {
            assert(ranges@.take(n as int) =~= ranges@);
            lemma_merged_canonical(ranges@);
        }
        *ranges = acc;
    }
}


/// Each cursor left after truncation is one of the placed cursors, now
/// remembering its column.
proof fn lemma_origin(placed: TextInputHandler, prefd: TextInputHandler, after: TextInputHandler, ii: int) -> (jj: int)
    requires
        prefd.columns_remembered(placed),
        after.cursors_truncated(prefd),
        0 <= ii < after.cursors@.len(),
    ensures
        0 <= jj < placed.cursors@.len(),
        after.cursors@[ii] == remember_column(placed.cursors@[jj], placed.content@),
{
    let c = after.cursors@[ii];
    assert(prefd.cursors@.contains(c));
    let jj = choose|jj: int| 0 <= jj < prefd.cursors@.len() && prefd.cursors@[jj] == c;
    jj
}

/// Where the start of each span lands once the merge of all the spans is
/// taken out.
pub open spec fn landing(ranges: Seq<Region>) -> Seq<int> {
    ranges.map_values(|r: Region| shifted(merged(ranges), r.0 as int))
}

/// The cursors of `placed` are plain carets at `targets`; `prefd` is
/// `placed` with remembered columns and `after` is `prefd` truncated.
pub open spec fn settle_steps(
    placed: TextInputHandler,
    prefd: TextInputHandler,
    after: TextInputHandler,
    targets: Seq<int>,
) -> bool {
    &&& targets.len() == placed.cursors@.len() + 1
    &&& placed.cursor.idx == targets[0]
    &&& placed.cursor.selection_idx is None
    &&& forall|t: int|
        0 <= t < placed.cursors@.len() ==> (#[trigger] placed.cursors@[t]).idx == targets[t + 1]
            && placed.cursors@[t].selection_idx is None
    &&& prefd.columns_remembered(placed)
    &&& after.cursors_truncated(prefd)
}

proof fn lemma_settled_taken(
    placed: TextInputHandler,
    prefd: TextInputHandler,
    after: TextInputHandler,
    targets: Seq<int>,
)
    requires
        settle_steps(placed, prefd, after, targets),
    ensures
        forall|j: int|
            0 <= j < placed.cursors@.len() ==> #[trigger] targets[j + 1] == after.cursor.idx
                || exists|i: int|
                0 <= i < after.cursors@.len() && #[trigger] after.cursors@[i].idx == targets[j + 1],
{
    assert forall|jj: int| 0 <= jj < placed.cursors@.len() implies #[trigger] targets[jj + 1]
        == after.cursor.idx || exists|ii: int|
        0 <= ii < after.cursors@.len() && #[trigger] after.cursors@[ii].idx == targets[jj + 1] by {
        let c = prefd.cursors@[jj];
        assert(c.idx == placed.cursors@[jj].idx);
        if c != after.cursor {
            assert(prefd.cursors@[jj] == c);
            assert(after.cursors@.contains(c));
            let ii = choose|ii: int| 0 <= ii < after.cursors@.len() && after.cursors@[ii] == c;
            assert(after.cursors@[ii].idx == targets[jj + 1]);
        }
    }
}

proof fn lemma_settled_carets(
    placed: TextInputHandler,
    prefd: TextInputHandler,
    after: TextInputHandler,
    targets: Seq<int>,
)
    requires
        settle_steps(placed, prefd, after, targets),
    ensures
        forall|i: int|
            0 <= i < after.cursors@.len() ==> caret_at_some(
                #[trigger] after.cursors@[i],
                after.content@,
                placed.cursors@.len() as int,
                targets,
            ),
{
    assert forall|ii: int| 0 <= ii < after.cursors@.len() implies caret_at_some(
        #[trigger] after.cursors@[ii],
        after.content@,
        placed.cursors@.len() as int,
        targets,
    ) by {
        let jj = lemma_origin(placed, prefd, after, ii);
        assert(placed.cursors@[jj].idx == targets[jj + 1]);
        assert(after.content == placed.content);
        assert(is_caret(after.cursors@[ii], after.content@, targets[jj + 1]));
    }
}

proof fn lemma_settled_apart(
    placed: TextInputHandler,
    prefd: TextInputHandler,
    after: TextInputHandler,
    targets: Seq<int>,
)
    requires
        settle_steps(placed, prefd, after, targets),
    ensures
        forall|i: int, k: int|
            0 <= i < k < after.cursors@.len() ==> #[trigger] after.cursors@[i].idx
                < #[trigger] after.cursors@[k].idx,
        forall|i: int|
            0 <= i < after.cursors@.len() ==> #[trigger] after.cursors@[i].idx != after.cursor.idx,
{
    assert forall|ii: int| 0 <= ii < after.cursors@.len() implies #[trigger] after.cursors@[ii].idx
        != after.cursor.idx by {
        let jj = lemma_origin(placed, prefd, after, ii);
        assert(after.cursors@[ii] != after.cursor);
    }
    assert forall|ii: int, kk: int| 0 <= ii < kk < after.cursors@.len() implies #[trigger] after.cursors@[ii].idx
        < #[trigger] after.cursors@[kk].idx by {
        let ja = lemma_origin(placed, prefd, after, ii);
        let jb = lemma_origin(placed, prefd, after, kk);
        assert(after.cursors@[ii] != after.cursors@[kk]);
        assert(after.cursors@[ii].idx <= after.cursors@[kk].idx);
    }
}

/// Once every cursor is a plain caret that remembers its column and the
/// duplicates are gone, the cursors are settled at their targets.
proof fn lemma_settled(
    placed: TextInputHandler,
    prefd: TextInputHandler,
    after: TextInputHandler,
    targets: Seq<int>,
)
    requires
        settle_steps(placed, prefd, after, targets),
    ensures
        after.settled(placed.cursors@.len() as int, targets),
{
    lemma_settled_taken(placed, prefd, after, targets);
    lemma_settled_carets(placed, prefd, after, targets);
    lemma_settled_apart(placed, prefd, after, targets);
    assert(after.cursor == remember_column(placed.cursor, placed.content@));
    assert(after.content == placed.content);
}


/// One cursor after a horizontal step without the selection modifier.
fn step_cursor(c: Cursor, left: bool, step: bool, n: IdxSize) -> (r: Cursor)
    requires
        c.within(n as int),
    ensures
        r == stepped(c, left, step, n as int),
        r.within(n as int),
{
    let idx = match c.selection_idx {
        Some(s) => if left == (s <= c.idx) {
            s
        } else {
            c.idx
        },
        None => if !step {
            c.idx
        } else if left {
            if c.idx > 0 {
                c.idx - 1
            } else {
                0
            }
        } else if c.idx < n {
            c.idx + 1
        } else {
            c.idx
        },
    };
    Cursor { idx, selection_idx: None, preferred_column: c.preferred_column }
}


/// Moving one piece to another place keeps the summed length.
proof fn lemma_total_len_perm(vs: Seq<Seq<char>>, k: int)
    requires
        0 <= k < vs.len(),
    ensures
        total_len(vs.skip(1).take(k) + seq![vs[0]] + vs.skip(1).skip(k)) == total_len(vs),
{
    lemma_total_len_concat(vs.skip(1).take(k) + seq![vs[0]], vs.skip(1).skip(k));
    lemma_total_len_concat(vs.skip(1).take(k), seq![vs[0]]);
    lemma_total_len_concat(vs.skip(1).take(k), vs.skip(1).skip(k));
    lemma_total_len_concat(seq![vs[0]], vs.skip(1));
    assert(vs.skip(1).take(k) + vs.skip(1).skip(k) =~= vs.skip(1));
    assert(seq![vs[0]] + vs.skip(1) =~= vs);
    assert(seq![vs[0]].drop_last() =~= Seq::<Seq<char>>::empty());
}

/// The summed length of two lists of pieces put together.
proof fn lemma_total_len_concat(a: Seq<Seq<char>>, b: Seq<Seq<char>>)
    ensures
        total_len(a + b) == total_len(a) + total_len(b),
    decreases b.len(),
{
    if b.len() == 0 {
        assert(a + b =~= a);
    } else {
        lemma_total_len_concat(a, b.drop_last());
        assert((a + b).drop_last() =~= a + b.drop_last());
    }
}


/// `n` copies of `t` are `n` times as long as `t`.
proof fn lemma_total_len_copies(n: int, t: Seq<char>)
    requires
        n >= 0,
    ensures
        total_len(copies(n, t)) == n * t.len(),
    decreases n,
{
    if n > 0 {
        lemma_total_len_copies(n - 1, t);
        assert(copies(n, t).drop_last() =~= copies(n - 1, t));
        assert(copies(n, t).last() == t);
        assert(n * t.len() == (n - 1) * t.len() + t.len()) by (nonlinear_arith);
    } else {
        assert(n * t.len() == 0) by (nonlinear_arith)
            requires
                n == 0,
        ;
    }
}

/// A cursor within the text stays within it when moved vertically.
proof fn lemma_moved_within(c: Cursor, s: Seq<char>, up: bool)
    requires
        c.within(s.len() as int),
    ensures
        moved_vertically(c, s, up).within(s.len() as int),
{
    lemma_line_of_offset(s, c.idx as int);
    let l = text_pos(s, c.idx as int).0;
    if up && l > 0 {
        lemma_index_at_within(s, l - 1, c.preferred_column as int);
    } else if !up && l + 1 <= last_line(s) {
        lemma_index_at_within(s, l + 1, c.preferred_column as int);
    }
}

/// One cursor moved one line up or down.
fn vertical_step(v: &Vec<char>, c: Cursor, up: bool) -> (r: Cursor)
    requires
        c.within(v@.len() as int),
    ensures
        r == moved_vertically(c, v@, up),
        r.within(v@.len() as int),
{
    proof {
        lemma_moved_within(c, v@, up);
        lemma_line_of_offset(v@, c.idx as int);
    }
    let l = match pos_in(v, c.idx) {
        Some((l, _)) => l,
        None => 0,
    };
    if up {
        if l == 0 {
            Cursor { idx: 0, selection_idx: c.selection_idx, preferred_column: 0 }
        } else {
            proof {
                crate::lines::lemma_line_bounds_order(v@, (l - 1) as nat);
            }
            let idx = match line_bounds(v, l - 1) {
                Some((b, e)) => if c.preferred_column <= e - b {
                    b + c.preferred_column
                } else {
                    e
                },
                None => 0,
            };
            Cursor { idx, selection_idx: c.selection_idx, preferred_column: c.preferred_column }
        }
    } else {
        proof {
            crate::lines::lemma_newlines_at_most(v@, c.idx as int);
            crate::lines::lemma_newlines_at_most(v@, v@.len() as int);
        }
        let next = if l < v.len() {
            line_bounds(v, l + 1)
        } else {
            None
        };
        match next {
            Some((b, e)) => {
                proof {
                    crate::lines::lemma_line_bounds_order(v@, (l + 1) as nat);
                }
                let idx = if c.preferred_column <= e - b {
                    b + c.preferred_column
                } else {
                    e
                };
                Cursor { idx, selection_idx: c.selection_idx, preferred_column: c.preferred_column }
            },
            None => {
                let here = match line_bounds(v, l) {
                    Some((b, e)) => {
                        proof {
                            crate::lines::lemma_line_bounds_order(v@, l as nat);
                        }
                        e - b
                    },
                    None => 0,
                };
                Cursor { idx: v.len(), selection_idx: c.selection_idx, preferred_column: here }
            },
        }
    }
}


/// The column of an offset lies within its line.
proof fn lemma_column_within_line(s: Seq<char>, i: int)
    requires
        0 <= i <= s.len(),
    ensures
        0 <= text_pos(s, i).0 <= last_line(s),
        0 <= line_begin(s, text_pos(s, i).0 as nat) <= line_end_from(
            s,
            line_begin(s, text_pos(s, i).0 as nat),
        ) <= s.len(),
        0 <= text_pos(s, i).1 <= line_end_from(s, line_begin(s, text_pos(s, i).0 as nat)) - line_begin(
            s,
            text_pos(s, i).0 as nat,
        ),
{
    crate::lines::lemma_pos_index_round_trip(s, i);
    lemma_line_of_offset(s, i);
    crate::lines::lemma_line_begin_at(s, i);
    crate::lines::lemma_no_newline_since_line_start(s, i);
    crate::lines::lemma_line_bounds_order(s, text_pos(s, i).0 as nat);
}

/// A cursor within the text stays within it after a word jump.
proof fn lemma_word_moved_within(c: Cursor, s: Seq<char>, left: bool)
    requires
        c.within(s.len() as int),
    ensures
        word_moved(c, s, left).within(s.len() as int),
{
    lemma_column_within_line(s, c.idx as int);
    let p = text_pos(s, c.idx as int);
    let b = line_begin(s, p.0 as nat);
    let line = s.subrange(b, line_end_from(s, b));
    crate::words::lemma_jump_within(line, p.1, left);
}

/// One cursor moved a word left or right.
fn word_step(text: &str, v: &Vec<char>, c: Cursor, left: bool) -> (r: Cursor)
    requires
        v@ == text@,
        c.within(v@.len() as int),
    ensures
        r == word_moved(c, v@, left),
{
    proof {
        lemma_column_within_line(v@, c.idx as int);
    }
    let (l, col) = match pos_in(v, c.idx) {
        Some(p) => p,
        None => (0, 0),
    };
    let (b, e) = match line_bounds(v, l) {
        Some(be) => be,
        None => (0, 0),
    };
    let line = text.substring_char(b, e);
    let target = word_jump(line, col, left);
    Cursor { idx: b + target, selection_idx: c.selection_idx, preferred_column: c.preferred_column }
}

/// One cursor moved one place left or right.
fn nudge_cursor(c: Cursor, left: bool, n: IdxSize) -> (r: Cursor)
    requires
        c.within(n as int),
    ensures
        r == nudged(c, left, n as int),
        r.within(n as int),
{
    let idx = if left {
        if c.idx > 0 {
            c.idx - 1
        } else {
            0
        }
    } else if c.idx < n {
        c.idx + 1
    } else {
        c.idx
    };
    Cursor { idx, selection_idx: c.selection_idx, preferred_column: c.preferred_column }
}


/// Handlers with the same text and cursors are well formed together.
proof fn lemma_wf_same_cursors(a: TextInputHandler, b: TextInputHandler)
    requires
        a.wf(),
        a.content@ == b.content@,
        a.cursor == b.cursor,
        a.cursors@ == b.cursors@,
    ensures
        b.wf(),
{
    assert(a.all_cursors() =~= b.all_cursors());
}


/// Whether `n` characters and the pieces together stay within `room`.
fn fits_in(n: usize, pieces: &Vec<String>, room: usize) -> (r: bool)
    ensures
        r == (n + total_len(texts(pieces@)) <= room),
{
    let mut acc = n;
    let mut i: usize = 0;
    while i < pieces.len()
        invariant
            i <= pieces@.len(),
            acc == n + total_len(texts(pieces@).take(i as int)),
            acc <= room || i == 0,
        decreases pieces@.len() - i,
    {
        proof {
            lemma_total_len_step(texts(pieces@), i as int);
        }
        let l = pieces[i].as_str().unicode_len();
        if acc > room || l > room - acc {
            proof {
                lemma_total_len_grows(texts(pieces@), i + 1, pieces@.len() as int);
            }
            return false;
        }
        acc = acc + l;
        i = i + 1;
    }
    proof {
        lemma_total_len_grows(texts(pieces@), 0, pieces@.len() as int);
    }
    acc <= room
}


/// Taking out the merge of a single span takes out that span.
pub proof fn lemma_single_span(s: Seq<char>, r: Region)
    requires
        r.0 <= r.1 <= s.len(),
    ensures
        cut(s, merged(seq![r])) == remove_one(s, r),
{
    assert(seq![r].drop_last() =~= Seq::<Region>::empty());
    assert(merged(Seq::<Region>::empty()) == Seq::<Region>::empty());
    assert(add_region(Seq::<Region>::empty(), r) == seq![r]);
    assert(merged(seq![r]) == seq![r]);
    assert(seq![r].last() == r);
    assert(cut(s.subrange(0, r.0 as int), Seq::<Region>::empty()) == s.subrange(0, r.0 as int));
    assert(cut(s, seq![r]) == cut(s.subrange(0, r.0 as int), seq![r].drop_last()) + s.subrange(
        r.1 as int,
        s.len() as int,
    ));
}

/// With one cursor, a backspace takes out just that cursor's span.
pub proof fn lemma_single_cursor_backspace(h: TextInputHandler, after: TextInputHandler)
    requires
        h.wf(),
        h.allow_editing,
        h.cursors@.len() == 0,
        h.backspaced_into(after),
    ensures
        after.content@ == remove_one(h.content@, h.cursor.backspace_range_of()),
{
    assert(h.all_cursors()[0].within(h.content@.len() as int));
    assert(backspace_ranges(h.all_cursors()) =~= seq![h.cursor.backspace_range_of()]);
    lemma_single_span(h.content@, h.cursor.backspace_range_of());
}

/// With one cursor, a delete takes out just that cursor's span.
pub proof fn lemma_single_cursor_delete(h: TextInputHandler, after: TextInputHandler)
    requires
        h.wf(),
        h.allow_editing,
        h.cursors@.len() == 0,
        h.deleted_into(after),
    ensures
        after.content@ == remove_one(h.content@, h.cursor.delete_range_of(h.content@.len() as IdxSize)),
{
    let n = h.content@.len() as IdxSize;
    assert(h.all_cursors()[0].within(h.content@.len() as int));
    assert(delete_ranges(h.all_cursors(), n) =~= seq![h.cursor.delete_range_of(n)]);
    lemma_single_span(h.content@, h.cursor.delete_range_of(n));
}

/// The spans of `a` and `b` are the same, counted with repetition, and
/// those of `b` lie within `[0, n]`; then so do those of `a`.
proof fn lemma_permuted_spans(a: Seq<Region>, b: Seq<Region>, n: int)
    requires
        a.to_multiset() == b.to_multiset(),
        well_formed(b),
        ends_within(b, n),
    ensures
        ends_within(a, n),
{
    broadcast use vstd::seq_lib::group_to_multiset_ensures;

    assert forall|i: int| 0 <= i < a.len() implies #[trigger] a[i].1 <= n by {
        assert(a.contains(a[i]));
        assert(a.to_multiset().count(a[i]) > 0);
        assert(b.contains(a[i]));
    }
}

/// A backspace at several cursors leaves the same text as a backspace at
/// each cursor on its own, from the highest offset to the lowest: `rs` holds
/// the cursors' spans in that order, none overlapping, and each step takes out
/// one span as a single-cursor backspace does (`lemma_single_cursor_backspace`).
pub proof fn lemma_backspace_one_at_a_time(h: TextInputHandler, after: TextInputHandler, rs: Seq<Region>)
    requires
        h.wf(),
        h.allow_editing,
        h.backspaced_into(after),
        rs.to_multiset() == backspace_ranges(h.all_cursors()).to_multiset(),
        descending(rs),
    ensures
        after.content@ == remove_each(h.content@, rs),
{
    let bs = backspace_ranges(h.all_cursors());
    let n = h.content@.len() as int;
    assert(well_formed(bs) && ends_within(bs, n)) by {
        assert forall|i: int| 0 <= i < bs.len() implies #[trigger] bs[i].0 <= bs[i].1 && bs[i].1 <= n by {
            assert(h.all_cursors()[i].within(n));
            assert(bs[i] == h.all_cursors()[i].backspace_range_of());
        }
        assert forall|i: int| 0 <= i < bs.len() implies #[trigger] bs[i].1 <= n by {
            assert(bs[i].0 <= bs[i].1 && bs[i].1 <= n);
        }
    }
    lemma_permuted_spans(rs, bs, n);
    lemma_merge_order_independent(rs, bs);
    lemma_sequential_removal(h.content@, rs);
}

/// A delete at several cursors leaves the same text as a delete at each
/// cursor on its own, from the highest offset to the lowest: `rs` holds the
/// cursors' spans in that order, none overlapping, and each step takes out one
/// span as a single-cursor delete does (`lemma_single_cursor_delete`).
pub proof fn lemma_delete_one_at_a_time(h: TextInputHandler, after: TextInputHandler, rs: Seq<Region>)
    requires
        h.wf(),
        h.allow_editing,
        h.deleted_into(after),
        rs.to_multiset() == delete_ranges(h.all_cursors(), h.content@.len() as IdxSize).to_multiset(),
        descending(rs),
    ensures
        after.content@ == remove_each(h.content@, rs),
{
    let ds = delete_ranges(h.all_cursors(), h.content@.len() as IdxSize);
    let n = h.content@.len() as int;
    assert(well_formed(ds) && ends_within(ds, n)) by {
        assert forall|i: int| 0 <= i < ds.len() implies #[trigger] ds[i].0 <= ds[i].1 && ds[i].1 <= n by {
            assert(h.all_cursors()[i].within(n));
            assert(ds[i] == h.all_cursors()[i].delete_range_of(n as IdxSize));
        }
        assert forall|i: int| 0 <= i < ds.len() implies #[trigger] ds[i].1 <= n by {
            assert(ds[i].0 <= ds[i].1 && ds[i].1 <= n);
        }
    }
    lemma_permuted_spans(rs, ds, n);
    lemma_merge_order_independent(rs, ds);
    lemma_sequential_removal(h.content@, rs);
}

} // verus!
