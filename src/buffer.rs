//! The run list: styled runs of text with a cursor, dirty-run bookkeeping,
//! and the navigation and mutation primitives over it.

use vstd::prelude::*;
use crate::style::{no_style, Style};
use crate::text::{
    back_to_row, column_at, count_nl, flat, fwd, lemma_back_to_row, lemma_count_nl_repeat,
    lemma_flat_add, lemma_flat_insert_at, lemma_flat_insert_empty, lemma_flat_pair,
    lemma_flat_remove_at, lemma_flat_split, lemma_flat_take_empty, lemma_flat_take_mono, lemma_fwd,
    lemma_pad, lemma_row_step, line_start, repeat, row_at,
};

verus! {

/// Upper bound on characters plus runs held; input that could pass it is dropped.
pub const TEXT_CAPACITY: usize = 0x1000_0000;

/// Room in characters plus runs that one cursor placement may take.
pub const GOTO_ROOM: usize = 0x20010;

/// Size of the visible grid, as the channel reports it.
#[derive(Clone, Copy, Debug, PartialEq, Eq, Structural)]
pub struct Grid {
    pub rows: u16,
    pub columns: u16,
}

/// A grid dimension, at least 1.
pub open spec fn dim(n: u16) -> int {
    if n == 0 {
        1
    } else {
        n as int
    }
}

/// A column clamped to `[1, columns]`.
pub open spec fn clamp_col(c: int, g: Grid) -> int {
    if c < 1 {
        1
    } else if c > dim(g.columns) {
        dim(g.columns)
    } else {
        c
    }
}

/// A row clamped to `[0, rows - 1]`.
pub open spec fn clamp_row(r: int, g: Grid) -> int {
    if r > dim(g.rows) - 1 {
        dim(g.rows) - 1
    } else {
        r
    }
}

/// The text with line breaks appended until it has row `r` (rows count from
/// the bottom, so it needs `r` line breaks).
pub open spec fn grown(s: Seq<char>, r: int) -> Seq<char> {
    if count_nl(s) < r {
        s + repeat('\n', (r - count_nl(s)) as nat)
    } else {
        s
    }
}

/// Where the cursor placement for column `c` and row `r` stops walking in
/// the grown text, and how many spaces it still has to write.
pub open spec fn goto_stop(s: Seq<char>, c: int, r: int) -> (int, int) {
    let s1 = grown(s, r);
    let l = back_to_row(s1, s1.len() as int, r as nat);
    let q = fwd(s1, l, (c - 1) as nat);
    (q, c - 1 - (q - l))
}

/// The text after placing the cursor at column `c` and row `r`.
pub open spec fn goto_text(s: Seq<char>, c: int, r: int) -> Seq<char> {
    let s1 = grown(s, r);
    let (q, n) = goto_stop(s, c, r);
    s1.take(q) + repeat(' ', n as nat) + s1.skip(q)
}

/// The cursor position after placing it at column `c` and row `r`.
pub open spec fn goto_pos(s: Seq<char>, c: int, r: int) -> int {
    let (q, n) = goto_stop(s, c, r);
    q + n
}

/// A span of text sharing one style.
pub struct Run {
    pub text: Vec<char>,
    pub style: Style,
    /// Changed since the renderer last saw it.
    pub dirty: bool,
    /// Identifier of the renderer's element for this run, once it has one.
    pub id: Option<u64>,
}

/// The texts of a run list.
pub open spec fn texts(runs: Seq<Run>) -> Seq<Seq<char>> {
    runs.map_values(|r: Run| r.text@)
}

/// Number of dirty runs.
pub open spec fn count_dirty(runs: Seq<Run>) -> nat
    decreases runs.len(),
{
    if runs.len() == 0 {
        0
    } else {
        count_dirty(runs.drop_last()) + if runs.last().dirty { 1nat } else { 0nat }
    }
}

/// Position in the whole text of offset `off` of run `i`.
pub open spec fn pos_in(runs: Seq<Run>, i: int, off: int) -> int {
    flat(texts(runs).take(i)).len() + off
}

/// `(i, off)` addresses a boundary inside run `i`.
pub open spec fn valid_at(runs: Seq<Run>, i: int, off: int) -> bool {
    0 <= i < runs.len() && 0 <= off <= runs[i].text@.len()
}

/// `(i, off)` addresses a character of run `i`.
pub open spec fn on_char(runs: Seq<Run>, i: int, off: int) -> bool {
    0 <= i < runs.len() && 0 <= off < runs[i].text@.len()
}

/// Identifiers are unique and none is above the last one handed out.
pub open spec fn ids_ok(runs: Seq<Run>, last_id: u64) -> bool {
    &&& forall|k: int| 0 <= k < runs.len() && (#[trigger] runs[k].id) is Some ==> runs[k].id->0 <= last_id
    &&& forall|k: int, l: int|
        0 <= k < runs.len() && 0 <= l < runs.len() && k != l && (#[trigger] runs[k].id) is Some
            ==> runs[k].id != #[trigger] runs[l].id
    &&& forall|k: int| 0 <= k < runs.len() && (#[trigger] runs[k].id) is None ==> runs[k].dirty
}

/// An element of the renderer: identifier, text and style.
pub type Elem = (u64, Seq<char>, Style);

/// What the renderer shows for a run that has an identifier.
pub open spec fn elem_of(r: Run) -> Elem {
    (r.id->0, r.text@, r.style)
}

/// The renderer's elements `a` stand, in order, for the runs of `u` that
/// have an identifier; those not dirty are shown as they are.
pub open spec fn loose(u: Seq<Run>, a: Seq<Elem>) -> bool
    decreases u.len(),
{
    if u.len() == 0 {
        a.len() == 0
    } else if u.last().id is None {
        loose(u.drop_last(), a)
    } else {
        &&& a.len() > 0
        &&& a.last().0 == u.last().id->0
        &&& (!u.last().dirty ==> a.last() == elem_of(u.last()))
        &&& loose(u.drop_last(), a.drop_last())
    }
}

/// `v` is `u` with run `j` replaced by a dirty run with the same identifier.
pub open spec fn dirtied(u: Seq<Run>, v: Seq<Run>, j: int) -> bool {
    &&& 0 <= j < u.len()
    &&& v == u.update(j, v[j])
    &&& v[j].id == u[j].id
    &&& v[j].dirty
}

pub proof fn lemma_loose_dirtied(u: Seq<Run>, v: Seq<Run>, j: int, a: Seq<Elem>)
    requires
        loose(u, a),
        dirtied(u, v, j),
    ensures
        loose(v, a),
    decreases u.len(),
{
    if j < u.len() - 1 {
        assert(v.drop_last() =~= u.drop_last().update(j, v[j]));
        if u.last().id is None {
            lemma_loose_dirtied(u.drop_last(), v.drop_last(), j, a);
        } else {
            lemma_loose_dirtied(u.drop_last(), v.drop_last(), j, a.drop_last());
        }
    } else {
        assert(v.drop_last() =~= u.drop_last());
    }
}

pub proof fn lemma_loose_insert(u: Seq<Run>, k: int, r: Run, a: Seq<Elem>)
    requires
        loose(u, a),
        0 <= k <= u.len(),
        r.id is None,
    ensures
        loose(u.insert(k, r), a),
    decreases u.len(),
{
    let v = u.insert(k, r);
    if k == u.len() {
        assert(v.drop_last() =~= u);
    } else {
        assert(v.drop_last() =~= u.drop_last().insert(k, r));
        assert(v.last() == u.last());
        if u.last().id is None {
            lemma_loose_insert(u.drop_last(), k, r, a);
        } else {
            lemma_loose_insert(u.drop_last(), k, r, a.drop_last());
        }
    }
}

/// The screen model: runs, cursor, and the interpreter's state.
pub struct Buffer {
    pub runs: Vec<Run>,
    pub cursor_run: usize,
    pub cursor_offset: usize,
    /// The escape sequence being read; empty outside one.
    pub escape: Vec<char>,
    /// Longest the sequence being read may grow.
    pub escape_limit: usize,
    /// Number of dirty runs.
    pub dirty_count: usize,
    /// Last renderer identifier handed out.
    pub last_id: u64,
    /// A carriage return waits for the next character.
    pub pending_cr: bool,
    /// Number of characters in all runs.
    pub text_len: usize,
    /// The elements the renderer holds, as the operations sent to it left them.
    pub rendered: Ghost<Seq<Elem>>,
}

impl Buffer {
    pub open spec fn text(&self) -> Seq<char> {
        flat(texts(self.runs@))
    }

    /// Position of the cursor in the whole text.
    pub open spec fn pos(&self) -> int {
        pos_in(self.runs@, self.cursor_run as int, self.cursor_offset as int)
    }

    /// Everything well-formedness asks but a valid cursor.
    pub open spec fn wf_runs(&self) -> bool {
        &&& self.dirty_count == count_dirty(self.runs@)
        &&& ids_ok(self.runs@, self.last_id)
        &&& self.text_len == self.text().len()
        &&& self.text_len + self.runs@.len() <= TEXT_CAPACITY
        &&& loose(self.runs@, self.rendered@)
    }

    pub open spec fn wf(&self) -> bool {
        &&& self.runs@.len() >= 1
        &&& valid_at(self.runs@, self.cursor_run as int, self.cursor_offset as int)
        &&& self.wf_runs()
    }

    /// Where the cursor is once snapped into range: past the last run it
    /// goes to the end of the text, past the end of its run to that end.
    pub open spec fn snapped_pos(&self) -> int {
        if self.cursor_run >= self.runs@.len() {
            self.text().len() as int
        } else if self.cursor_offset > self.runs@[self.cursor_run as int].text@.len() {
            pos_in(self.runs@, self.cursor_run as int, self.runs@[self.cursor_run as int].text@.len() as int)
        } else {
            self.pos()
        }
    }

    /// A buffer holding one empty, unstyled run, with the cursor on it.
    pub fn new() -> (b: Buffer)
        ensures
            b.wf(),
            b.runs@.len() == 1,
            b.text().len() == 0,
            b.runs@[0].style == no_style(),
            b.runs@[0].id is None,
            b.runs@[0].dirty,
            b.dirty_count == 1,
            b.cursor_run == 0,
            b.cursor_offset == 0,
            b.pos() == 0,
            b.escape@.len() == 0,
            !b.pending_cr,
            b.last_id == 0,
    {
        let mut runs: Vec<Run> = Vec::new();
        runs.push(Run { text: Vec::new(), style: Style::neutral(), dirty: true, id: None });
        let b = Buffer {
            runs,
            cursor_run: 0,
            cursor_offset: 0,
            escape: Vec::new(),
            escape_limit: 0,
            dirty_count: 1,
            last_id: 0,
            pending_cr: false,
            text_len: 0,
            rendered: Ghost(Seq::empty()),
        };
        proof {
            let ts = texts(b.runs@);
            assert(ts.drop_last() =~= Seq::<Seq<char>>::empty());
            assert(flat(ts.drop_last()) =~= Seq::<char>::empty());
            assert(b.text() =~= Seq::<char>::empty());
            assert(ts.take(0) =~= Seq::<Seq<char>>::empty());
            assert(b.runs@.drop_last() =~= Seq::<Run>::empty());
            assert(count_dirty(b.runs@.drop_last()) == 0);
            assert(count_dirty(b.runs@) == 1);
            assert(loose(b.runs@.drop_last(), b.rendered@));
        }
        b
    }

    /// Where the character at `(i, off)` is stored: the same place when it
    /// is inside run `i`, else the start of the next non-empty run; `None`
    /// at the end of the text.
    pub fn char_at(&self, i: usize, off: usize) -> (r: Option<(usize, usize)>)
        requires
            self.wf(),
            valid_at(self.runs@, i as int, off as int),
        ensures
            r is Some <==> pos_in(self.runs@, i as int, off as int) < self.text().len(),
            r matches Some((j, o)) ==> {
                &&& on_char(self.runs@, j as int, o as int)
                &&& pos_in(self.runs@, j as int, o as int) == pos_in(
                    self.runs@,
                    i as int,
                    off as int,
                )
                &&& self.text()[pos_in(self.runs@, i as int, off as int)]
                    == self.runs@[j as int].text@[o as int]
                &&& i <= j
            },
    {
        let ghost ts = texts(self.runs@);
        proof {
            lemma_flat_split(ts, i as int);
            lemma_flat_take_mono(ts, i as int + 1, ts.len() as int);
        }
        if off < self.runs[i].text.len() {
            proof {
                lemma_on_char(self.runs@, i as int, off as int);
            }
            return Some((i, off));
        }
        let mut j: usize = i + 1;
        while j < self.runs.len()
            invariant
                self.wf(),
                i < j <= self.runs@.len(),
                ts == texts(self.runs@),
                off == self.runs@[i as int].text@.len(),
                forall|k: int| i < k < j ==> (#[trigger] ts[k]).len() == 0,
            decreases self.runs@.len() - j,
        {
            if self.runs[j].text.len() > 0 {
                proof {
                    lemma_flat_take_mono(ts, i as int + 1, j as int);
                    lemma_flat_split(ts, i as int);
                    lemma_on_char(self.runs@, j as int, 0);
                }
                return Some((j, 0));
            }
            j = j + 1;
        }
        proof {
            lemma_flat_take_mono(ts, i as int + 1, ts.len() as int);
            assert(ts.take(ts.len() as int) =~= ts);
        }
        None
    }

    /// Steps `(index, offset)` over the character there; true when another
    /// character follows it. At the end of the text nothing moves.
    pub fn advance(&self, index: &mut usize, offset: &mut usize) -> (r: bool)
        requires
            self.wf(),
            valid_at(self.runs@, *old(index) as int, *old(offset) as int),
        ensures
            valid_at(self.runs@, *final(index) as int, *final(offset) as int),
            r == (pos_in(self.runs@, *old(index) as int, *old(offset) as int) + 1 < self.text().len()),
            pos_in(self.runs@, *final(index) as int, *final(offset) as int) == if pos_in(
                self.runs@,
                *old(index) as int,
                *old(offset) as int,
            ) < self.text().len() {
                pos_in(self.runs@, *old(index) as int, *old(offset) as int) + 1
            } else {
                pos_in(self.runs@, *old(index) as int, *old(offset) as int)
            },
    {
        match self.char_at(*index, *offset) {
            Some((j, o)) => {
                *index = j;
                *offset = o + 1;
                self.char_at(j, o + 1).is_some()
            },
            None => false,
        }
    }

    /// Moves `(index, offset)` one character back, onto that character;
    /// false only at the start of the text, where nothing moves.
    pub fn retreat(&self, index: &mut usize, offset: &mut usize) -> (r: bool)
        requires
            self.wf(),
            valid_at(self.runs@, *old(index) as int, *old(offset) as int),
        ensures
            valid_at(self.runs@, *final(index) as int, *final(offset) as int),
            r == (pos_in(self.runs@, *old(index) as int, *old(offset) as int) > 0),
            r ==> on_char(self.runs@, *final(index) as int, *final(offset) as int),
            pos_in(self.runs@, *final(index) as int, *final(offset) as int) == pos_in(
                self.runs@,
                *old(index) as int,
                *old(offset) as int,
            ) - if r { 1int } else { 0int },
    {
        let ghost ts = texts(self.runs@);
        if *offset > 0 {
            *offset = *offset - 1;
            return true;
        }
        let i = *index;
        let mut j: usize = i;
        while j > 0
            invariant
                self.wf(),
                j <= i < self.runs@.len(),
                ts == texts(self.runs@),
                *offset == 0,
                *index == i,
                i == *old(index),
                *old(offset) == 0,
                forall|k: int| j <= k < i ==> (#[trigger] ts[k]).len() == 0,
            decreases j,
        {
            j = j - 1;
            if self.runs[j].text.len() > 0 {
                proof {
                    assert(ts[j as int] == self.runs@[j as int].text@);
                    lemma_flat_take_empty(ts, j as int + 1, i as int);
                    lemma_flat_split(ts, j as int);
                }
                *index = j;
                *offset = self.runs[j].text.len() - 1;
                return true;
            }
        }
        proof {
            lemma_flat_take_empty(ts, 0, i as int);
            assert(ts.take(0) =~= Seq::<Seq<char>>::empty());
        }
        false
    }

    /// 1-based column of the cursor.
    pub fn column_of(&self) -> (c: usize)
        requires
            self.wf(),
        ensures
            c == column_at(self.text(), self.pos()),
    {
        let ghost s = self.text();
        let ghost p = self.pos();
        proof {
            lemma_pos_bound(self.runs@, self.cursor_run as int, self.cursor_offset as int);
        }
        let mut i = self.cursor_run;
        let mut off = self.cursor_offset;
        let mut col: usize = 1;
        loop
            invariant
                self.wf(),
                s == self.text(),
                p == self.pos(),
                0 <= p <= s.len(),
                valid_at(self.runs@, i as int, off as int),
                0 <= pos_in(self.runs@, i as int, off as int) <= p,
                col == p - pos_in(self.runs@, i as int, off as int) + 1,
                line_start(s, p) == line_start(s, pos_in(self.runs@, i as int, off as int)),
            decreases pos_in(self.runs@, i as int, off as int),
        {
            let ghost q = pos_in(self.runs@, i as int, off as int);
            if !self.retreat(&mut i, &mut off) {
                proof {
                    assert(q == 0);
                    assert(line_start(s, q) == 0);
                }
                return col;
            }
            proof {
                lemma_on_char(self.runs@, i as int, off as int);
            }
            if self.runs[i].text[off] == '\n' {
                proof {
                    assert(line_start(s, q) == q);
                }
                return col;
            }
            col = col + 1;
        }
    }

    /// Row of the cursor counted from the bottom: line breaks at or after it.
    pub fn row_of(&self) -> (r: usize)
        requires
            self.wf(),
        ensures
            r == row_at(self.text(), self.pos()),
    {
        self.row_from(self.cursor_run, self.cursor_offset)
    }

    /// Line breaks at or after `(i, off)`.
    pub fn row_from(&self, i: usize, off: usize) -> (r: usize)
        requires
            self.wf(),
            valid_at(self.runs@, i as int, off as int),
        ensures
            r == row_at(self.text(), pos_in(self.runs@, i as int, off as int)),
    {
        let ghost s = self.text();
        let ghost p = pos_in(self.runs@, i as int, off as int);
        proof {
            lemma_pos_bound(self.runs@, i as int, off as int);
        }
        let mut j = i;
        let mut o = off;
        let mut count: usize = 0;
        loop
            invariant
                self.wf(),
                s == self.text(),
                p == pos_in(self.runs@, i as int, off as int),
                0 <= p <= pos_in(self.runs@, j as int, o as int) <= s.len(),
                valid_at(self.runs@, j as int, o as int),
                count <= pos_in(self.runs@, j as int, o as int) - p,
                row_at(s, p) == count + row_at(s, pos_in(self.runs@, j as int, o as int)),
            decreases s.len() - pos_in(self.runs@, j as int, o as int),
        {
            let ghost q = pos_in(self.runs@, j as int, o as int);
            match self.char_at(j, o) {
                None => {
                    proof {
                        assert(s.subrange(q, s.len() as int) =~= Seq::<char>::empty());
                        assert(count_nl(Seq::<char>::empty()) == 0);
                        assert(q == s.len());
                        assert(row_at(s, q) == 0);
                    }
                    return count;
                },
                Some((k, l)) => {
                    proof {
                        lemma_row_step(s, q);
                    }
                    if self.runs[k].text[l] == '\n' {
                        count = count + 1;
                    }
                    j = k;
                    o = l + 1;
                },
            }
        }
    }
}

/// A character inside run `i` is the character at its position in the text.
pub proof fn lemma_on_char(runs: Seq<Run>, i: int, off: int)
    requires
        on_char(runs, i, off),
    ensures
        0 <= pos_in(runs, i, off) < flat(texts(runs)).len(),
        flat(texts(runs))[pos_in(runs, i, off)] == runs[i].text@[off],
{
    lemma_flat_split(texts(runs), i);
}

/// A valid position lies within the text.
pub proof fn lemma_pos_bound(runs: Seq<Run>, i: int, off: int)
    requires
        valid_at(runs, i, off),
    ensures
        0 <= pos_in(runs, i, off) <= flat(texts(runs)).len(),
{
    lemma_flat_split(texts(runs), i);
}

/// The text after one character is written at `p`: a character other than a
/// line break is overwritten, otherwise the new one is inserted.
pub open spec fn written(s: Seq<char>, p: int, c: char) -> Seq<char> {
    if p < s.len() && s[p] != '\n' {
        s.update(p, c)
    } else {
        s.insert(p, c)
    }
}

/// Writing a character at `p` leaves it at `p`, so a step forward from `p`
/// (possible, as `p` is then inside the text) lands right after it;
/// the text keeps its length when a character other than a line break was
/// overwritten and grows by one otherwise; what lies before `p` is kept.
pub proof fn lemma_write_then_advance(s: Seq<char>, p: int, c: char)
    requires
        0 <= p <= s.len(),
    ensures
        p < written(s, p, c).len(),
        written(s, p, c)[p] == c,
        written(s, p, c).len() == s.len() + if p < s.len() && s[p] != '\n' { 0int } else { 1int },
        written(s, p, c).take(p) == s.take(p),
{
    assert(written(s, p, c).take(p) =~= s.take(p));
}

pub proof fn lemma_count_dirty_add(a: Seq<Run>, b: Seq<Run>)
    ensures
        count_dirty(a + b) == count_dirty(a) + count_dirty(b),
    decreases b.len(),
{
    if b.len() == 0 {
        assert(a + b =~= a);
    } else {
        lemma_count_dirty_add(a, b.drop_last());
        assert((a + b).drop_last() =~= a + b.drop_last());
    }
}

pub proof fn lemma_count_dirty_single(r: Run)
    ensures
        count_dirty(seq![r]) == if r.dirty { 1nat } else { 0nat },
{
    assert(seq![r].drop_last() =~= Seq::<Run>::empty());
    assert(count_dirty(Seq::<Run>::empty()) == 0);
}

pub proof fn lemma_count_dirty_bound(rs: Seq<Run>)
    ensures
        count_dirty(rs) <= rs.len(),
    decreases rs.len(),
{
    if rs.len() > 0 {
        lemma_count_dirty_bound(rs.drop_last());
    }
}

/// Replacing run `i` changes the count by the two runs' flags.
pub proof fn lemma_count_dirty_update(rs: Seq<Run>, i: int, r: Run)
    requires
        0 <= i < rs.len(),
    ensures
        count_dirty(rs.update(i, r)) + (if rs[i].dirty { 1int } else { 0int }) == count_dirty(rs)
            + (if r.dirty { 1int } else { 0int }),
{
    assert(rs =~= rs.take(i) + seq![rs[i]] + rs.skip(i + 1));
    assert(rs.update(i, r) =~= rs.take(i) + seq![r] + rs.skip(i + 1));
    lemma_count_dirty_add(rs.take(i) + seq![rs[i]], rs.skip(i + 1));
    lemma_count_dirty_add(rs.take(i), seq![rs[i]]);
    lemma_count_dirty_add(rs.take(i) + seq![r], rs.skip(i + 1));
    lemma_count_dirty_add(rs.take(i), seq![r]);
    lemma_count_dirty_single(r);
    lemma_count_dirty_single(rs[i]);
}

/// Inserting a run adds its flag to the count.
pub proof fn lemma_count_dirty_insert(rs: Seq<Run>, i: int, r: Run)
    requires
        0 <= i <= rs.len(),
    ensures
        count_dirty(rs.insert(i, r)) == count_dirty(rs) + (if r.dirty { 1int } else { 0int }),
{
    assert(rs =~= rs.take(i) + rs.skip(i));
    assert(rs.insert(i, r) =~= rs.take(i) + seq![r] + rs.skip(i));
    lemma_count_dirty_add(rs.take(i), rs.skip(i));
    lemma_count_dirty_add(rs.take(i) + seq![r], rs.skip(i));
    lemma_count_dirty_add(rs.take(i), seq![r]);
    lemma_count_dirty_single(r);
}

/// Removing a run takes its flag from the count.
pub proof fn lemma_count_dirty_remove(rs: Seq<Run>, i: int)
    requires
        0 <= i < rs.len(),
    ensures
        count_dirty(rs.remove(i)) + (if rs[i].dirty { 1int } else { 0int }) == count_dirty(rs),
{
    assert(rs.remove(i).insert(i, rs[i]) =~= rs);
    lemma_count_dirty_insert(rs.remove(i), i, rs[i]);
}

/// Inserting a dirty run without identifier keeps identifiers sound.
pub proof fn lemma_ids_insert(rs: Seq<Run>, k: int, r: Run, last_id: u64)
    requires
        ids_ok(rs, last_id),
        0 <= k <= rs.len(),
        r.id is None,
        r.dirty,
    ensures
        ids_ok(rs.insert(k, r), last_id),
{
    let ns = rs.insert(k, r);
    assert forall|a: int| 0 <= a < ns.len() && a != k implies #[trigger] ns[a] == rs[if a < k { a } else { a - 1 }] by {}
    assert forall|a: int, b: int|
        0 <= a < ns.len() && 0 <= b < ns.len() && a != b && (#[trigger] ns[a].id) is Some
            implies ns[a].id != #[trigger] ns[b].id by {
        if b != k {
            assert(ns[a] == rs[if a < k { a } else { a - 1 }]);
            assert(ns[b] == rs[if b < k { b } else { b - 1 }]);
        }
    }
}

/// Replacing a run by one with the same identifier keeps identifiers sound.
pub proof fn lemma_ids_update(rs: Seq<Run>, k: int, r: Run, last_id: u64)
    requires
        ids_ok(rs, last_id),
        0 <= k < rs.len(),
        r.id == rs[k].id,
        r.id is None ==> r.dirty,
    ensures
        ids_ok(rs.update(k, r), last_id),
{
    let ns = rs.update(k, r);
    assert forall|a: int, b: int|
        0 <= a < ns.len() && 0 <= b < ns.len() && a != b && (#[trigger] ns[a].id) is Some
            implies ns[a].id != #[trigger] ns[b].id by {
        assert(ns[a].id == rs[a].id);
        assert(ns[b].id == rs[b].id);
    }
}

impl Buffer {
    /// Marks run `j` dirty, counting it when it was clean.
    pub(crate) fn mark_dirty(&mut self, j: usize)
        requires
            j < old(self).runs@.len(),
            old(self).dirty_count == count_dirty(old(self).runs@),
        ensures
            final(self).runs@.len() == old(self).runs@.len(),
            forall|k: int| 0 <= k < old(self).runs@.len() && k != j ==> final(self).runs@[k] == old(self).runs@[k],
            final(self).runs@[j as int].text == old(self).runs@[j as int].text,
            final(self).runs@[j as int].style == old(self).runs@[j as int].style,
            final(self).runs@[j as int].id == old(self).runs@[j as int].id,
            final(self).runs@[j as int].dirty,
            final(self).dirty_count == count_dirty(final(self).runs@),
            ids_ok(old(self).runs@, old(self).last_id) ==> ids_ok(final(self).runs@, final(self).last_id),
            dirtied(old(self).runs@, final(self).runs@, j as int),
            final(self).rendered == old(self).rendered,
            texts(final(self).runs@) == texts(old(self).runs@),
            final(self).cursor_run == old(self).cursor_run,
            final(self).cursor_offset == old(self).cursor_offset,
            final(self).escape == old(self).escape,
            final(self).escape_limit == old(self).escape_limit,
            final(self).last_id == old(self).last_id,
            final(self).pending_cr == old(self).pending_cr,
            final(self).text_len == old(self).text_len,
    {
        if !self.runs[j].dirty {
            let n = self.runs.len();
            let ghost before = self.runs@;
            self.runs[j].dirty = true;
            proof {
                lemma_count_dirty_update(before, j as int, self.runs@[j as int]);
                assert(self.runs@ == before.update(j as int, self.runs@[j as int]));
                lemma_count_dirty_bound(self.runs@);
                assert(count_dirty(self.runs@) <= n);
                if ids_ok(before, self.last_id) {
                    lemma_ids_update(before, j as int, self.runs@[j as int], self.last_id);
                }
            }
            self.dirty_count = self.dirty_count + 1;
        }
        proof {
            assert(texts(self.runs@) =~= texts(old(self).runs@));
            assert(self.runs@ =~= old(self).runs@.update(j as int, self.runs@[j as int]));
        }
    }

    /// Brings an out-of-range cursor back into range: past the last run, a
    /// new empty unstyled run is appended for it; past the end of its run,
    /// the offset is clamped to that end. A cursor in range stays.
    pub fn snap_cursor(&mut self)
        requires
            old(self).wf_runs(),
            old(self).text_len + old(self).runs@.len() + 1 <= TEXT_CAPACITY,
        ensures
            final(self).wf(),
            final(self).text() == old(self).text(),
            final(self).pos() == old(self).snapped_pos(),
            valid_at(old(self).runs@, old(self).cursor_run as int, old(self).cursor_offset as int)
                ==> *final(self) == *old(self),
            final(self).text_len + final(self).runs@.len() <= old(self).text_len + old(self).runs@.len() + 1,
            final(self).escape == old(self).escape,
            final(self).escape_limit == old(self).escape_limit,
            final(self).pending_cr == old(self).pending_cr,
            final(self).last_id == old(self).last_id,
    {
        let ghost ts = texts(self.runs@);
        let n = self.runs.len();
        if self.cursor_run >= n {
            self.insert_run(n, Vec::new(), Style::neutral());
            self.cursor_run = n;
            self.cursor_offset = 0;
            proof {
                lemma_flat_insert_empty(ts, n as int, Seq::<char>::empty());
                assert(ts.take(n as int) =~= ts);
                assert(texts(self.runs@) == ts.insert(n as int, Seq::<char>::empty()));
            }
        } else if self.cursor_offset > self.runs[self.cursor_run].text.len() {
            self.cursor_offset = self.runs[self.cursor_run].text.len();
        }
    }

    /// Writes one character at the cursor, first snapping the cursor into
    /// range: a character there other than a line break is overwritten,
    /// otherwise the new one is inserted before it. The cursor ends after
    /// the new character, on a dirty run.
    pub fn write_buff(&mut self, c: char)
        requires
            old(self).wf_runs(),
            old(self).text_len + old(self).runs@.len() + 2 <= TEXT_CAPACITY,
        ensures
            final(self).wf(),
            final(self).text() == written(old(self).text(), old(self).snapped_pos(), c),
            final(self).pos() == old(self).snapped_pos() + 1,
            final(self).runs@[final(self).cursor_run as int].dirty,
            final(self).text_len + final(self).runs@.len() <= old(self).text_len + old(self).runs@.len() + 2,
            final(self).escape == old(self).escape,
            final(self).escape_limit == old(self).escape_limit,
            final(self).pending_cr == old(self).pending_cr,
            final(self).last_id == old(self).last_id,
            valid_at(old(self).runs@, old(self).cursor_run as int, old(self).cursor_offset as int) ==> {
                &&& final(self).cursor_run == old(self).cursor_run
                &&& final(self).cursor_offset == old(self).cursor_offset + 1
                &&& final(self).runs@.len() == old(self).runs@.len()
                &&& forall|k: int| 0 <= k < old(self).runs@.len() ==> (#[trigger] final(self).runs@[k]).id == old(self).runs@[k].id
                    && final(self).runs@[k].style == old(self).runs@[k].style
                &&& forall|k: int| 0 <= k < old(self).runs@.len() ==> #[trigger] final(self).runs@[k] == old(self).runs@[k] || final(self).runs@[k].dirty
            },
    {
        self.snap_cursor();
        self.write_char(c);
    }

    /// Writes one character at the cursor, which is in range: a character
    /// there other than a line break is overwritten, otherwise the new one
    /// is inserted before it. The cursor ends after the new character; the
    /// cursor's run, and the run of an overwritten character, end dirty.
    pub fn write_char(&mut self, c: char)
        requires
            old(self).wf(),
            old(self).text_len + old(self).runs@.len() < TEXT_CAPACITY,
        ensures
            old(self).cursor_offset == old(self).runs@[old(self).cursor_run as int].text@.len()
                ==> final(self).runs@[old(self).cursor_run as int].text@ == old(self).runs@[old(self).cursor_run as int].text@.push(c),
            final(self).text_len + final(self).runs@.len() <= old(self).text_len + old(self).runs@.len() + 1,
            final(self).wf(),
            final(self).text() == written(old(self).text(), old(self).pos(), c),
            final(self).pos() == old(self).pos() + 1,
            final(self).runs@.len() == old(self).runs@.len(),
            final(self).cursor_run == old(self).cursor_run,
            final(self).cursor_offset == old(self).cursor_offset + 1,
            final(self).runs@[old(self).cursor_run as int].text@[old(self).cursor_offset as int] == c,
            forall|k: int| 0 <= k < old(self).runs@.len() ==> (#[trigger] final(self).runs@[k]).style == old(self).runs@[k].style,
            final(self).escape == old(self).escape,
            final(self).escape_limit == old(self).escape_limit,
            final(self).pending_cr == old(self).pending_cr,
            final(self).last_id == old(self).last_id,
            final(self).text_len <= old(self).text_len + 1,
            old(self).cursor_offset == old(self).runs@[old(self).cursor_run as int].text@.len()
                ==> final(self).cursor_offset == final(self).runs@[final(self).cursor_run as int].text@.len(),
            !(old(self).pos() < old(self).text().len() && old(self).text()[old(self).pos()] != '\n')
                ==> final(self).text_len == old(self).text_len + 1,
            final(self).runs@[final(self).cursor_run as int].dirty,
            forall|k: int| 0 <= k < old(self).runs@.len() ==> (#[trigger] final(self).runs@[k]).id == old(self).runs@[k].id,
            forall|k: int| 0 <= k < old(self).runs@.len() ==> #[trigger] final(self).runs@[k] == old(self).runs@[k] || final(self).runs@[k].dirty,
            final(self).rendered == old(self).rendered,
    {
        let ghost s = self.text();
        let ghost p = self.pos();
        let i = self.cursor_run;
        let off = self.cursor_offset;
        proof {
            lemma_pos_bound(self.runs@, i as int, off as int);
        }
        match self.char_at(i, off) {
            Some((j, o)) => {
                if self.runs[j].text[o] != '\n' {
                    let ghost before = self.runs@;
                    self.runs[j].text.remove(o);
                    proof {
                        assert(texts(self.runs@) =~= texts(before).update(j as int, texts(before)[j as int].remove(o as int)));
                        lemma_flat_remove_at(texts(before), j as int, o as int);
                        assert(self.runs@ == before.update(j as int, self.runs@[j as int]));
                        lemma_count_dirty_update(before, j as int, self.runs@[j as int]);
                        assert(texts(self.runs@).take(i as int) =~= texts(before).take(i as int));
                    }
                    self.mark_dirty(j);
                    proof {
                        assert(self.runs@ =~= before.update(j as int, self.runs@[j as int]));
                        lemma_loose_dirtied(before, self.runs@, j as int, self.rendered@);
                    }
                    self.text_len = self.text_len - 1;
                }
            },
            None => {},
        }
        let ghost mid = self.runs@;
        let ghost s1 = self.text();
        proof {
            assert(self.text_len == s1.len());
            assert(pos_in(mid, i as int, off as int) == p);
        }
        self.runs[i].text.insert(off, c);
        proof {
            assert(texts(self.runs@) =~= texts(mid).update(i as int, texts(mid)[i as int].insert(off as int, c)));
            lemma_flat_insert_at(texts(mid), i as int, off as int, c);
            assert(self.runs@ == mid.update(i as int, self.runs@[i as int]));
            lemma_count_dirty_update(mid, i as int, self.runs@[i as int]);
            assert(texts(self.runs@).take(i as int) =~= texts(mid).take(i as int));
        }
        self.mark_dirty(i);
        proof {
            assert(self.runs@ =~= mid.update(i as int, self.runs@[i as int]));
            lemma_loose_dirtied(mid, self.runs@, i as int, self.rendered@);
        }
        self.text_len = self.text_len + 1;
        self.cursor_offset = off + 1;
        proof {
            assert(self.text() == s1.insert(p, c));
            if p < s.len() && s[p] != '\n' {
                assert(s1 == s.remove(p));
                assert(s.remove(p).insert(p, c) =~= s.update(p, c));
            } else {
                assert(s1 == s);
            }
        }
    }

    /// Inserts a new dirty run without identifier at index `k`.
    pub(crate) fn insert_run(&mut self, k: usize, text: Vec<char>, style: Style)
        requires
            k <= old(self).runs@.len(),
            old(self).dirty_count == count_dirty(old(self).runs@),
        ensures
            final(self).runs@ == old(self).runs@.insert(
                k as int,
                Run { text: text, style: style, dirty: true, id: None },
            ),
            texts(final(self).runs@) == texts(old(self).runs@).insert(k as int, text@),
            final(self).dirty_count == count_dirty(final(self).runs@),
            ids_ok(old(self).runs@, old(self).last_id) ==> ids_ok(final(self).runs@, final(self).last_id),
            loose(old(self).runs@, old(self).rendered@) ==> loose(final(self).runs@, final(self).rendered@),
            final(self).rendered == old(self).rendered,
            final(self).cursor_run == old(self).cursor_run,
            final(self).cursor_offset == old(self).cursor_offset,
            final(self).escape == old(self).escape,
            final(self).escape_limit == old(self).escape_limit,
            final(self).last_id == old(self).last_id,
            final(self).pending_cr == old(self).pending_cr,
            final(self).text_len == old(self).text_len,
    {
        let ghost before = self.runs@;
        let ghost r = Run { text: text, style: style, dirty: true, id: None };
        self.runs.insert(k, Run { text, style, dirty: true, id: None });
        let n = self.runs.len();
        proof {
            lemma_count_dirty_insert(before, k as int, r);
            lemma_count_dirty_bound(self.runs@);
            assert(count_dirty(self.runs@) <= n);
            assert(texts(self.runs@) =~= texts(before).insert(k as int, r.text@));
            if ids_ok(before, self.last_id) {
                lemma_ids_insert(before, k as int, r, self.last_id);
            }
            if loose(before, self.rendered@) {
                lemma_loose_insert(before, k as int, r, self.rendered@);
            }
        }
        self.dirty_count = self.dirty_count + 1;
    }

    /// Splits run `index` at `offset`: the run is emptied and followed by its
    /// prefix, a new empty run with the cursor's current style, and its
    /// suffix. The cursor goes to the new run, which keeps the position.
    #[verifier::rlimit(50)]
    pub fn place(&mut self, index: usize, offset: usize)
        requires
            old(self).wf(),
            valid_at(old(self).runs@, index as int, offset as int),
            old(self).text_len + old(self).runs@.len() + 3 <= TEXT_CAPACITY,
        ensures
            final(self).runs@.take(index as int) == old(self).runs@.take(index as int),
            final(self).runs@.skip(index + 4) == old(self).runs@.skip(index + 1),
            final(self).runs@[index as int].text@.len() == 0,
            final(self).runs@[index as int].id == old(self).runs@[index as int].id,
            final(self).runs@[index as int].style == old(self).runs@[index as int].style,
            final(self).runs@[index as int].dirty,
            final(self).runs@[index + 1].text@ == old(self).runs@[index as int].text@.take(offset as int),
            final(self).runs@[index + 1].style == old(self).runs@[index as int].style,
            final(self).runs@[index + 3].text@ == old(self).runs@[index as int].text@.skip(offset as int),
            final(self).runs@[index + 3].style == old(self).runs@[index as int].style,
            forall|k: int| index < k <= index + 3 ==> (#[trigger] final(self).runs@[k]).id is None && final(self).runs@[k].dirty,
            final(self).text_len + final(self).runs@.len() <= old(self).text_len + old(self).runs@.len() + 3,
            final(self).wf(),
            final(self).text() == old(self).text(),
            final(self).pos() == pos_in(old(self).runs@, index as int, offset as int),
            final(self).runs@.len() == old(self).runs@.len() + 3,
            final(self).cursor_run == index + 2,
            final(self).cursor_offset == 0,
            final(self).runs@[index + 2].text@.len() == 0,
            final(self).runs@[index + 2].style == old(self).runs@[old(self).cursor_run as int].style,
            final(self).escape == old(self).escape,
            final(self).escape_limit == old(self).escape_limit,
            final(self).pending_cr == old(self).pending_cr,
            final(self).last_id == old(self).last_id,
            final(self).text_len == old(self).text_len,
    {
        let ghost ts = texts(self.runs@);
        let ghost t = ts[index as int];
        let style = self.runs[self.cursor_run].style;
        let orig = self.runs[index].style;
        let ghost before = self.runs@;
        let suffix = self.runs[index].text.split_off(offset);
        let mut prefix: Vec<char> = Vec::new();
        std::mem::swap(&mut prefix, &mut self.runs[index].text);
        proof {
            assert(self.runs@ == before.update(index as int, self.runs@[index as int]));
            lemma_count_dirty_update(before, index as int, self.runs@[index as int]);
            lemma_ids_update(before, index as int, self.runs@[index as int], self.last_id);
            assert(prefix@ + suffix@ =~= t);
        }
        self.mark_dirty(index);
        proof {
            assert(self.runs@ =~= before.update(index as int, self.runs@[index as int]));
            lemma_loose_dirtied(before, self.runs@, index as int, self.rendered@);
        }
        self.insert_run(index + 1, prefix, orig);
        self.insert_run(index + 2, Vec::new(), style);
        self.insert_run(index + 3, suffix, orig);
        self.cursor_run = index + 2;
        self.cursor_offset = 0;
        proof {
            lemma_place_text(ts, index as int, prefix@, suffix@);
            assert(texts(self.runs@) =~= ts.take(index as int) + seq![Seq::<char>::empty(), prefix@, Seq::<char>::empty(), suffix@] + ts.skip(index + 1));
        }
    }

    /// Inserts an empty run with `style` after the cursor's run and moves the
    /// cursor into it; the cursor must be at the end of its run.
    pub fn step_into_new_run(&mut self, style: Style)
        requires
            old(self).wf(),
            old(self).cursor_offset == old(self).runs@[old(self).cursor_run as int].text@.len(),
            old(self).text_len + old(self).runs@.len() + 1 <= TEXT_CAPACITY,
        ensures
            final(self).runs@ == old(self).runs@.insert(old(self).cursor_run + 1, final(self).runs@[final(self).cursor_run as int]),
            final(self).runs@[final(self).cursor_run as int].id is None,
            final(self).runs@[final(self).cursor_run as int].dirty,
            final(self).text_len + final(self).runs@.len() <= old(self).text_len + old(self).runs@.len() + 1,
            final(self).wf(),
            final(self).text() == old(self).text(),
            final(self).pos() == old(self).pos(),
            final(self).runs@.len() == old(self).runs@.len() + 1,
            final(self).cursor_run == old(self).cursor_run + 1,
            final(self).cursor_offset == 0,
            final(self).runs@[final(self).cursor_run as int].style == style,
            final(self).runs@[final(self).cursor_run as int].text@.len() == 0,
            final(self).escape == old(self).escape,
            final(self).escape_limit == old(self).escape_limit,
            final(self).pending_cr == old(self).pending_cr,
            final(self).last_id == old(self).last_id,
            final(self).text_len == old(self).text_len,
    {
        let ghost ts = texts(self.runs@);
        let k = self.cursor_run;
        self.insert_run(k + 1, Vec::new(), style);
        self.cursor_run = k + 1;
        self.cursor_offset = 0;
        proof {
            lemma_flat_insert_empty(ts, k + 1, Seq::<char>::empty());
            lemma_flat_split(ts, k as int);
            assert(texts(self.runs@) == ts.insert(k + 1, Seq::<char>::empty()));
        }
    }

    /// Position in the whole text of offset `off` of run `i`.
    pub fn position(&self, i: usize, off: usize) -> (r: usize)
        requires
            self.wf(),
            valid_at(self.runs@, i as int, off as int),
        ensures
            r == pos_in(self.runs@, i as int, off as int),
    {
        let ghost ts = texts(self.runs@);
        let mut sum: usize = 0;
        let mut k: usize = 0;
        while k < i
            invariant
                self.wf(),
                ts == texts(self.runs@),
                k <= i < self.runs@.len(),
                sum == flat(ts.take(k as int)).len(),
            decreases i - k,
        {
            proof {
                lemma_flat_split(ts, k as int);
                lemma_flat_take_mono(ts, k + 1, ts.len() as int);
            }
            sum = sum + self.runs[k].text.len();
            k = k + 1;
        }
        proof {
            assert(ts.take(0) =~= Seq::<Seq<char>>::empty());
            lemma_pos_bound(self.runs@, i as int, off as int);
        }
        sum + off
    }

    /// Start of the row `r` line breaks up from the bottom line.
    pub fn row_begin(&self, r: usize) -> (res: (usize, usize))
        requires
            self.wf(),
            count_nl(self.text()) >= r,
        ensures
            valid_at(self.runs@, res.0 as int, res.1 as int),
            pos_in(self.runs@, res.0 as int, res.1 as int) == back_to_row(
                self.text(),
                self.text().len() as int,
                r as nat,
            ),
    {
        let ghost s = self.text();
        let ghost ts = texts(self.runs@);
        let last = self.runs.len() - 1;
        let mut i = last;
        let mut off = self.runs[last].text.len();
        proof {
            lemma_flat_split(ts, last as int);
            assert(ts.skip(last + 1) =~= Seq::<Seq<char>>::empty());
            assert(flat(ts.skip(last + 1)) =~= Seq::<char>::empty());
        }
        let mut rem = r;
        loop
            invariant
                self.wf(),
                s == self.text(),
                valid_at(self.runs@, i as int, off as int),
                back_to_row(s, s.len() as int, r as nat) == back_to_row(
                    s,
                    pos_in(self.runs@, i as int, off as int),
                    rem as nat,
                ),
            decreases pos_in(self.runs@, i as int, off as int),
        {
            let pi = i;
            let po = off;
            let ghost q = pos_in(self.runs@, i as int, off as int);
            if !self.retreat(&mut i, &mut off) {
                return (pi, po);
            }
            proof {
                lemma_on_char(self.runs@, i as int, off as int);
            }
            if self.runs[i].text[off] == '\n' {
                if rem == 0 {
                    return (pi, po);
                }
                rem = rem - 1;
            }
        }
    }

    /// Walks forward from `(i, off)` at most `n` characters, stopping before a
    /// line break or at the end; also returns the steps not taken.
    pub fn walk_forward(&self, i: usize, off: usize, n: usize) -> (res: (usize, usize, usize))
        requires
            self.wf(),
            valid_at(self.runs@, i as int, off as int),
        ensures
            valid_at(self.runs@, res.0 as int, res.1 as int),
            pos_in(self.runs@, res.0 as int, res.1 as int) == fwd(
                self.text(),
                pos_in(self.runs@, i as int, off as int),
                n as nat,
            ),
            res.2 == n - (pos_in(self.runs@, res.0 as int, res.1 as int) - pos_in(
                self.runs@,
                i as int,
                off as int,
            )),
    {
        let ghost s = self.text();
        let ghost start = pos_in(self.runs@, i as int, off as int);
        proof {
            lemma_pos_bound(self.runs@, i as int, off as int);
        }
        let mut j = i;
        let mut o = off;
        let mut m = n;
        loop
            invariant
                self.wf(),
                s == self.text(),
                start == pos_in(self.runs@, i as int, off as int),
                valid_at(self.runs@, j as int, o as int),
                0 <= pos_in(self.runs@, j as int, o as int) <= s.len(),
                fwd(s, start, n as nat) == fwd(s, pos_in(self.runs@, j as int, o as int), m as nat),
                n - m == pos_in(self.runs@, j as int, o as int) - start,
                m <= n,
            decreases m,
        {
            if m == 0 {
                return (j, o, m);
            }
            match self.char_at(j, o) {
                None => {
                    return (j, o, m);
                },
                Some((k, l)) => {
                    if self.runs[k].text[l] == '\n' {
                        return (j, o, m);
                    }
                    j = k;
                    o = l + 1;
                    m = m - 1;
                },
            }
        }
    }

    /// Appends line breaks at the end of the text until it has row `r`.
    pub fn grow_rows(&mut self, r: usize)
        requires
            old(self).wf(),
            old(self).text_len + old(self).runs@.len() + r + 3 <= TEXT_CAPACITY,
        ensures
            final(self).wf(),
            final(self).text() == grown(old(self).text(), r as int),
            count_nl(final(self).text()) >= r,
            final(self).runs@.len() <= old(self).runs@.len() + 3,
            final(self).text_len <= old(self).text_len + r,
            final(self).escape == old(self).escape,
            final(self).escape_limit == old(self).escape_limit,
            final(self).pending_cr == old(self).pending_cr,
            final(self).last_id == old(self).last_id,
    {
        let ghost s = self.text();
        let existing = self.row_from(0, 0);
        proof {
            assert(texts(self.runs@).take(0) =~= Seq::<Seq<char>>::empty());
            assert(s.subrange(0, s.len() as int) =~= s);
        }
        if existing >= r {
            return;
        }
        let last = self.runs.len() - 1;
        let len = self.runs[last].text.len();
        proof {
            lemma_flat_split(texts(self.runs@), last as int);
            assert(texts(self.runs@).skip(last + 1) =~= Seq::<Seq<char>>::empty());
            assert(flat(texts(self.runs@).skip(last + 1)) =~= Seq::<char>::empty());
        }
        self.place(last, len);
        let mut m = existing;
        while m < r
            invariant
                self.wf(),
                existing <= m <= r,
                existing == count_nl(s),
                self.text() == s + repeat('\n', (m - existing) as nat),
                self.pos() == self.text().len(),
                self.text_len == s.len() + (m - existing),
                self.runs@.len() == old(self).runs@.len() + 3,
                old(self).text_len == s.len(),
                old(self).text_len + old(self).runs@.len() + r + 3 <= TEXT_CAPACITY,
                self.escape == old(self).escape,
                self.escape_limit == old(self).escape_limit,
                self.pending_cr == old(self).pending_cr,
                self.last_id == old(self).last_id,
            decreases r - m,
        {
            self.write_char('\n');
            proof {
                assert(self.text() =~= s + repeat('\n', (m + 1 - existing) as nat));
            }
            m = m + 1;
        }
        proof {
            lemma_count_nl_repeat(s, (r - existing) as nat);
        }
    }

    /// Inserts `n` copies of `c` at the cursor, which stands before a line
    /// break or at the end; the cursor ends after them.
    pub fn insert_fill(&mut self, c: char, n: usize)
        requires
            old(self).wf(),
            c != '\n',
            n > 0 ==> old(self).pos() == old(self).text().len() || old(self).text()[old(self).pos()] == '\n',
            old(self).cursor_offset == old(self).runs@[old(self).cursor_run as int].text@.len(),
            old(self).text_len + old(self).runs@.len() + n <= TEXT_CAPACITY,
        ensures
            final(self).runs@[final(self).cursor_run as int].text@ == old(self).runs@[old(self).cursor_run as int].text@ + repeat(c, n as nat),
            final(self).wf(),
            final(self).text() == old(self).text().take(old(self).pos()) + repeat(c, n as nat)
                + old(self).text().skip(old(self).pos()),
            final(self).pos() == old(self).pos() + n,
            final(self).runs@.len() == old(self).runs@.len(),
            final(self).cursor_run == old(self).cursor_run,
            final(self).cursor_offset == final(self).runs@[final(self).cursor_run as int].text@.len(),
            final(self).text_len == old(self).text_len + n,
            forall|k: int| 0 <= k < old(self).runs@.len() ==> (#[trigger] final(self).runs@[k]).style == old(self).runs@[k].style,
            final(self).escape == old(self).escape,
            final(self).escape_limit == old(self).escape_limit,
            final(self).pending_cr == old(self).pending_cr,
            final(self).last_id == old(self).last_id,
    {
        let ghost s = self.text();
        let ghost p = self.pos();
        proof {
            lemma_pos_bound(self.runs@, self.cursor_run as int, self.cursor_offset as int);
            assert(self.runs@[self.cursor_run as int].text@ =~= self.runs@[self.cursor_run as int].text@ + repeat(c, 0));
        }
        let mut k: usize = 0;
        while k < n
            invariant
                self.wf(),
                k <= n,
                0 <= p <= s.len(),
                n > 0 ==> p == s.len() || s[p] == '\n',
                self.text() == s.take(p) + repeat(c, k as nat) + s.skip(p),
                self.pos() == p + k,
                self.cursor_offset == self.runs@[self.cursor_run as int].text@.len(),
                self.runs@[self.cursor_run as int].text@ == old(self).runs@[old(self).cursor_run as int].text@ + repeat(c, k as nat),
                self.cursor_run == old(self).cursor_run,
                self.runs@.len() == old(self).runs@.len(),
                self.text_len == old(self).text_len + k,
                old(self).text_len + old(self).runs@.len() + n <= TEXT_CAPACITY,
                forall|j: int| 0 <= j < old(self).runs@.len() ==> (#[trigger] self.runs@[j]).style == old(self).runs@[j].style,
                self.escape == old(self).escape,
                self.escape_limit == old(self).escape_limit,
                self.pending_cr == old(self).pending_cr,
                self.last_id == old(self).last_id,
            decreases n - k,
        {
            let ghost t = self.text();
            proof {
                let a = s.take(p) + repeat(c, k as nat);
                assert(a.len() == p + k);
                assert(t == a + s.skip(p));
                if p < s.len() {
                    assert(t[p + k] == s.skip(p)[0]);
                    assert(t[p + k] == '\n');
                } else {
                    assert(t.len() == p + k);
                }
            }
            self.write_char(c);
            proof {
                assert(self.text() =~= s.take(p) + repeat(c, (k + 1) as nat) + s.skip(p));
                assert(self.runs@[self.cursor_run as int].text@ =~= old(self).runs@[old(self).cursor_run as int].text@ + repeat(c, (k + 1) as nat));
            }
            k = k + 1;
        }
    }

    /// Places the cursor at `column` (1-based, clamped to the grid) of `row`
    /// (counted from the bottom, clamped to the grid). Missing rows are
    /// appended as line breaks; a column past the end of its line is
    /// reached by writing unstyled spaces. The cursor ends on a new empty
    /// run with the style it had.
    #[verifier::rlimit(60)]
    pub fn goto_rc(&mut self, column: usize, row: usize, grid: Grid)
        requires
            old(self).wf(),
            old(self).text_len + old(self).runs@.len() + GOTO_ROOM <= TEXT_CAPACITY,
        ensures
            final(self).runs@[final(self).cursor_run as int].text@.len() == 0,
            final(self).cursor_run >= 1,
            final(self).runs@[final(self).cursor_run - 1].style == no_style(),
            final(self).runs@[final(self).cursor_run - 1].text@ == repeat(
                ' ',
                goto_stop(old(self).text(), clamp_col(column as int, grid), clamp_row(row as int, grid)).1 as nat,
            ),
            final(self).wf(),
            final(self).text() == goto_text(
                old(self).text(),
                clamp_col(column as int, grid),
                clamp_row(row as int, grid),
            ),
            final(self).pos() == goto_pos(
                old(self).text(),
                clamp_col(column as int, grid),
                clamp_row(row as int, grid),
            ),
            column_at(final(self).text(), final(self).pos()) == clamp_col(column as int, grid),
            row_at(final(self).text(), final(self).pos()) == clamp_row(row as int, grid),
            final(self).runs@[final(self).cursor_run as int].style == old(self).runs@[old(self).cursor_run as int].style,
            final(self).text_len + final(self).runs@.len() <= old(self).text_len + old(self).runs@.len() + GOTO_ROOM,
            final(self).escape == old(self).escape,
            final(self).escape_limit == old(self).escape_limit,
            final(self).pending_cr == old(self).pending_cr,
            final(self).last_id == old(self).last_id,
    {
        let ghost s = self.text();
        let style = self.runs[self.cursor_run].style;
        let cols: usize = if grid.columns == 0 { 1 } else { grid.columns as usize };
        let rows: usize = if grid.rows == 0 { 1 } else { grid.rows as usize };
        let c: usize = if column < 1 { 1 } else if column > cols { cols } else { column };
        let r: usize = if row > rows - 1 { rows - 1 } else { row };
        self.grow_rows(r);
        let ghost s1 = self.text();
        proof {
            assert(s1.take(s1.len() as int) =~= s1);
            lemma_back_to_row(s1, s1.len() as int, r as nat);
        }
        let (bi, bo) = self.row_begin(r);
        let ghost l = back_to_row(s1, s1.len() as int, r as nat);
        let (wi, wo, n) = self.walk_forward(bi, bo, c - 1);
        let ghost q = fwd(s1, l, (c - 1) as nat);
        proof {
            lemma_fwd(s1, l, (c - 1) as nat);
        }
        self.place(wi, wo);
        self.step_into_new_run(Style::neutral());
        assert(self.text() == s1 && self.pos() == q);
        self.insert_fill(' ', n);
        let ghost s2 = self.text();
        assert(s2 == s1.take(q) + repeat(' ', n as nat) + s1.skip(q));
        self.step_into_new_run(style);
        proof {
            lemma_pad(s1, l, q, n as nat);
            assert(self.text() == s2);
            assert(self.pos() == q + n);
        }
    }
}

/// Text and positions after a run is split in place.
pub proof fn lemma_place_text(ts: Seq<Seq<char>>, index: int, prefix: Seq<char>, suffix: Seq<char>)
    requires
        0 <= index < ts.len(),
        prefix + suffix == ts[index],
    ensures
        ({
            let e = Seq::<char>::empty();
            let nts = ts.take(index) + seq![e, prefix, e, suffix] + ts.skip(index + 1);
            &&& flat(nts) == flat(ts)
            &&& flat(nts.take(index + 2)).len() == flat(ts.take(index)).len() + prefix.len()
            &&& nts.len() == ts.len() + 3
        }),
{
    let e = Seq::<char>::empty();
    let mid = seq![e, prefix, e, suffix];
    let nts = ts.take(index) + mid + ts.skip(index + 1);
    assert(mid =~= seq![e, prefix] + seq![e, suffix]);
    lemma_flat_add(seq![e, prefix], seq![e, suffix]);
    lemma_flat_pair(e, prefix);
    lemma_flat_pair(e, suffix);
    assert(e + prefix + (e + suffix) =~= ts[index]);
    lemma_flat_add(ts.take(index) + mid, ts.skip(index + 1));
    lemma_flat_add(ts.take(index), mid);
    lemma_flat_split(ts, index);
    assert(nts.take(index + 2) =~= ts.take(index) + seq![e, prefix]);
    lemma_flat_add(ts.take(index), seq![e, prefix]);
    assert(e + prefix =~= prefix);
}
} // verus!
