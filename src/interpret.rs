//! The escape-sequence interpreter: control characters, OSC and CSI
//! sequences, and the commands they run on the buffer.

use vstd::prelude::*;
use crate::buffer::{
    clamp_col, clamp_row, count_dirty, goto_pos, goto_text, ids_ok, lemma_count_dirty_update,
    lemma_ids_update, lemma_loose_dirtied, lemma_pos_bound, loose, pos_in, texts, valid_at,
    written, Buffer, Grid, GOTO_ROOM, TEXT_CAPACITY,
};
use crate::sgr::{codes_of, num_of, parse_codes, parse_num, sgr_attributes, sgr_style};
use crate::style::{merged, Style};
use crate::text::{
    column_at, flat, lemma_flat_empty, lemma_flat_split, lemma_line_start, line_start, row_at,
};

verus! {

/// The text after `c` is written `n` times from position `p` on.
pub open spec fn written_n(s: Seq<char>, p: int, c: char, n: nat) -> Seq<char>
    decreases n,
{
    if n == 0 {
        s
    } else {
        written_n(written(s, p, c), p + 1, c, (n - 1) as nat)
    }
}

/// The text with every character before `p` erased (`before`) or every
/// character from `p` on erased.
pub open spec fn erased(s: Seq<char>, p: int, before: bool) -> Seq<char> {
    if before {
        s.skip(p)
    } else {
        s.take(p)
    }
}

/// Spaces written from the start of the line for erase-to-cursor: up to the
/// cursor's column, within the grid.
pub open spec fn to_cursor_count(c: int, grid: Grid) -> int {
    clamp_col(c, grid) - 1
}

/// The text after an erase in the line of position `p` with `mode`.
pub open spec fn erase_line_text(s: Seq<char>, p: int, mode: nat, grid: Grid) -> Seq<char> {
    let c = column_at(s, p);
    let r = clamp_row(row_at(s, p) as int, grid);
    let home = goto_text(s, 1, r);
    let home_pos = goto_pos(s, 1, r);
    let filled = if mode == 2 {
        written_n(home, home_pos, ' ', grid.columns as nat)
    } else if mode == 1 {
        written_n(home, home_pos, ' ', to_cursor_count(c, grid) as nat)
    } else if mode == 0 {
        written_n(s, p, ' ', (if grid.columns as int + 1 > c { grid.columns as int + 1 - c } else { 0 }) as nat)
    } else {
        s
    };
    goto_text(filled, clamp_col(c, grid), r)
}

/// How a style sequence reshapes the run list: an empty cursor run is
/// restyled in place; otherwise, at the end of its run, one new empty run
/// follows it; in the middle, the run is split as `place` splits it.
pub open spec fn style_shape(old: Buffer, new: Buffer) -> bool {
    let c = old.cursor_run as int;
    let r = old.runs@[c];
    if r.text@.len() == 0 {
        &&& new.runs@ == old.runs@.update(c, new.runs@[c])
        &&& new.runs@[c].text == r.text && new.runs@[c].id == r.id && new.runs@[c].dirty
        &&& new.cursor_run == old.cursor_run && new.cursor_offset == old.cursor_offset
    } else if old.cursor_offset == r.text@.len() {
        &&& new.runs@ == old.runs@.insert(c + 1, new.runs@[c + 1])
        &&& new.runs@[c + 1].text@.len() == 0 && new.runs@[c + 1].id is None && new.runs@[c + 1].dirty
        &&& new.cursor_run == c + 1 && new.cursor_offset == 0
    } else {
        &&& new.runs@.len() == old.runs@.len() + 3
        &&& new.runs@.take(c) == old.runs@.take(c)
        &&& new.runs@.skip(c + 4) == old.runs@.skip(c + 1)
        &&& new.runs@[c].text@.len() == 0 && new.runs@[c].id == r.id && new.runs@[c].style == r.style
            && new.runs@[c].dirty
        &&& new.runs@[c + 1].text@ == r.text@.take(old.cursor_offset as int) && new.runs@[c + 1].style
            == r.style
        &&& new.runs@[c + 2].text@.len() == 0
        &&& new.runs@[c + 3].text@ == r.text@.skip(old.cursor_offset as int) && new.runs@[c + 3].style
            == r.style
        &&& forall|k: int| c < k <= c + 3 ==> (#[trigger] new.runs@[k]).id is None && new.runs@[k].dirty
        &&& new.cursor_run == c + 2 && new.cursor_offset == 0
    }
}

impl Buffer {
    /// Writes `c` `n` times at the cursor, overwriting as `write_buff` does.
    pub fn write_n(&mut self, c: char, n: usize)
        requires
            old(self).wf(),
            old(self).text_len + old(self).runs@.len() + n < TEXT_CAPACITY,
        ensures
            final(self).text_len + final(self).runs@.len() <= old(self).text_len + old(self).runs@.len() + n,
            final(self).wf(),
            final(self).text() == written_n(old(self).text(), old(self).pos(), c, n as nat),
            final(self).pos() == old(self).pos() + n,
            final(self).runs@.len() == old(self).runs@.len(),
            final(self).text_len <= old(self).text_len + n,
            final(self).escape == old(self).escape,
            final(self).escape_limit == old(self).escape_limit,
            final(self).pending_cr == old(self).pending_cr,
            final(self).last_id == old(self).last_id,
    {
        let mut k: usize = 0;
        while k < n
            invariant
                self.wf(),
                k <= n,
                written_n(old(self).text(), old(self).pos(), c, n as nat) == written_n(
                    self.text(),
                    self.pos(),
                    c,
                    (n - k) as nat,
                ),
                self.pos() == old(self).pos() + k,
                self.runs@.len() == old(self).runs@.len(),
                self.text_len <= old(self).text_len + k,
                old(self).text_len + old(self).runs@.len() + n < TEXT_CAPACITY,
                self.escape == old(self).escape,
                self.escape_limit == old(self).escape_limit,
                self.pending_cr == old(self).pending_cr,
                self.last_id == old(self).last_id,
            decreases n - k,
        {
            self.write_char(c);
            k = k + 1;
        }
    }

    /// Moves the cursor to the start of its line, leaving the runs alone.
    pub fn carriage_return(&mut self)
        requires
            old(self).wf(),
        ensures
            final(self).text_len + final(self).runs@.len() <= old(self).text_len + old(self).runs@.len() + 0,
            final(self).wf(),
            final(self).runs == old(self).runs,
            final(self).text() == old(self).text(),
            final(self).pos() == line_start(old(self).text(), old(self).pos()),
            final(self).escape == old(self).escape,
            final(self).escape_limit == old(self).escape_limit,
            final(self).pending_cr == old(self).pending_cr,
            final(self).last_id == old(self).last_id,
            final(self).dirty_count == old(self).dirty_count,
            final(self).text_len == old(self).text_len,
    {
        let ghost s = self.text();
        let ghost p = self.pos();
        proof {
            lemma_pos_bound(self.runs@, self.cursor_run as int, self.cursor_offset as int);
            lemma_line_start(s, p);
        }
        let col = self.column_of();
        let mut i = self.cursor_run;
        let mut off = self.cursor_offset;
        let mut k: usize = 1;
        while k < col
            invariant
                self.wf(),
                s == self.text(),
                p == self.pos(),
                1 <= k <= col,
                col == p - line_start(s, p) + 1,
                0 <= line_start(s, p) <= p,
                valid_at(self.runs@, i as int, off as int),
                pos_in(self.runs@, i as int, off as int) == p - (k - 1),
            decreases col - k,
        {
            self.retreat(&mut i, &mut off);
            k = k + 1;
        }
        self.cursor_run = i;
        self.cursor_offset = off;
    }

    /// Lays `css` on the style of the run at the cursor: the run itself
    /// when it is empty, else a new empty run split off at the cursor.
    pub fn apply_style(&mut self, css: Style)
        requires
            old(self).wf(),
            old(self).text_len + old(self).runs@.len() + 3 <= TEXT_CAPACITY,
        ensures
            style_shape(*old(self), *final(self)),
            final(self).text_len + final(self).runs@.len() <= old(self).text_len + old(self).runs@.len() + 3,
            final(self).wf(),
            final(self).text() == old(self).text(),
            final(self).pos() == old(self).pos(),
            final(self).runs@[final(self).cursor_run as int].style == merged(
                old(self).runs@[old(self).cursor_run as int].style,
                css,
            ),
            final(self).runs@[final(self).cursor_run as int].text@.len() == 0,
            final(self).runs@.len() <= old(self).runs@.len() + 3,
            final(self).text_len == old(self).text_len,
            final(self).escape == old(self).escape,
            final(self).escape_limit == old(self).escape_limit,
            final(self).pending_cr == old(self).pending_cr,
            final(self).last_id == old(self).last_id,
    {
        let i = self.cursor_run;
        let st = self.runs[i].style.merge(&css);
        if self.runs[i].text.len() == 0 {
            self.restyle(i, st);
        } else if self.cursor_offset == self.runs[i].text.len() {
            self.step_into_new_run(st);
        } else {
            self.place(i, self.cursor_offset);
            let k = self.cursor_run;
            let ghost mid = self.runs@;
            self.restyle(k, st);
            proof {
                assert(self.runs@.take(i as int) =~= mid.take(i as int));
                assert(self.runs@.skip(i + 4) =~= mid.skip(i + 4));
                assert(self.runs@[i as int] == mid[i as int]);
                assert(self.runs@[i + 1] == mid[i + 1]);
                assert(self.runs@[i + 3] == mid[i + 3]);
                assert forall|m: int| i < m <= i + 3 implies (#[trigger] self.runs@[m]).id is None && self.runs@[m].dirty by {
                    if m != k {
                        assert(self.runs@[m] == mid[m]);
                    }
                }
            }
        }
    }

    /// Gives run `k` a new style and marks it dirty.
    fn restyle(&mut self, k: usize, st: Style)
        requires
            old(self).wf(),
            k < old(self).runs@.len(),
        ensures
            final(self).runs@ == old(self).runs@.update(k as int, final(self).runs@[k as int]),
            final(self).runs@[k as int].id == old(self).runs@[k as int].id,
            final(self).runs@[k as int].dirty,
            final(self).text_len + final(self).runs@.len() <= old(self).text_len + old(self).runs@.len() + 0,
            final(self).wf(),
            final(self).runs@.len() == old(self).runs@.len(),
            final(self).runs@[k as int].style == st,
            final(self).runs@[k as int].text == old(self).runs@[k as int].text,
            texts(final(self).runs@) == texts(old(self).runs@),
            final(self).cursor_run == old(self).cursor_run,
            final(self).cursor_offset == old(self).cursor_offset,
            final(self).text_len == old(self).text_len,
            final(self).escape == old(self).escape,
            final(self).escape_limit == old(self).escape_limit,
            final(self).pending_cr == old(self).pending_cr,
            final(self).last_id == old(self).last_id,
    {
        let ghost before = self.runs@;
        self.runs[k].style = st;
        proof {
            assert(self.runs@ == before.update(k as int, self.runs@[k as int]));
            lemma_count_dirty_update(before, k as int, self.runs@[k as int]);
            lemma_ids_update(before, k as int, self.runs@[k as int], self.last_id);
            assert(texts(self.runs@) =~= texts(before));
        }
        self.mark_dirty(k);
        proof {
            assert(self.runs@ =~= before.update(k as int, self.runs@[k as int]));
            lemma_loose_dirtied(before, self.runs@, k as int, self.rendered@);
        }
    }

    /// Empties the texts of runs `from..to`, marking them dirty.
    fn clear_runs(&mut self, from: usize, to: usize)
        requires
            from <= to <= old(self).runs@.len(),
            old(self).dirty_count == count_dirty(old(self).runs@),
            ids_ok(old(self).runs@, old(self).last_id),
            loose(old(self).runs@, old(self).rendered@),
        ensures
            forall|k: int| from <= k < to ==> (#[trigger] final(self).runs@[k]).dirty,
            forall|k: int| 0 <= k < old(self).runs@.len() ==> (#[trigger] final(self).runs@[k]).id == old(self).runs@[k].id,
            loose(final(self).runs@, final(self).rendered@),
            final(self).rendered == old(self).rendered,
            final(self).runs@.len() == old(self).runs@.len(),
            forall|k: int| from <= k < to ==> (#[trigger] final(self).runs@[k]).text@.len() == 0,
            forall|k: int|
                0 <= k < old(self).runs@.len() && !(from <= k < to) ==> (#[trigger] final(self).runs@[k]).text
                    == old(self).runs@[k].text,
            forall|k: int| 0 <= k < old(self).runs@.len() ==> (#[trigger] final(self).runs@[k]).style == old(self).runs@[k].style,
            final(self).dirty_count == count_dirty(final(self).runs@),
            ids_ok(final(self).runs@, final(self).last_id),
            final(self).cursor_run == old(self).cursor_run,
            final(self).cursor_offset == old(self).cursor_offset,
            final(self).escape == old(self).escape,
            final(self).escape_limit == old(self).escape_limit,
            final(self).last_id == old(self).last_id,
            final(self).pending_cr == old(self).pending_cr,
            final(self).text_len == old(self).text_len,
    {
        let mut j = from;
        while j < to
            invariant
                from <= j <= to <= self.runs@.len(),
                self.runs@.len() == old(self).runs@.len(),
                forall|k: int| from <= k < j ==> (#[trigger] self.runs@[k]).text@.len() == 0,
                forall|k: int|
                    0 <= k < old(self).runs@.len() && !(from <= k < j) ==> (#[trigger] self.runs@[k]).text
                        == old(self).runs@[k].text,
                forall|k: int| 0 <= k < old(self).runs@.len() ==> (#[trigger] self.runs@[k]).style == old(self).runs@[k].style,
                forall|k: int| from <= k < j ==> (#[trigger] self.runs@[k]).dirty,
                forall|k: int| 0 <= k < old(self).runs@.len() ==> (#[trigger] self.runs@[k]).id == old(self).runs@[k].id,
                self.dirty_count == count_dirty(self.runs@),
                ids_ok(self.runs@, self.last_id),
                loose(self.runs@, self.rendered@),
                self.rendered == old(self).rendered,
                self.cursor_run == old(self).cursor_run,
                self.cursor_offset == old(self).cursor_offset,
                self.escape == old(self).escape,
                self.escape_limit == old(self).escape_limit,
                self.last_id == old(self).last_id,
                self.pending_cr == old(self).pending_cr,
                self.text_len == old(self).text_len,
            decreases to - j,
        {
            let ghost before = self.runs@;
            self.runs[j].text = Vec::new();
            proof {
                assert(self.runs@ == before.update(j as int, self.runs@[j as int]));
                lemma_count_dirty_update(before, j as int, self.runs@[j as int]);
                lemma_ids_update(before, j as int, self.runs@[j as int], self.last_id);
            }
            self.mark_dirty(j);
            proof {
                assert(self.runs@ =~= before.update(j as int, self.runs@[j as int]));
                lemma_loose_dirtied(before, self.runs@, j as int, self.rendered@);
            }
            j = j + 1;
        }
    }

    /// Erases the whole text (`all`), the text before the cursor
    /// (`before`), or the text from the cursor on. Erased runs stay in the
    /// list, emptied and dirty; the next partial pass removes those the
    /// renderer holds, so that after erasing everything one empty run is
    /// left.
    pub fn erase_display(&mut self, all: bool, before: bool)
        requires
            old(self).wf(),
        ensures
            all ==> final(self).cursor_run == 0 && final(self).cursor_offset == 0,
            all ==> forall|k: int| 0 <= k < final(self).runs@.len() ==> (#[trigger] final(self).runs@[k]).text@.len() == 0
                && final(self).runs@[k].dirty && final(self).runs@[k].id == old(self).runs@[k].id,
            final(self).text_len + final(self).runs@.len() <= old(self).text_len + old(self).runs@.len() + 0,
            final(self).wf(),
            all ==> final(self).text().len() == 0 && final(self).pos() == 0,
            !all ==> final(self).text() == erased(old(self).text(), old(self).pos(), before),
            !all && before ==> final(self).pos() == 0,
            !all && !before ==> final(self).pos() == old(self).pos(),
            final(self).runs@.len() == old(self).runs@.len(),
            final(self).escape == old(self).escape,
            final(self).escape_limit == old(self).escape_limit,
            final(self).pending_cr == old(self).pending_cr,
            final(self).last_id == old(self).last_id,
    {
        let ghost s = self.text();
        let ghost p = self.pos();
        let ghost ts = texts(self.runs@);
        let i = self.cursor_run;
        let off = self.cursor_offset;
        let n = self.runs.len();
        let pe = self.position(i, off);
        proof {
            lemma_flat_split(ts, i as int);
        }
        if all {
            self.clear_runs(0, n);
            self.cursor_run = 0;
            self.cursor_offset = 0;
            self.text_len = 0;
            proof {
                let nts = texts(self.runs@);
                assert forall|k: int| 0 <= k < nts.len() implies (#[trigger] nts[k]).len() == 0 by {
                    assert(nts[k] == self.runs@[k].text@);
                }
                lemma_flat_empty(nts);
                assert(nts.take(0) =~= Seq::<Seq<char>>::empty());
            }
        } else if before {
            self.clear_runs(0, i);
            let ghost mid = self.runs@;
            let suffix = self.runs[i].text.split_off(off);
            self.runs[i].text = suffix;
            proof {
                assert(self.runs@ == mid.update(i as int, self.runs@[i as int]));
                lemma_count_dirty_update(mid, i as int, self.runs@[i as int]);
                lemma_ids_update(mid, i as int, self.runs@[i as int], self.last_id);
            }
            self.mark_dirty(i);
            proof {
                assert(self.runs@ =~= mid.update(i as int, self.runs@[i as int]));
                lemma_loose_dirtied(mid, self.runs@, i as int, self.rendered@);
            }
            self.cursor_offset = 0;
            proof {
                let nts = texts(self.runs@);
                lemma_flat_split(nts, i as int);
                assert forall|k: int| 0 <= k < i implies (#[trigger] nts[k]).len() == 0 by {
                    assert(nts[k] == self.runs@[k].text@);
                }
                lemma_flat_empty(nts.take(i as int));
                assert(nts.skip(i + 1) =~= ts.skip(i + 1));
                assert(s.skip(p) =~= flat(nts));
            }
            self.text_len = self.text_len - pe;
        } else {
            self.clear_runs(i + 1, n);
            let ghost mid = self.runs@;
            self.runs[i].text.truncate(off);
            proof {
                assert(self.runs@ == mid.update(i as int, self.runs@[i as int]));
                lemma_count_dirty_update(mid, i as int, self.runs@[i as int]);
                lemma_ids_update(mid, i as int, self.runs@[i as int], self.last_id);
            }
            self.mark_dirty(i);
            proof {
                assert(self.runs@ =~= mid.update(i as int, self.runs@[i as int]));
                lemma_loose_dirtied(mid, self.runs@, i as int, self.rendered@);
                let nts = texts(self.runs@);
                lemma_flat_split(nts, i as int);
                assert forall|k: int| 0 <= k < nts.skip(i + 1).len() implies (#[trigger] nts.skip(i + 1)[k]).len() == 0 by {
                    assert(nts.skip(i + 1)[k] == self.runs@[i + 1 + k].text@);
                }
                lemma_flat_empty(nts.skip(i + 1));
                assert(nts.take(i as int) =~= ts.take(i as int));
                assert(s.take(p) =~= flat(nts));
            }
            self.text_len = pe;
        }
    }

    /// Moves the cursor one column left, stopping at column 1, without erasing.
    pub fn backspace(&mut self, grid: Grid)
        requires
            old(self).wf(),
            old(self).text_len + old(self).runs@.len() + GOTO_ROOM <= TEXT_CAPACITY,
        ensures
            final(self).text_len + final(self).runs@.len() <= old(self).text_len + old(self).runs@.len() + GOTO_ROOM,
            final(self).wf(),
            ({
                let c = column_at(old(self).text(), old(self).pos());
                let r = row_at(old(self).text(), old(self).pos()) as int;
                let c1 = if c > 1 { c - 1 } else { c };
                &&& final(self).text() == goto_text(old(self).text(), clamp_col(c1, grid), clamp_row(r, grid))
                &&& final(self).pos() == goto_pos(old(self).text(), clamp_col(c1, grid), clamp_row(r, grid))
                &&& column_at(final(self).text(), final(self).pos()) == clamp_col(c1, grid)
                &&& row_at(final(self).text(), final(self).pos()) == clamp_row(r, grid)
            }),
            final(self).escape == old(self).escape,
            final(self).escape_limit == old(self).escape_limit,
            final(self).pending_cr == old(self).pending_cr,
            final(self).last_id == old(self).last_id,
    {
        let mut c = self.column_of();
        if c > 1 {
            c = c - 1;
        }
        let r = self.row_of();
        self.goto_rc(c, r, grid);
    }

    /// A line ending: moves to column 1 of the next row down when the cursor
    /// is above the bottom row, else writes a line break at the cursor.
    pub fn line_feed(&mut self, grid: Grid)
        requires
            old(self).wf(),
            old(self).text_len + old(self).runs@.len() + GOTO_ROOM <= TEXT_CAPACITY,
        ensures
            final(self).text_len + final(self).runs@.len() <= old(self).text_len + old(self).runs@.len() + GOTO_ROOM,
            final(self).wf(),
            ({
                let r = row_at(old(self).text(), old(self).pos()) as int;
                &&& r > 0 ==> final(self).text() == goto_text(old(self).text(), 1, clamp_row(r - 1, grid))
                    && final(self).pos() == goto_pos(old(self).text(), 1, clamp_row(r - 1, grid))
                    && column_at(final(self).text(), final(self).pos()) == 1
                    && row_at(final(self).text(), final(self).pos()) == clamp_row(r - 1, grid)
                &&& r == 0 ==> final(self).text() == written(old(self).text(), old(self).pos(), '\n')
                    && final(self).pos() == old(self).pos() + 1
            }),
            final(self).escape == old(self).escape,
            final(self).escape_limit == old(self).escape_limit,
            final(self).pending_cr == old(self).pending_cr,
            final(self).last_id == old(self).last_id,
    {
        let r = self.row_of();
        if r > 0 {
            self.goto_rc(1, r - 1, grid);
        } else {
            self.write_char('\n');
        }
    }

    /// Erases in the cursor's line by writing spaces: from the cursor to the
    /// end of the line (`mode` 0), from its start to the cursor's column
    /// within the grid (1), or the
    /// whole line (2); any other mode writes nothing. The cursor goes back
    /// to its column and row.
    pub fn erase_line(&mut self, mode: usize, grid: Grid)
        requires
            old(self).wf(),
            old(self).text_len + old(self).runs@.len() + 3 * GOTO_ROOM <= TEXT_CAPACITY,
        ensures
            final(self).text_len + final(self).runs@.len() <= old(self).text_len + old(self).runs@.len() + 3 * GOTO_ROOM,
            final(self).wf(),
            final(self).text() == erase_line_text(old(self).text(), old(self).pos(), mode as nat, grid),
            column_at(final(self).text(), final(self).pos()) == clamp_col(
                column_at(old(self).text(), old(self).pos()),
                grid,
            ),
            row_at(final(self).text(), final(self).pos()) == clamp_row(
                row_at(old(self).text(), old(self).pos()) as int,
                grid,
            ),
            final(self).escape == old(self).escape,
            final(self).escape_limit == old(self).escape_limit,
            final(self).pending_cr == old(self).pending_cr,
            final(self).last_id == old(self).last_id,
    {
        let c = self.column_of();
        let r = self.row_of();
        proof {
            lemma_pos_bound(self.runs@, self.cursor_run as int, self.cursor_offset as int);
        }
        if mode == 2 {
            self.goto_rc(1, r, grid);
            self.write_n(' ', grid.columns as usize);
        } else if mode == 1 {
            let cols: usize = if grid.columns == 0 { 1 } else { grid.columns as usize };
            let n: usize = if c > cols { cols - 1 } else if c >= 1 { c - 1 } else { 0 };
            self.goto_rc(1, r, grid);
            self.write_n(' ', n);
        } else if mode == 0 {
            let n: usize = if grid.columns as usize + 1 > c { grid.columns as usize + 1 - c } else { 0 };
            self.write_n(' ', n);
        }
        self.goto_rc(c, r, grid);
    }

    /// Writes `n` spaces at the cursor, then puts it back at its column and row.
    pub fn erase_chars(&mut self, n: usize, grid: Grid)
        requires
            old(self).wf(),
            n <= 0xFFFF,
            old(self).text_len + old(self).runs@.len() + 3 * GOTO_ROOM <= TEXT_CAPACITY,
        ensures
            final(self).text_len + final(self).runs@.len() <= old(self).text_len + old(self).runs@.len() + 3 * GOTO_ROOM,
            final(self).wf(),
            final(self).text() == goto_text(
                written_n(old(self).text(), old(self).pos(), ' ', n as nat),
                clamp_col(column_at(old(self).text(), old(self).pos()), grid),
                clamp_row(row_at(old(self).text(), old(self).pos()) as int, grid),
            ),
            column_at(final(self).text(), final(self).pos()) == clamp_col(
                column_at(old(self).text(), old(self).pos()),
                grid,
            ),
            row_at(final(self).text(), final(self).pos()) == clamp_row(
                row_at(old(self).text(), old(self).pos()) as int,
                grid,
            ),
            final(self).escape == old(self).escape,
            final(self).escape_limit == old(self).escape_limit,
            final(self).pending_cr == old(self).pending_cr,
            final(self).last_id == old(self).last_id,
    {
        let c = self.column_of();
        let r = self.row_of();
        self.write_n(' ', n);
        self.goto_rc(c, r, grid);
    }
}

/// The escape character, which opens a sequence.
pub const ESC: char = '\x1b';
/// Longest an OSC sequence may grow.
pub const OSC_LIMIT: usize = 1024;
/// Longest a CSI sequence may grow.
pub const CSI_LIMIT: usize = 16;
/// Longest any other sequence may grow.
pub const OTHER_LIMIT: usize = 3;
/// Room in characters plus runs that one input character may take.
pub const WRITE_ROOM: usize = 0x80000;

/// The commands a CSI sequence selects by its final character.
#[derive(Clone, Copy, Debug, PartialEq, Eq, Structural)]
pub enum CsiCommand {
    Style,
    WindowState,
    ScrollRegion,
    Mode,
    EraseDisplay,
    EraseLine,
    EraseChars,
    Position,
    Up,
    Down,
    Forward,
    Back,
    Unsupported,
}

pub open spec fn csi_kind(c: char) -> CsiCommand {
    if c == 'm' {
        CsiCommand::Style
    } else if c == 't' {
        CsiCommand::WindowState
    } else if c == 'r' {
        CsiCommand::ScrollRegion
    } else if c == 'l' || c == 'h' {
        CsiCommand::Mode
    } else if c == 'J' {
        CsiCommand::EraseDisplay
    } else if c == 'K' {
        CsiCommand::EraseLine
    } else if c == 'X' {
        CsiCommand::EraseChars
    } else if c == 'H' || c == 'f' {
        CsiCommand::Position
    } else if c == 'A' {
        CsiCommand::Up
    } else if c == 'B' {
        CsiCommand::Down
    } else if c == 'C' {
        CsiCommand::Forward
    } else if c == 'D' {
        CsiCommand::Back
    } else {
        CsiCommand::Unsupported
    }
}

/// The command of a CSI final character.
pub fn csi_command(c: char) -> (k: CsiCommand)
    ensures
        k == csi_kind(c),
{
    if c == 'm' {
        CsiCommand::Style
    } else if c == 't' {
        CsiCommand::WindowState
    } else if c == 'r' {
        CsiCommand::ScrollRegion
    } else if c == 'l' || c == 'h' {
        CsiCommand::Mode
    } else if c == 'J' {
        CsiCommand::EraseDisplay
    } else if c == 'K' {
        CsiCommand::EraseLine
    } else if c == 'X' {
        CsiCommand::EraseChars
    } else if c == 'H' || c == 'f' {
        CsiCommand::Position
    } else if c == 'A' {
        CsiCommand::Up
    } else if c == 'B' {
        CsiCommand::Down
    } else if c == 'C' {
        CsiCommand::Forward
    } else if c == 'D' {
        CsiCommand::Back
    } else {
        CsiCommand::Unsupported
    }
}

/// The sequence opens with the OSC introducer (ESC `]` or its C1 form).
pub open spec fn is_osc(a: Seq<char>) -> bool {
    (a.len() >= 2 && a[0] == ESC && a[1] == ']') || (a.len() >= 1 && a[0] == '\u{9d}')
}

/// The sequence opens with the CSI introducer (ESC `[` or its C1 form).
pub open spec fn is_csi(a: Seq<char>) -> bool {
    (a.len() >= 2 && a[0] == ESC && a[1] == '[') || (a.len() >= 1 && a[0] == '\u{9b}')
}

/// Length of the introducer.
pub open spec fn intro_len(a: Seq<char>) -> int {
    if a.len() >= 1 && a[0] == ESC {
        2
    } else {
        1
    }
}

/// An OSC sequence ends with BEL or ESC `\`.
pub open spec fn osc_done(a: Seq<char>) -> bool {
    is_osc(a) && a.len() >= 1 && (a.last() == '\x07' || (a.len() >= 2 && a[a.len() - 2] == ESC
        && a.last() == '\\'))
}

/// A CSI sequence ends with a character in `0x40..=0x7E` after its introducer.
pub open spec fn csi_done(a: Seq<char>) -> bool {
    is_csi(a) && a.len() > intro_len(a) && '@' <= a.last() <= '~' && a.len() > 2
}

/// The parameters of a complete CSI sequence: what lies between the
/// introducer and the final character.
pub open spec fn csi_body(a: Seq<char>) -> Seq<char> {
    a.subrange(intro_len(a), a.len() - 1)
}

pub open spec fn limit_of(a: Seq<char>) -> nat {
    if is_osc(a) {
        OSC_LIMIT as nat
    } else if is_csi(a) {
        CSI_LIMIT as nat
    } else {
        OTHER_LIMIT as nat
    }
}

/// The sequence read so far after one more character: emptied when the
/// sequence ends, or when it reaches the length its kind allows.
pub open spec fn escape_next(a: Seq<char>, c: char) -> Seq<char> {
    let a1 = a.push(c);
    let a2 = if osc_done(a1) || csi_done(a1) { Seq::empty() } else { a1 };
    if a2.len() >= limit_of(a1) {
        Seq::empty()
    } else {
        a2
    }
}

/// A numeric parameter, or `d` when it is missing or malformed.
pub open spec fn num_or(s: Seq<char>, d: nat) -> nat {
    match num_of(s) {
        Some(v) => v,
        None => d,
    }
}

/// Index of the first `;` at or after `k`, or the length.
pub open spec fn semi_index(b: Seq<char>, k: int) -> int
    decreases b.len() - k,
{
    if k >= b.len() || k < 0 {
        b.len() as int
    } else if b[k] == ';' {
        k
    } else {
        semi_index(b, k + 1)
    }
}

/// Row and column of an absolute position, 1-based; 1 when missing.
pub open spec fn position_params(b: Seq<char>) -> (nat, nat) {
    let k = semi_index(b, 0);
    if k < b.len() {
        (num_or(b.take(k), 1), num_or(b.skip(k + 1), 1))
    } else {
        (num_or(b, 1), 1)
    }
}

/// Mode of an erase-in-line sequence: its number, 0 when empty, else none (3).
pub open spec fn line_mode(b: Seq<char>) -> nat {
    match num_of(b) {
        Some(v) => v,
        None => if b.len() == 0 { 0 } else { 3 },
    }
}

/// Cells an erase-characters sequence blanks: its number, at most the
/// largest grid width (65535); 1 when missing.
pub open spec fn erase_count(b: Seq<char>) -> nat {
    match num_of(b) {
        Some(v) => if v <= 0xFFFF { v } else { 0xFFFF },
        None => 1,
    }
}

/// Text `t` and position `q` are what placing the cursor at column `c` and
/// row `r` makes of text `s`.
pub open spec fn moved_to(s: Seq<char>, t: Seq<char>, q: int, c: int, r: int, grid: Grid) -> bool {
    &&& t == goto_text(s, clamp_col(c, grid), clamp_row(r, grid))
    &&& q == goto_pos(s, clamp_col(c, grid), clamp_row(r, grid))
    &&& column_at(t, q) == clamp_col(c, grid)
    &&& row_at(t, q) == clamp_row(r, grid)
}

/// What running the CSI command `k` with parameters `b` did to the buffer.
pub open spec fn csi_effect(old: Buffer, new: Buffer, b: Seq<char>, k: CsiCommand, grid: Grid) -> bool {
    let s = old.text();
    let p = old.pos();
    let c = column_at(s, p);
    let r = row_at(s, p) as int;
    let t = new.text();
    let q = new.pos();
    let n = num_or(b, 1) as int;
    match k {
        CsiCommand::Style => t == s && q == p && style_shape(old, new) && new.runs@[new.cursor_run as int].style
            == merged(old.runs@[old.cursor_run as int].style, sgr_style(codes_of(b))),
        CsiCommand::EraseDisplay => match num_of(b) {
            Some(v) => if v == 2 || v == 3 {
                t.len() == 0 && q == 0 && new.cursor_run == 0 && new.cursor_offset == 0
                    && new.runs@.len() == old.runs@.len()
                    && forall|k: int| 0 <= k < new.runs@.len() ==> (#[trigger] new.runs@[k]).text@.len() == 0
            } else if v == 1 {
                t == s.skip(p) && q == 0
            } else {
                t == s.take(p) && q == p
            },
            None => t == s.take(p) && q == p,
        },
        CsiCommand::EraseLine => t == erase_line_text(s, p, line_mode(b), grid) && column_at(t, q) == clamp_col(c, grid)
            && row_at(t, q) == clamp_row(r, grid),
        CsiCommand::EraseChars => t == goto_text(written_n(s, p, ' ', erase_count(b)), clamp_col(c, grid), clamp_row(r, grid))
            && column_at(t, q) == clamp_col(c, grid) && row_at(t, q) == clamp_row(r, grid),
        CsiCommand::Position => {
            let (pr, pc) = position_params(b);
            let row = (if grid.rows as int > pr { grid.rows as int - pr } else { 0 }) + 1;
            t == goto_text(s, clamp_col(pc as int, grid), clamp_row(row, grid)) && q == goto_pos(s, clamp_col(pc as int, grid), clamp_row(row, grid))
        },
        CsiCommand::Up => moved_to(s, t, q, c, r + n, grid),
        CsiCommand::Down => moved_to(s, t, q, c, if n <= r { r - n } else { 0 }, grid),
        CsiCommand::Forward => moved_to(s, t, q, c + n, r, grid),
        CsiCommand::Back => moved_to(s, t, q, if n < c { c - n } else { 1 }, r, grid),
        _ => new.runs == old.runs && new.cursor_run == old.cursor_run && new.cursor_offset == old.cursor_offset,
    }
}

/// Copies `v[a..b]`.
fn copy_range(v: &Vec<char>, a: usize, b: usize) -> (r: Vec<char>)
    requires
        a <= b <= v@.len(),
    ensures
        r@ == v@.subrange(a as int, b as int),
{
    let mut r: Vec<char> = Vec::new();
    let mut k = a;
    while k < b
        invariant
            a <= k <= b <= v@.len(),
            r@ == v@.subrange(a as int, k as int),
        decreases b - k,
    {
        r.push(v[k]);
        proof {
            assert(r@ =~= v@.subrange(a as int, k + 1));
        }
        k = k + 1;
    }
    r
}

/// Parses a numeric parameter, with a default.
fn param_or(s: &Vec<char>, d: usize) -> (v: usize)
    ensures
        v == num_or(s@, d as nat),
{
    match parse_num(s.as_slice()) {
        Some(v) => v,
        None => d,
    }
}

impl Buffer {
    /// Runs the complete CSI sequence held in `escape`.
    pub fn run_csi(&mut self, grid: Grid)
        requires
            old(self).wf(),
            csi_done(old(self).escape@),
            old(self).text_len + old(self).runs@.len() + 3 * GOTO_ROOM <= TEXT_CAPACITY,
        ensures
            final(self).text_len + final(self).runs@.len() <= old(self).text_len + old(self).runs@.len() + 3 * GOTO_ROOM,
            final(self).wf(),
            csi_effect(*old(self), *final(self), csi_body(old(self).escape@), csi_kind(old(self).escape@.last()), grid),
            final(self).escape == old(self).escape,
            final(self).pending_cr == old(self).pending_cr,
            final(self).last_id == old(self).last_id,
    {
        let len = self.escape.len();
        let intro: usize = if self.escape[0] == ESC { 2 } else { 1 };
        let body = copy_range(&self.escape, intro, len - 1);
        let kind = csi_command(self.escape[len - 1]);
        let ghost s = self.text();
        let ghost p = self.pos();
        proof {
            lemma_pos_bound(self.runs@, self.cursor_run as int, self.cursor_offset as int);
            lemma_line_start(s, p);
        }
        match kind {
            CsiCommand::Style => {
                let codes = parse_codes(body.as_slice());
                let css = sgr_attributes(&codes);
                self.apply_style(css);
            },
            CsiCommand::EraseDisplay => {
                let mode = parse_num(body.as_slice());
                match mode {
                    Some(v) => {
                        if v == 2 || v == 3 {
                            self.erase_display(true, false);
                        } else if v == 1 {
                            self.erase_display(false, true);
                        } else {
                            self.erase_display(false, false);
                        }
                    },
                    None => self.erase_display(false, false),
                }
            },
            CsiCommand::EraseLine => {
                let mode: usize = match parse_num(body.as_slice()) {
                    Some(v) => v,
                    None => if body.len() == 0 { 0 } else { 3 },
                };
                self.erase_line(mode, grid);
            },
            CsiCommand::EraseChars => {
                let n: usize = match parse_num(body.as_slice()) {
                    Some(v) => if v <= 0xFFFF { v } else { 0xFFFF },
                    None => 1,
                };
                self.erase_chars(n, grid);
            },
            CsiCommand::Position => {
                let mut k: usize = 0;
                while k < body.len() && body[k] != ';'
                    invariant
                        k <= body@.len(),
                        semi_index(body@, 0) == semi_index(body@, k as int),
                    decreases body@.len() - k,
                {
                    k = k + 1;
                }
                let (r, c) = if k < body.len() {
                    let rs = copy_range(&body, 0, k);
                    let cs = copy_range(&body, k + 1, body.len());
                    proof {
                        assert(rs@ =~= body@.take(k as int));
                        assert(cs@ =~= body@.skip(k + 1));
                    }
                    (param_or(&rs, 1), param_or(&cs, 1))
                } else {
                    (param_or(&body, 1), 1)
                };
                let rows = grid.rows as usize;
                let row = if rows > r { rows - r } else { 0 } + 1;
                self.goto_rc(c, row, grid);
            },
            CsiCommand::Up => {
                let n = param_or(&body, 1);
                let c = self.column_of();
                let r = self.row_of();
                let row = if r <= usize::MAX - n { r + n } else { usize::MAX };
                self.goto_rc(c, row, grid);
            },
            CsiCommand::Down => {
                let n = param_or(&body, 1);
                let c = self.column_of();
                let r = self.row_of();
                if n <= r {
                    self.goto_rc(c, r - n, grid);
                } else {
                    self.goto_rc(c, 0, grid);
                }
            },
            CsiCommand::Forward => {
                let n = param_or(&body, 1);
                let c = self.column_of();
                let r = self.row_of();
                let col = if c <= usize::MAX - n { c + n } else { usize::MAX };
                self.goto_rc(col, r, grid);
            },
            CsiCommand::Back => {
                let n = param_or(&body, 1);
                let c = self.column_of();
                let r = self.row_of();
                if n < c {
                    self.goto_rc(c - n, r, grid);
                } else {
                    self.goto_rc(1, r, grid);
                }
            },
            _ => {},
        }
    }
}

/// `\n`, `\v` and `\f` end a line.
pub open spec fn is_line_end(c: char) -> bool {
    c == '\n' || c == '\x0b' || c == '\x0c'
}

/// Where the cursor is once a pending carriage return is honoured before `c`.
pub open spec fn cr_pos(b: Buffer, c: char) -> int {
    if b.pending_cr && !is_line_end(c) {
        line_start(b.text(), b.pos())
    } else {
        b.pos()
    }
}

/// What a character read outside an escape sequence did.
pub open spec fn normal_effect(old: Buffer, new: Buffer, chr: char, grid: Grid) -> bool {
    let s = old.text();
    let p = cr_pos(old, chr);
    let t = new.text();
    let q = new.pos();
    let col = column_at(s, p);
    let row = row_at(s, p) as int;
    &&& new.pending_cr == (chr == '\r')
    &&& new.escape@ == if chr == ESC { seq![ESC] } else { Seq::<char>::empty() }
    &&& if chr == '\x07' || chr == '\r' || chr == ESC {
        &&& t == s && q == p
        &&& new.runs == old.runs
        &&& !old.pending_cr ==> new.cursor_run == old.cursor_run && new.cursor_offset == old.cursor_offset
    } else if chr == '\x08' {
        let c1 = if col > 1 { col - 1 } else { col };
        t == goto_text(s, clamp_col(c1, grid), clamp_row(row, grid)) && q == goto_pos(
            s,
            clamp_col(c1, grid),
            clamp_row(row, grid),
        )
    } else if is_line_end(chr) {
        if row > 0 {
            t == goto_text(s, 1, clamp_row(row - 1, grid)) && q == goto_pos(s, 1, clamp_row(row - 1, grid))
        } else {
            t == written(s, p, '\n') && q == p + 1
        }
    } else {
        t == written(s, p, chr) && q == p + 1
    }
}

/// What a character read inside an escape sequence did.
pub open spec fn escape_effect(old: Buffer, new: Buffer, chr: char, grid: Grid) -> bool {
    let a1 = old.escape@.push(chr);
    &&& new.escape@ == escape_next(old.escape@, chr)
    &&& new.pending_cr == old.pending_cr
    &&& if csi_done(a1) {
        csi_effect(old, new, csi_body(a1), csi_kind(chr), grid)
    } else {
        new.runs == old.runs && new.cursor_run == old.cursor_run && new.cursor_offset == old.cursor_offset
    }
}

/// The buffer has room for what one input character may add.
pub open spec fn has_room(b: Buffer) -> bool {
    b.text_len + b.runs@.len() + WRITE_ROOM <= TEXT_CAPACITY
}

fn escape_is_osc(a: &Vec<char>) -> (r: bool)
    ensures
        r == is_osc(a@),
{
    (a.len() >= 2 && a[0] == ESC && a[1] == ']') || (a.len() >= 1 && a[0] == '\u{9d}')
}

fn escape_is_csi(a: &Vec<char>) -> (r: bool)
    ensures
        r == is_csi(a@),
{
    (a.len() >= 2 && a[0] == ESC && a[1] == '[') || (a.len() >= 1 && a[0] == '\u{9b}')
}

fn escape_osc_done(a: &Vec<char>) -> (r: bool)
    ensures
        r == osc_done(a@),
{
    let n = a.len();
    escape_is_osc(a) && n >= 1 && (a[n - 1] == '\x07' || (n >= 2 && a[n - 2] == ESC && a[n - 1] == '\\'))
}

fn escape_csi_done(a: &Vec<char>) -> (r: bool)
    ensures
        r == csi_done(a@),
{
    let n = a.len();
    let intro: usize = if n >= 1 && a[0] == ESC { 2 } else { 1 };
    escape_is_csi(a) && n > intro && '@' <= a[n - 1] && a[n - 1] <= '~' && n > 2
}

impl Buffer {
    /// Interprets one character from the channel. `\0` is ignored; so is
    /// any character once the buffer is full.
    pub fn write_raw(&mut self, chr: char, grid: Grid)
        requires
            old(self).wf(),
        ensures
            final(self).text_len + final(self).runs@.len() <= old(self).text_len + old(self).runs@.len() + WRITE_ROOM,
            final(self).wf(),
            final(self).last_id == old(self).last_id,
            chr == '\0' || !has_room(*old(self)) ==> *final(self) == *old(self),
            chr != '\0' && has_room(*old(self)) && old(self).escape@.len() == 0 ==> normal_effect(
                *old(self),
                *final(self),
                chr,
                grid,
            ),
            chr != '\0' && has_room(*old(self)) && old(self).escape@.len() > 0 ==> escape_effect(
                *old(self),
                *final(self),
                chr,
                grid,
            ),
    {
        if chr == '\0' {
            return;
        }
        if self.text_len + self.runs.len() > TEXT_CAPACITY - WRITE_ROOM {
            return;
        }
        if self.escape.len() == 0 {
            self.normal_char(chr, grid);
        } else {
            self.escape_char(chr, grid);
        }
    }

    fn normal_char(&mut self, chr: char, grid: Grid)
        requires
            old(self).wf(),
            has_room(*old(self)),
            old(self).escape@.len() == 0,
        ensures
            final(self).text_len + final(self).runs@.len() <= old(self).text_len + old(self).runs@.len() + WRITE_ROOM,
            final(self).wf(),
            normal_effect(*old(self), *final(self), chr, grid),
            final(self).last_id == old(self).last_id,
    {
        let ghost s = self.text();
        proof {
            assert(self.escape@ =~= Seq::<char>::empty());
        }
        if self.pending_cr {
            self.pending_cr = false;
            if !(chr == '\n' || chr == '\x0b' || chr == '\x0c') {
                self.carriage_return();
            }
        }
        assert(self.text() == s && self.pos() == cr_pos(*old(self), chr));
        if chr == '\x07' {
        } else if chr == '\x08' {
            self.backspace(grid);
        } else if chr == '\n' || chr == '\x0b' || chr == '\x0c' {
            self.line_feed(grid);
        } else if chr == '\r' {
            self.pending_cr = true;
        } else if chr == ESC {
            self.escape.push(ESC);
            proof {
                assert(self.escape@ =~= seq![ESC]);
            }
        } else {
            self.write_buff(chr);
        }
    }

    fn escape_char(&mut self, chr: char, grid: Grid)
        requires
            old(self).wf(),
            has_room(*old(self)),
            old(self).escape@.len() > 0,
        ensures
            final(self).text_len + final(self).runs@.len() <= old(self).text_len + old(self).runs@.len() + WRITE_ROOM,
            final(self).wf(),
            escape_effect(*old(self), *final(self), chr, grid),
            final(self).last_id == old(self).last_id,
    {
        self.escape.push(chr);
        let ghost a1 = self.escape@;
        proof {
            assert(self.text() == old(self).text());
            assert(self.pos() == old(self).pos());
        }
        let mid = Ghost(*self);
        self.escape_limit = OTHER_LIMIT;
        if escape_is_osc(&self.escape) {
            self.escape_limit = OSC_LIMIT;
            if escape_osc_done(&self.escape) {
                self.escape.clear();
            }
        } else if escape_is_csi(&self.escape) {
            self.escape_limit = CSI_LIMIT;
            if escape_csi_done(&self.escape) {
                self.run_csi(grid);
                self.escape.clear();
            }
        }
        if self.escape.len() >= self.escape_limit {
            self.escape.clear();
        }
        proof {
            assert(self.escape@ =~= escape_next(old(self).escape@, chr));
        }
    }
}

} // verus!
