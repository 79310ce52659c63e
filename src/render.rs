//! Reconciliation: turning dirty runs into operations on the renderer.

use vstd::prelude::*;
use crate::buffer::{
    count_dirty, elem_of, ids_ok, lemma_count_dirty_add, lemma_count_dirty_remove, lemma_count_dirty_update,
    loose, texts, valid_at, Buffer, Elem, Run, TEXT_CAPACITY,
};
use crate::style::Style;
use crate::text::{lemma_flat_remove_empty, lemma_flat_split};

verus! {

/// An operation on the renderer's elements.
pub enum RenderOp {
    /// Adds an element, before the element `before` when that one exists,
    /// else at the end.
    Create { id: u64, text: Vec<char>, style: Style, before: Option<u64> },
    /// Replaces the content and style of an element.
    Update { id: u64, text: Vec<char>, style: Style },
    /// Removes an element.
    Delete { id: u64 },
}

/// A run as the full pass hands it to the renderer.
pub struct Span {
    pub id: u64,
    pub text: Vec<char>,
    pub style: Style,
}

/// Index of the first element with identifier `id`, or -1.
pub open spec fn find(r: Seq<Elem>, id: u64) -> int
    decreases r.len(),
{
    if r.len() == 0 {
        -1
    } else if r[0].0 == id {
        0
    } else {
        let f = find(r.drop_first(), id);
        if f < 0 {
            -1
        } else {
            f + 1
        }
    }
}

/// The renderer's elements after one operation.
pub open spec fn op_effect(r: Seq<Elem>, op: RenderOp) -> Seq<Elem> {
    match op {
        RenderOp::Create { id, text, style, before } => {
            let e = (id, text@, style);
            match before {
                Some(b) => if find(r, b) >= 0 {
                    r.insert(find(r, b), e)
                } else {
                    r.push(e)
                },
                None => r.push(e),
            }
        },
        RenderOp::Update { id, text, style } => if find(r, id) >= 0 {
            r.update(find(r, id), (id, text@, style))
        } else {
            r
        },
        RenderOp::Delete { id } => if find(r, id) >= 0 {
            r.remove(find(r, id))
        } else {
            r
        },
    }
}

/// The renderer's elements after a sequence of operations, applied in order.
pub open spec fn apply_ops(r: Seq<Elem>, ops: Seq<RenderOp>) -> Seq<Elem>
    decreases ops.len(),
{
    if ops.len() == 0 {
        r
    } else {
        op_effect(apply_ops(r, ops.drop_last()), ops.last())
    }
}

/// The elements standing for runs that all have identifiers.
pub open spec fn elems(rs: Seq<Run>) -> Seq<Elem> {
    rs.map_values(|r: Run| elem_of(r))
}

/// Text and style of the elements that show some text, in order.
pub open spec fn shown(a: Seq<Elem>) -> Seq<(Seq<char>, Style)>
    decreases a.len(),
{
    if a.len() == 0 {
        Seq::empty()
    } else if a.last().1.len() == 0 {
        shown(a.drop_last())
    } else {
        shown(a.drop_last()).push((a.last().1, a.last().2))
    }
}

/// Text and style of the runs that hold some text, in order.
pub open spec fn shown_runs(rs: Seq<Run>) -> Seq<(Seq<char>, Style)>
    decreases rs.len(),
{
    if rs.len() == 0 {
        Seq::empty()
    } else if rs.last().text@.len() == 0 {
        shown_runs(rs.drop_last())
    } else {
        shown_runs(rs.drop_last()).push((rs.last().text@, rs.last().style))
    }
}

/// Every run has an identifier and none is dirty.
pub open spec fn all_rendered(rs: Seq<Run>) -> bool {
    forall|k: int| 0 <= k < rs.len() ==> (#[trigger] rs[k]).id is Some && !rs[k].dirty
}

/// State in the middle of a partial pass: runs from `i` on are done and
/// shown exactly; the renderer's elements before them, `a`, stand loosely
/// for the runs before `i`.
pub open spec fn pass_state(b: Buffer, i: int, a: Seq<Elem>) -> bool {
    &&& 0 <= i <= b.runs@.len()
    &&& loose(b.runs@.take(i), a)
    &&& b.rendered@ == a + elems(b.runs@.skip(i))
    &&& all_rendered(b.runs@.skip(i))
}

/// Number of runs that have no identifier yet.
pub open spec fn count_unnamed(rs: Seq<Run>) -> nat
    decreases rs.len(),
{
    if rs.len() == 0 {
        0
    } else {
        count_unnamed(rs.drop_last()) + if rs.last().id is None { 1nat } else { 0nat }
    }
}

/// Index of the `m`-th dirty run counted from the end (0 is the last one).
pub open spec fn dirty_from_end(rs: Seq<Run>, m: nat) -> int
    decreases rs.len(),
{
    if rs.len() == 0 {
        -1
    } else if rs.last().dirty {
        if m == 0 {
            rs.len() - 1
        } else {
            dirty_from_end(rs.drop_last(), (m - 1) as nat)
        }
    } else {
        dirty_from_end(rs.drop_last(), m)
    }
}

/// The operation sent for a dirty run: a creation for a run without
/// identifier, else a deletion of an emptied run or an update, each
/// carrying the run's identifier, text and style as they apply.
pub open spec fn op_for(op: RenderOp, r: Run) -> bool {
    match op {
        RenderOp::Create { id, text, style, before } => r.id is None && text@ == r.text@ && style == r.style,
        RenderOp::Update { id, text, style } => r.id == Some(id) && text@ == r.text@ && style == r.style,
        RenderOp::Delete { id } => r.id == Some(id) && r.text@.len() == 0,
    }
}

/// Number of deletions among the operations.
pub open spec fn count_deletes(ops: Seq<RenderOp>) -> nat
    decreases ops.len(),
{
    if ops.len() == 0 {
        0
    } else {
        count_deletes(ops.drop_last()) + if ops.last() is Delete { 1nat } else { 0nat }
    }
}

/// What a partial pass guarantees.
pub open spec fn partial_pass(old: Buffer, new: Buffer, ops: Seq<RenderOp>) -> bool {
    &&& new.rendered@ == apply_ops(old.rendered@, ops)
    &&& new.rendered@ == elems(new.runs@)
    &&& all_rendered(new.runs@)
    &&& new.dirty_count == 0
    &&& new.text() == old.text()
    &&& new.pos() == old.pos()
    &&& shown(new.rendered@) == shown_runs(old.runs@)
}

/// What a full pass guarantees.
pub open spec fn full_pass(old: Buffer, new: Buffer, spans: Seq<Span>) -> bool {
    &&& new.rendered@ == elems(new.runs@)
    &&& spans.len() == new.runs@.len()
    &&& forall|k: int| 0 <= k < spans.len() ==> (#[trigger] spans[k]).id == new.rendered@[k].0
        && spans[k].text@ == new.rendered@[k].1 && spans[k].style == new.rendered@[k].2
    &&& all_rendered(new.runs@)
    &&& new.dirty_count == 0
    &&& new.text() == old.text()
    &&& new.pos() == old.pos()
    &&& shown(new.rendered@) == shown_runs(old.runs@)
}

pub proof fn lemma_find_first(r: Seq<Elem>, id: u64, m: int)
    requires
        0 <= m < r.len(),
        r[m].0 == id,
        forall|k: int| 0 <= k < m ==> (#[trigger] r[k]).0 != id,
    ensures
        find(r, id) == m,
    decreases m,
{
    if m > 0 {
        lemma_find_first(r.drop_first(), id, m - 1);
    }
}

/// Elements standing loosely for runs carry only those runs' identifiers.
pub proof fn lemma_loose_ids(u: Seq<Run>, a: Seq<Elem>, x: u64)
    requires
        loose(u, a),
        forall|m: int| 0 <= m < u.len() ==> (#[trigger] u[m]).id != Some(x),
    ensures
        forall|k: int| 0 <= k < a.len() ==> (#[trigger] a[k]).0 != x,
    decreases u.len(),
{
    if u.len() > 0 {
        if u.last().id is None {
            lemma_loose_ids(u.drop_last(), a, x);
        } else {
            lemma_loose_ids(u.drop_last(), a.drop_last(), x);
            assert forall|k: int| 0 <= k < a.len() implies (#[trigger] a[k]).0 != x by {
                if k < a.len() - 1 {
                    assert(a[k] == a.drop_last()[k]);
                }
            }
        }
    }
}

/// Runs shown exactly after runs shown loosely: the whole is loose.
pub proof fn lemma_loose_append(u: Seq<Run>, a: Seq<Elem>, p: Seq<Run>)
    requires
        loose(u, a),
        all_rendered(p),
    ensures
        loose(u + p, a + elems(p)),
    decreases p.len(),
{
    if p.len() == 0 {
        assert(u + p =~= u);
        assert(a + elems(p) =~= a);
    } else {
        lemma_loose_append(u, a, p.drop_last());
        assert((u + p).drop_last() =~= u + p.drop_last());
        assert((a + elems(p)).drop_last() =~= a + elems(p.drop_last()));
        assert(p.last() == p[p.len() - 1]);
    }
}

/// Runs all shown exactly are shown by their elements.
pub proof fn lemma_shown_elems(rs: Seq<Run>)
    requires
        all_rendered(rs),
    ensures
        shown(elems(rs)) == shown_runs(rs),
    decreases rs.len(),
{
    if rs.len() > 0 {
        lemma_shown_elems(rs.drop_last());
        assert(elems(rs).drop_last() =~= elems(rs.drop_last()));
    }
}

pub proof fn lemma_shown_runs_add(a: Seq<Run>, b: Seq<Run>)
    ensures
        shown_runs(a + b) == shown_runs(a) + shown_runs(b),
    decreases b.len(),
{
    if b.len() == 0 {
        assert(a + b =~= a);
        assert(shown_runs(a) + shown_runs(b) =~= shown_runs(a));
    } else {
        lemma_shown_runs_add(a, b.drop_last());
        assert((a + b).drop_last() =~= a + b.drop_last());
        if b.last().text@.len() != 0 {
            assert(shown_runs(a) + shown_runs(b) =~= (shown_runs(a) + shown_runs(b.drop_last())).push((b.last().text@, b.last().style)));
        }
    }
}

/// Runs that differ only in identifier and flag, or by empty runs, show alike.
pub proof fn lemma_shown_runs_remove_empty(rs: Seq<Run>, j: int)
    requires
        0 <= j < rs.len(),
        rs[j].text@.len() == 0,
    ensures
        shown_runs(rs.remove(j)) == shown_runs(rs),
{
    assert(rs =~= rs.take(j) + seq![rs[j]] + rs.skip(j + 1));
    assert(rs.remove(j) =~= rs.take(j) + rs.skip(j + 1));
    lemma_shown_runs_add(rs.take(j) + seq![rs[j]], rs.skip(j + 1));
    lemma_shown_runs_add(rs.take(j), seq![rs[j]]);
    lemma_shown_runs_add(rs.take(j), rs.skip(j + 1));
    assert(seq![rs[j]].drop_last() =~= Seq::<Run>::empty());
    assert(seq![rs[j]].last() == rs[j]);
    assert(shown_runs(Seq::<Run>::empty()) =~= Seq::<(Seq<char>, Style)>::empty());
    assert(shown_runs(seq![rs[j]]) =~= Seq::<(Seq<char>, Style)>::empty());
    assert(shown_runs(rs.take(j)) + shown_runs(seq![rs[j]]) =~= shown_runs(rs.take(j)));
}

/// Runs with the same texts and styles, in order, show alike.
pub proof fn lemma_shown_runs_same(a: Seq<Run>, b: Seq<Run>)
    requires
        a.len() == b.len(),
        forall|k: int| 0 <= k < a.len() ==> (#[trigger] a[k]).text@ == b[k].text@ && a[k].style == b[k].style,
    ensures
        shown_runs(a) == shown_runs(b),
    decreases a.len(),
{
    if a.len() > 0 {
        lemma_shown_runs_same(a.drop_last(), b.drop_last());
        assert(a.last() == a[a.len() - 1]);
        assert(b.last() == b[b.len() - 1]);
    }
}

/// Copies a run's text.
fn copy_text(v: &Vec<char>) -> (r: Vec<char>)
    ensures
        r@ == v@,
{
    let mut r: Vec<char> = Vec::new();
    let mut k: usize = 0;
    while k < v.len()
        invariant
            k <= v@.len(),
            r@ == v@.take(k as int),
        decreases v@.len() - k,
    {
        r.push(v[k]);
        proof {
            assert(r@ =~= v@.take(k + 1));
        }
        k = k + 1;
    }
    proof {
        assert(v@.take(v@.len() as int) =~= v@);
    }
    r
}

pub proof fn lemma_count_unnamed_add(a: Seq<Run>, b: Seq<Run>)
    ensures
        count_unnamed(a + b) == count_unnamed(a) + count_unnamed(b),
    decreases b.len(),
{
    if b.len() == 0 {
        assert(a + b =~= a);
    } else {
        lemma_count_unnamed_add(a, b.drop_last());
        assert((a + b).drop_last() =~= a + b.drop_last());
    }
}

pub proof fn lemma_count_unnamed_bound(rs: Seq<Run>)
    ensures
        count_unnamed(rs) <= rs.len(),
    decreases rs.len(),
{
    if rs.len() > 0 {
        lemma_count_unnamed_bound(rs.drop_last());
    }
}

/// Counts over the runs from `j` on, split at run `j`.
pub proof fn lemma_skip_step(rs: Seq<Run>, j: int)
    requires
        0 <= j < rs.len(),
    ensures
        count_dirty(rs.skip(j)) == count_dirty(rs.skip(j + 1)) + if rs[j].dirty { 1nat } else { 0nat },
        count_unnamed(rs.skip(j)) == count_unnamed(rs.skip(j + 1)) + if rs[j].id is None { 1nat } else { 0nat },
{
    assert(rs.skip(j) =~= seq![rs[j]] + rs.skip(j + 1));
    lemma_count_dirty_add(seq![rs[j]], rs.skip(j + 1));
    lemma_count_unnamed_add(seq![rs[j]], rs.skip(j + 1));
    assert(seq![rs[j]].drop_last() =~= Seq::<Run>::empty());
    assert(seq![rs[j]].last() == rs[j]);
    assert(count_dirty(Seq::<Run>::empty()) == 0);
    assert(count_unnamed(Seq::<Run>::empty()) == 0);
}

/// A dirty run is the one counted by the dirty runs after it.
pub proof fn lemma_dirty_from_end(rs: Seq<Run>, j: int)
    requires
        0 <= j < rs.len(),
        rs[j].dirty,
    ensures
        dirty_from_end(rs, count_dirty(rs.skip(j + 1))) == j,
    decreases rs.len(),
{
    if j == rs.len() - 1 {
        assert(rs.skip(j + 1) =~= Seq::<Run>::empty());
        assert(count_dirty(Seq::<Run>::empty()) == 0);
    } else {
        let d = rs.drop_last();
        lemma_dirty_from_end(d, j);
        assert(rs.skip(j + 1) =~= d.skip(j + 1) + seq![rs.last()]);
        lemma_count_dirty_add(d.skip(j + 1), seq![rs.last()]);
        assert(seq![rs.last()].drop_last() =~= Seq::<Run>::empty());
        assert(count_dirty(Seq::<Run>::empty()) == 0);
        assert(d[j] == rs[j]);
    }
}

/// Removing a run keeps identifiers sound.
pub proof fn lemma_ids_remove(rs: Seq<Run>, j: int, last_id: u64)
    requires
        ids_ok(rs, last_id),
        0 <= j < rs.len(),
    ensures
        ids_ok(rs.remove(j), last_id),
{
    let ns = rs.remove(j);
    assert forall|a: int| 0 <= a < ns.len() implies #[trigger] ns[a] == rs[if a < j { a } else { a + 1 }] by {}
    assert forall|a: int, b: int|
        0 <= a < ns.len() && 0 <= b < ns.len() && a != b && (#[trigger] ns[a].id) is Some
            implies ns[a].id != #[trigger] ns[b].id by {
        assert(ns[a] == rs[if a < j { a } else { a + 1 }]);
        assert(ns[b] == rs[if b < j { b } else { b + 1 }]);
    }
}

impl Buffer {
    /// Brings run `j` up to date with the renderer, runs after it being
    /// done: a new run is created before its successor's element, an
    /// emptied one is deleted (unless it is the only run), a changed one
    /// is updated. Returns the operation sent, if any.
    #[verifier::rlimit(80)]
    fn reconcile_at(&mut self, j: usize, Ghost(a): Ghost<Seq<Elem>>) -> (res: (Option<RenderOp>, Ghost<Seq<Elem>>))
        requires
            old(self).wf(),
            j < old(self).runs@.len(),
            pass_state(*old(self), j + 1, a),
            old(self).last_id < u64::MAX,
        ensures
            final(self).wf(),
            pass_state(*final(self), j as int, res.1@),
            res.0 is None ==> final(self).rendered == old(self).rendered,
            res.0 matches Some(op) ==> final(self).rendered@ == op_effect(old(self).rendered@, op),
            final(self).text() == old(self).text(),
            final(self).pos() == old(self).pos(),
            final(self).last_id == old(self).last_id + if old(self).runs@[j as int].dirty && old(self).runs@[j as int].id is None { 1int } else { 0int },
            final(self).runs@.len() == old(self).runs@.len() - if res.0 matches Some(RenderOp::Delete { .. }) { 1int } else { 0int },
            final(self).runs@.take(j as int) == old(self).runs@.take(j as int),
            res.0 is Some <==> old(self).runs@[j as int].dirty,
            res.0 matches Some(op) ==> op_for(op, old(self).runs@[j as int]),
            shown_runs(final(self).runs@) == shown_runs(old(self).runs@),
            final(self).escape == old(self).escape,
            final(self).escape_limit == old(self).escape_limit,
            final(self).pending_cr == old(self).pending_cr,
    {
        let ghost rs = self.runs@;
        let ghost u = rs.take(j + 1);
        let ghost e = elems(rs.skip(j + 1));
        proof {
            assert(u.drop_last() =~= rs.take(j as int));
            assert(u.last() == rs[j as int]);
            assert(rs.skip(j as int) =~= seq![rs[j as int]] + rs.skip(j + 1));
            lemma_dirty_run_counted(rs, j as int);
        }
        if !self.runs[j].dirty {
            proof {
                assert(rs[j as int].id is Some);
                assert(elems(rs.skip(j as int)) =~= seq![elem_of(rs[j as int])] + e);
                assert(a =~= a.drop_last().push(elem_of(rs[j as int])));
                assert(self.rendered@ =~= a.drop_last() + elems(rs.skip(j as int)));
            }
            return (None, Ghost(a.drop_last()));
        }
        match self.runs[j].id {
            None => {
                let id = self.last_id + 1;
                let before = if j + 1 < self.runs.len() { self.runs[j + 1].id } else { None };
                let text = copy_text(&self.runs[j].text);
                let style = self.runs[j].style;
                let op = RenderOp::Create { id, text, style, before };
                let ghost r0 = self.rendered@;
                self.runs[j].id = Some(id);
                self.runs[j].dirty = false;
                self.last_id = id;
                proof {
                    let nr = self.runs@;
                    assert(nr == rs.update(j as int, nr[j as int]));
                    lemma_count_dirty_update(rs, j as int, nr[j as int]);
                    let el = (id, text@, style);
                    assert(el == elem_of(nr[j as int]));
                    if j + 1 < rs.len() {
                        let b = rs[j + 1].id->0;
                        assert forall|m: int| 0 <= m < u.len() implies (#[trigger] u[m]).id != Some(b) by {
                            assert(u[m] == rs[m]);
                            assert(rs[j + 1] == rs.skip(j + 1)[0]);
                        }
                        lemma_loose_ids(u, a, b);
                        assert(e[0].0 == b);
                        lemma_find_first(a + e, b, a.len() as int);
                        assert((a + e).insert(a.len() as int, el) =~= a + (seq![el] + e));
                    } else {
                        assert(e =~= Seq::<Elem>::empty());
                        assert((a + e).push(el) =~= a + (seq![el] + e));
                    }
                    assert(nr.skip(j as int) =~= seq![nr[j as int]] + rs.skip(j + 1));
                    assert(elems(nr.skip(j as int)) =~= seq![el] + e);
                    assert(nr.take(j as int) =~= rs.take(j as int));
                    assert(forall|k: int| 0 <= k < nr.skip(j as int).len() ==> #[trigger] nr.skip(j as int)[k] == nr[j + k]);
                    assert(texts(nr) =~= texts(rs));
                    lemma_shown_runs_same(nr, rs);
                    assert forall|k: int| 0 <= k < nr.len() && (#[trigger] nr[k].id) is Some implies nr[k].id->0 <= id by {
                        if k != j {
                            assert(nr[k] == rs[k]);
                        }
                    }
                    assert forall|k: int, l: int|
                        0 <= k < nr.len() && 0 <= l < nr.len() && k != l && (#[trigger] nr[k].id) is Some
                            implies nr[k].id != #[trigger] nr[l].id by {
                        if k != j && l != j {
                            assert(nr[k] == rs[k]);
                            assert(nr[l] == rs[l]);
                        } else if k == j {
                            assert(nr[l] == rs[l]);
                        } else {
                            assert(nr[k] == rs[k]);
                        }
                    }
                    assert forall|k: int| 0 <= k < nr.len() && (#[trigger] nr[k].id) is None implies nr[k].dirty by {
                        assert(nr[k] == rs[k]);
                    }
                }
                self.dirty_count = self.dirty_count - 1;
                self.rendered = Ghost(op_effect(self.rendered@, op));
                proof {
                    lemma_loose_append(self.runs@.take(j as int), a, self.runs@.skip(j as int));
                    assert(self.runs@ =~= self.runs@.take(j as int) + self.runs@.skip(j as int));
                }
                (Some(op), Ghost(a))
            },
            Some(id) => {
                proof {
                    assert(a.last().0 == id);
                    assert forall|m: int| 0 <= m < u.drop_last().len() implies (#[trigger] u.drop_last()[m]).id != Some(id) by {
                        assert(u.drop_last()[m] == rs[m]);
                    }
                    lemma_loose_ids(u.drop_last(), a.drop_last(), id);
                    assert forall|k: int| 0 <= k < a.len() - 1 implies (#[trigger] (a + e)[k]).0 != id by {
                        assert((a + e)[k] == a.drop_last()[k]);
                    }
                    lemma_find_first(a + e, id, a.len() - 1);
                }
                if self.runs[j].text.len() == 0 && self.runs.len() > 1 {
                    self.drop_run(j);
                    let op = RenderOp::Delete { id };
                    proof {
                        assert((a + e).remove(a.len() - 1) =~= a.drop_last() + e);
                    }
                    self.rendered = Ghost(op_effect(self.rendered@, op));
                    proof {
                        let nr = self.runs@;
                        assert(nr.take(j as int) =~= rs.take(j as int));
                        assert(nr.skip(j as int) =~= rs.skip(j + 1));
                        lemma_loose_append(nr.take(j as int), a.drop_last(), nr.skip(j as int));
                        assert(nr =~= nr.take(j as int) + nr.skip(j as int));
                    }
                    (Some(op), Ghost(a.drop_last()))
                } else {
                    let text = copy_text(&self.runs[j].text);
                    let style = self.runs[j].style;
                    let op = RenderOp::Update { id, text, style };
                    self.runs[j].dirty = false;
                    proof {
                        let nr = self.runs@;
                        assert(nr == rs.update(j as int, nr[j as int]));
                        lemma_count_dirty_update(rs, j as int, nr[j as int]);
                        let el = (id, text@, style);
                        assert(el == elem_of(nr[j as int]));
                        assert((a + e).update(a.len() - 1, el) =~= a.drop_last() + (seq![el] + e));
                        assert(nr.skip(j as int) =~= seq![nr[j as int]] + rs.skip(j + 1));
                        assert(elems(nr.skip(j as int)) =~= seq![el] + e);
                        assert(nr.take(j as int) =~= rs.take(j as int));
                        assert(texts(nr) =~= texts(rs));
                        lemma_shown_runs_same(nr, rs);
                        assert forall|k: int, l: int|
                            0 <= k < nr.len() && 0 <= l < nr.len() && k != l && (#[trigger] nr[k].id) is Some
                                implies nr[k].id != #[trigger] nr[l].id by {
                            assert(nr[k].id == rs[k].id);
                            assert(nr[l].id == rs[l].id);
                        }
                        assert forall|k: int| 0 <= k < nr.len() && (#[trigger] nr[k].id) is Some implies nr[k].id->0 <= self.last_id by {
                            assert(nr[k].id == rs[k].id);
                        }
                        assert forall|k: int| 0 <= k < nr.len() && (#[trigger] nr[k].id) is None implies nr[k].dirty by {
                            assert(nr[k].id == rs[k].id);
                        }
                    }
                    self.dirty_count = self.dirty_count - 1;
                    self.rendered = Ghost(op_effect(self.rendered@, op));
                    proof {
                        lemma_loose_append(self.runs@.take(j as int), a.drop_last(), self.runs@.skip(j as int));
                        assert(self.runs@ =~= self.runs@.take(j as int) + self.runs@.skip(j as int));
                    }
                    (Some(op), Ghost(a.drop_last()))
                }
            },
        }
    }

    /// Removes the empty, dirty run `j`, keeping the cursor's position.
    fn drop_run(&mut self, j: usize)
        requires
            old(self).wf(),
            j < old(self).runs@.len(),
            old(self).runs@.len() > 1,
            old(self).runs@[j as int].text@.len() == 0,
            old(self).runs@[j as int].dirty,
        ensures
            final(self).runs@ == old(self).runs@.remove(j as int),
            final(self).text() == old(self).text(),
            final(self).pos() == old(self).pos(),
            valid_at(final(self).runs@, final(self).cursor_run as int, final(self).cursor_offset as int),
            final(self).dirty_count == count_dirty(final(self).runs@),
            ids_ok(final(self).runs@, final(self).last_id),
            final(self).text_len == final(self).text().len(),
            final(self).text_len + final(self).runs@.len() <= TEXT_CAPACITY,
            final(self).last_id == old(self).last_id,
            final(self).rendered == old(self).rendered,
            shown_runs(final(self).runs@) == shown_runs(old(self).runs@),
            final(self).escape == old(self).escape,
            final(self).escape_limit == old(self).escape_limit,
            final(self).pending_cr == old(self).pending_cr,
    {
        let ghost rs = self.runs@;
        let ghost ts = texts(rs);
        let ci = self.cursor_run;
        let co = self.cursor_offset;
        self.runs.remove(j);
        proof {
            lemma_count_dirty_remove(rs, j as int);
            lemma_ids_remove(rs, j as int, self.last_id);
            assert(texts(self.runs@) =~= ts.remove(j as int));
            lemma_flat_remove_empty(ts, j as int);
            lemma_shown_runs_remove_empty(rs, j as int);
        }
        self.dirty_count = self.dirty_count - 1;
        if ci == j {
            if j > 0 {
                self.cursor_run = j - 1;
                self.cursor_offset = self.runs[j - 1].text.len();
                proof {
                    lemma_flat_split(ts, j - 1);
                    assert(texts(self.runs@).take(j - 1) =~= ts.take(j - 1));
                }
            } else {
                self.cursor_run = 0;
                self.cursor_offset = 0;
                proof {
                    assert(texts(self.runs@).take(0) =~= Seq::<Seq<char>>::empty());
                    assert(ts.take(0) =~= Seq::<Seq<char>>::empty());
                }
            }
        } else if ci > j {
            self.cursor_run = ci - 1;
            proof {
                assert(texts(self.runs@).take(ci - 1) =~= ts.take(ci as int).remove(j as int));
                lemma_flat_remove_empty(ts.take(ci as int), j as int);
            }
        } else {
            proof {
                assert(texts(self.runs@).take(ci as int) =~= ts.take(ci as int));
            }
        }
    }
}

proof fn lemma_dirty_run_counted(rs: Seq<Run>, j: int)
    requires
        0 <= j < rs.len(),
    ensures
        rs[j].dirty ==> count_dirty(rs) >= 1,
{
    lemma_count_dirty_update(rs, j, Run { dirty: false, ..rs[j] });
}

/// Runs all shown exactly have no dirty run.
pub proof fn lemma_clean_count(rs: Seq<Run>)
    requires
        all_rendered(rs),
    ensures
        count_dirty(rs) == 0,
        count_unnamed(rs) == 0,
    decreases rs.len(),
{
    if rs.len() > 0 {
        lemma_clean_count(rs.drop_last());
    }
}

/// Elements standing loosely for runs all shown exactly are those runs' elements.
pub proof fn lemma_loose_clean(rs: Seq<Run>, a: Seq<Elem>)
    requires
        loose(rs, a),
        all_rendered(rs),
    ensures
        a == elems(rs),
    decreases rs.len(),
{
    if rs.len() > 0 {
        assert(rs.last() == rs[rs.len() - 1]);
        lemma_loose_clean(rs.drop_last(), a.drop_last());
        assert(elems(rs).drop_last() =~= elems(rs.drop_last()));
        assert(a =~= a.drop_last().push(a.last()));
        assert(elems(rs) =~= elems(rs).drop_last().push(elems(rs).last()));
    } else {
        assert(a =~= elems(rs));
    }
}

pub proof fn lemma_apply_ops_push(r: Seq<Elem>, ops: Seq<RenderOp>, op: RenderOp)
    ensures
        apply_ops(r, ops.push(op)) == op_effect(apply_ops(r, ops), op),
{
    assert(ops.push(op).drop_last() =~= ops);
}

/// Full and partial reconciliation of one buffer leave the renderer showing
/// the same texts with the same styles, in the same order, and the buffer
/// holding the same text and cursor position.
pub proof fn lemma_full_partial_agree(
    b: Buffer,
    after_full: Buffer,
    spans: Seq<Span>,
    after_partial: Buffer,
    ops: Seq<RenderOp>,
)
    requires
        b.wf(),
        full_pass(b, after_full, spans),
        partial_pass(b, after_partial, ops),
    ensures
        shown(after_full.rendered@) == shown(after_partial.rendered@),
        after_full.text() == after_partial.text(),
        after_full.pos() == after_partial.pos(),
        after_full.dirty_count == 0 && after_partial.dirty_count == 0,
{
}

impl Buffer {
    /// Incremental reconciliation: walks the runs from the last to the
    /// first and returns the operations that bring the renderer up to date,
    /// one per dirty run: a creation for a run without identifier (placed
    /// before the next run's element, or at the end), a deletion of an
    /// emptied run that has one (the run leaves the list), else an update.
    /// An emptied run that is the only run left is updated rather than
    /// deleted, so the cursor always has a run. Does nothing when no run is
    /// dirty.
    pub fn update_partial(&mut self) -> (ops: Vec<RenderOp>)
        requires
            old(self).wf(),
            old(self).last_id as int + old(self).runs@.len() <= u64::MAX,
        ensures
            final(self).wf(),
            partial_pass(*old(self), *final(self), ops@),
            old(self).dirty_count == 0 ==> ops@.len() == 0 && *final(self) == *old(self),
            ops@.len() == count_dirty(old(self).runs@),
            forall|m: int| 0 <= m < ops@.len() ==> op_for(#[trigger] ops@[m], old(self).runs@[dirty_from_end(old(self).runs@, m as nat)]),
            final(self).last_id == old(self).last_id + count_unnamed(old(self).runs@),
            final(self).runs@.len() == old(self).runs@.len() - count_deletes(ops@),
            final(self).escape == old(self).escape,
            final(self).escape_limit == old(self).escape_limit,
            final(self).pending_cr == old(self).pending_cr,
    {
        let mut ops: Vec<RenderOp> = Vec::new();
        if self.dirty_count == 0 {
            proof {
                assert forall|k: int| 0 <= k < self.runs@.len() implies (#[trigger] self.runs@[k]).id is Some && !self.runs@[k].dirty by {
                    lemma_dirty_run_counted(self.runs@, k);
                }
                lemma_loose_clean(self.runs@, self.rendered@);
                lemma_shown_elems(self.runs@);
                lemma_clean_count(self.runs@);
            }
            return ops;
        }
        let mut i = self.runs.len();
        let ghost mut a = self.rendered@;
        proof {
            assert(self.runs@.take(i as int) =~= self.runs@);
            assert(self.runs@.skip(i as int) =~= Seq::<Run>::empty());
            assert(elems(self.runs@.skip(i as int)) =~= Seq::<Elem>::empty());
            assert(a + elems(self.runs@.skip(i as int)) =~= a);
        }
        while i > 0
            invariant
                self.wf(),
                pass_state(*self, i as int, a),
                apply_ops(old(self).rendered@, ops@) == self.rendered@,
                self.text() == old(self).text(),
                self.pos() == old(self).pos(),
                i <= old(self).runs@.len(),
                self.runs@.take(i as int) == old(self).runs@.take(i as int),
                self.last_id == old(self).last_id + count_unnamed(old(self).runs@.skip(i as int)),
                ops@.len() == count_dirty(old(self).runs@.skip(i as int)),
                forall|m: int| 0 <= m < ops@.len() ==> op_for(#[trigger] ops@[m], old(self).runs@[dirty_from_end(old(self).runs@, m as nat)]),
                self.runs@.len() == old(self).runs@.len() - count_deletes(ops@),
                old(self).last_id as int + old(self).runs@.len() <= u64::MAX,
                shown_runs(self.runs@) == shown_runs(old(self).runs@),
                self.escape == old(self).escape,
                self.escape_limit == old(self).escape_limit,
                self.pending_cr == old(self).pending_cr,
            decreases i,
        {
            let ghost j = i - 1;
            proof {
                lemma_count_unnamed_bound(old(self).runs@.skip(i as int));
                lemma_skip_step(old(self).runs@, j);
                assert(self.runs@[j] == self.runs@.take(i as int)[j]);
                assert(old(self).runs@[j] == old(self).runs@.take(i as int)[j]);
                if old(self).runs@[j].dirty {
                    lemma_dirty_from_end(old(self).runs@, j);
                }
            }
            let ghost before = self.runs@;
            let (r, Ghost(a2)) = self.reconcile_at(i - 1, Ghost(a));
            match r {
                Some(op) => {
                    proof {
                        lemma_apply_ops_push(old(self).rendered@, ops@, op);
                        assert(ops@.push(op).drop_last() =~= ops@);
                    }
                    ops.push(op);
                },
                None => {},
            }
            proof {
                assert(self.runs@.take(j) =~= before.take(i as int).take(j));
                assert(old(self).runs@.take(j) =~= old(self).runs@.take(i as int).take(j));
            }
            proof {
                a = a2;
            }
            i = i - 1;
        }
        proof {
            assert(self.runs@.skip(0) =~= self.runs@);
            assert(a.len() == 0);
            assert(a + elems(self.runs@) =~= elems(self.runs@));
            lemma_clean_count(self.runs@);
            lemma_shown_elems(self.runs@);
        }
        ops
    }

    /// Full reconciliation: marks all runs clean and returns every run, in
    /// order, to replace the renderer's whole content; the dirty count goes
    /// to 0. Runs that have no identifier yet get one here, and the spans
    /// (and so their markup) carry it, so that later partial passes can
    /// address the elements the full pass created. `None` when no run is
    /// dirty.
    pub fn update_full(&mut self) -> (r: Option<Vec<Span>>)
        requires
            old(self).wf(),
            old(self).last_id as int + old(self).runs@.len() <= u64::MAX,
        ensures
            final(self).wf(),
            old(self).dirty_count == 0 ==> r is None && *final(self) == *old(self),
            old(self).dirty_count > 0 ==> (r matches Some(spans) && full_pass(*old(self), *final(self), spans@)),
            final(self).runs@.len() == old(self).runs@.len(),
            forall|k: int| 0 <= k < old(self).runs@.len() ==> (#[trigger] final(self).runs@[k]).text == old(self).runs@[k].text
                && final(self).runs@[k].style == old(self).runs@[k].style
                && (old(self).runs@[k].id is Some ==> final(self).runs@[k].id == old(self).runs@[k].id),
            final(self).last_id == old(self).last_id + count_unnamed(old(self).runs@),
            final(self).cursor_run == old(self).cursor_run,
            final(self).cursor_offset == old(self).cursor_offset,
            final(self).escape == old(self).escape,
            final(self).escape_limit == old(self).escape_limit,
            final(self).pending_cr == old(self).pending_cr,
    {
        if self.dirty_count == 0 {
            proof {
                assert forall|k: int| 0 <= k < self.runs@.len() implies (#[trigger] self.runs@[k]).id is Some && !self.runs@[k].dirty by {
                    lemma_dirty_run_counted(self.runs@, k);
                }
                lemma_clean_count(self.runs@);
            }
            return None;
        }
        let ghost rs = self.runs@;
        proof {
            assert(rs.take(0) =~= Seq::<Run>::empty());
        }
        let mut spans: Vec<Span> = Vec::new();
        let n = self.runs.len();
        let mut k: usize = 0;
        while k < n
            invariant
                k <= n == self.runs@.len() == rs.len(),
                forall|m: int| 0 <= m < n ==> (#[trigger] self.runs@[m]).text == rs[m].text && self.runs@[m].style == rs[m].style,
                forall|m: int| 0 <= m < k ==> (#[trigger] self.runs@[m]).id is Some && !self.runs@[m].dirty,
                forall|m: int| k <= m < n ==> (#[trigger] self.runs@[m]).id == rs[m].id,
                forall|m: int| 0 <= m < n && rs[m].id is Some ==> (#[trigger] self.runs@[m]).id == rs[m].id,
                self.last_id == old(self).last_id + count_unnamed(rs.take(k as int)),
                ids_ok(self.runs@, self.last_id),
                self.last_id + (n - k) <= old(self).last_id + n,
                old(self).last_id as int + n <= u64::MAX,
                spans@.len() == k,
                forall|m: int| 0 <= m < k ==> (#[trigger] spans@[m]).id == self.runs@[m].id->0
                    && spans@[m].text@ == self.runs@[m].text@ && spans@[m].style == self.runs@[m].style,
                self.cursor_run == old(self).cursor_run,
                self.cursor_offset == old(self).cursor_offset,
                self.text_len == old(self).text_len,
                self.escape == old(self).escape,
                self.escape_limit == old(self).escape_limit,
                self.pending_cr == old(self).pending_cr,
                old(self).wf(),
                rs == old(self).runs@,
            decreases n - k,
        {
            let ghost before = self.runs@;
            proof {
                assert(rs.take(k + 1).drop_last() =~= rs.take(k as int));
                assert(rs.take(k + 1).last() == rs[k as int]);
                lemma_count_unnamed_bound(rs.take(k as int));
            }
            let id = match self.runs[k].id {
                Some(id) => id,
                None => {
                    let id = self.last_id + 1;
                    self.runs[k].id = Some(id);
                    self.last_id = id;
                    id
                },
            };
            self.runs[k].dirty = false;
            proof {
                let nr = self.runs@;
                assert(nr == before.update(k as int, nr[k as int]));
                assert forall|m: int| 0 <= m < nr.len() && (#[trigger] nr[m].id) is Some implies nr[m].id->0 <= self.last_id by {
                    if m != k {
                        assert(nr[m] == before[m]);
                    }
                }
                assert forall|m: int, l: int|
                    0 <= m < nr.len() && 0 <= l < nr.len() && m != l && (#[trigger] nr[m].id) is Some
                        implies nr[m].id != #[trigger] nr[l].id by {
                    if m != k && l != k {
                        assert(nr[m] == before[m]);
                        assert(nr[l] == before[l]);
                    } else if m == k {
                        assert(nr[l] == before[l]);
                    } else {
                        assert(nr[m] == before[m]);
                    }
                }
                assert forall|m: int| 0 <= m < nr.len() && (#[trigger] nr[m].id) is None implies nr[m].dirty by {
                    assert(nr[m] == before[m]);
                }
            }
            let text = copy_text(&self.runs[k].text);
            spans.push(Span { id, text, style: self.runs[k].style });
            k = k + 1;
        }
        proof {
            assert(rs.take(n as int) =~= rs);
        }
        self.dirty_count = 0;
        self.rendered = Ghost(elems(self.runs@));
        proof {
            let nr = self.runs@;
            assert(all_rendered(nr));
            lemma_clean_count(nr);
            assert(texts(nr) =~= texts(rs));
            lemma_loose_append(Seq::<Run>::empty(), Seq::<Elem>::empty(), nr);
            assert(Seq::<Run>::empty() + nr =~= nr);
            assert(Seq::<Elem>::empty() + elems(nr) =~= elems(nr));
            assert(texts(nr).take(self.cursor_run as int) =~= texts(rs).take(self.cursor_run as int));
            lemma_shown_elems(nr);
            lemma_shown_runs_same(nr, rs);
        }
        Some(spans)
    }
}

} // verus!
