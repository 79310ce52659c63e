//! The text a run list stands for: its runs' characters laid end to end.

use vstd::prelude::*;

verus! {

/// Concatenation of a sequence of texts.
pub open spec fn flat(ts: Seq<Seq<char>>) -> Seq<char>
    decreases ts.len(),
{
    if ts.len() == 0 {
        Seq::empty()
    } else {
        flat(ts.drop_last()) + ts.last()
    }
}

/// Number of line breaks in a text.
pub open spec fn count_nl(s: Seq<char>) -> nat
    decreases s.len(),
{
    if s.len() == 0 {
        0
    } else {
        count_nl(s.drop_last()) + if s.last() == '\n' { 1nat } else { 0nat }
    }
}

/// Index where the line holding position `p` begins.
pub open spec fn line_start(s: Seq<char>, p: int) -> int
    decreases p,
{
    if p <= 0 {
        0
    } else if s[p - 1] == '\n' {
        p
    } else {
        line_start(s, p - 1)
    }
}

/// 1-based column of position `p`.
pub open spec fn column_at(s: Seq<char>, p: int) -> int {
    p - line_start(s, p) + 1
}

/// Row of position `p`, counted from the bottom: the line breaks at or after it.
pub open spec fn row_at(s: Seq<char>, p: int) -> nat {
    count_nl(s.subrange(p, s.len() as int))
}

pub proof fn lemma_flat_add(a: Seq<Seq<char>>, b: Seq<Seq<char>>)
    ensures
        flat(a + b) == flat(a) + flat(b),
    decreases b.len(),
{
    if b.len() == 0 {
        assert(a + b =~= a);
        assert(flat(a) + flat(b) =~= flat(a));
    } else {
        lemma_flat_add(a, b.drop_last());
        assert((a + b).drop_last() =~= a + b.drop_last());
        assert(flat(a + b) =~= flat(a) + flat(b));
    }
}

pub proof fn lemma_flat_single(t: Seq<char>)
    ensures
        flat(seq![t]) == t,
{
    let e = seq![t].drop_last();
    assert(e =~= Seq::<Seq<char>>::empty());
    assert(flat(e) =~= Seq::<char>::empty());
    assert(seq![t].last() == t);
    assert(flat(seq![t]) == flat(e) + t);
    assert(flat(e) + t =~= t);
}

/// A text list split around its element `i`.
pub proof fn lemma_flat_split(ts: Seq<Seq<char>>, i: int)
    requires
        0 <= i < ts.len(),
    ensures
        flat(ts) == flat(ts.take(i)) + ts[i] + flat(ts.skip(i + 1)),
        flat(ts.take(i + 1)) == flat(ts.take(i)) + ts[i],
{
    assert(ts =~= ts.take(i) + seq![ts[i]] + ts.skip(i + 1));
    lemma_flat_add(ts.take(i) + seq![ts[i]], ts.skip(i + 1));
    lemma_flat_add(ts.take(i), seq![ts[i]]);
    lemma_flat_single(ts[i]);
    assert(ts.take(i + 1) =~= ts.take(i) + seq![ts[i]]);
}

/// Texts that are all empty concatenate to the empty text.
pub proof fn lemma_flat_empty(ts: Seq<Seq<char>>)
    requires
        forall|k: int| 0 <= k < ts.len() ==> (#[trigger] ts[k]).len() == 0,
    ensures
        flat(ts).len() == 0,
    decreases ts.len(),
{
    if ts.len() > 0 {
        lemma_flat_empty(ts.drop_last());
    }
}

/// Prefix lengths grow with the prefix.
pub proof fn lemma_flat_take_mono(ts: Seq<Seq<char>>, i: int, j: int)
    requires
        0 <= i <= j <= ts.len(),
    ensures
        flat(ts.take(i)).len() <= flat(ts.take(j)).len(),
        flat(ts.take(j)).len() <= flat(ts).len(),
        (forall|k: int| i <= k < j ==> (#[trigger] ts[k]).len() == 0) ==> flat(ts.take(i)).len()
            == flat(ts.take(j)).len(),
{
    assert(ts.take(j) =~= ts.take(i) + ts.subrange(i, j));
    lemma_flat_add(ts.take(i), ts.subrange(i, j));
    assert(ts =~= ts.take(j) + ts.skip(j));
    lemma_flat_add(ts.take(j), ts.skip(j));
    if forall|k: int| i <= k < j ==> (#[trigger] ts[k]).len() == 0 {
        assert forall|k: int| 0 <= k < ts.subrange(i, j).len() implies (#[trigger] ts.subrange(
            i,
            j,
        )[k]).len() == 0 by {
            assert(ts[i + k].len() == 0);
        }
        lemma_flat_empty(ts.subrange(i, j));
    }
}

/// Empty texts between two prefixes add nothing.
pub proof fn lemma_flat_take_empty(ts: Seq<Seq<char>>, i: int, j: int)
    requires
        0 <= i <= j <= ts.len(),
        forall|k: int| i <= k < j ==> (#[trigger] ts[k]).len() == 0,
    ensures
        flat(ts.take(i)).len() == flat(ts.take(j)).len(),
{
    lemma_flat_take_mono(ts, i, j);
}

/// Replacing element `i` replaces its part of the concatenation.
pub proof fn lemma_flat_update(ts: Seq<Seq<char>>, i: int, t: Seq<char>)
    requires
        0 <= i < ts.len(),
    ensures
        flat(ts.update(i, t)) == flat(ts.take(i)) + t + flat(ts.skip(i + 1)),
        flat(ts.update(i, t).take(i)) == flat(ts.take(i)),
{
    lemma_flat_split(ts.update(i, t), i);
    assert(ts.update(i, t).take(i) =~= ts.take(i));
    assert(ts.update(i, t).skip(i + 1) =~= ts.skip(i + 1));
}

/// Inserting an empty text changes nothing.
pub proof fn lemma_flat_insert_empty(ts: Seq<Seq<char>>, i: int, t: Seq<char>)
    requires
        0 <= i <= ts.len(),
        t.len() == 0,
    ensures
        flat(ts.insert(i, t)) == flat(ts),
        flat(ts.insert(i, t).take(i)) == flat(ts.take(i)),
        flat(ts.insert(i, t).take(i + 1)) == flat(ts.take(i)),
{
    assert(ts.insert(i, t) =~= ts.take(i) + seq![t] + ts.skip(i));
    assert(ts =~= ts.take(i) + ts.skip(i));
    lemma_flat_add(ts.take(i) + seq![t], ts.skip(i));
    lemma_flat_add(ts.take(i), seq![t]);
    lemma_flat_add(ts.take(i), ts.skip(i));
    lemma_flat_single(t);
    assert(flat(ts.take(i)) + t =~= flat(ts.take(i)));
    assert(ts.insert(i, t).take(i) =~= ts.take(i));
    assert(ts.insert(i, t).take(i + 1) =~= ts.take(i) + seq![t]);
}

/// Removing an empty text changes nothing.
pub proof fn lemma_flat_remove_empty(ts: Seq<Seq<char>>, i: int)
    requires
        0 <= i < ts.len(),
        ts[i].len() == 0,
    ensures
        flat(ts.remove(i)) == flat(ts),
{
    assert(ts.remove(i).insert(i, ts[i]) =~= ts);
    lemma_flat_insert_empty(ts.remove(i), i, ts[i]);
}

pub proof fn lemma_count_nl_add(a: Seq<char>, b: Seq<char>)
    ensures
        count_nl(a + b) == count_nl(a) + count_nl(b),
    decreases b.len(),
{
    if b.len() == 0 {
        assert(a + b =~= a);
    } else {
        lemma_count_nl_add(a, b.drop_last());
        assert((a + b).drop_last() =~= a + b.drop_last());
    }
}

/// A text without line breaks counts none.
pub proof fn lemma_count_nl_none(s: Seq<char>)
    requires
        forall|k: int| 0 <= k < s.len() ==> s[k] != '\n',
    ensures
        count_nl(s) == 0,
    decreases s.len(),
{
    if s.len() > 0 {
        lemma_count_nl_none(s.drop_last());
    }
}

/// Row of a position, one character further on.
pub proof fn lemma_row_step(s: Seq<char>, p: int)
    requires
        0 <= p < s.len(),
    ensures
        row_at(s, p) == row_at(s, p + 1) + if s[p] == '\n' { 1nat } else { 0nat },
{
    assert(s.subrange(p, s.len() as int) =~= seq![s[p]] + s.subrange(p + 1, s.len() as int));
    lemma_count_nl_add(seq![s[p]], s.subrange(p + 1, s.len() as int));
    let e = seq![s[p]].drop_last();
    assert(e =~= Seq::<char>::empty());
    assert(count_nl(e) == 0);
    assert(count_nl(seq![s[p]]) == count_nl(e) + if s[p] == '\n' { 1nat } else { 0nat });
}

/// A line start is at or before its position and no line break lies between.
pub proof fn lemma_line_start(s: Seq<char>, p: int)
    requires
        0 <= p <= s.len(),
    ensures
        0 <= line_start(s, p) <= p,
        line_start(s, p) > 0 ==> s[line_start(s, p) - 1] == '\n',
        forall|k: int| line_start(s, p) <= k < p ==> s[k] != '\n',
    decreases p,
{
    if p > 0 && s[p - 1] != '\n' {
        lemma_line_start(s, p - 1);
    }
}

/// Positions past a line start, up to a line break, share it.
pub proof fn lemma_line_start_same(s: Seq<char>, q: int, p: int)
    requires
        0 <= q <= p <= s.len(),
        q == 0 || s[q - 1] == '\n',
        forall|k: int| q <= k < p ==> s[k] != '\n',
    ensures
        line_start(s, p) == q,
    decreases p,
{
    if p > q {
        lemma_line_start_same(s, q, p - 1);
    }
}

/// Inserting a character inside element `i` inserts it in the concatenation.
pub proof fn lemma_flat_insert_at(ts: Seq<Seq<char>>, i: int, off: int, c: char)
    requires
        0 <= i < ts.len(),
        0 <= off <= ts[i].len(),
    ensures
        flat(ts.update(i, ts[i].insert(off, c))) == flat(ts).insert(
            flat(ts.take(i)).len() + off,
            c,
        ),
{
    lemma_flat_update(ts, i, ts[i].insert(off, c));
    lemma_flat_split(ts, i);
    assert(flat(ts.take(i)) + ts[i].insert(off, c) + flat(ts.skip(i + 1)) =~= (flat(ts.take(i))
        + ts[i] + flat(ts.skip(i + 1))).insert(flat(ts.take(i)).len() + off, c));
}

/// Removing a character of element `i` removes it from the concatenation.
pub proof fn lemma_flat_remove_at(ts: Seq<Seq<char>>, i: int, off: int)
    requires
        0 <= i < ts.len(),
        0 <= off < ts[i].len(),
    ensures
        flat(ts.update(i, ts[i].remove(off))) == flat(ts).remove(flat(ts.take(i)).len() + off),
{
    lemma_flat_update(ts, i, ts[i].remove(off));
    lemma_flat_split(ts, i);
    assert(flat(ts.take(i)) + ts[i].remove(off) + flat(ts.skip(i + 1)) =~= (flat(ts.take(i))
        + ts[i] + flat(ts.skip(i + 1))).remove(flat(ts.take(i)).len() + off));
}

/// Two texts concatenate to their sum.
pub proof fn lemma_flat_pair(a: Seq<char>, b: Seq<char>)
    ensures
        flat(seq![a, b]) == a + b,
{
    assert(seq![a, b] =~= seq![a] + seq![b]);
    lemma_flat_add(seq![a], seq![b]);
    lemma_flat_single(a);
    lemma_flat_single(b);
}

/// Walking back from `q`, the start of the line that lies `rem` line
/// breaks further up; the start of the text if there are not so many.
pub open spec fn back_to_row(s: Seq<char>, q: int, rem: nat) -> int
    decreases q,
{
    if q <= 0 {
        0
    } else if s[q - 1] == '\n' {
        if rem == 0 {
            q
        } else {
            back_to_row(s, q - 1, (rem - 1) as nat)
        }
    } else {
        back_to_row(s, q - 1, rem)
    }
}

/// Walking forward from `q` at most `n` characters, stopping before a line
/// break or at the end of the text.
pub open spec fn fwd(s: Seq<char>, q: int, n: nat) -> int
    decreases n,
{
    if n == 0 || q >= s.len() || s[q] == '\n' {
        q
    } else {
        fwd(s, q + 1, (n - 1) as nat)
    }
}

/// `n` copies of one character.
pub open spec fn repeat(c: char, n: nat) -> Seq<char> {
    Seq::new(n, |_k: int| c)
}

pub proof fn lemma_back_to_row(s: Seq<char>, q: int, rem: nat)
    requires
        0 <= q <= s.len(),
        count_nl(s.take(q)) >= rem,
    ensures
        0 <= back_to_row(s, q, rem) <= q,
        back_to_row(s, q, rem) == 0 || s[back_to_row(s, q, rem) - 1] == '\n',
        count_nl(s.subrange(back_to_row(s, q, rem), q)) == rem,
    decreases q,
{
    if q <= 0 {
        assert(s.take(q) =~= Seq::<char>::empty());
        assert(s.subrange(0, q) =~= Seq::<char>::empty());
    } else {
        assert(s.take(q).drop_last() =~= s.take(q - 1));
        if s[q - 1] == '\n' && rem == 0 {
            assert(s.subrange(q, q) =~= Seq::<char>::empty());
        } else {
            let next_rem: nat = if s[q - 1] == '\n' { (rem - 1) as nat } else { rem };
            lemma_back_to_row(s, q - 1, next_rem);
            let l = back_to_row(s, q - 1, next_rem);
            assert(s.subrange(l, q).drop_last() =~= s.subrange(l, q - 1));
        }
    }
}

pub proof fn lemma_fwd(s: Seq<char>, q: int, n: nat)
    requires
        0 <= q <= s.len(),
    ensures
        q <= fwd(s, q, n) <= q + n,
        fwd(s, q, n) <= s.len(),
        forall|k: int| q <= k < fwd(s, q, n) ==> s[k] != '\n',
        fwd(s, q, n) == q + n || fwd(s, q, n) == s.len() || s[fwd(s, q, n)] == '\n',
    decreases n,
{
    if !(n == 0 || q >= s.len() || s[q] == '\n') {
        lemma_fwd(s, q + 1, (n - 1) as nat);
    }
}

/// Line breaks appended at the end are counted.
pub proof fn lemma_count_nl_repeat(s: Seq<char>, k: nat)
    ensures
        count_nl(s + repeat('\n', k)) == count_nl(s) + k,
    decreases k,
{
    if k > 0 {
        lemma_count_nl_repeat(s, (k - 1) as nat);
        assert((s + repeat('\n', k)).drop_last() =~= s + repeat('\n', (k - 1) as nat));
    } else {
        assert(s + repeat('\n', k) =~= s);
    }
}

/// A position's row is the line breaks between it and a later position plus that one's row.
pub proof fn lemma_row_split(s: Seq<char>, a: int, b: int)
    requires
        0 <= a <= b <= s.len(),
    ensures
        row_at(s, a) == count_nl(s.subrange(a, b)) + row_at(s, b),
{
    assert(s.subrange(a, s.len() as int) =~= s.subrange(a, b) + s.subrange(b, s.len() as int));
    lemma_count_nl_add(s.subrange(a, b), s.subrange(b, s.len() as int));
}

/// Inserting characters other than line breaks at `q`, where the line that
/// begins at `l` runs unbroken to `q`, leaves the line start and row of the
/// position after them.
pub proof fn lemma_pad(s: Seq<char>, l: int, q: int, n: nat)
    requires
        0 <= l <= q <= s.len(),
        l == 0 || s[l - 1] == '\n',
        forall|k: int| l <= k < q ==> s[k] != '\n',
    ensures
        ({
            let s2 = s.take(q) + repeat(' ', n) + s.skip(q);
            &&& line_start(s2, q + n) == l
            &&& row_at(s2, q + n) == row_at(s, l)
            &&& column_at(s2, q + n) == q + n - l + 1
        }),
{
    let s2 = s.take(q) + repeat(' ', n) + s.skip(q);
    assert forall|k: int| l <= k < q + n implies s2[k] != '\n' by {
        if k < q {
            assert(s2[k] == s[k]);
        } else {
            assert(s2[k] == ' ');
        }
    }
    if l > 0 {
        assert(s2[l - 1] == s[l - 1]);
    }
    lemma_line_start_same(s2, l, q + n);
    assert(s2.subrange(q + n, s2.len() as int) =~= s.subrange(q, s.len() as int));
    lemma_row_split(s, l, q);
    lemma_count_nl_none(s.subrange(l, q));
}

} // verus!
