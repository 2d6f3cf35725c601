//! Counting lemmas over boolean sequences and rows of them.
use vstd::prelude::*;

verus! {

/// Number of `false` entries of a sequence.
pub open spec fn count_false(s: Seq<bool>) -> nat
    decreases s.len(),
{
    if s.len() == 0 {
        0
    } else {
        count_false(s.drop_last()) + if s.last() { 0nat } else { 1nat }
    }
}

/// Number of `false` entries over all rows.
pub open spec fn rows_false(rows: Seq<Vec<bool>>) -> nat
    decreases rows.len(),
{
    if rows.len() == 0 {
        0
    } else {
        rows_false(rows.drop_last()) + count_false(rows.last()@)
    }
}

pub proof fn lemma_count_false_all(s: Seq<bool>)
    requires
        forall|i: int| 0 <= i < s.len() ==> !s[i],
    ensures
        count_false(s) == s.len(),
    decreases s.len(),
{
    if s.len() > 0 {
        lemma_count_false_all(s.drop_last());
    }
}

pub proof fn lemma_count_false_none(s: Seq<bool>)
    requires
        forall|i: int| 0 <= i < s.len() ==> s[i],
    ensures
        count_false(s) == 0,
    decreases s.len(),
{
    if s.len() > 0 {
        lemma_count_false_none(s.drop_last());
    }
}

/// Clearing one `true` entry adds one to the count.
pub proof fn lemma_count_false_clear(s: Seq<bool>, i: int)
    requires
        0 <= i < s.len(),
        s[i],
    ensures
        count_false(s.update(i, false)) == count_false(s) + 1,
    decreases s.len(),
{
    let t = s.update(i, false);
    if i == s.len() - 1 {
        assert(t.drop_last() =~= s.drop_last());
    } else {
        lemma_count_false_clear(s.drop_last(), i);
        assert(t.drop_last() =~= s.drop_last().update(i, false));
    }
}

/// Setting one `false` entry takes one from the count.
pub proof fn lemma_count_false_set(s: Seq<bool>, i: int)
    requires
        0 <= i < s.len(),
        !s[i],
    ensures
        count_false(s.update(i, true)) + 1 == count_false(s),
    decreases s.len(),
{
    let t = s.update(i, true);
    if i == s.len() - 1 {
        assert(t.drop_last() =~= s.drop_last());
    } else {
        lemma_count_false_set(s.drop_last(), i);
        assert(t.drop_last() =~= s.drop_last().update(i, true));
    }
}

/// Replacing one row changes the total by the difference of the row counts.
pub proof fn lemma_rows_false_update(rows: Seq<Vec<bool>>, y: int, r: Vec<bool>)
    requires
        0 <= y < rows.len(),
    ensures
        rows_false(rows.update(y, r)) + count_false(rows[y]@) == rows_false(rows) + count_false(
            r@,
        ),
    decreases rows.len(),
{
    let t = rows.update(y, r);
    if y == rows.len() - 1 {
        assert(t.drop_last() =~= rows.drop_last());
    } else {
        lemma_rows_false_update(rows.drop_last(), y, r);
        assert(t.drop_last() =~= rows.drop_last().update(y, r));
    }
}

pub proof fn lemma_rows_false_none(rows: Seq<Vec<bool>>)
    requires
        forall|y: int, x: int| 0 <= y < rows.len() && 0 <= x < rows[y]@.len() ==> rows[y]@[x],
    ensures
        rows_false(rows) == 0,
    decreases rows.len(),
{
    if rows.len() > 0 {
        lemma_rows_false_none(rows.drop_last());
        let r = rows.last()@;
        assert forall|x: int| 0 <= x < r.len() implies r[x] by {
            assert(rows[rows.len() - 1]@[x]);
        }
        lemma_count_false_none(r);
    }
}

} // verus!
