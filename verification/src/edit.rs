//! Levenshtein distance over code points, with unit costs for insertion,
//! deletion and substitution, computed with two rolling rows.

use vstd::prelude::*;

verus! {

pub open spec fn min2(a: nat, b: nat) -> nat {
    if a <= b {
        a
    } else {
        b
    }
}

pub open spec fn max2(a: nat, b: nat) -> nat {
    if a >= b {
        a
    } else {
        b
    }
}

/// The Levenshtein distance between two code-point sequences.
pub open spec fn lev(a: Seq<char>, b: Seq<char>) -> nat
    decreases a.len(), b.len(),
{
    if a.len() == 0 {
        b.len()
    } else if b.len() == 0 {
        a.len()
    } else {
        let del = lev(a.drop_last(), b) + 1;
        let ins = lev(a, b.drop_last()) + 1;
        let sub = lev(a.drop_last(), b.drop_last()) + (if a.last() == b.last() {
            0nat
        } else {
            1nat
        });
        min2(min2(del, ins), sub)
    }
}

/// The distance never exceeds the longer length.
pub proof fn lemma_lev_bound(a: Seq<char>, b: Seq<char>)
    ensures
        lev(a, b) <= max2(a.len(), b.len()),
    decreases a.len() + b.len(),
{
    if a.len() == 0 {
    } else if b.len() == 0 {
    } else {
        lemma_lev_bound(a.drop_last(), b.drop_last());
    }
}

/// The distance is at least the difference of the lengths.
pub proof fn lemma_lev_len_diff(a: Seq<char>, b: Seq<char>)
    ensures
        lev(a, b) + a.len() >= b.len(),
        lev(a, b) + b.len() >= a.len(),
    decreases a.len() + b.len(),
{
    if a.len() == 0 {
    } else if b.len() == 0 {
    } else {
        lemma_lev_len_diff(a.drop_last(), b);
        lemma_lev_len_diff(a, b.drop_last());
        lemma_lev_len_diff(a.drop_last(), b.drop_last());
    }
}

/// The distance is zero exactly on equal sequences.
pub proof fn lemma_lev_zero_iff_eq(a: Seq<char>, b: Seq<char>)
    ensures
        (lev(a, b) == 0) <==> (a == b),
    decreases a.len() + b.len(),
{
    if a.len() == 0 {
        if b.len() == 0 {
            assert(a =~= b);
        } else {
            assert(a != b);
        }
    } else if b.len() == 0 {
        assert(a != b);
    } else {
        lemma_lev_zero_iff_eq(a.drop_last(), b.drop_last());
        if lev(a, b) == 0 {
            assert(lev(a.drop_last(), b.drop_last()) == 0 && a.last() == b.last());
            assert(a =~= a.drop_last().push(a.last()));
            assert(b =~= b.drop_last().push(b.last()));
        }
        if a == b {
            assert(a.drop_last() == b.drop_last());
            assert(lev(a.drop_last(), b.drop_last()) == 0);
            assert(lev(a, b) <= lev(a.drop_last(), b.drop_last()) + 0);
        }
    }
}

fn min_usize(a: usize, b: usize) -> (r: usize)
    ensures
        r == min2(a as nat, b as nat),
{
    if a <= b {
        a
    } else {
        b
    }
}

/// The rolling-row dynamic program for the distance.
fn lev_rows(a: &Vec<char>, b: &Vec<char>) -> (r: usize)
    requires
        a@.len() < usize::MAX,
        b@.len() < usize::MAX,
    ensures
        r == lev(a@, b@),
{
    let len1 = a.len();
    let len2 = b.len();
    if len1 == 0 {
        return len2;
    }
    if len2 == 0 {
        return len1;
    }
    let mut prev_row: Vec<usize> = Vec::new();
    let mut j: usize = 0;
    while j <= len2
        invariant
            j <= len2 + 1,
            len2 == b@.len() < usize::MAX,
            prev_row@.len() == j,
            forall|t: int| 0 <= t < j ==> prev_row@[t] == lev(a@.take(0), b@.take(t)),
        decreases len2 + 1 - j,
    {
        proof {
            assert(a@.take(0).len() == 0);
            assert(b@.take(j as int).len() == j);
        }
        prev_row.push(j);
        j = j + 1;
    }
    let mut curr_row: Vec<usize> = Vec::new();
    let mut t: usize = 0;
    while t <= len2
        invariant
            t <= len2 + 1,
            len2 < usize::MAX,
            curr_row@.len() == t,
        decreases len2 + 1 - t,
    {
        curr_row.push(0);
        t = t + 1;
    }
    let mut i: usize = 1;
    while i <= len1
        invariant
            1 <= i <= len1 + 1,
            len1 == a@.len() < usize::MAX,
            len2 == b@.len() < usize::MAX,
            prev_row@.len() == len2 + 1,
            curr_row@.len() == len2 + 1,
            forall|u: int| 0 <= u <= len2 ==> prev_row@[u] == lev(a@.take(i - 1), b@.take(u)),
        decreases len1 + 1 - i,
    {
        curr_row.set(0, i);
        proof {
            assert(b@.take(0).len() == 0);
            assert(a@.take(i as int).len() == i);
            assert(curr_row@[0] == lev(a@.take(i as int), b@.take(0)));
        }
        let mut j: usize = 1;
        while j <= len2
            invariant
                1 <= j <= len2 + 1,
                1 <= i <= len1,
                len1 == a@.len() < usize::MAX,
                len2 == b@.len() < usize::MAX,
                prev_row@.len() == len2 + 1,
                curr_row@.len() == len2 + 1,
                forall|u: int| 0 <= u <= len2 ==> prev_row@[u] == lev(a@.take(i - 1), b@.take(u)),
                forall|u: int| 0 <= u < j ==> curr_row@[u] == lev(a@.take(i as int), b@.take(u)),
            decreases len2 + 1 - j,
        {
            let cost: usize = if a[i - 1] == b[j - 1] {
                0
            } else {
                1
            };
            proof {
                lemma_lev_bound(a@.take(i - 1), b@.take(j as int));
                lemma_lev_bound(a@.take(i as int), b@.take(j - 1));
                lemma_lev_bound(a@.take(i - 1), b@.take(j - 1));
            }
            let dd = prev_row[j] + 1;
            let ii = curr_row[j - 1] + 1;
            let ss = prev_row[j - 1] + cost;
            let cell = min_usize(min_usize(dd, ii), ss);
            curr_row.set(j, cell);
            proof {
                let aa = a@.take(i as int);
                let bb = b@.take(j as int);
                assert(aa.drop_last() =~= a@.take(i - 1));
                assert(bb.drop_last() =~= b@.take(j - 1));
                assert(aa.last() == a@[i - 1]);
                assert(bb.last() == b@[j - 1]);
                assert(curr_row@[j as int] == lev(aa, bb));
            }
            j = j + 1;
        }
        let tmp = prev_row;
        prev_row = curr_row;
        curr_row = tmp;
        i = i + 1;
    }
    proof {
        assert(a@.take(len1 as int) =~= a@);
        assert(b@.take(len2 as int) =~= b@);
    }
    prev_row[len2]
}

/// The distance between two character vectors, where it is computable;
/// `None` only for lengths no real vector can reach.
pub fn checked_distance(a: &Vec<char>, b: &Vec<char>) -> (r: Option<usize>)
    ensures
        match r {
            Some(d) => d == lev(a@, b@),
            None => a@.len() >= usize::MAX || b@.len() >= usize::MAX,
        },
{
    if a.len() < usize::MAX && b.len() < usize::MAX {
        Some(lev_rows(a, b))
    } else {
        None
    }
}

} // verus!
