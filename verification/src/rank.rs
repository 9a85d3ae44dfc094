//! The ranking of scored pages: by descending score and, between equal
//! scores, by ascending page ordinal.

use vstd::prelude::*;
use vstd::seq_lib::lemma_seq_contains_after_push;

verus! {

/// A candidate page with its raw score.
#[derive(Clone, Copy, Debug)]
pub struct Scored {
    pub ordinal: u16,
    pub score: u128,
}

/// The ranking order: the higher score first and, between equal scores, the
/// lower ordinal first.
pub open spec fn precedes(a: Scored, b: Scored) -> bool {
    a.score > b.score || (a.score == b.score && a.ordinal < b.ordinal)
}

/// Every entry precedes all entries behind it.
pub open spec fn is_ranked(list: Seq<Scored>) -> bool {
    forall|i: int, j: int| 0 <= i < j < list.len() ==> precedes(list[i], list[j])
}

/// No two entries are for the same page.
pub open spec fn distinct_pages(list: Seq<Scored>) -> bool {
    forall|i: int, j: int| 0 <= i < j < list.len() ==> list[i].ordinal != list[j].ordinal
}

/// Whether `a` goes before `b` in the ranking order.
fn goes_first(a: &Scored, b: &Scored) -> (first: bool)
    ensures
        first == precedes(*a, *b),
{
    a.score > b.score || (a.score == b.score && a.ordinal < b.ordinal)
}

/// Merges two ranked lists that share no page into one ranked list.
fn merge_ranked(left: &Vec<Scored>, right: &Vec<Scored>) -> (merged: Vec<Scored>)
    requires
        is_ranked(left@),
        is_ranked(right@),
        forall|i: int, j: int|
            0 <= i < left@.len() && 0 <= j < right@.len() ==> left@[i].ordinal
                != right@[j].ordinal,
    ensures
        is_ranked(merged@),
        merged@.len() == left@.len() + right@.len(),
        forall|x: Scored| merged@.contains(x) <==> left@.contains(x) || right@.contains(x),
{
    let mut merged: Vec<Scored> = Vec::new();
    let mut i: usize = 0;
    let mut j: usize = 0;
    while i < left.len() || j < right.len()
        invariant
            i <= left.len(),
            j <= right.len(),
            merged@.len() == i + j,
            is_ranked(left@),
            is_ranked(right@),
            forall|a: int, b: int|
                0 <= a < left@.len() && 0 <= b < right@.len() ==> left@[a].ordinal
                    != right@[b].ordinal,
            is_ranked(merged@),
            forall|k: int, a: int|
                0 <= k < merged@.len() && i <= a < left@.len() ==> precedes(
                    merged@[k],
                    left@[a],
                ),
            forall|k: int, b: int|
                0 <= k < merged@.len() && j <= b < right@.len() ==> precedes(
                    merged@[k],
                    right@[b],
                ),
            forall|x: Scored|
                merged@.contains(x) <==> left@.take(i as int).contains(x) || right@.take(
                    j as int,
                ).contains(x),
        decreases left.len() - i + right.len() - j,
    {
        let ghost before = merged@;
        let take_left = if i >= left.len() {
            false
        } else if j >= right.len() {
            true
        } else {
            goes_first(&left[i], &right[j])
        };
        if take_left {
            let item = left[i];
            merged.push(item);
            proof {
                assert(left@.take(i + 1) =~= left@.take(i as int).push(item));
                assert forall|x: Scored|
                    merged@.contains(x) <==> left@.take(i + 1).contains(x) || right@.take(
                        j as int,
                    ).contains(x) by {
                    lemma_seq_contains_after_push(before, item, x);
                    lemma_seq_contains_after_push(left@.take(i as int), item, x);
                }
                assert forall|k: int, a: int|
                    0 <= k < merged@.len() && i + 1 <= a < left@.len() implies precedes(
                    merged@[k],
                    left@[a],
                ) by {
                    if k < before.len() {
                        assert(merged@[k] == before[k]);
                    } else {
                        assert(precedes(left@[i as int], left@[a]));
                    }
                }
                assert forall|k: int, b: int|
                    0 <= k < merged@.len() && j <= b < right@.len() implies precedes(
                    merged@[k],
                    right@[b],
                ) by {
                    if k < before.len() {
                        assert(merged@[k] == before[k]);
                    } else {
                        assert(precedes(left@[i as int], right@[j as int]));
                        if b > j {
                            assert(precedes(right@[j as int], right@[b]));
                        }
                    }
                }
                assert(is_ranked(merged@)) by {
                    assert forall|a: int, b: int| 0 <= a < b < merged@.len() implies precedes(
                        merged@[a],
                        merged@[b],
                    ) by {
                        if b < before.len() {
                            assert(precedes(before[a], before[b]));
                        } else {
                            assert(precedes(before[a], left@[i as int]));
                        }
                    }
                }
            }
            i += 1;
        } else {
            let item = right[j];
            merged.push(item);
            proof {
                assert(right@.take(j + 1) =~= right@.take(j as int).push(item));
                assert forall|x: Scored|
                    merged@.contains(x) <==> left@.take(i as int).contains(x) || right@.take(
                        j + 1,
                    ).contains(x) by {
                    lemma_seq_contains_after_push(before, item, x);
                    lemma_seq_contains_after_push(right@.take(j as int), item, x);
                }
                assert forall|k: int, b: int|
                    0 <= k < merged@.len() && j + 1 <= b < right@.len() implies precedes(
                    merged@[k],
                    right@[b],
                ) by {
                    if k < before.len() {
                        assert(merged@[k] == before[k]);
                    } else {
                        assert(precedes(right@[j as int], right@[b]));
                    }
                }
                assert forall|k: int, a: int|
                    0 <= k < merged@.len() && i <= a < left@.len() implies precedes(
                    merged@[k],
                    left@[a],
                ) by {
                    if k < before.len() {
                        assert(merged@[k] == before[k]);
                    } else {
                        assert(left@[i as int].ordinal != right@[j as int].ordinal);
                        assert(precedes(right@[j as int], left@[i as int]));
                        if a > i {
                            assert(precedes(left@[i as int], left@[a]));
                        }
                    }
                }
                assert(is_ranked(merged@)) by {
                    assert forall|a: int, b: int| 0 <= a < b < merged@.len() implies precedes(
                        merged@[a],
                        merged@[b],
                    ) by {
                        if b < before.len() {
                            assert(precedes(before[a], before[b]));
                        } else {
                            assert(precedes(before[a], right@[j as int]));
                        }
                    }
                }
            }
            j += 1;
        }
    }
    assert(left@.take(i as int) =~= left@);
    assert(right@.take(j as int) =~= right@);
    merged
}

/// Ranks the entries `list[lo..hi]`.
fn rank_range(list: &Vec<Scored>, lo: usize, hi: usize) -> (ranked: Vec<Scored>)
    requires
        lo <= hi <= list.len(),
        distinct_pages(list@),
    ensures
        is_ranked(ranked@),
        ranked@.len() == hi - lo,
        forall|x: Scored| ranked@.contains(x) <==> list@.subrange(lo as int, hi as int).contains(x),
    decreases hi - lo,
{
    if hi - lo == 0 {
        let ranked: Vec<Scored> = Vec::new();
        ranked
    } else if hi - lo == 1 {
        let mut ranked: Vec<Scored> = Vec::new();
        ranked.push(list[lo]);
        assert(list@.subrange(lo as int, hi as int) =~= ranked@);
        ranked
    } else {
        let mid: usize = lo + (hi - lo) / 2;
        let left = rank_range(list, lo, mid);
        let right = rank_range(list, mid, hi);
        proof {
            let whole = list@.subrange(lo as int, hi as int);
            let first = list@.subrange(lo as int, mid as int);
            let second = list@.subrange(mid as int, hi as int);
            assert forall|a: int, b: int|
                0 <= a < left@.len() && 0 <= b < right@.len() implies left@[a].ordinal
                != right@[b].ordinal by {
                assert(left@.contains(left@[a]));
                assert(right@.contains(right@[b]));
                let p = choose|p: int| 0 <= p < first.len() && first[p] == left@[a];
                let q = choose|q: int| 0 <= q < second.len() && second[q] == right@[b];
                assert(list@[lo + p] == left@[a]);
                assert(list@[mid + q] == right@[b]);
            }
            assert forall|x: Scored| first.contains(x) || second.contains(x) <==> whole.contains(
                x,
            ) by {
                if first.contains(x) {
                    let p = choose|p: int| 0 <= p < first.len() && first[p] == x;
                    assert(whole[p] == x);
                }
                if second.contains(x) {
                    let q = choose|q: int| 0 <= q < second.len() && second[q] == x;
                    assert(whole[first.len() + q] == x);
                }
                if whole.contains(x) {
                    let r = choose|r: int| 0 <= r < whole.len() && whole[r] == x;
                    if r < first.len() {
                        assert(first[r] == x);
                    } else {
                        assert(second[r - first.len()] == x);
                    }
                }
            }
        }
        merge_ranked(&left, &right)
    }
}

/// Puts a list of scored pages, no page listed twice, into ranking order.
pub fn rank(list: &Vec<Scored>) -> (ranked: Vec<Scored>)
    requires
        distinct_pages(list@),
    ensures
        is_ranked(ranked@),
        ranked@.len() == list@.len(),
        forall|x: Scored| ranked@.contains(x) <==> list@.contains(x),
{
    assert(list@.subrange(0, list@.len() as int) =~= list@);
    rank_range(list, 0, list.len())
}

} // verus!
