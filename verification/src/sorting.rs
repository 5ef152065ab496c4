//! In-place quicksort of a one-dimensional array that records where each
//! sorted element came from.
//!
//! The sort keeps a stack of pending segments. Every pair of positions that
//! do not lie in one pending segment is already in order; sorting a short
//! segment by insertion, or splitting a long one around a pivot, keeps that
//! true, and when no segment is pending the whole array is sorted.
use crate::array::{well_formed, MutArray};
use vstd::arithmetic::power2::{lemma2_to64, lemma_pow2_pos, lemma_pow2_strictly_increases, lemma_pow2_unfold, pow2};
use vstd::prelude::*;

verus! {

/// `v` is in ascending order on the positions `lo..=hi`.
pub open spec fn sorted_range(v: Seq<i32>, lo: int, hi: int) -> bool {
    forall|p: int, q: int| lo <= p < q <= hi ==> #[trigger] v[p] <= #[trigger] v[q]
}

/// `v` is in ascending order.
pub open spec fn sorted(v: Seq<i32>) -> bool {
    sorted_range(v, 0, v.len() - 1)
}

/// `ix` lists each of `0..ix.len()` exactly once.
pub open spec fn is_permutation(ix: Seq<usize>) -> bool {
    &&& forall|p: int| 0 <= p < ix.len() ==> #[trigger] ix[p] < ix.len()
    &&& forall|p: int, q: int| 0 <= p < q < ix.len() ==> #[trigger] ix[p] != #[trigger] ix[q]
}

/// `vals` is `v0` rearranged: position `p` holds the element `v0[ix[p]]`.
pub open spec fn rearranged(vals: Seq<i32>, ix: Seq<usize>, v0: Seq<i32>) -> bool {
    &&& vals.len() == v0.len()
    &&& ix.len() == v0.len()
    &&& is_permutation(ix)
    &&& forall|p: int| 0 <= p < vals.len() ==> #[trigger] vals[p] == v0[ix[p] as int]
}

/// `w` is no smaller than any element before position `lo`, and no larger
/// than any element after position `hi`.
pub open spec fn between_sides(v: Seq<i32>, lo: int, hi: int, w: i32) -> bool {
    &&& forall|p: int| 0 <= p < lo ==> #[trigger] v[p] <= w
    &&& forall|p: int| hi < p < v.len() ==> w <= #[trigger] v[p]
}

/// Every element of the segment `lo..=hi` lies between the elements on either side of it.
pub open spec fn fenced(v: Seq<i32>, lo: int, hi: int) -> bool {
    forall|q: int| lo <= q <= hi ==> between_sides(v, lo, hi, #[trigger] v[q])
}

/// `v` and `w` hold the same element at every position outside `lo..=hi`.
pub open spec fn same_outside(v: Seq<i32>, w: Seq<i32>, lo: int, hi: int) -> bool {
    &&& v.len() == w.len()
    &&& forall|p: int| 0 <= p < v.len() && !(lo <= p <= hi) ==> #[trigger] v[p] == w[p]
}

/// The sequence with the elements at `a` and `b` exchanged.
pub open spec fn swapped<T>(s: Seq<T>, a: int, b: int) -> Seq<T> {
    s.update(a, s[b]).update(b, s[a])
}

/// Exchanging two positions keeps a rearrangement a rearrangement.
proof fn lemma_swap_rearranged(vals: Seq<i32>, ix: Seq<usize>, v0: Seq<i32>, a: int, b: int)
    requires
        rearranged(vals, ix, v0),
        0 <= a < vals.len(),
        0 <= b < vals.len(),
    ensures
        rearranged(swapped(vals, a, b), swapped(ix, a, b), v0),
{
    let v2 = swapped(vals, a, b);
    let i2 = swapped(ix, a, b);
    assert forall|p: int, q: int| 0 <= p < q < i2.len() implies #[trigger] i2[p] != #[trigger] i2[q] by {
        let sp = if p == a { b } else if p == b { a } else { p };
        let sq = if q == a { b } else if q == b { a } else { q };
        assert(i2[p] == ix[sp]);
        assert(i2[q] == ix[sq]);
        if sp < sq {
            assert(ix[sp] != ix[sq]);
        } else {
            assert(ix[sq] != ix[sp]);
        }
    }
    assert forall|p: int| 0 <= p < v2.len() implies #[trigger] v2[p] == v0[i2[p] as int] by {
        if p == b {
        } else if p == a {
        } else {
        }
    }
}

/// Exchanging two positions inside a fenced segment keeps it fenced, and
/// changes nothing outside it.
proof fn lemma_swap_fenced(v: Seq<i32>, lo: int, hi: int, a: int, b: int)
    requires
        fenced(v, lo, hi),
        0 <= lo <= a <= hi < v.len(),
        lo <= b <= hi,
    ensures
        fenced(swapped(v, a, b), lo, hi),
        same_outside(swapped(v, a, b), v, lo, hi),
{
    let w = swapped(v, a, b);
    assert forall|q: int| lo <= q <= hi implies between_sides(w, lo, hi, #[trigger] w[q]) by {
        let s = if q == b { a } else if q == a { b } else { q };
        assert(w[q] == v[s]);
        assert(between_sides(v, lo, hi, v[s]));
        assert forall|p: int| 0 <= p < lo implies #[trigger] w[p] <= w[q] by {
            assert(w[p] == v[p]);
        }
        assert forall|p: int| hi < p < w.len() implies w[q] <= #[trigger] w[p] by {
            assert(w[p] == v[p]);
        }
    }
}

/// Exchanges the entries at `a` and `b`.
fn swap_index(ix: &mut Vec<usize>, a: usize, b: usize)
    requires
        a < old(ix)@.len(),
        b < old(ix)@.len(),
    ensures
        final(ix)@ == swapped(old(ix)@, a as int, b as int),
{
    let t = ix[a];
    let u = ix[b];
    ix[a] = u;
    ix[b] = t;
}

/// Exchanges the elements at `x` and `y` of both the array and the record of
/// where they came from.
fn swap_both<A: MutArray<usize> + ?Sized>(
    a: &mut A,
    ix: &mut Vec<usize>,
    x: usize,
    y: usize,
    lo: Ghost<int>,
    hi: Ghost<int>,
    v0: Ghost<Seq<i32>>,
)
    requires
        well_formed(old(a)),
        rearranged(old(a).spec_values(), old(ix)@, v0@),
        fenced(old(a).spec_values(), lo@, hi@),
        0 <= lo@ <= x <= hi@ < old(a).spec_values().len(),
        lo@ <= y <= hi@,
    ensures
        final(a).spec_shape() == old(a).spec_shape(),
        final(a).spec_values() == swapped(old(a).spec_values(), x as int, y as int),
        final(ix)@ == swapped(old(ix)@, x as int, y as int),
        rearranged(final(a).spec_values(), final(ix)@, v0@),
        fenced(final(a).spec_values(), lo@, hi@),
        same_outside(final(a).spec_values(), old(a).spec_values(), lo@, hi@),
{
    proof {
        lemma_swap_rearranged(a.spec_values(), ix@, v0@, x as int, y as int);
        lemma_swap_fenced(a.spec_values(), lo@, hi@, x as int, y as int);
    }
    a.swap(x, y);
    swap_index(ix, x, y);
}

/// Insertion of the element `x`, which came from position `b`, into the
/// ascending run `l..=i`: each element of the run larger than `x` moves one
/// position up, from the top down, and `x` lands just above the first one
/// that is not larger.
pub open spec fn insert_down(v: Seq<i32>, ix: Seq<usize>, l: int, x: i32, b: usize, i: int) -> (Seq<i32>, Seq<usize>)
    decreases i - l + 1,
{
    if i >= l && v[i] > x {
        insert_down(v.update(i + 1, v[i]), ix.update(i + 1, ix[i]), l, x, b, i - 1)
    } else {
        (v.update(i + 1, x), ix.update(i + 1, b))
    }
}

/// Insertion sort of the segment `l..=ir`, inserting the elements at `j`,
/// `j + 1`, ... in turn.
pub open spec fn insertion_from(v: Seq<i32>, ix: Seq<usize>, l: int, j: int, ir: int) -> (Seq<i32>, Seq<usize>)
    decreases ir + 1 - j,
{
    if j <= ir {
        let r = insert_down(v, ix, l, v[j], ix[j], j - 1);
        insertion_from(r.0, r.1, l, j + 1, ir)
    } else {
        (v, ix)
    }
}

/// The first position after `i` whose element is not smaller than `x`.
pub open spec fn scan_up(v: Seq<i32>, i: int, x: i32) -> int
    decreases v.len() - i,
{
    if i + 1 < v.len() && v[i + 1] < x {
        scan_up(v, i + 1, x)
    } else {
        i + 1
    }
}

/// The last position before `j` whose element is not larger than `x`.
pub open spec fn scan_down(v: Seq<i32>, j: int, x: i32) -> int
    decreases j,
{
    if j >= 1 && v[j - 1] > x {
        scan_down(v, j - 1, x)
    } else {
        j - 1
    }
}

/// `scan_up` moves past `i`.
pub proof fn lemma_scan_up_moves(v: Seq<i32>, i: int, x: i32)
    ensures
        scan_up(v, i, x) > i,
    decreases v.len() - i,
{
    if i + 1 < v.len() && v[i + 1] < x {
        lemma_scan_up_moves(v, i + 1, x);
    }
}

/// `scan_down` moves before `j`.
pub proof fn lemma_scan_down_moves(v: Seq<i32>, j: int, x: i32)
    ensures
        scan_down(v, j, x) < j,
    decreases j,
{
    if j >= 1 && v[j - 1] > x {
        lemma_scan_down_moves(v, j - 1, x);
    }
}

/// Partitioning around `x` from the positions `i` and `j` inward: find the
/// next element from the left that is not smaller than `x` and the next from
/// the right that is not larger; stop once they have crossed, otherwise
/// exchange them and go on. Gives the sequences and the two final positions.
pub open spec fn partition_from(v: Seq<i32>, ix: Seq<usize>, i: int, j: int, x: i32) -> (
    Seq<i32>,
    Seq<usize>,
    int,
    int,
)
    decreases j - i,
{
    let i2 = scan_up(v, i, x);
    let j2 = scan_down(v, j, x);
    if j2 < i2 {
        (v, ix, i2, j2)
    } else {
        proof {
            lemma_scan_up_moves(v, i, x);
            lemma_scan_down_moves(v, j, x);
        }
        partition_from(swapped(v, i2, j2), swapped(ix, i2, j2), i2, j2, x)
    }
}

/// Exchanges the positions `a` and `b` of both sequences when the element at
/// `a` is larger than the one at `b`.
pub open spec fn order_pair(v: Seq<i32>, ix: Seq<usize>, a: int, b: int) -> (Seq<i32>, Seq<usize>) {
    if v[a] > v[b] {
        (swapped(v, a, b), swapped(ix, a, b))
    } else {
        (v, ix)
    }
}

/// Splitting the segment `l..=ir`: the middle element is moved to `l + 1`;
/// the elements at `l`, `l + 1` and `ir` are put in order, which makes the one
/// at `l + 1` their median and the pivot; the rest of the segment is
/// partitioned around it from `l + 1` and `ir` inward; and the pivot is moved
/// to where the scan from the right stopped. Gives the sequences and the
/// positions `(i, j)` where the two scans stopped.
pub open spec fn split_segment(v: Seq<i32>, ix: Seq<usize>, l: int, ir: int) -> (Seq<i32>, Seq<usize>, int, int) {
    let k = (l + ir) / 2;
    let s1 = (swapped(v, k, l + 1), swapped(ix, k, l + 1));
    let s2 = order_pair(s1.0, s1.1, l, ir);
    let s3 = order_pair(s2.0, s2.1, l + 1, ir);
    let s4 = order_pair(s3.0, s3.1, l, l + 1);
    let x = s4.0[l + 1];
    let b = s4.1[l + 1];
    let p = partition_from(s4.0, s4.1, l + 1, ir, x);
    (p.0.update(l + 1, p.0[p.3]).update(p.3, x), p.1.update(l + 1, p.1[p.3]).update(p.3, b), p.2, p.3)
}

/// Where the sort stands: the elements and their origins, the segment being
/// worked on, the segments pending, and whether the sort has finished.
#[verifier::ext_equal]
pub struct SortState {
    pub v: Seq<i32>,
    pub ix: Seq<usize>,
    pub l: int,
    pub ir: int,
    pub stack: Seq<(int, int)>,
    pub done: bool,
}

/// One round of the sort: a segment of fewer than eight positions is sorted
/// by insertion and the last pending segment, if any, is taken up next;
/// a longer one is split, the part with fewer positions before the pivot
/// (or equally many) is worked on next and the other is set pending.
pub open spec fn sort_step(s: SortState) -> SortState {
    if s.done {
        s
    } else if s.ir - s.l < 7 {
        let r = insertion_from(s.v, s.ix, s.l, s.l + 1, s.ir);
        if s.stack.len() == 0 {
            SortState { v: r.0, ix: r.1, l: s.l, ir: s.ir, stack: s.stack, done: true }
        } else {
            SortState {
                v: r.0,
                ix: r.1,
                l: s.stack.last().0,
                ir: s.stack.last().1,
                stack: s.stack.drop_last(),
                done: false,
            }
        }
    } else {
        let p = split_segment(s.v, s.ix, s.l, s.ir);
        if s.ir - p.2 + 1 >= p.3 - s.l {
            SortState { v: p.0, ix: p.1, l: s.l, ir: p.3 - 1, stack: s.stack.push((p.2, s.ir)), done: false }
        } else {
            SortState { v: p.0, ix: p.1, l: p.2, ir: s.ir, stack: s.stack.push((s.l, p.3 - 1)), done: false }
        }
    }
}

/// The state after `n` rounds.
pub open spec fn sort_run(s: SortState, n: nat) -> SortState
    decreases n,
{
    if n == 0 {
        s
    } else {
        sort_run(sort_step(s), (n - 1) as nat)
    }
}

/// The state before the first round: every element at its own position, the
/// whole array as the segment worked on, nothing pending.
pub open spec fn sort_start(v0: Seq<i32>) -> SortState {
    SortState {
        v: v0,
        ix: Seq::new(v0.len(), |p: int| p as usize),
        l: 0,
        ir: v0.len() - 1,
        stack: Seq::empty(),
        done: false,
    }
}

/// The origins of the sorted elements, in the order in which the sort leaves
/// them once it has finished. This order is fixed among equal elements too.
pub open spec fn sort_positions(v0: Seq<i32>) -> Seq<usize> {
    sort_run(sort_start(v0), choose|n: nat| #[trigger] sort_run(sort_start(v0), n).done).ix
}

/// A finished sort stays as it is.
proof fn lemma_run_finished(s: SortState, n: nat)
    requires
        s.done,
    ensures
        sort_run(s, n) == s,
    decreases n,
{
    if n > 0 {
        lemma_run_finished(sort_step(s), (n - 1) as nat);
    }
}

/// Running `a + b` rounds is running `a` rounds and then `b`.
proof fn lemma_run_add(s: SortState, a: nat, b: nat)
    ensures
        sort_run(s, a + b) == sort_run(sort_run(s, a), b),
    decreases a,
{
    if a > 0 {
        lemma_run_add(sort_step(s), (a - 1) as nat, b);
        assert((a + b - 1) as nat == (a - 1) as nat + b);
    }
}

/// One round more is one more step.
proof fn lemma_run_next(s: SortState, n: nat)
    ensures
        sort_run(s, n + 1) == sort_step(sort_run(s, n)),
    decreases n,
{
    if n > 0 {
        lemma_run_next(sort_step(s), (n - 1) as nat);
        assert((n + 1 - 1) as nat == (n - 1) as nat + 1);
        assert(sort_run(s, n + 1) == sort_run(sort_step(s), n));
        assert(sort_run(s, n) == sort_run(sort_step(s), (n - 1) as nat));
    } else {
        assert(sort_run(s, 1) == sort_run(sort_step(s), 0));
    }
}

/// Two numbers of rounds after which the sort has finished give the same state.
proof fn lemma_run_same(s: SortState, a: nat, b: nat)
    requires
        sort_run(s, a).done,
        sort_run(s, b).done,
    ensures
        sort_run(s, a) == sort_run(s, b),
{
    if a <= b {
        lemma_run_add(s, a, (b - a) as nat);
        lemma_run_finished(sort_run(s, a), (b - a) as nat);
        assert(a + (b - a) as nat == b);
    } else {
        lemma_run_add(s, b, (a - b) as nat);
        lemma_run_finished(sort_run(s, b), (a - b) as nat);
        assert(b + (a - b) as nat == a);
    }
}

/// Once the sort has finished after `n` rounds, its result is the one that
/// `sort_positions` names.
proof fn lemma_run_result(v0: Seq<i32>, n: nat)
    requires
        sort_run(sort_start(v0), n).done,
    ensures
        sort_positions(v0) == sort_run(sort_start(v0), n).ix,
{
    let s = sort_start(v0);
    let m = choose|m: nat| #[trigger] sort_run(s, m).done;
    assert(sort_run(s, m).done);
    if m <= n {
        lemma_run_add(s, m, (n - m) as nat);
        lemma_run_finished(sort_run(s, m), (n - m) as nat);
        assert(m + (n - m) as nat == n);
    } else {
        lemma_run_add(s, n, (m - n) as nat);
        lemma_run_finished(sort_run(s, n), (m - n) as nat);
        assert(n + (m - n) as nat == m);
    }
}

/// Where inserting `x` downward from position `i` lands: just above the
/// first element of `l..=i`, from the top, that is not larger than `x`.
spec fn landing(v: Seq<i32>, l: int, x: i32, i: int) -> int
    decreases i - l + 1,
{
    if i >= l && v[i] > x {
        landing(v, l, x, i - 1)
    } else {
        i + 1
    }
}

/// The landing place depends only on the elements at or below `i`.
proof fn lemma_landing_frame(v: Seq<i32>, l: int, x: i32, i: int, m: int, y: i32)
    requires
        0 <= l,
        i < m < v.len(),
    ensures
        landing(v.update(m, y), l, x, i) == landing(v, l, x, i),
    decreases i - l + 1,
{
    if i >= l && v[i] > x {
        lemma_landing_frame(v, l, x, i - 1, m, y);
    }
}

/// Inserting `x` downward from `i` lands at `h` in `l..=i + 1`, above which
/// every element of `h..=i` is larger than `x`; each of those moves up one
/// position, `x` takes position `h`, and nothing else changes.
proof fn lemma_insert_down_shape(v: Seq<i32>, ix: Seq<usize>, l: int, x: i32, b: usize, i: int)
    requires
        0 <= l,
        l - 1 <= i,
        i + 1 < v.len(),
        ix.len() == v.len(),
    ensures
        ({
            let h = landing(v, l, x, i);
            let r = insert_down(v, ix, l, x, b, i);
            &&& l <= h <= i + 1
            &&& forall|p: int| h <= p <= i ==> #[trigger] v[p] > x
            &&& r.0.len() == v.len()
            &&& r.1.len() == ix.len()
            &&& forall|k: int|
                0 <= k < v.len() ==> #[trigger] r.0[k] == (if k < h || k > i + 1 {
                    v[k]
                } else if k == h {
                    x
                } else {
                    v[k - 1]
                })
            &&& forall|k: int|
                0 <= k < v.len() ==> #[trigger] r.1[k] == (if k < h || k > i + 1 {
                    ix[k]
                } else if k == h {
                    b
                } else {
                    ix[k - 1]
                })
        }),
    decreases i - l + 1,
{
    if i >= l && v[i] > x {
        let v2 = v.update(i + 1, v[i]);
        let ix2 = ix.update(i + 1, ix[i]);
        lemma_insert_down_shape(v2, ix2, l, x, b, i - 1);
        lemma_landing_frame(v, l, x, i - 1, i + 1, v[i]);
        let h = landing(v, l, x, i);
        assert(h == landing(v2, l, x, i - 1));
        assert forall|p: int| h <= p <= i implies #[trigger] v[p] > x by {
            if p < i {
                assert(v2[p] == v[p]);
            }
        }
    }
}

/// Equal elements of `v2` within `lo..=hi` come, with their origins in
/// `ix2`, from positions of `v1` and `ix1` in the same relative order: the
/// step from `(v1, ix1)` to `(v2, ix2)` keeps ties in order.
pub open spec fn keeps_ties_in_order(v1: Seq<i32>, ix1: Seq<usize>, v2: Seq<i32>, ix2: Seq<usize>, lo: int, hi: int) -> bool {
    forall|p: int, q: int|
        lo <= p < q <= hi && #[trigger] v2[p] == #[trigger] v2[q] ==> exists|p1: int, q1: int|
            #![trigger v1[p1], v1[q1]]
            lo <= p1 < q1 <= hi && v1[p1] == v2[p] && ix1[p1] == ix2[p] && v1[q1] == v2[q] && ix1[q1] == ix2[q]
}

/// Keeping ties in order composes.
proof fn lemma_keeps_ties_trans(
    v1: Seq<i32>,
    ix1: Seq<usize>,
    v2: Seq<i32>,
    ix2: Seq<usize>,
    v3: Seq<i32>,
    ix3: Seq<usize>,
    lo: int,
    hi: int,
)
    requires
        keeps_ties_in_order(v1, ix1, v2, ix2, lo, hi),
        keeps_ties_in_order(v2, ix2, v3, ix3, lo, hi),
    ensures
        keeps_ties_in_order(v1, ix1, v3, ix3, lo, hi),
{
    assert forall|p: int, q: int| lo <= p < q <= hi && #[trigger] v3[p] == #[trigger] v3[q] implies exists|p1: int, q1: int|
        #![trigger v1[p1], v1[q1]]
        lo <= p1 < q1 <= hi && v1[p1] == v3[p] && ix1[p1] == ix3[p] && v1[q1] == v3[q] && ix1[q1] == ix3[q] by {
        let (p2, q2) = choose|p2: int, q2: int|
            #![trigger v2[p2], v2[q2]]
            lo <= p2 < q2 <= hi && v2[p2] == v3[p] && ix2[p2] == ix3[p] && v2[q2] == v3[q] && ix2[q2] == ix3[q];
        assert(v2[p2] == v2[q2]);
        let (p1, q1) = choose|p1: int, q1: int|
            #![trigger v1[p1], v1[q1]]
            lo <= p1 < q1 <= hi && v1[p1] == v2[p2] && ix1[p1] == ix2[p2] && v1[q1] == v2[q2] && ix1[q1] == ix2[q2];
        assert(v1[p1] == v3[p] && v1[q1] == v3[q]);
    }
}

/// One insertion step, of the element at `j` into `l..j`, keeps ties in
/// order within any segment `l..=ir` around it.
proof fn lemma_insert_step_keeps_ties(v: Seq<i32>, ix: Seq<usize>, l: int, j: int, ir: int)
    requires
        0 <= l < j <= ir < v.len(),
        ix.len() == v.len(),
    ensures
        ({
            let r = insert_down(v, ix, l, v[j], ix[j], j - 1);
            &&& r.0.len() == v.len()
            &&& r.1.len() == ix.len()
            &&& keeps_ties_in_order(v, ix, r.0, r.1, l, ir)
        }),
{
    let x = v[j];
    let b = ix[j];
    let r = insert_down(v, ix, l, x, b, j - 1);
    lemma_insert_down_shape(v, ix, l, x, b, j - 1);
    let h = landing(v, l, x, j - 1);
    assert forall|p: int, q: int| l <= p < q <= ir && #[trigger] r.0[p] == #[trigger] r.0[q] implies exists|p1: int, q1: int|
        #![trigger v[p1], v[q1]]
        l <= p1 < q1 <= ir && v[p1] == r.0[p] && ix[p1] == r.1[p] && v[q1] == r.0[q] && ix[q1] == r.1[q] by {
        let sp = if p < h || p > j { p } else if p == h { j } else { p - 1 };
        let sq = if q < h || q > j { q } else if q == h { j } else { q - 1 };
        if p == h && h < q <= j {
            assert(v[q - 1] > x);
            assert(false);
        }
        assert(sp < sq);
        assert(v[sp] == r.0[p] && ix[sp] == r.1[p]);
        assert(v[sq] == r.0[q] && ix[sq] == r.1[q]);
    }
}

/// Insertion sort keeps ties in order: equal elements of the segment end up
/// in the relative order they started in.
pub proof fn insertion_keeps_ties_in_order(v: Seq<i32>, ix: Seq<usize>, l: int, j: int, ir: int)
    requires
        0 <= l < j,
        ir < v.len(),
        ix.len() == v.len(),
    ensures
        ({
            let r = insertion_from(v, ix, l, j, ir);
            &&& r.0.len() == v.len()
            &&& r.1.len() == ix.len()
            &&& keeps_ties_in_order(v, ix, r.0, r.1, l, ir)
        }),
    decreases ir + 1 - j,
{
    if j <= ir {
        let r = insert_down(v, ix, l, v[j], ix[j], j - 1);
        lemma_insert_step_keeps_ties(v, ix, l, j, ir);
        insertion_keeps_ties_in_order(r.0, r.1, l, j + 1, ir);
        let f = insertion_from(r.0, r.1, l, j + 1, ir);
        lemma_keeps_ties_trans(v, ix, r.0, r.1, f.0, f.1, l, ir);
    } else {
        assert forall|p: int, q: int| l <= p < q <= ir && #[trigger] v[p] == #[trigger] v[q] implies exists|p1: int, q1: int|
            #![trigger v[p1], v[q1]]
            l <= p1 < q1 <= ir && v[p1] == v[p] && ix[p1] == ix[p] && v[q1] == v[q] && ix[q1] == ix[q] by {
            assert(v[p] == v[p] && v[q] == v[q]);
        }
    }
}

/// A round on a segment of fewer than eight positions sorts it by insertion,
/// which keeps ties in order: equal elements of the segment, with their
/// origins, end in the relative order they had before the round.
pub proof fn short_segment_keeps_ties_in_order(s: SortState)
    requires
        !s.done,
        0 <= s.l <= s.ir < s.v.len(),
        s.ix.len() == s.v.len(),
        s.ir - s.l < 7,
    ensures
        sort_step(s).v.len() == s.v.len(),
        keeps_ties_in_order(s.v, s.ix, sort_step(s).v, sort_step(s).ix, s.l, s.ir),
{
    insertion_keeps_ties_in_order(s.v, s.ix, s.l, s.l + 1, s.ir);
}

/// `scan_up` from below `hi` stops at `hi` at the latest when the element
/// there is not smaller than `x`.
proof fn lemma_scan_up_bound(v: Seq<i32>, i: int, x: i32, hi: int)
    requires
        i < hi < v.len(),
        v[hi] >= x,
    ensures
        scan_up(v, i, x) <= hi,
    decreases v.len() - i,
{
    if i + 1 < v.len() && v[i + 1] < x {
        lemma_scan_up_bound(v, i + 1, x, hi);
    }
}

/// `scan_down` from above `lo` stops at `lo` at the latest when the element
/// there is not larger than `x`.
proof fn lemma_scan_down_bound(v: Seq<i32>, j: int, x: i32, lo: int)
    requires
        0 <= lo < j <= v.len(),
        v[lo] <= x,
    ensures
        scan_down(v, j, x) >= lo,
    decreases j,
{
    if j >= 1 && v[j - 1] > x {
        lemma_scan_down_bound(v, j - 1, x, lo);
    }
}

/// Partitioning between the guards at `lo + 1` (holding `x`) and `hi` (not
/// smaller than `x`) touches only the positions strictly between them, and
/// the scan from the right ends inside `lo + 1..hi`.
proof fn lemma_partition_frame(v: Seq<i32>, ix: Seq<usize>, lo: int, hi: int, i: int, j: int, x: i32)
    requires
        0 <= lo,
        lo + 1 <= i < hi,
        lo + 1 < j <= hi,
        i <= j,
        hi < v.len(),
        ix.len() == v.len(),
        v[lo + 1] == x,
        v[hi] >= x,
    ensures
        ({
            let r = partition_from(v, ix, i, j, x);
            &&& r.0.len() == v.len()
            &&& r.1.len() == ix.len()
            &&& lo + 1 <= r.3 < hi
            &&& forall|k: int| 0 <= k < v.len() && !(lo + 2 <= k < hi) ==> #[trigger] r.0[k] == v[k] && r.1[k] == ix[k]
            &&& r.0[lo] == v[lo] && r.1[lo] == ix[lo]
            &&& r.0[hi] == v[hi] && r.1[hi] == ix[hi]
        }),
    decreases j - i,
{
    let i2 = scan_up(v, i, x);
    let j2 = scan_down(v, j, x);
    lemma_scan_up_moves(v, i, x);
    lemma_scan_down_moves(v, j, x);
    lemma_scan_up_bound(v, i, x, hi);
    lemma_scan_down_bound(v, j, x, lo + 1);
    if j2 >= i2 {
        let v2 = swapped(v, i2, j2);
        let ix2 = swapped(ix, i2, j2);
        lemma_partition_frame(v2, ix2, lo, hi, i2, j2, x);
        let r = partition_from(v2, ix2, i2, j2, x);
        assert(r == partition_from(v, ix, i, j, x));
        assert(v2[lo] == v[lo] && ix2[lo] == ix[lo]);
        assert(v2[hi] == v[hi] && ix2[hi] == ix[hi]);
        assert forall|k: int| 0 <= k < v.len() && !(lo + 2 <= k < hi) implies #[trigger] r.0[k] == v[k] && r.1[k] == ix[k] by {
            assert(r.0[k] == v2[k] && r.1[k] == ix2[k]);
        }
    }
}

/// Splitting a segment `l..=ir` of at least eight positions leaves at `l` the
/// smallest and at `ir` the largest of the three candidates: the elements at
/// `l`, at the middle `(l + ir) / 2` and at `ir`. The element at `l` stays
/// there, with its origin, unless one of the other two is strictly smaller,
/// and the one at `ir` stays unless one of the other two is strictly larger:
/// equal candidates are never exchanged.
pub proof fn split_keeps_ends_unless_out_of_order(v: Seq<i32>, ix: Seq<usize>, l: int, ir: int)
    requires
        0 <= l,
        l + 7 <= ir < v.len(),
        ix.len() == v.len(),
    ensures
        ({
            let k = (l + ir) / 2;
            let w = split_segment(v, ix, l, ir);
            &&& w.0[l] <= v[l] && w.0[l] <= v[k] && w.0[l] <= v[ir]
            &&& (w.0[l] == v[l] || w.0[l] == v[k] || w.0[l] == v[ir])
            &&& w.0[ir] >= v[l] && w.0[ir] >= v[k] && w.0[ir] >= v[ir]
            &&& (w.0[ir] == v[l] || w.0[ir] == v[k] || w.0[ir] == v[ir])
            &&& !(v[k] < v[l] || v[ir] < v[l]) ==> w.0[l] == v[l] && w.1[l] == ix[l]
            &&& !(v[l] > v[ir] || v[k] > v[ir]) ==> w.0[ir] == v[ir] && w.1[ir] == ix[ir]
        }),
{
    let k = (l + ir) / 2;
    let s1 = (swapped(v, k, l + 1), swapped(ix, k, l + 1));
    let s2 = order_pair(s1.0, s1.1, l, ir);
    let s3 = order_pair(s2.0, s2.1, l + 1, ir);
    let s4 = order_pair(s3.0, s3.1, l, l + 1);
    assert(s1.0[l] == v[l] && s1.0[l + 1] == v[k] && s1.0[ir] == v[ir]);
    assert(s1.1[l] == ix[l] && s1.1[ir] == ix[ir]);
    let x = s4.0[l + 1];
    lemma_partition_frame(s4.0, s4.1, l, ir, l + 1, ir, x);
    let p = partition_from(s4.0, s4.1, l + 1, ir, x);
    assert(p.0[l] == s4.0[l] && p.1[l] == s4.1[l]);
    assert(p.0[ir] == s4.0[ir] && p.1[ir] == s4.1[ir]);
}

/// On a run of elements all equal to `x` the two scans stop at every step,
/// so they move in lockstep and meet in the middle: the positions where they
/// end add up to where they started.
proof fn lemma_partition_equal(v: Seq<i32>, ix: Seq<usize>, lo: int, hi: int, i: int, j: int, x: i32)
    requires
        0 <= lo,
        lo + 1 <= i < hi,
        lo + 1 < j <= hi,
        i <= j,
        hi < v.len(),
        ix.len() == v.len(),
        forall|k: int| lo + 1 <= k <= hi ==> #[trigger] v[k] == x,
    ensures
        ({
            let r = partition_from(v, ix, i, j, x);
            &&& r.2 + r.3 == i + j
            &&& r.3 < r.2 <= r.3 + 2
        }),
    decreases j - i,
{
    assert(v[i + 1] == x);
    assert(v[j - 1] == x);
    assert(scan_up(v, i, x) == i + 1);
    assert(scan_down(v, j, x) == j - 1);
    if j - 1 >= i + 1 {
        let v2 = swapped(v, i + 1, j - 1);
        let ix2 = swapped(ix, i + 1, j - 1);
        assert forall|k: int| lo + 1 <= k <= hi implies #[trigger] v2[k] == x by {
            assert(v[k] == x);
        }
        lemma_partition_equal(v2, ix2, lo, hi, i + 1, j - 1, x);
    }
}

/// Splitting a segment whose elements are all equal divides it evenly: the
/// median-of-three step exchanges nothing, and the scans, which stop at
/// elements equal to the pivot, meet in the middle, so the positions `(i, j)`
/// where they end add up to `l + 1 + ir`, with `j` just below `i`.
pub proof fn split_balances_equal_elements(v: Seq<i32>, ix: Seq<usize>, l: int, ir: int)
    requires
        0 <= l,
        l + 7 <= ir < v.len(),
        ix.len() == v.len(),
        forall|k: int| l <= k <= ir ==> #[trigger] v[k] == v[l],
    ensures
        ({
            let w = split_segment(v, ix, l, ir);
            &&& w.2 + w.3 == l + 1 + ir
            &&& w.3 < w.2 <= w.3 + 2
        }),
{
    let k = (l + ir) / 2;
    let x = v[l];
    let s1 = (swapped(v, k, l + 1), swapped(ix, k, l + 1));
    assert(v[k] == x && v[l + 1] == x && v[ir] == x);
    assert forall|q: int| l <= q <= ir implies #[trigger] s1.0[q] == x by {
        assert(v[q] == x);
    }
    let s2 = order_pair(s1.0, s1.1, l, ir);
    let s3 = order_pair(s2.0, s2.1, l + 1, ir);
    let s4 = order_pair(s3.0, s3.1, l, l + 1);
    assert(s4.0 == s1.0);
    assert(s4.0[l + 1] == x);
    lemma_partition_equal(s4.0, s4.1, l, ir, l + 1, ir, x);
}

/// A round on a segment of at least eight positions splits it, keeping the
/// ends as `split_keeps_ends_unless_out_of_order` states.
pub proof fn long_segment_keeps_ends_unless_out_of_order(s: SortState)
    requires
        !s.done,
        0 <= s.l,
        s.l + 7 <= s.ir < s.v.len(),
        s.ix.len() == s.v.len(),
    ensures
        ({
            let k = (s.l + s.ir) / 2;
            let t = sort_step(s);
            &&& !(s.v[k] < s.v[s.l] || s.v[s.ir] < s.v[s.l]) ==> t.v[s.l] == s.v[s.l] && t.ix[s.l] == s.ix[s.l]
            &&& !(s.v[s.l] > s.v[s.ir] || s.v[k] > s.v[s.ir]) ==> t.v[s.ir] == s.v[s.ir] && t.ix[s.ir] == s.ix[s.ir]
        }),
{
    split_keeps_ends_unless_out_of_order(s.v, s.ix, s.l, s.ir);
}

/// Sorts the segment `l..=ir` by insertion, moving the record of origins along.
fn insertion_sort_segment<A: MutArray<usize> + ?Sized>(
    a: &mut A,
    ix: &mut Vec<usize>,
    l: usize,
    ir: usize,
    v0: Ghost<Seq<i32>>,
)
    requires
        well_formed(old(a)),
        l <= ir < old(a).spec_values().len() <= i32::MAX,
        rearranged(old(a).spec_values(), old(ix)@, v0@),
        fenced(old(a).spec_values(), l as int, ir as int),
    ensures
        final(a).spec_shape() == old(a).spec_shape(),
        rearranged(final(a).spec_values(), final(ix)@, v0@),
        fenced(final(a).spec_values(), l as int, ir as int),
        sorted_range(final(a).spec_values(), l as int, ir as int),
        same_outside(final(a).spec_values(), old(a).spec_values(), l as int, ir as int),
        (final(a).spec_values(), final(ix)@) == insertion_from(
            old(a).spec_values(),
            old(ix)@,
            l as int,
            l + 1,
            ir as int,
        ),
{
    let ghost n = a.spec_values().len();
    let ghost target = insertion_from(a.spec_values(), ix@, l as int, l + 1, ir as int);
    let mut j = l + 1;
    while j <= ir
        invariant
            well_formed(a),
            a.spec_shape() == old(a).spec_shape(),
            a.spec_values().len() == n,
            l + 1 <= j <= ir + 1,
            ir < n <= i32::MAX,
            rearranged(a.spec_values(), ix@, v0@),
            fenced(a.spec_values(), l as int, ir as int),
            sorted_range(a.spec_values(), l as int, j - 1),
            same_outside(a.spec_values(), old(a).spec_values(), l as int, ir as int),
            insertion_from(a.spec_values(), ix@, l as int, j as int, ir as int) == target,
        decreases ir + 1 - j,
    {
        let ghost w = a.spec_values();
        let ghost wi = ix@;
        let x = *a.get(j);
        let b = ix[j];
        let mut i: i32 = (j - 1) as i32;
        while i >= l as i32
            invariant
                well_formed(a),
                a.spec_shape() == old(a).spec_shape(),
                a.spec_values().len() == n,
                ix@.len() == n,
                l as int - 1 <= i <= j - 1,
                l + 1 <= j <= ir,
                ir < n <= i32::MAX,
                x == w[j as int],
                b == wi[j as int],
                forall|p: int| 0 <= p <= i + 1 ==> #[trigger] a.spec_values()[p] == w[p],
                forall|p: int| 0 <= p <= i + 1 ==> #[trigger] ix@[p] == wi[p],
                forall|p: int| j < p < n ==> #[trigger] a.spec_values()[p] == w[p],
                forall|p: int| j < p < n ==> #[trigger] ix@[p] == wi[p],
                forall|p: int| i + 2 <= p <= j ==> #[trigger] a.spec_values()[p] == w[p - 1],
                forall|p: int| i + 2 <= p <= j ==> #[trigger] ix@[p] == wi[p - 1],
                forall|p: int| i + 2 <= p <= j ==> x < #[trigger] a.spec_values()[p],
                insert_down(a.spec_values(), ix@, l as int, x, b, i as int) == insert_down(
                    w,
                    wi,
                    l as int,
                    x,
                    b,
                    j - 1,
                ),
            ensures
                i >= l as i32 ==> a.spec_values()[i as int] <= x,
            decreases i + 1,
        {
            let vi = *a.get(i as usize);
            if vi <= x {
                break;
            }
            let ghost va = a.spec_values();
            let ghost vx = ix@;
            a.set((i + 1) as usize, vi);
            let t = ix[i as usize];
            ix.set((i + 1) as usize, t);
            assert(insert_down(va, vx, l as int, x, b, i as int) == insert_down(
                a.spec_values(),
                ix@,
                l as int,
                x,
                b,
                i - 1,
            ));
            i = i - 1;
        }
        let ghost va = a.spec_values();
        let ghost vx = ix@;
        a.set((i + 1) as usize, x);
        ix.set((i + 1) as usize, b);
        assert((a.spec_values(), ix@) == insert_down(va, vx, l as int, x, b, i as int));
        assert(insertion_from(w, wi, l as int, j as int, ir as int) == insertion_from(
            a.spec_values(),
            ix@,
            l as int,
            j + 1,
            ir as int,
        ));
        proof {
            let v2 = a.spec_values();
            let i2 = ix@;
            let h = i + 1;
            // where the element now at `p` was before this insertion step
            let src = |p: int| if p < h { p } else if p == h { j as int } else if p <= j { p - 1 } else { p };
            assert forall|p: int| 0 <= p < n implies #[trigger] v2[p] == w[src(p)] && i2[p] == wi[src(p)] by {
            }
            assert forall|p: int, q: int| l <= p < q <= j implies #[trigger] v2[p] <= #[trigger] v2[q] by {
                if q < h {
                    assert(v2[p] == w[p] && v2[q] == w[q]);
                } else if q == h {
                    assert(v2[p] == w[p] && w[p] <= w[i as int]);
                } else if p < h {
                    assert(v2[p] == w[p] && v2[q] == w[q - 1]);
                } else if p == h {
                } else {
                    assert(v2[p] == w[p - 1] && v2[q] == w[q - 1]);
                }
            }
            assert forall|p: int, q: int| 0 <= p < q < i2.len() implies #[trigger] i2[p] != #[trigger] i2[q] by {
                assert(i2[p] == wi[src(p)] && i2[q] == wi[src(q)]);
                if src(p) < src(q) {
                    assert(wi[src(p)] != wi[src(q)]);
                } else {
                    assert(wi[src(q)] != wi[src(p)]);
                }
            }
            assert forall|p: int| 0 <= p < i2.len() implies #[trigger] i2[p] < i2.len() by {
                assert(i2[p] == wi[src(p)]);
            }
            assert forall|p: int| 0 <= p < v2.len() implies #[trigger] v2[p] == v0@[i2[p] as int] by {
                assert(v2[p] == w[src(p)] && i2[p] == wi[src(p)]);
            }
            assert forall|q: int| l <= q <= ir implies between_sides(v2, l as int, ir as int, #[trigger] v2[q]) by {
                assert(v2[q] == w[src(q)]);
                assert(between_sides(w, l as int, ir as int, w[src(q)]));
                assert forall|p: int| 0 <= p < l implies #[trigger] v2[p] <= v2[q] by {
                    assert(v2[p] == w[p]);
                }
                assert forall|p: int| ir < p < v2.len() implies v2[q] <= #[trigger] v2[p] by {
                    assert(v2[p] == w[p]);
                }
            }
        }
        j = j + 1;
    }
}

/// Splits the segment `l..=ir` around a pivot chosen as the median of its
/// first, middle and last elements. Returns `(i, j)`: the pivot ends at `j`,
/// everything in `l..j` is no larger, everything in `j + 1..=ir` no smaller,
/// and the positions `j..i` all hold the pivot.
#[verifier::rlimit(60)]
#[verifier::spinoff_prover]
fn partition_segment<A: MutArray<usize> + ?Sized>(
    a: &mut A,
    ix: &mut Vec<usize>,
    l: usize,
    ir: usize,
    v0: Ghost<Seq<i32>>,
) -> (res: (usize, usize))
    requires
        well_formed(old(a)),
        l + 7 <= ir < old(a).spec_values().len() <= i32::MAX,
        rearranged(old(a).spec_values(), old(ix)@, v0@),
        fenced(old(a).spec_values(), l as int, ir as int),
    ensures
        final(a).spec_shape() == old(a).spec_shape(),
        rearranged(final(a).spec_values(), final(ix)@, v0@),
        fenced(final(a).spec_values(), l as int, ir as int),
        same_outside(final(a).spec_values(), old(a).spec_values(), l as int, ir as int),
        l + 1 <= res.1 < res.0 <= ir,
        forall|p: int|
            l <= p < res.1 ==> #[trigger] final(a).spec_values()[p] <= final(a).spec_values()[res.1 as int],
        forall|p: int|
            res.1 < p <= ir ==> final(a).spec_values()[res.1 as int] <= #[trigger] final(a).spec_values()[p],
        forall|p: int|
            res.1 <= p < res.0 ==> #[trigger] final(a).spec_values()[p] == final(a).spec_values()[res.1 as int],
        (final(a).spec_values(), final(ix)@, res.0 as int, res.1 as int) == split_segment(
            old(a).spec_values(),
            old(ix)@,
            l as int,
            ir as int,
        ),
        !(old(a).spec_values()[(l + ir) / 2] < old(a).spec_values()[l as int] || old(a).spec_values()[ir as int]
            < old(a).spec_values()[l as int]) ==> final(a).spec_values()[l as int] == old(a).spec_values()[l as int]
            && final(ix)@[l as int] == old(ix)@[l as int],
        !(old(a).spec_values()[l as int] > old(a).spec_values()[ir as int] || old(a).spec_values()[(l + ir) / 2]
            > old(a).spec_values()[ir as int]) ==> final(a).spec_values()[ir as int] == old(a).spec_values()[ir as int]
            && final(ix)@[ir as int] == old(ix)@[ir as int],
{
    let ghost lo = l as int;
    let ghost hi = ir as int;
    let ghost start = a.spec_values();
    let ghost start_ix = ix@;
    let sum = l + ir;
    let k = sum >> 1;
    assert(k == sum / 2) by (bit_vector)
        requires
            k == sum >> 1,
    ;
    swap_both(a, ix, k, l + 1, Ghost(lo), Ghost(hi), v0);
    let ghost s1 = (a.spec_values(), ix@);
    assert(s1 == (swapped(start, (lo + hi) / 2, lo + 1), swapped(start_ix, (lo + hi) / 2, lo + 1)));
    if *a.get(l) > *a.get(ir) {
        swap_both(a, ix, l, ir, Ghost(lo), Ghost(hi), v0);
    }
    let ghost s2 = (a.spec_values(), ix@);
    assert(s2 == order_pair(s1.0, s1.1, lo, hi));
    if *a.get(l + 1) > *a.get(ir) {
        swap_both(a, ix, l + 1, ir, Ghost(lo), Ghost(hi), v0);
    }
    let ghost s3 = (a.spec_values(), ix@);
    assert(s3 == order_pair(s2.0, s2.1, lo + 1, hi));
    if *a.get(l) > *a.get(l + 1) {
        swap_both(a, ix, l, l + 1, Ghost(lo), Ghost(hi), v0);
    }
    let ghost s4 = (a.spec_values(), ix@);
    assert(s4 == order_pair(s3.0, s3.1, lo, lo + 1));
    let mut i = l + 1;
    let mut j = ir;
    let x = *a.get(l + 1);
    let b = ix[l + 1];
    let ghost target = partition_from(s4.0, s4.1, lo + 1, hi, x);
    loop
        invariant_except_break
            l + 1 <= i < ir,
            i <= j <= ir,
            j >= l + 2,
            forall|p: int| l <= p <= i ==> #[trigger] a.spec_values()[p] <= x,
            forall|p: int| j <= p <= ir ==> x <= #[trigger] a.spec_values()[p],
            partition_from(a.spec_values(), ix@, i as int, j as int, x) == target,
        invariant
            well_formed(a),
            a.spec_shape() == old(a).spec_shape(),
            a.spec_values().len() == start.len(),
            l + 7 <= ir < start.len(),
            lo == l,
            hi == ir,
            rearranged(a.spec_values(), ix@, v0@),
            fenced(a.spec_values(), lo, hi),
            same_outside(a.spec_values(), start, lo, hi),
            a.spec_values()[l + 1] == x,
            ix@[l + 1] == b,
        ensures
            well_formed(a),
            a.spec_shape() == old(a).spec_shape(),
            a.spec_values().len() == start.len(),
            l + 1 <= j < i <= ir,
            rearranged(a.spec_values(), ix@, v0@),
            fenced(a.spec_values(), lo, hi),
            same_outside(a.spec_values(), start, lo, hi),
            a.spec_values()[l + 1] == x,
            ix@[l + 1] == b,
            forall|p: int| l <= p < i ==> #[trigger] a.spec_values()[p] <= x,
            forall|p: int| j < p <= ir ==> x <= #[trigger] a.spec_values()[p],
            a.spec_values()[j as int] <= x,
            (a.spec_values(), ix@, i as int, j as int) == target,
        decreases j - i,
    {
        let ghost i_top = i;
        let ghost j_top = j;
        let ghost a_top = a.spec_values();
        let ghost ix_top = ix@;
        loop
            invariant_except_break
                i < ir,
                i <= j,
                forall|p: int| l <= p <= i ==> #[trigger] a.spec_values()[p] <= x,
                scan_up(a.spec_values(), i_top as int, x) == scan_up(a.spec_values(), i as int, x),
            invariant
                well_formed(a),
                a.spec_values().len() == start.len(),
                ir < start.len(),
                i_top <= i,
                l + 1 <= i,
                j <= ir,
                forall|p: int| j <= p <= ir ==> x <= #[trigger] a.spec_values()[p],
            ensures
                i_top < i,
                l + 2 <= i <= ir,
                i <= j + 1,
                x <= a.spec_values()[i as int],
                forall|p: int| l <= p < i ==> #[trigger] a.spec_values()[p] <= x,
                i == scan_up(a.spec_values(), i_top as int, x),
            decreases ir - i,
        {
            i = i + 1;
            if *a.get(i) >= x {
                break;
            }
        }
        loop
            invariant_except_break
                l + 2 <= j,
                forall|p: int| j <= p <= ir ==> x <= #[trigger] a.spec_values()[p],
                scan_down(a.spec_values(), j_top as int, x) == scan_down(a.spec_values(), j as int, x),
            invariant
                well_formed(a),
                a.spec_values().len() == start.len(),
                ir < start.len(),
                l + 1 <= j <= j_top,
                j_top <= ir,
                a.spec_values()[l + 1] == x,
            ensures
                j < j_top,
                l + 1 <= j < ir,
                a.spec_values()[j as int] <= x,
                forall|p: int| j < p <= ir ==> x <= #[trigger] a.spec_values()[p],
                j == scan_down(a.spec_values(), j_top as int, x),
            decreases j,
        {
            j = j - 1;
            if *a.get(j) <= x {
                break;
            }
        }
        if j < i {
            assert(partition_from(a_top, ix_top, i_top as int, j_top as int, x) == (a_top, ix_top, i as int, j as int));
            break;
        }
        swap_both(a, ix, i, j, Ghost(lo), Ghost(hi), v0);
        assert(partition_from(a_top, ix_top, i_top as int, j_top as int, x) == partition_from(
            a.spec_values(),
            ix@,
            i as int,
            j as int,
            x,
        ));
    }
    let ghost before = a.spec_values();
    let ghost before_ix = ix@;
    let y = *a.get(j);
    a.set(l + 1, y);
    a.set(j, x);
    let t = ix[j];
    ix.set(l + 1, t);
    ix.set(j, b);
    proof {
        let v2 = a.spec_values();
        let i2 = ix@;
        assert(v2 == swapped(before, (l + 1) as int, j as int));
        assert(i2 == swapped(before_ix, (l + 1) as int, j as int));
        lemma_swap_rearranged(before, before_ix, v0@, (l + 1) as int, j as int);
        lemma_swap_fenced(before, lo, hi, (l + 1) as int, j as int);
        assert forall|p: int| l <= p < j implies #[trigger] v2[p] <= v2[j as int] by {
            if p == l + 1 {
            } else {
                assert(v2[p] == before[p]);
            }
        }
        assert forall|p: int| j < p <= ir implies v2[j as int] <= #[trigger] v2[p] by {
            assert(v2[p] == before[p]);
        }
        assert forall|p: int| j <= p < i implies #[trigger] v2[p] == v2[j as int] by {
            if p > j {
                assert(v2[p] == before[p]);
            }
        }
        split_keeps_ends_unless_out_of_order(start, start_ix, lo, hi);
    }
    (i, j)
}

/// Positions `p` and `q` both lie in the segment `s`.
pub open spec fn within(s: (int, int), p: int, q: int) -> bool {
    s.0 <= p && q <= s.1
}

/// Every pair of positions that no pending segment holds both of is in
/// order. The pending segments are `cur` and those in `segs`.
pub open spec fn ordered_across(v: Seq<i32>, segs: Seq<(int, int)>, cur: (int, int)) -> bool {
    forall|p: int, q: int|
        0 <= p < q < v.len() && !within(cur, p, q) && !(exists|t: int|
            0 <= t < segs.len() && #[trigger] within(segs[t], p, q)) ==> #[trigger] v[p]
            <= #[trigger] v[q]
}

/// The segments `a` and `b` share no position.
pub open spec fn disjoint(a: (int, int), b: (int, int)) -> bool {
    a.1 < b.0 || b.1 < a.0
}

/// The pending segments lie inside `0..n`, none is empty, and no two overlap.
pub open spec fn segments_apart(segs: Seq<(int, int)>, cur: (int, int), n: int) -> bool {
    &&& 0 <= cur.0 <= cur.1 < n
    &&& forall|t: int| 0 <= t < segs.len() ==> 0 <= (#[trigger] segs[t]).0 <= segs[t].1 < n
    &&& forall|t: int| 0 <= t < segs.len() ==> disjoint(#[trigger] segs[t], cur)
    &&& forall|t: int, u: int| 0 <= t < u < segs.len() ==> disjoint(#[trigger] segs[t], #[trigger] segs[u])
}

/// Number of positions in the segment `s`.
pub open spec fn seg_len(s: (int, int)) -> int {
    s.1 - s.0 + 1
}

/// Number of positions in all the segments of `segs`.
pub open spec fn seg_total(segs: Seq<(int, int)>) -> int
    decreases segs.len(),
{
    if segs.len() == 0 {
        0
    } else {
        seg_total(segs.drop_last()) + seg_len(segs.last())
    }
}

/// Segments are at least one position long, so their total is not negative.
proof fn lemma_seg_total_nonneg(segs: Seq<(int, int)>)
    requires
        forall|t: int| 0 <= t < segs.len() ==> (#[trigger] segs[t]).0 <= segs[t].1,
    ensures
        seg_total(segs) >= 0,
    decreases segs.len(),
{
    if segs.len() > 0 {
        lemma_seg_total_nonneg(segs.drop_last());
    }
}

/// When the current segment does not overlap the others, the ordering
/// between pending segments fences it.
proof fn lemma_fenced_from_order(v: Seq<i32>, segs: Seq<(int, int)>, cur: (int, int))
    requires
        ordered_across(v, segs, cur),
        segments_apart(segs, cur, v.len() as int),
    ensures
        fenced(v, cur.0, cur.1),
{
    assert forall|q: int| cur.0 <= q <= cur.1 implies between_sides(v, cur.0, cur.1, #[trigger] v[q]) by {
        assert forall|p: int| 0 <= p < cur.0 implies #[trigger] v[p] <= v[q] by {
            assert(!within(cur, p, q));
            assert forall|t: int| 0 <= t < segs.len() implies !#[trigger] within(segs[t], p, q) by {
                assert(disjoint(segs[t], cur));
            }
        }
        assert forall|p: int| cur.1 < p < v.len() implies v[q] <= #[trigger] v[p] by {
            assert(!within(cur, q, p));
            assert forall|t: int| 0 <= t < segs.len() implies !#[trigger] within(segs[t], q, p) by {
                assert(disjoint(segs[t], cur));
            }
        }
    }
}

/// Changing only the current segment, while keeping it fenced, keeps the
/// pending segments in order.
proof fn lemma_local_change(v: Seq<i32>, v2: Seq<i32>, segs: Seq<(int, int)>, cur: (int, int))
    requires
        ordered_across(v, segs, cur),
        fenced(v2, cur.0, cur.1),
        same_outside(v2, v, cur.0, cur.1),
    ensures
        ordered_across(v2, segs, cur),
{
    assert forall|p: int, q: int|
        0 <= p < q < v2.len() && !within(cur, p, q) && !(exists|t: int|
            0 <= t < segs.len() && #[trigger] within(segs[t], p, q)) implies #[trigger] v2[p]
        <= #[trigger] v2[q] by {
        let pin = cur.0 <= p <= cur.1;
        let qin = cur.0 <= q <= cur.1;
        if pin {
            assert(between_sides(v2, cur.0, cur.1, v2[p]));
            assert(q > cur.1);
        } else if qin {
            assert(between_sides(v2, cur.0, cur.1, v2[q]));
        } else {
            assert(v2[p] == v[p] && v2[q] == v[q]);
        }
    }
}

/// Once the current segment is sorted, the top of the stack can become the
/// current segment.
proof fn lemma_pop(v: Seq<i32>, segs: Seq<(int, int)>, cur: (int, int))
    requires
        ordered_across(v, segs, cur),
        sorted_range(v, cur.0, cur.1),
        segs.len() > 0,
    ensures
        ordered_across(v, segs.drop_last(), segs.last()),
{
    let rest = segs.drop_last();
    let top = segs.last();
    assert forall|p: int, q: int|
        0 <= p < q < v.len() && !within(top, p, q) && !(exists|t: int|
            0 <= t < rest.len() && #[trigger] within(rest[t], p, q)) implies #[trigger] v[p]
        <= #[trigger] v[q] by {
        if within(cur, p, q) {
        } else {
            assert forall|t: int| 0 <= t < segs.len() implies !#[trigger] within(segs[t], p, q) by {
                if t < rest.len() {
                    assert(rest[t] == segs[t]);
                }
            }
        }
    }
}

/// After a split around a pivot at `j`, with `l..j` no larger and `j + 1..=ir`
/// no smaller and the pivot's value all over `j..i`, either part may stay
/// current while the other is pushed.
proof fn lemma_split(v: Seq<i32>, segs: Seq<(int, int)>, l: int, ir: int, i: int, j: int)
    requires
        ordered_across(v, segs, (l, ir)),
        l + 1 <= j < i <= ir < v.len(),
        forall|p: int| l <= p < j ==> #[trigger] v[p] <= v[j],
        forall|p: int| j < p <= ir ==> v[j] <= #[trigger] v[p],
        forall|p: int| j <= p < i ==> #[trigger] v[p] == v[j],
    ensures
        ordered_across(v, segs.push((i, ir)), (l, j - 1)),
        ordered_across(v, segs.push((l, j - 1)), (i, ir)),
{
    assert forall|p: int, q: int|
        0 <= p < q < v.len() && !within((l, j - 1), p, q) && !(exists|t: int|
            0 <= t < segs.push((i, ir)).len() && #[trigger] within(segs.push((i, ir))[t], p, q)) implies #[trigger] v[p]
        <= #[trigger] v[q] by {
        assert(!within(segs.push((i, ir))[segs.len() as int], p, q));
        if within((l, ir), p, q) {
            if p < j {
                assert(v[p] <= v[j]);
            } else if p < i {
                assert(v[p] == v[j]);
            }
        } else {
            assert forall|t: int| 0 <= t < segs.len() implies !#[trigger] within(segs[t], p, q) by {
                assert(segs.push((i, ir))[t] == segs[t]);
            }
        }
    }
    assert forall|p: int, q: int|
        0 <= p < q < v.len() && !within((i, ir), p, q) && !(exists|t: int|
            0 <= t < segs.push((l, j - 1)).len() && #[trigger] within(segs.push((l, j - 1))[t], p, q)) implies #[trigger] v[p]
        <= #[trigger] v[q] by {
        assert(!within(segs.push((l, j - 1))[segs.len() as int], p, q));
        if within((l, ir), p, q) {
            if p < j {
                assert(v[p] <= v[j]);
            } else if p < i {
                assert(v[p] == v[j]);
            }
        } else {
            assert forall|t: int| 0 <= t < segs.len() implies !#[trigger] within(segs[t], p, q) by {
                assert(segs.push((l, j - 1))[t] == segs[t]);
            }
        }
    }
}

/// Splitting a segment of `size` positions into parts of `a` and `b`
/// positions plus at least one pivot position: the larger part keeps the
/// depth bound of the whole, the smaller one meets the bound one level deeper.
proof fn lemma_depth_split(size: int, a: int, b: int, k: nat, n: int)
    requires
        0 <= a,
        0 <= b,
        a + b + 1 <= size,
        size * pow2(k) <= n,
    ensures
        a * pow2(k) <= n,
        b * pow2(k) <= n,
        a <= b ==> a * pow2(k + 1) <= n,
        b <= a ==> b * pow2(k + 1) <= n,
{
    lemma_pow2_pos(k);
    lemma_pow2_unfold(k + 1);
    let p = pow2(k) as int;
    assert(a * p <= size * p && b * p <= size * p) by (nonlinear_arith)
        requires
            0 <= a,
            0 <= b,
            a + b + 1 <= size,
            p > 0,
    ;
    assert(a <= b ==> a * (2 * p) <= size * p) by (nonlinear_arith)
        requires
            0 <= a,
            a + b + 1 <= size,
            p > 0,
    ;
    assert(b <= a ==> b * (2 * p) <= size * p) by (nonlinear_arith)
        requires
            0 <= b,
            a + b + 1 <= size,
            p > 0,
    ;
}

/// A segment of at least eight positions at depth `k` within an array of
/// fewer than `2^31` elements: the depth is below 28.
proof fn lemma_depth_small(size: int, k: nat, n: int)
    requires
        8 <= size,
        size * pow2(k) <= n,
        n <= i32::MAX,
    ensures
        k < 28,
{
    if k >= 28 {
        lemma2_to64();
        if k > 28 {
            lemma_pow2_strictly_increases(28, k);
        }
        let p = pow2(k) as int;
        assert(size * p >= 8 * 0x1000_0000) by (nonlinear_arith)
            requires
                8 <= size,
                p >= 0x1000_0000,
        ;
    }
}

/// Sorts the array in ascending order and returns, for each position, the
/// position its element held before the sort.
#[verifier::rlimit(80)]
#[verifier::spinoff_prover]
pub(crate) fn argsort_in_place<A: MutArray<usize> + ?Sized>(a: &mut A) -> (index: Vec<usize>)
    requires
        well_formed(old(a)),
        0 < old(a).spec_values().len() <= i32::MAX,
    ensures
        final(a).spec_shape() == old(a).spec_shape(),
        sorted(final(a).spec_values()),
        rearranged(final(a).spec_values(), index@, old(a).spec_values()),
        index@ == sort_positions(old(a).spec_values()),
        old(a).spec_values().len() < 8 ==> forall|p: int, q: int|
            0 <= p < q < index@.len() && old(a).spec_values()[#[trigger] index@[p] as int]
                == old(a).spec_values()[#[trigger] index@[q] as int] ==> index@[p] < index@[q],
{
    let ghost v0 = a.spec_values();
    let n = a.shape();
    let stack_size: usize = 64;
    let mut jstack: i32 = -1;
    let mut l: usize = 0;
    let mut istack: Vec<usize> = vec![0; stack_size];
    let mut ir = n - 1;
    let mut index: Vec<usize> = Vec::new();
    let mut m: usize = 0;
    while m < n
        invariant
            m <= n,
            n == v0.len(),
            index@.len() == m,
            forall|p: int| 0 <= p < m ==> #[trigger] index@[p] == p,
        decreases n - m,
    {
        index.push(m);
        m = m + 1;
    }
    let ghost mut segs: Seq<(int, int)> = Seq::empty();
    let ghost init = sort_start(v0);
    let ghost mut rounds: nat = 0;
    proof {
        lemma_pow2_pos(0);
        lemma2_to64();
        assert(index@ =~= init.ix);
    }
    loop
        invariant_except_break
            sort_run(init, rounds) == (SortState {
                v: a.spec_values(),
                ix: index@,
                l: l as int,
                ir: ir as int,
                stack: segs,
                done: false,
            }),
        invariant
            init == sort_start(v0),
            well_formed(a),
            a.spec_shape() == old(a).spec_shape(),
            v0 == old(a).spec_values(),
            n == v0.len(),
            0 < n <= i32::MAX,
            a.spec_values().len() == n,
            l <= ir < n,
            rearranged(a.spec_values(), index@, v0),
            ordered_across(a.spec_values(), segs, (l as int, ir as int)),
            segments_apart(segs, (l as int, ir as int), n as int),
            istack@.len() == 64,
            segs.len() <= 28,
            jstack == 2 * segs.len() - 1,
            forall|t: int|
                0 <= t < segs.len() ==> istack@[2 * t] == (#[trigger] segs[t]).0 && istack@[2 * t + 1]
                    == segs[t].1,
            (ir - l + 1) * pow2(segs.len()) <= n,
            forall|t: int| 0 <= t < segs.len() ==> seg_len(#[trigger] segs[t]) * pow2(t as nat) <= n,
        ensures
            a.spec_shape() == old(a).spec_shape(),
            sorted(a.spec_values()),
            rearranged(a.spec_values(), index@, v0),
            sort_run(init, rounds).done,
            sort_run(init, rounds).ix == index@,
            sort_run(init, rounds).v == a.spec_values(),
        decreases ir - l + 1 + seg_total(segs),
    {
        let ghost cur = sort_run(init, rounds);
        proof {
            lemma_run_next(init, rounds);
        }
        proof {
            lemma_fenced_from_order(a.spec_values(), segs, (l as int, ir as int));
            lemma_seg_total_nonneg(segs);
        }
        if ir - l < 7 {
            let ghost before = a.spec_values();
            insertion_sort_segment(a, &mut index, l, ir, Ghost(v0));
            proof {
                lemma_local_change(before, a.spec_values(), segs, (l as int, ir as int));
            }
            if jstack < 0 {
                proof {
                    assert(sort_step(cur).done && sort_step(cur).ix == index@ && sort_step(cur).v == a.spec_values());
                    rounds = rounds + 1;
                    assert(segs.len() == 0);
                    let v = a.spec_values();
                    assert forall|p: int, q: int| 0 <= p < q <= v.len() - 1 implies #[trigger] v[p] <= #[trigger] v[q] by {
                        if !within((l as int, ir as int), p, q) {
                        }
                    }
                }
                break;
            }
            proof {
                lemma_pop(a.spec_values(), segs, (l as int, ir as int));
            }
            let ghost k = segs.len() as int;
            ir = istack[jstack as usize];
            jstack = jstack - 1;
            l = istack[jstack as usize];
            jstack = jstack - 1;
            proof {
                let top = segs.last();
                let rest = segs.drop_last();
                assert(istack@[2 * (k - 1)] == top.0 && istack@[2 * (k - 1) + 1] == top.1);
                assert(seg_len(top) * pow2((k - 1) as nat) <= n);
                assert forall|t: int| 0 <= t < rest.len() implies disjoint(#[trigger] rest[t], top) by {
                    assert(rest[t] == segs[t]);
                    assert(disjoint(segs[t], segs[k - 1]));
                }
                assert forall|t: int, u: int| 0 <= t < u < rest.len() implies disjoint(#[trigger] rest[t], #[trigger] rest[u]) by {
                    assert(rest[t] == segs[t] && rest[u] == segs[u]);
                }
                segs = rest;
                assert(sort_step(cur) =~= (SortState {
                    v: a.spec_values(),
                    ix: index@,
                    l: l as int,
                    ir: ir as int,
                    stack: segs,
                    done: false,
                }));
                rounds = rounds + 1;
            }
        } else {
            let ghost before = a.spec_values();
            let ghost size = ir - l + 1;
            let ghost k = segs.len();
            let (i, j) = partition_segment(a, &mut index, l, ir, Ghost(v0));
            proof {
                lemma_local_change(before, a.spec_values(), segs, (l as int, ir as int));
                lemma_split(a.spec_values(), segs, l as int, ir as int, i as int, j as int);
                lemma_depth_small(size, k, n as int);
                lemma_depth_split(size, j - l, ir - i + 1, k, n as int);
            }
            jstack = jstack + 2;
            if ir - i + 1 >= j - l {
                istack.set(jstack as usize, ir);
                istack.set((jstack - 1) as usize, i);
                proof {
                    let s2 = (i as int, ir as int);
                    let new_segs = segs.push(s2);
                    assert forall|t: int| 0 <= t < new_segs.len() implies disjoint(#[trigger] new_segs[t], (l as int, j - 1)) by {
                        if t < segs.len() {
                            assert(new_segs[t] == segs[t]);
                            assert(disjoint(segs[t], (l as int, ir as int)));
                        }
                    }
                    assert forall|t: int, u: int| 0 <= t < u < new_segs.len() implies disjoint(#[trigger] new_segs[t], #[trigger] new_segs[u]) by {
                        assert(new_segs[t] == segs[t]);
                        if u < segs.len() {
                            assert(new_segs[u] == segs[u]);
                        } else {
                            assert(disjoint(segs[t], (l as int, ir as int)));
                        }
                    }
                    assert forall|t: int| 0 <= t < new_segs.len() implies istack@[2 * t] == (#[trigger] new_segs[t]).0 && istack@[2 * t + 1] == new_segs[t].1 by {
                        if t < segs.len() {
                            assert(new_segs[t] == segs[t]);
                        }
                    }
                    assert forall|t: int| 0 <= t < new_segs.len() implies seg_len(#[trigger] new_segs[t]) * pow2(t as nat) <= n by {
                        if t < segs.len() {
                            assert(new_segs[t] == segs[t]);
                        }
                    }
                    assert(new_segs.drop_last() =~= segs);
                    segs = new_segs;
                }
                ir = j - 1;
                proof {
                    assert(sort_step(cur) =~= (SortState {
                        v: a.spec_values(),
                        ix: index@,
                        l: l as int,
                        ir: ir as int,
                        stack: segs,
                        done: false,
                    }));
                    rounds = rounds + 1;
                }
            } else {
                istack.set(jstack as usize, j - 1);
                istack.set((jstack - 1) as usize, l);
                proof {
                    let s2 = (l as int, j - 1);
                    let new_segs = segs.push(s2);
                    assert forall|t: int| 0 <= t < new_segs.len() implies disjoint(#[trigger] new_segs[t], (i as int, ir as int)) by {
                        if t < segs.len() {
                            assert(new_segs[t] == segs[t]);
                            assert(disjoint(segs[t], (l as int, ir as int)));
                        }
                    }
                    assert forall|t: int, u: int| 0 <= t < u < new_segs.len() implies disjoint(#[trigger] new_segs[t], #[trigger] new_segs[u]) by {
                        assert(new_segs[t] == segs[t]);
                        if u < segs.len() {
                            assert(new_segs[u] == segs[u]);
                        } else {
                            assert(disjoint(segs[t], (l as int, ir as int)));
                        }
                    }
                    assert forall|t: int| 0 <= t < new_segs.len() implies istack@[2 * t] == (#[trigger] new_segs[t]).0 && istack@[2 * t + 1] == new_segs[t].1 by {
                        if t < segs.len() {
                            assert(new_segs[t] == segs[t]);
                        }
                    }
                    assert forall|t: int| 0 <= t < new_segs.len() implies seg_len(#[trigger] new_segs[t]) * pow2(t as nat) <= n by {
                        if t < segs.len() {
                            assert(new_segs[t] == segs[t]);
                        }
                    }
                    assert(new_segs.drop_last() =~= segs);
                    segs = new_segs;
                }
                l = i;
                proof {
                    assert(sort_step(cur) =~= (SortState {
                        v: a.spec_values(),
                        ix: index@,
                        l: l as int,
                        ir: ir as int,
                        stack: segs,
                        done: false,
                    }));
                    rounds = rounds + 1;
                }
            }
        }
    }
    proof {
        lemma_run_result(v0, rounds);
        if n < 8 {
            lemma_run_next(init, 0);
            assert(sort_run(init, 0) == init);
            assert(sort_step(init).done);
            lemma_run_same(init, rounds, 1);
            short_segment_keeps_ties_in_order(init);
            let t = sort_step(init);
            assert(t.v == a.spec_values() && t.ix == index@);
            assert forall|p: int, q: int|
                0 <= p < q < index@.len() && v0[#[trigger] index@[p] as int] == v0[#[trigger] index@[q] as int]
                implies index@[p] < index@[q] by {
                assert(a.spec_values()[p] == v0[index@[p] as int]);
                assert(a.spec_values()[q] == v0[index@[q] as int]);
                assert(t.v[p] == t.v[q]);
                let (p1, q1) = choose|p1: int, q1: int|
                    #![trigger init.v[p1], init.v[q1]]
                    0 <= p1 < q1 <= n - 1 && init.v[p1] == t.v[p] && init.ix[p1] == t.ix[p] && init.v[q1] == t.v[q]
                        && init.ix[q1] == t.ix[q];
                assert(init.ix[p1] == p1 as usize && init.ix[q1] == q1 as usize);
            }
        }
    }
    index
}

} // verus!
