use vstd::prelude::*;

verus! {

broadcast use vstd::seq_lib::group_to_multiset_ensures, vstd::multiset::group_multiset_axioms;

/// `s` is non-descending on the index range `[lo, hi)`.
pub open spec fn sorted_between(s: Seq<i32>, lo: int, hi: int) -> bool {
    forall|i: int, j: int| lo <= i <= j < hi ==> s[i] <= s[j]
}

/// `s` is non-descending.
pub open spec fn sorted(s: Seq<i32>) -> bool {
    sorted_between(s, 0, s.len() as int)
}

/// `a` holds the same values as `b`, each as often.
pub open spec fn permutes(a: Seq<i32>, b: Seq<i32>) -> bool {
    a.to_multiset() == b.to_multiset()
}

/// `a` is `b` with only the values of `[lo, hi)` rearranged among themselves.
pub open spec fn permutes_within(a: Seq<i32>, b: Seq<i32>, lo: int, hi: int) -> bool {
    &&& a.len() == b.len()
    &&& 0 <= lo <= hi <= a.len()
    &&& forall|k: int| 0 <= k < a.len() && !(lo <= k < hi) ==> a[k] == b[k]
    &&& a.subrange(lo, hi).to_multiset() == b.subrange(lo, hi).to_multiset()
}

proof fn lemma_swap_permutes(s: Seq<i32>, lo: int, hi: int, i: int, j: int)
    requires
        0 <= lo <= i < hi <= s.len(),
        lo <= j < hi,
    ensures
        permutes_within(s.update(i, s[j]).update(j, s[i]), s, lo, hi),
{
    let t = s.subrange(lo, hi);
    let u = s.update(i, s[j]).update(j, s[i]);
    assert(u.subrange(lo, hi) =~= t.update(i - lo, s[j]).update(j - lo, s[i]));
    let t1 = t.update(i - lo, s[j]);
    assert(t1[j - lo] == if i == j { s[j] } else { s[j] });
    assert(u.subrange(lo, hi).to_multiset() =~= t.to_multiset());
}

proof fn lemma_permutes_trans(a: Seq<i32>, b: Seq<i32>, c: Seq<i32>, lo: int, hi: int)
    requires
        permutes_within(a, b, lo, hi),
        permutes_within(b, c, lo, hi),
    ensures
        permutes_within(a, c, lo, hi),
{
}

proof fn lemma_permutes_widen(a: Seq<i32>, b: Seq<i32>, lo: int, hi: int, lo2: int, hi2: int)
    requires
        permutes_within(a, b, lo2, hi2),
        0 <= lo <= lo2,
        hi2 <= hi <= a.len(),
    ensures
        permutes_within(a, b, lo, hi),
{
    broadcast use vstd::seq_lib::lemma_multiset_commutative;

    assert(a.subrange(lo, hi) =~= a.subrange(lo, lo2) + a.subrange(lo2, hi2) + a.subrange(hi2, hi));
    assert(b.subrange(lo, hi) =~= b.subrange(lo, lo2) + b.subrange(lo2, hi2) + b.subrange(hi2, hi));
    assert(a.subrange(lo, lo2) =~= b.subrange(lo, lo2));
    assert(a.subrange(hi2, hi) =~= b.subrange(hi2, hi));
}

/// Every value of `a` in `[lo, hi)` is one of `b` in `[lo, hi)`.
proof fn lemma_permutes_value_from(a: Seq<i32>, b: Seq<i32>, lo: int, hi: int, k: int) -> (j: int)
    requires
        permutes_within(a, b, lo, hi),
        lo <= k < hi,
    ensures
        lo <= j < hi,
        b[j] == a[k],
{
    let sa = a.subrange(lo, hi);
    let sb = b.subrange(lo, hi);
    assert(sa[k - lo] == a[k]);
    assert(sa.contains(a[k]));
    assert(sb.to_multiset().count(a[k]) > 0);
    assert(sb.contains(a[k]));
    let m = choose|m: int| 0 <= m < sb.len() && sb[m] == a[k];
    lo + m
}

/// What a sorting strategy leaves behind: the former values, in non-descending order.
pub open spec fn sort_outcome(before: Seq<i32>, after: Seq<i32>) -> bool {
    permutes(after, before) && sorted(after)
}

/// Sorted sequences holding the same values are equal.
pub proof fn lemma_sorted_permutation_unique(a: Seq<i32>, b: Seq<i32>)
    requires
        sorted(a),
        sorted(b),
        permutes(a, b),
    ensures
        a == b,
{
    let leq = |x: i32, y: i32| x <= y;
    assert(vstd::relations::sorted_by(a, leq));
    assert(vstd::relations::sorted_by(b, leq));
    vstd::seq_lib::lemma_sorted_unique(a, b, leq);
}

fn swap(data: &mut [i32], i: usize, j: usize)
    requires
        i < old(data)@.len(),
        j < old(data)@.len(),
    ensures
        final(data)@ == old(data)@.update(i as int, old(data)@[j as int]).update(
            j as int,
            old(data)@[i as int],
        ),
{
    let a = data[i];
    let b = data[j];
    data[i] = b;
    data[j] = a;
}

/// Sorts `data[lo..hi]` in place by insertion; the rest of `data` is left as it was.
fn insertion_sort_range(data: &mut [i32], lo: usize, hi: usize)
    requires
        lo <= hi <= old(data)@.len(),
    ensures
        permutes_within(final(data)@, old(data)@, lo as int, hi as int),
        sorted_between(final(data)@, lo as int, hi as int),
{
    if hi - lo < 2 {
        return;
    }
    let ghost orig = data@;
    let mut i: usize = lo + 1;
    while i < hi
        invariant
            lo < i <= hi <= data@.len(),
            permutes_within(data@, orig, lo as int, hi as int),
            sorted_between(data@, lo as int, i as int),
        decreases hi - i,
    {
        // `j` is where the value taken from index `i` currently stands.
        let mut j: usize = i;
        while j > lo
            invariant
                lo <= j <= i < hi <= data@.len(),
                permutes_within(data@, orig, lo as int, hi as int),
                sorted_between(data@, lo as int, j as int),
                sorted_between(data@, j + 1, i + 1),
                lo < j < i ==> data@[j - 1] <= data@[j + 1],
                forall|k: int| j < k <= i ==> data@[j as int] <= data@[k],
            ensures
                lo < j ==> data@[j - 1] < data@[j as int],
            decreases j,
        {
            if data[j - 1] >= data[j] {
                proof {
                    lemma_swap_permutes(data@, lo as int, hi as int, j - 1, j as int);
                    lemma_permutes_trans(
                        data@.update(j - 1, data@[j as int]).update(j as int, data@[j - 1]),
                        data@,
                        orig,
                        lo as int,
                        hi as int,
                    );
                }
                swap(data, j - 1, j);
                j -= 1;
            } else {
                break;
            }
        }
        assert forall|a: int, b: int| lo <= a <= b < i + 1 implies data@[a] <= data@[b] by {
            if a < j && j < b {
                assert(data@[a] <= data@[j - 1]);
            }
        }
        i += 1;
    }
}

fn insertion_sort(data: &mut [i32])
    ensures
        permutes(final(data)@, old(data)@),
        sorted(final(data)@),
{
    let n = data.len();
    insertion_sort_range(data, 0, n);
    proof {
        assert(final(data)@.subrange(0, n as int) =~= final(data)@);
        assert(old(data)@.subrange(0, n as int) =~= old(data)@);
    }
}

/// Sorts `data` in place by repeated passes that swap adjacent values out of order.
pub fn bubble_sort(data: &mut [i32])
    ensures
        permutes(final(data)@, old(data)@),
        sorted(final(data)@),
{
    let ghost orig = data@;
    let n = data.len();
    let mut end: usize = n;
    while end > 0
        invariant
            end <= n == data@.len(),
            permutes_within(data@, orig, 0, n as int),
            sorted_between(data@, end as int, n as int),
            forall|a: int, b: int| 0 <= a < end <= b < n ==> data@[a] <= data@[b],
        decreases end,
    {
        end -= 1;
        let mut i: usize = 0;
        while i < end
            invariant
                i <= end < n == data@.len(),
                permutes_within(data@, orig, 0, n as int),
                sorted_between(data@, end + 1, n as int),
                forall|a: int, b: int| 0 <= a <= end < b < n ==> data@[a] <= data@[b],
                forall|k: int| 0 <= k <= i ==> data@[k] <= data@[i as int],
            decreases end - i,
        {
            if data[i] > data[i + 1] {
                proof {
                    lemma_swap_permutes(data@, 0, n as int, i as int, i + 1);
                    lemma_permutes_trans(
                        data@.update(i as int, data@[i + 1]).update(i + 1, data@[i as int]),
                        data@,
                        orig,
                        0,
                        n as int,
                    );
                }
                swap(data, i, i + 1);
            }
            i += 1;
        }
    }
    proof {
        assert(data@.subrange(0, n as int) =~= data@);
        assert(orig.subrange(0, n as int) =~= orig);
    }
}

/// Every value of `s` in `[x0, x1)` is at most every value in `[y0, y1)`.
pub open spec fn le_ranges(s: Seq<i32>, x0: int, x1: int, y0: int, y1: int) -> bool {
    forall|x: int, y: int| x0 <= x < x1 && y0 <= y < y1 ==> s[x] <= s[y]
}

/// `[x0, x1)` holds all of `[lo, hi)` or none of it.
pub open spec fn covers_or_apart(x0: int, x1: int, lo: int, hi: int) -> bool {
    (x0 <= lo && hi <= x1) || x1 <= lo || hi <= x0
}

/// The value at `lo` is strictly below every later value of `[lo, hi)`.
pub open spec fn front_is_least(s: Seq<i32>, lo: int, hi: int) -> bool {
    forall|k: int| lo < k < hi ==> s[lo] < s[k]
}

proof fn lemma_permutes_le(
    a: Seq<i32>,
    b: Seq<i32>,
    lo: int,
    hi: int,
    x0: int,
    x1: int,
    y0: int,
    y1: int,
)
    requires
        permutes_within(a, b, lo, hi),
        le_ranges(b, x0, x1, y0, y1),
        0 <= x0,
        x1 <= a.len(),
        0 <= y0,
        y1 <= a.len(),
        covers_or_apart(x0, x1, lo, hi),
        covers_or_apart(y0, y1, lo, hi),
    ensures
        le_ranges(a, x0, x1, y0, y1),
{
    assert forall|x: int, y: int| x0 <= x < x1 && y0 <= y < y1 implies a[x] <= a[y] by {
        let jx = if lo <= x < hi {
            lemma_permutes_value_from(a, b, lo, hi, x)
        } else {
            x
        };
        let jy = if lo <= y < hi {
            lemma_permutes_value_from(a, b, lo, hi, y)
        } else {
            y
        };
        assert(b[jx] <= b[jy]);
    }
}

/// The partition step on `data[lo..hi]`: the last value of the range is the pivot; the values
/// not above it are moved to the front, and the pivot is placed right after them. Returns the
/// pivot's final index.
fn partition_range(data: &mut [i32], lo: usize, hi: usize) -> (p: usize)
    requires
        lo + 2 <= hi <= old(data)@.len(),
    ensures
        lo <= p < hi,
        permutes_within(final(data)@, old(data)@, lo as int, hi as int),
        final(data)@[p as int] == old(data)@[hi - 1],
        forall|k: int| lo <= k < p ==> final(data)@[k] <= final(data)@[p as int],
        forall|k: int| p < k < hi ==> final(data)@[p as int] < final(data)@[k],
        old(data)@[lo as int] <= old(data)@[hi - 1] ==> lo < p,
{
    let ghost orig = data@;
    let last = hi - 1;
    let pivot = data[last];
    let mut slow: usize = lo;
    if data[lo] <= pivot {
        slow += 1;
    }
    let mut fast: usize = lo + 1;
    while fast < last
        invariant
            lo <= slow <= fast <= last,
            last + 1 == hi <= data@.len(),
            data@[last as int] == pivot,
            pivot == orig[last as int],
            forall|k: int| lo <= k < slow ==> data@[k] <= pivot,
            forall|k: int| slow <= k < fast ==> pivot < data@[k],
            permutes_within(data@, orig, lo as int, hi as int),
            orig[lo as int] <= orig[last as int] ==> lo < slow,
        decreases last - fast,
    {
        if data[fast] <= pivot {
            // `slow <= fast < last`: both indices are in bounds.
            proof {
                lemma_swap_permutes(data@, lo as int, hi as int, slow as int, fast as int);
                lemma_permutes_trans(
                    data@.update(slow as int, data@[fast as int]).update(
                        fast as int,
                        data@[slow as int],
                    ),
                    data@,
                    orig,
                    lo as int,
                    hi as int,
                );
            }
            swap(data, slow, fast);
            slow += 1;
        }
        fast += 1;
    }
    if slow != last {
        proof {
            lemma_swap_permutes(data@, lo as int, hi as int, slow as int, last as int);
            lemma_permutes_trans(
                data@.update(slow as int, data@[last as int]).update(
                    last as int,
                    data@[slow as int],
                ),
                data@,
                orig,
                lo as int,
                hi as int,
            );
        }
        swap(data, slow, last);
    }
    slow
}

/// What the partition step leaves behind: for fewer than two values nothing moves and the
/// index is 1; otherwise the last value of `before` stands at `p`, with the values not above
/// it before `p` and the values above it after `p`.
pub open spec fn partitioned(before: Seq<i32>, after: Seq<i32>, p: int) -> bool {
    if before.len() < 2 {
        after == before && p == 1
    } else {
        &&& 0 <= p < before.len()
        &&& after.len() == before.len()
        &&& permutes(after, before)
        &&& after[p] == before[before.len() - 1]
        &&& forall|k: int| 0 <= k < p ==> after[k] <= after[p]
        &&& forall|k: int| p < k < after.len() ==> after[p] < after[k]
    }
}

/// The partition step of the hybrid quicksort, on the whole of `data`, with its last value as
/// the pivot.
pub fn partition(data: &mut [i32]) -> (p: usize)
    ensures
        partitioned(old(data)@, final(data)@, p as int),
{
    let n = data.len();
    if n < 2 {
        return 1;
    }
    let p = partition_range(data, 0, n);
    proof {
        assert(final(data)@.subrange(0, n as int) =~= final(data)@);
        assert(old(data)@.subrange(0, n as int) =~= old(data)@);
    }
    p
}

/// Ranges of at most this many values are sorted by insertion rather than partitioned.
pub const INSERTION_CUTOFF: usize = 20;

/// Sorts `data[lo..hi]` by partitioning. The shorter side of each split is sorted by a
/// recursive call and the longer one by the next round of the loop, which bounds the depth of
/// recursion by the logarithm of the length.
fn quickersort_range(data: &mut [i32], lo: usize, hi: usize)
    requires
        lo <= hi <= old(data)@.len(),
    ensures
        permutes_within(final(data)@, old(data)@, lo as int, hi as int),
        sorted_between(final(data)@, lo as int, hi as int),
    decreases hi - lo,
{
    let ghost orig = data@;
    let mut start: usize = lo;
    let mut end: usize = hi;
    loop
        invariant
            lo <= start <= end <= hi <= data@.len(),
            orig == old(data)@,
            permutes_within(data@, orig, lo as int, hi as int),
            sorted_between(data@, lo as int, start as int),
            sorted_between(data@, end as int, hi as int),
            le_ranges(data@, lo as int, start as int, start as int, hi as int),
            le_ranges(data@, lo as int, end as int, end as int, hi as int),
        decreases 2 * (end - start) + if front_is_least(data@, start as int, end as int) {
            0int
        } else {
            1int
        },
    {
        if end - start <= INSERTION_CUTOFF {
            if end - start >= 2 {
                let ghost d0 = data@;
                insertion_sort_range(data, start, end);
                proof {
                    lemma_permutes_widen(data@, d0, lo as int, hi as int, start as int, end as int);
                    lemma_permutes_trans(data@, d0, orig, lo as int, hi as int);
                    lemma_permutes_le(data@, d0, start as int, end as int, lo as int, start as int, start as int, end as int);
                    lemma_permutes_le(data@, d0, start as int, end as int, start as int, end as int, end as int, hi as int);
                }
            }
            assert(sorted_between(data@, lo as int, hi as int));
            assert(permutes_within(data@, orig, lo as int, hi as int));
            return;
        }
        let ghost d0 = data@;
        let p = partition_range(data, start, end);
        let ghost d1 = data@;
        proof {
            lemma_permutes_widen(d1, d0, lo as int, hi as int, start as int, end as int);
            lemma_permutes_trans(d1, d0, orig, lo as int, hi as int);
            lemma_permutes_le(d1, d0, start as int, end as int, lo as int, start as int, start as int, end as int);
            lemma_permutes_le(d1, d0, start as int, end as int, start as int, end as int, end as int, hi as int);
            assert(le_ranges(d1, lo as int, start as int, start as int, hi as int));
            assert(le_ranges(d1, lo as int, end as int, end as int, hi as int));
            assert(front_is_least(d0, start as int, end as int) ==> d0[start as int] <= d0[end - 1]);
        }
        if p - start < end - p {
            quickersort_range(data, start, p);
            proof {
                let d2 = data@;
                lemma_permutes_widen(d2, d1, lo as int, hi as int, start as int, p as int);
                lemma_permutes_trans(d2, d1, orig, lo as int, hi as int);
                lemma_permutes_le(d2, d1, start as int, p as int, lo as int, start as int, start as int, p as int);
                assert(le_ranges(d1, start as int, p as int, p as int, hi as int));
                lemma_permutes_le(d2, d1, start as int, p as int, start as int, p as int, p as int, hi as int);
                lemma_permutes_le(d2, d1, start as int, p as int, lo as int, start as int, p as int, hi as int);
                lemma_permutes_le(d2, d1, start as int, p as int, start as int, p as int, end as int, hi as int);
                lemma_permutes_le(d2, d1, start as int, p as int, lo as int, start as int, end as int, hi as int);
                lemma_permutes_le(d2, d1, start as int, p as int, p as int, end as int, end as int, hi as int);
                assert(sorted_between(d2, lo as int, p as int));
                assert(p == start ==> front_is_least(d2, p as int, end as int));
            }
            start = p;
        } else {
            quickersort_range(data, p, end);
            proof {
                let d2 = data@;
                lemma_permutes_widen(d2, d1, lo as int, hi as int, p as int, end as int);
                lemma_permutes_trans(d2, d1, orig, lo as int, hi as int);
                lemma_permutes_le(d2, d1, p as int, end as int, p as int, end as int, end as int, hi as int);
                assert(le_ranges(d1, lo as int, p as int, p as int, end as int)) by {
                    assert(le_ranges(d1, lo as int, start as int, start as int, end as int));
                }
                lemma_permutes_le(d2, d1, p as int, end as int, lo as int, p as int, p as int, end as int);
                lemma_permutes_le(d2, d1, p as int, end as int, lo as int, start as int, start as int, p as int);
                lemma_permutes_le(d2, d1, p as int, end as int, lo as int, start as int, end as int, hi as int);
                assert(sorted_between(d2, p as int, hi as int));
            }
            end = p;
        }
    }
}

fn quickersort(data: &mut [i32])
    ensures
        permutes(final(data)@, old(data)@),
        sorted(final(data)@),
{
    let n = data.len();
    quickersort_range(data, 0, n);
    proof {
        assert(final(data)@.subrange(0, n as int) =~= final(data)@);
        assert(old(data)@.subrange(0, n as int) =~= old(data)@);
    }
}

/// An in-place sorting algorithm, with its display name and a static claim of stability.
pub trait SortingMethod {
    /// The display name.
    spec fn label() -> Seq<char>;

    /// Whether the algorithm is declared stable (a claim, not something measured).
    spec fn claims_stable() -> bool;

    fn name() -> (r: String)
        ensures
            r@ == Self::label(),
    ;

    fn stable() -> (r: bool)
        ensures
            r == Self::claims_stable(),
    ;

    /// Sorts `data` in place: afterwards it holds its former values in non-descending order.
    fn sort(data: &mut [i32])
        ensures
            sort_outcome(old(data)@, final(data)@),
    ;
}

/// Sorting is idempotent: a sorted sequence is left as it is, and sorting the result of a sort
/// again changes nothing.
pub proof fn lemma_sort_idempotent(s: Seq<i32>, once: Seq<i32>, twice: Seq<i32>)
    requires
        sort_outcome(s, once),
        sort_outcome(once, twice),
    ensures
        twice == once,
        sorted(s) ==> once == s,
{
    lemma_sorted_permutation_unique(twice, once);
    if sorted(s) {
        lemma_sorted_permutation_unique(once, s);
    }
}

/// The partition step on two values, the larger first, puts the smaller one first and returns
/// an index within `[0, 2]`.
pub proof fn lemma_partition_pair(a: i32, b: i32, after: Seq<i32>, p: int)
    requires
        a < b,
        partitioned(seq![b, a], after, p),
    ensures
        after == seq![a, b],
        0 <= p <= 2,
{
    let before = seq![b, a];
    assert(before.to_multiset().count(b) == 1) by {
        assert(before =~= seq![b].push(a));
        assert(seq![b] =~= Seq::<i32>::empty().push(b));
    }
    assert(after.len() == 2);
    assert(after =~= seq![after[0]].push(after[1]));
    assert(seq![after[0]] =~= Seq::<i32>::empty().push(after[0]));
    if p == 1 {
        assert(after[1] == a);
        assert(after[0] <= a);
        assert(after.to_multiset().count(b) == 0);
    } else {
        assert(after[0] == a);
        if after[1] != b {
            assert(after.to_multiset().count(b) == 0);
        }
    }
    assert(after =~= seq![a, b]);
}

/// Relies on `slice::sort`: the slice is left holding its former values in non-descending
/// order.
#[verifier::external_body]
fn library_sort(data: &mut [i32])
    ensures
        permutes(final(data)@, old(data)@),
        sorted(final(data)@),
{
    data.sort()
}

/// The general-purpose sort of the standard library, as a baseline.
pub struct RustStdSort;

impl SortingMethod for RustStdSort {
    open spec fn label() -> Seq<char> {
        "Rust Standard library"@
    }

    open spec fn claims_stable() -> bool {
        false
    }

    fn name() -> (r: String) {
        "Rust Standard library".to_string()
    }

    fn stable() -> (r: bool) {
        false
    }

    fn sort(data: &mut [i32]) {
        library_sort(data)
    }
}

/// The hybrid quicksort with an insertion-sort fallback for short ranges.
pub struct QuickSort;

impl SortingMethod for QuickSort {
    open spec fn label() -> Seq<char> {
        "Verq's Quicksort"@
    }

    open spec fn claims_stable() -> bool {
        false
    }

    fn name() -> (r: String) {
        "Verq's Quicksort".to_string()
    }

    fn stable() -> (r: bool) {
        false
    }

    fn sort(data: &mut [i32]) {
        quickersort(data)
    }
}

/// Bubble sort.
pub struct BubbleSort;

impl SortingMethod for BubbleSort {
    open spec fn label() -> Seq<char> {
        "Basic bubblesort"@
    }

    open spec fn claims_stable() -> bool {
        false
    }

    fn name() -> (r: String) {
        "Basic bubblesort".to_string()
    }

    fn stable() -> (r: bool) {
        false
    }

    fn sort(data: &mut [i32]) {
        bubble_sort(data)
    }
}

/// Insertion sort.
pub struct InsertionSort;

impl SortingMethod for InsertionSort {
    open spec fn label() -> Seq<char> {
        "Basic insertion sort"@
    }

    open spec fn claims_stable() -> bool {
        false
    }

    fn name() -> (r: String) {
        "Basic insertion sort".to_string()
    }

    fn stable() -> (r: bool) {
        false
    }

    fn sort(data: &mut [i32]) {
        insertion_sort(data)
    }
}

} // verus!
