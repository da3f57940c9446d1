//! Comparison sorts, binary search and Fibonacci numbers.
use std::collections::HashMap;
use vstd::prelude::*;

verus! {

broadcast use vstd::seq_lib::group_to_multiset_ensures, vstd::multiset::group_multiset_axioms;

/// Ascending order.
pub open spec fn sorted(s: Seq<i32>) -> bool {
    forall|i: int, j: int| 0 <= i <= j < s.len() ==> s[i] <= s[j]
}

/// `a` holds the same values as `b`, each as often.
pub open spec fn same_values(a: Seq<i32>, b: Seq<i32>) -> bool {
    a.to_multiset() == b.to_multiset()
}

pub proof fn lemma_swap_keeps_values(s: Seq<i32>, i: int, j: int)
    requires
        0 <= i < s.len(),
        0 <= j < s.len(),
    ensures
        same_values(s.update(i, s[j]).update(j, s[i]), s),
{
    broadcast use vstd::seq_lib::to_multiset_update;

    if i != j {
        let t = s.update(i, s[j]);
        assert(t[j] == s[j]);
        assert(t.to_multiset() == s.to_multiset().insert(s[j]).remove(s[i]));
        assert(t.update(j, s[i]).to_multiset() == t.to_multiset().insert(s[i]).remove(s[j]));
        assert(t.update(j, s[i]).to_multiset() =~= s.to_multiset());
    } else {
        assert(s.update(i, s[j]).update(j, s[i]) =~= s);
    }
}

/// Exchanges the entries at `i` and `j`.
fn swap(v: &mut Vec<i32>, i: usize, j: usize)
    requires
        i < old(v)@.len(),
        j < old(v)@.len(),
    ensures
        final(v)@ == old(v)@.update(i as int, old(v)@[j as int]).update(j as int, old(v)@[i as int]),
        same_values(final(v)@, old(v)@),
{
    proof {
        lemma_swap_keeps_values(v@, i as int, j as int);
    }
    let a = v[i];
    let b = v[j];
    v.set(i, b);
    v.set(j, a);
}

/// A copy of `s` as a vector.
fn copy_of(s: &[i32]) -> (r: Vec<i32>)
    ensures
        r@ == s@,
{
    let mut r: Vec<i32> = Vec::new();
    let mut i: usize = 0;
    while i < s.len()
        invariant
            i <= s@.len(),
            r@ =~= s@.subrange(0, i as int),
        decreases s@.len() - i,
    {
        r.push(s[i]);
        i = i + 1;
        assert(r@ =~= s@.subrange(0, i as int));
    }
    assert(s@.subrange(0, i as int) =~= s@);
    r
}

/// Bubble sort: passes over the vector exchange neighbours out of order,
/// until a pass exchanges none.
pub fn bubble_sort(collection: &[i32]) -> (r: Vec<i32>)
    ensures
        sorted(r@),
        same_values(r@, collection@),
{
    let mut result = copy_of(collection);
    let n = result.len();
    let mut pass: usize = 0;
    while pass < n
        invariant
            result@.len() == n,
            pass <= n,
            same_values(result@, collection@),
            // the last `pass` entries are in place
            forall|a: int, b: int| 0 <= a <= b < n && b >= n - pass ==> result@[a] <= result@[b],
        decreases n - pass,
    {
        let mut swaps: usize = 0;
        let mut i: usize = 1;
        while i < n
            invariant
                result@.len() == n,
                pass < n,
                1 <= i <= n || n == 0,
                same_values(result@, collection@),
                forall|a: int, b: int| 0 <= a <= b < n && b >= n - pass ==> result@[a] <= result@[b],
                // the entry at i - 1 is the largest so far
                i <= n ==> forall|a: int| 0 <= a < i ==> #[trigger] result@[a] <= result@[i - 1],
                swaps == 0 ==> forall|a: int, b: int| 0 <= a <= b < i && b < n ==> result@[a] <= result@[b],
                swaps <= i,
                i >= n - pass ==> forall|a: int| 0 <= a < n - pass ==> #[trigger] result@[a] <= result@[n - pass - 1],
            decreases n - i,
        {
            if result[i - 1] > result[i] {
                swap(&mut result, i - 1, i);
                swaps = swaps + 1;
            }
            i = i + 1;
        }
        if swaps == 0 {
            return result;
        }
        pass = pass + 1;
    }
    result
}

/// Merge sort: sorts each half, then merges them, taking from the left half
/// first among equals.
pub fn merge_sort(collection: &[i32]) -> (r: Vec<i32>)
    ensures
        sorted(r@),
        same_values(r@, collection@),
    decreases collection@.len(),
{
    if collection.len() > 1 {
        let (left_slice, right_slice) = collection.split_at(collection.len() / 2);
        let left = merge_sort(left_slice);
        let right = merge_sort(right_slice);
        proof {
            assert(collection@ =~= left_slice@ + right_slice@);
            vstd::seq_lib::lemma_multiset_commutative(left_slice@, right_slice@);
        }
        let mut result: Vec<i32> = Vec::new();
        let mut i: usize = 0;
        let mut j: usize = 0;
        assert(left@.subrange(0, 0) + right@.subrange(0, 0) =~= Seq::<i32>::empty());
        while i < left.len() || j < right.len()
            invariant
                sorted(left@),
                sorted(right@),
                i <= left@.len(),
                j <= right@.len(),
                sorted(result@),
                result@.to_multiset() == (left@.subrange(0, i as int) + right@.subrange(0, j as int)).to_multiset(),
                result@.len() == i + j,
                result@.len() > 0 && i < left@.len() ==> result@.last() <= left@[i as int],
                result@.len() > 0 && j < right@.len() ==> result@.last() <= right@[j as int],
            decreases left@.len() + right@.len() - i - j,
        {
            let ghost before = left@.subrange(0, i as int) + right@.subrange(0, j as int);
            if j >= right.len() || (i < left.len() && left[i] <= right[j]) {
                result.push(left[i]);
                proof {
                    vstd::seq_lib::lemma_multiset_commutative(left@.subrange(0, i as int), right@.subrange(0, j as int));
                    vstd::seq_lib::lemma_multiset_commutative(left@.subrange(0, i as int + 1), right@.subrange(0, j as int));
                    assert(left@.subrange(0, i as int + 1) =~= left@.subrange(0, i as int).push(left@[i as int]));
                }
                i = i + 1;
            } else {
                result.push(right[j]);
                proof {
                    assert(right@.subrange(0, j as int + 1) =~= right@.subrange(0, j as int).push(right@[j as int]));
                    assert(left@.subrange(0, i as int) + right@.subrange(0, j as int + 1) =~= before.push(right@[j as int]));
                }
                j = j + 1;
            }
        }
        proof {
            assert(left@.subrange(0, i as int) =~= left@);
            assert(right@.subrange(0, j as int) =~= right@);
            vstd::seq_lib::lemma_multiset_commutative(left@, right@);
        }
        result
    } else {
        let r = copy_of(collection);
        assert(sorted(r@)) by {
            assert(r@.len() <= 1);
        }
        r
    }
}

/// Two sequences with the same values, equal outside `lo..hi`, hold the same
/// values inside it.
proof fn lemma_middle_values(v: Seq<i32>, w: Seq<i32>, lo: int, hi: int)
    requires
        0 <= lo <= hi <= v.len(),
        v.len() == w.len(),
        same_values(v, w),
        forall|k: int| 0 <= k < v.len() && !(lo <= k < hi) ==> v[k] == w[k],
    ensures
        same_values(v.subrange(lo, hi), w.subrange(lo, hi)),
{
    let n = v.len() as int;
    let a = v.subrange(0, lo);
    let b = v.subrange(lo, hi);
    let c = v.subrange(hi, n);
    let b2 = w.subrange(lo, hi);
    assert(v =~= (a + b) + c);
    assert(w =~= (a + b2) + c);
    vstd::seq_lib::lemma_multiset_commutative(a, b);
    vstd::seq_lib::lemma_multiset_commutative(a + b, c);
    vstd::seq_lib::lemma_multiset_commutative(a, b2);
    vstd::seq_lib::lemma_multiset_commutative(a + b2, c);
    assert(v.to_multiset() == a.to_multiset().add(b.to_multiset()).add(c.to_multiset()));
    assert(w.to_multiset() == a.to_multiset().add(b2.to_multiset()).add(c.to_multiset()));
    assert forall|x: i32| b.to_multiset().count(x) == b2.to_multiset().count(x) by {
        assert(v.to_multiset().count(x) == w.to_multiset().count(x));
    }
    assert(b.to_multiset() =~= b2.to_multiset());
}

/// Values shared with a sequence bounded above by `x` are bounded by `x`.
proof fn lemma_bounded_values(a: Seq<i32>, b: Seq<i32>, x: i32, above: bool)
    requires
        same_values(a, b),
        forall|k: int| 0 <= k < b.len() ==> if above { b[k] <= x } else { b[k] >= x },
    ensures
        forall|k: int| 0 <= k < a.len() ==> if above { a[k] <= x } else { a[k] >= x },
{
    assert forall|k: int| 0 <= k < a.len() implies if above { a[k] <= x } else { a[k] >= x } by {
        assert(a.contains(a[k]));
        assert(a.to_multiset().count(a[k]) > 0);
        assert(b.contains(a[k]));
    }
}

/// Quick sort of a copy of `collection`.
pub fn quick_sort(collection: &[i32]) -> (r: Vec<i32>)
    ensures
        sorted(r@),
        same_values(r@, collection@),
{
    let mut result = copy_of(collection);
    let n = result.len();
    sort(&mut result, 0, n);
    result
}

/// Sorts the entries at `lo..hi` in place, leaving the others as they are.
fn sort(v: &mut Vec<i32>, lo: usize, hi: usize)
    requires
        lo <= hi <= old(v)@.len(),
    ensures
        final(v)@.len() == old(v)@.len(),
        same_values(final(v)@, old(v)@),
        forall|k: int| 0 <= k < old(v)@.len() && !(lo <= k < hi) ==> final(v)@[k] == old(v)@[k],
        forall|a: int, b: int| lo <= a <= b < hi ==> final(v)@[a] <= final(v)@[b],
    decreases hi - lo,
{
    if hi - lo > 1 {
        let ghost v0 = v@;
        let p = partition(v, lo, hi);
        let ghost v1 = v@;
        sort(v, lo, p);
        let ghost v2 = v@;
        sort(v, p + 1, hi);
        let ghost v3 = v@;
        proof {
            let x = v1[p as int];
            assert(v2[p as int] == x);
            assert(v3[p as int] == x);
            lemma_middle_values(v2, v1, lo as int, p as int);
            assert forall|k: int| 0 <= k < v1.subrange(lo as int, p as int).len() implies #[trigger] v1.subrange(lo as int, p as int)[k] <= x by {
                assert(v1.subrange(lo as int, p as int)[k] == v1[lo + k]);
            }
            lemma_bounded_values(v2.subrange(lo as int, p as int), v1.subrange(lo as int, p as int), x, true);
            lemma_middle_values(v3, v2, p + 1, hi as int);
            assert forall|k: int| 0 <= k < v2.subrange(p + 1, hi as int).len() implies #[trigger] v2.subrange(p + 1, hi as int)[k] >= x by {
                assert(v2.subrange(p + 1, hi as int)[k] == v2[p + 1 + k]);
                assert(v2[p + 1 + k] == v1[p + 1 + k]);
            }
            lemma_bounded_values(v3.subrange(p + 1, hi as int), v2.subrange(p + 1, hi as int), x, false);
            assert forall|a: int, b: int| lo <= a <= b < hi implies v3[a] <= v3[b] by {
                if a < p {
                    assert(v3[a] == v2[a]);
                    assert(v2.subrange(lo as int, p as int)[a - lo] == v2[a]);
                    if b < p {
                        assert(v3[b] == v2[b]);
                    } else if b > p {
                        assert(v3.subrange(p + 1, hi as int)[b - p - 1] == v3[b]);
                    }
                } else if a == p {
                    if b > p {
                        assert(v3.subrange(p + 1, hi as int)[b - p - 1] == v3[b]);
                    }
                }
            }
        }
    }
}

/// Lomuto partition of `lo..hi` around its last entry: returns the pivot's
/// final position, with smaller entries before it and the others after.
fn partition(v: &mut Vec<i32>, lo: usize, hi: usize) -> (p: usize)
    requires
        lo < hi <= old(v)@.len(),
    ensures
        lo <= p < hi,
        final(v)@.len() == old(v)@.len(),
        same_values(final(v)@, old(v)@),
        forall|k: int| 0 <= k < old(v)@.len() && !(lo <= k < hi) ==> final(v)@[k] == old(v)@[k],
        forall|k: int| lo <= k < p ==> final(v)@[k] <= final(v)@[p as int],
        forall|k: int| p < k < hi ==> final(v)@[k] >= final(v)@[p as int],
{
    let ghost v0 = v@;
    let last = hi - 1;
    let pivot = v[last];
    let mut i = lo;
    let mut j = lo;
    while j < last
        invariant
            lo <= i <= j <= last,
            last == hi - 1,
            hi <= v@.len(),
            v@.len() == v0.len(),
            v@[last as int] == pivot,
            same_values(v@, v0),
            forall|k: int| 0 <= k < v0.len() && !(lo <= k < hi) ==> v@[k] == v0[k],
            forall|k: int| lo <= k < i ==> v@[k] < pivot,
            forall|k: int| i <= k < j ==> v@[k] >= pivot,
        decreases last - j,
    {
        if v[j] < pivot {
            swap(v, i, j);
            i = i + 1;
        }
        j = j + 1;
    }
    swap(v, i, last);
    i
}

/// The `n`-th Fibonacci number, counting from `fib(0) == 0`, `fib(1) == 1`.
pub open spec fn fib(n: nat) -> nat
    decreases n,
{
    if n <= 1 {
        n
    } else {
        fib((n - 1) as nat) + fib((n - 2) as nat)
    }
}

pub proof fn lemma_fib_monotone(a: nat, b: nat)
    requires
        a <= b,
    ensures
        fib(a) <= fib(b),
    decreases b - a,
{
    if a < b {
        lemma_fib_monotone(a, (b - 1) as nat);
        if b >= 2 {
            assert(fib(b) == fib((b - 1) as nat) + fib((b - 2) as nat));
        }
    }
}

/// The `n`-th Fibonacci number, from the two before it, upwards.
pub fn fib_iterative(n: usize) -> (r: usize)
    requires
        fib(n as nat) <= usize::MAX,
    ensures
        r == fib(n as nat),
{
    if n <= 1 {
        return n;
    }
    let mut memo: (usize, usize) = (0, 1);
    let mut k: usize = 1;
    while k < n
        invariant
            1 <= k <= n,
            fib(n as nat) <= usize::MAX,
            memo.0 == fib((k - 1) as nat),
            memo.1 == fib(k as nat),
        decreases n - k,
    {
        proof {
            lemma_fib_monotone((k + 1) as nat, n as nat);
            assert(fib((k + 1) as nat) == fib(k as nat) + fib((k - 1) as nat));
        }
        memo = (memo.1, memo.0 + memo.1);
        k = k + 1;
    }
    memo.1
}

/// The `n`-th Fibonacci number, recursively, recording each result in `memo`
/// and taking it from there when present.
pub fn fib_recursive(n: usize, memo: &mut HashMap<usize, usize>) -> (r: usize)
    requires
        fib(n as nat) <= usize::MAX,
        forall|k: usize| #[trigger] old(memo)@.contains_key(k) ==> old(memo)@[k] == fib(k as nat),
    ensures
        r == fib(n as nat),
        forall|k: usize| #[trigger] final(memo)@.contains_key(k) ==> final(memo)@[k] == fib(k as nat),
        final(memo)@.contains_key(n),
        forall|k: usize| #[trigger] old(memo)@.contains_key(k) ==> final(memo)@.contains_key(k),
    decreases n,
{
    match memo.get(&n) {
        Some(result) => *result,
        None => {
            let result = if n <= 1 {
                n
            } else {
                proof {
                    lemma_fib_monotone((n - 1) as nat, n as nat);
                    lemma_fib_monotone((n - 2) as nat, n as nat);
                }
                let a = fib_recursive(n - 1, memo);
                let b = fib_recursive(n - 2, memo);
                a + b
            };
            memo.insert(n, result);
            result
        },
    }
}

/// Binary search for `targ` between a start and an end bound that close in
/// on it; `None` once they cross. On ascending input the answer is a position
/// of `targ` exactly when it occurs.
pub fn binary_search(arr: &[isize], targ: isize) -> (r: Option<usize>)
    ensures
        r matches Some(i) ==> i < arr@.len() && arr@[i as int] == targ,
        (forall|a: int, b: int| 0 <= a <= b < arr@.len() ==> arr@[a] <= arr@[b]) && arr@.contains(targ)
            ==> r.is_some(),
{
    if arr.len() == 0 {
        return None;
    }
    let ghost ascending = forall|a: int, b: int| 0 <= a <= b < arr@.len() ==> arr@[a] <= arr@[b];
    let mut start: usize = 0;
    let mut end: usize = arr.len() - 1;
    let mut mid: usize = end / 2;
    while arr[mid] != targ && start <= end
        invariant
            end < arr@.len(),
            start <= arr@.len(),
            mid < arr@.len(),
            start <= end ==> start <= mid <= end,
            start > end ==> mid == end,
            ascending == (forall|a: int, b: int| 0 <= a <= b < arr@.len() ==> arr@[a] <= arr@[b]),
            ascending ==> forall|k: int| 0 <= k < start ==> arr@[k] < targ,
            ascending ==> forall|k: int| end < k < arr@.len() ==> arr@[k] > targ,
        decreases end + 1 - start,
    {
        if targ < arr[mid] {
            if mid == 0 {
                return None;
            }
            end = mid - 1;
        } else {
            start = mid + 1;
        }
        mid = if start <= end { start + (end - start) / 2 } else { end };
    }
    if arr[mid] == targ {
        Some(mid)
    } else {
        proof {
            if ascending {
                assert forall|k: int| 0 <= k < arr@.len() implies arr@[k] != targ by {
                    if k >= start {
                        assert(k > end);
                    }
                }
            }
        }
        None
    }
}

/// Shell sort: gapped insertion sorts with the gap halved each time, the last
/// with gap 1.
pub fn shell_sort(collection: &[i32]) -> (r: Vec<i32>)
    ensures
        sorted(r@),
        same_values(r@, collection@),
{
    let len = collection.len();
    let mut mid = len / 2;
    let mut result = copy_of(collection);
    while mid > 0
        invariant
            result@.len() == len,
            same_values(result@, collection@),
            mid <= len,
            mid == 0 ==> sorted(result@),
        decreases mid,
    {
        let mut i = mid;
        while i < len
            invariant
                0 < mid <= i <= len,
                result@.len() == len,
                same_values(result@, collection@),
                mid == 1 ==> forall|a: int, b: int| 0 <= a <= b < i ==> result@[a] <= result@[b],
            decreases len - i,
        {
            let temp = result[i];
            let mut j = i;
            assert(result@.update(j as int, temp) =~= result@);
            while j >= mid && result[j - mid] > temp
                invariant
                    0 < mid <= i < len,
                    j <= i,
                    result@.len() == len,
                    same_values(result@.update(j as int, temp), collection@),
                    mid == 1 ==> forall|a: int, b: int| 0 <= a <= b < j ==> result@[a] <= result@[b],
                    mid == 1 ==> forall|a: int, b: int| j < a <= b <= i ==> result@[a] <= result@[b],
                    mid == 1 ==> forall|a: int, b: int| 0 <= a < j && j < b <= i ==> result@[a] <= result@[b],
                    mid == 1 ==> forall|b: int| j < b <= i ==> result@[b] > temp,
                decreases j,
            {
                let ghost hole = result@.update(j as int, temp);
                proof {
                    lemma_swap_keeps_values(hole, j as int, j - mid);
                }
                let moved = result[j - mid];
                result.set(j, moved);
                j = j - mid;
                assert(result@.update(j as int, temp) =~= hole.update(j + mid, hole[j as int]).update(
                    j as int,
                    hole[j + mid],
                ));
            }
            result.set(j, temp);
            i = i + 1;
        }
        mid = mid / 2;
    }
    result
}

/// Within `0..end`, every entry whose parent position `(j - 1) / 2` is at
/// least `lo` is at most its parent.
pub open spec fn heap_from(s: Seq<i32>, lo: int, end: int) -> bool {
    forall|j: int| 0 < j < end && lo <= (j - 1) / 2 ==> s[(j - 1) / 2] >= #[trigger] s[j]
}

proof fn lemma_root_is_max(s: Seq<i32>, end: int, k: int)
    requires
        heap_from(s, 0, end),
        0 <= k < end,
    ensures
        s[0] >= s[k],
    decreases k,
{
    if k > 0 {
        lemma_root_is_max(s, end, (k - 1) / 2);
    }
}

/// Moves the entry at `lo` down, exchanging it with its larger child, until the
/// entries in `lo..end` below it form a heap.
fn sift_down(v: &mut Vec<i32>, lo: usize, end: usize)
    requires
        lo < end <= old(v)@.len(),
        heap_from(old(v)@, lo as int + 1, end as int),
    ensures
        final(v)@.len() == old(v)@.len(),
        same_values(final(v)@, old(v)@),
        forall|k: int| 0 <= k < old(v)@.len() && !(lo <= k < end) ==> final(v)@[k] == old(v)@[k],
        heap_from(final(v)@, lo as int, end as int),
{
    let ghost v0 = v@;
    let mut i = lo;
    loop
        invariant
            lo <= i < end <= v@.len(),
            v@.len() == v0.len(),
            same_values(v@, v0),
            forall|k: int| 0 <= k < v0.len() && !(lo <= k < end) ==> v@[k] == v0[k],
            forall|j: int| 0 < j < end && lo <= (j - 1) / 2 && (j - 1) / 2 != i ==> v@[(j - 1) / 2] >= #[trigger] v@[j],
            i > lo ==> forall|j: int| 0 < j < end && (j - 1) / 2 == i ==> v@[(i - 1) / 2] >= #[trigger] v@[j],
        ensures
            v@.len() == v0.len(),
            same_values(v@, v0),
            forall|k: int| 0 <= k < v0.len() && !(lo <= k < end) ==> v@[k] == v0[k],
            heap_from(v@, lo as int, end as int),
        decreases end - i,
    {
        if i >= end - 1 - i {
            assert forall|j: int| 0 < j < end && lo <= (j - 1) / 2 implies v@[(j - 1) / 2] >= #[trigger] v@[j] by {
                if (j - 1) / 2 == i {
                    assert(j >= 2 * i + 1);
                }
            }
            break;
        }
        let left = 2 * i + 1;
        let right = left + 1;
        let mut c = left;
        if right < end && v[right] > v[left] {
            c = right;
        }
        if v[i] >= v[c] {
            assert forall|j: int| 0 < j < end && lo <= (j - 1) / 2 implies v@[(j - 1) / 2] >= #[trigger] v@[j] by {
                if (j - 1) / 2 == i {
                    assert(j == left || j == right);
                }
            }
            break;
        }
        swap(v, i, c);
        i = c;
    }
}

/// Heap sort: arranges the entries as a max-heap, then moves the largest of
/// the heap to the end of the unsorted part, one at a time.
pub fn heap_sort(collection: &[i32]) -> (r: Vec<i32>)
    ensures
        sorted(r@),
        same_values(r@, collection@),
{
    let mut v = copy_of(collection);
    let n = v.len();
    let mut i = n / 2;
    assert forall|j: int| 0 < j < n && (n / 2) as int <= (j - 1) / 2 implies v@[(j - 1) / 2] >= #[trigger] v@[j] by {
        assert(j - 1 >= 2 * (n / 2) as int);
    }
    while i > 0
        invariant
            v@.len() == n,
            same_values(v@, collection@),
            i <= n / 2,
            heap_from(v@, i as int, n as int),
        decreases i,
    {
        i = i - 1;
        sift_down(&mut v, i, n);
    }
    let mut end = n;
    while end > 1
        invariant
            v@.len() == n,
            same_values(v@, collection@),
            end <= n,
            n > 0 ==> end >= 1,
            heap_from(v@, 0, end as int),
            forall|a: int, b: int| end <= a <= b < n ==> v@[a] <= v@[b],
            forall|a: int, b: int| 0 <= a < end <= b < n ==> v@[a] <= v@[b],
        decreases end,
    {
        end = end - 1;
        proof {
            assert forall|k: int| 0 <= k <= end implies v@[0] >= #[trigger] v@[k] by {
                lemma_root_is_max(v@, end + 1, k);
            }
        }
        let ghost before = v@;
        swap(&mut v, 0, end);
        let ghost swapped = v@;
        assert(heap_from(swapped, 1, end as int)) by {
            assert forall|j: int| 0 < j < end && 1 <= (j - 1) / 2 implies swapped[(j - 1) / 2] >= #[trigger] swapped[j] by {
                assert(before[(j - 1) / 2] >= before[j]);
            }
        }
        sift_down(&mut v, 0, end);
        proof {
            let top = swapped[end as int];
            lemma_middle_values(v@, swapped, 0, end as int);
            assert forall|k: int| 0 <= k < swapped.subrange(0, end as int).len() implies #[trigger] swapped.subrange(0, end as int)[k] <= top by {
                assert(swapped.subrange(0, end as int)[k] == swapped[k]);
                if k == 0 {
                    assert(swapped[0] == before[end as int]);
                } else {
                    assert(swapped[k] == before[k]);
                }
            }
            lemma_bounded_values(v@.subrange(0, end as int), swapped.subrange(0, end as int), top, true);
            assert forall|a: int, b: int| 0 <= a < end <= b < n implies v@[a] <= v@[b] by {
                assert(v@.subrange(0, end as int)[a] == v@[a]);
                if b == end {
                    assert(v@[b] == top);
                } else {
                    assert(v@[b] == before[b]);
                    assert(before[end as int] <= before[b]);
                }
            }
            assert forall|a: int, b: int| end <= a <= b < n implies v@[a] <= v@[b] by {
                if a == end {
                    assert(v@[a] == before[0]);
                    if b > end {
                        assert(before[0] <= before[b]);
                    }
                }
            }
        }
    }
    v
}

} // verus!
