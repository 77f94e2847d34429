use vstd::prelude::*;
use crate::deflation::non_increasing;
use crate::perm::{apply_swaps, filled, swap_at, swaps_in_range};

verus! {

/// The cap on implicit QR sweeps for `n` columns: `30·n²`, saturated at
/// `usize::MAX`.
pub fn qr_iteration_cap(n: usize) -> (r: usize)
    ensures
        r as int == if 30 * n * n <= usize::MAX {
            30 * n * n
        } else {
            usize::MAX as int
        },
{
    match 30usize.checked_mul(n) {
        Some(a) => match a.checked_mul(n) {
            Some(b) => b,
            None => usize::MAX,
        },
        None => {
            proof {
                if n > 0 {
                    assert(30 * n * n >= 30 * n) by (nonlinear_arith)
                        requires
                            n > 0,
                    ;
                }
            }
            usize::MAX
        },
    }
}

/// The block that the next QR sweep works on, for a bidiagonal with
/// `tiny.len() + 1` columns. `tiny[i]` says that off-diagonal entry `i` is
/// below the convergence floor, `zero[i]` that it is exactly zero.
///
/// The block ends at `end`, the largest column count such that every
/// off-diagonal entry from `end - 1` on is tiny; it starts at `start`, the
/// smallest index such that no off-diagonal entry in `start..end - 1` is
/// zero. `None` when `end` is 1: the matrix has converged. An entry that is
/// exactly zero is also tiny.
pub fn active_block(tiny: &Vec<bool>, zero: &Vec<bool>) -> (r: Option<(usize, usize)>)
    requires
        tiny.len() == zero.len(),
        tiny.len() < usize::MAX,
        forall|y: int| 0 <= y < zero.len() ==> zero@[y] ==> tiny@[y],
    ensures
        r is None <==> forall|y: int| 0 <= y < tiny.len() ==> tiny@[y],
        r is Some ==> {
            let (start, end) = r->Some_0;
            &&& 2 <= end <= tiny.len() + 1
            &&& !tiny@[end - 2]
            &&& forall|y: int| end - 1 <= y < tiny.len() ==> tiny@[y]
            &&& start < end - 1
            &&& start == 0 || zero@[start - 1]
            &&& forall|y: int| start <= y < end - 1 ==> !zero@[y]
        },
{
    let mut end: usize = tiny.len() + 1;
    while end > 1 && tiny[end - 2]
        invariant
            1 <= end <= tiny.len() + 1,
            forall|y: int| end - 1 <= y < tiny.len() ==> tiny@[y],
        decreases end,
    {
        end = end - 1;
    }
    if end == 1 {
        return None;
    }
    let mut start: usize = end - 1;
    while start > 0 && !zero[start - 1]
        invariant
            2 <= end <= tiny.len() + 1,
            tiny.len() == zero.len(),
            !tiny@[end - 2],
            forall|y: int| end - 1 <= y < tiny.len() ==> tiny@[y],
            forall|y: int| 0 <= y < zero.len() ==> zero@[y] ==> tiny@[y],
            start <= end - 1,
            forall|y: int| start <= y < end - 1 ==> !zero@[y],
        decreases start,
    {
        start = start - 1;
    }
    Some((start, end))
}

/// `idx` is the first position of `lo..hi` that holds the largest entry of
/// `s` on that range.
pub open spec fn is_first_max(s: Seq<u64>, lo: int, hi: int, idx: int) -> bool {
    &&& lo <= idx < hi
    &&& forall|y: int| lo <= y < hi ==> s[y] <= s[idx]
    &&& forall|y: int| lo <= y < idx ==> s[y] < s[idx]
}

/// `t` is the swap list of a selection sort of `keys` by decreasing key: the
/// swap at `k` brings the first largest remaining entry to position `k`.
pub open spec fn is_selection_swaps(keys: Seq<u64>, t: Seq<usize>) -> bool {
    &&& t.len() == keys.len()
    &&& forall|k: int| 0 <= k < t.len() ==> k <= #[trigger] t[k] < t.len()
    &&& forall|k: int|
        0 <= k < t.len() ==> is_first_max(apply_swaps(keys, t, k as nat), k, keys.len() as int, #[trigger] t[k] as int)
}

/// Sorting a second time changes nothing: the selection swaps of an
/// already sorted sequence all leave their entry in place, and the
/// sequence comes back unchanged.
pub proof fn lemma_resort_is_identity(keys: Seq<u64>, t1: Seq<usize>, t2: Seq<usize>)
    requires
        is_selection_swaps(keys, t1),
        non_increasing(apply_swaps(keys, t1, keys.len()), 0, keys.len() as int),
        is_selection_swaps(apply_swaps(keys, t1, keys.len()), t2),
    ensures
        forall|k: int| 0 <= k < t2.len() ==> #[trigger] t2[k] == k,
        apply_swaps(apply_swaps(keys, t1, keys.len()), t2, keys.len()) == apply_swaps(keys, t1, keys.len()),
{
    let s = apply_swaps(keys, t1, keys.len());
    lemma_apply_swaps_len(keys, t1, keys.len());
    lemma_sorted_selection_is_identity(s, t2, s.len());
}

proof fn lemma_apply_swaps_len(s: Seq<u64>, t: Seq<usize>, count: nat)
    requires
        swaps_in_range(t, count, s.len()),
    ensures
        apply_swaps(s, t, count).len() == s.len(),
    decreases count,
{
    if count > 0 {
        lemma_apply_swaps_len(s, t, (count - 1) as nat);
    }
}

proof fn lemma_sorted_selection_is_identity(s: Seq<u64>, t: Seq<usize>, count: nat)
    requires
        is_selection_swaps(s, t),
        non_increasing(s, 0, s.len() as int),
        count <= s.len(),
    ensures
        forall|k: int| 0 <= k < count ==> #[trigger] t[k] == k,
        apply_swaps(s, t, count) == s,
    decreases count,
{
    if count > 0 {
        let c = (count - 1) as nat;
        lemma_sorted_selection_is_identity(s, t, c);
        assert(is_first_max(apply_swaps(s, t, c), c as int, s.len() as int, t[c as int] as int));
        if t[c as int] != c {
            assert(s[c as int] >= s[t[c as int] as int]);
            assert(s[c as int] < s[t[c as int] as int]);
        }
        assert(apply_swaps(s, t, count) =~= s);
    }
}

/// The swaps that sort `keys` into non-increasing order by selection: the
/// swap at `k` brings the first largest entry of what remains on `k..n` to
/// position `k`. An input that is already sorted gets no swap.
pub fn descending_swaps(keys: &Vec<u64>) -> (t: Vec<usize>)
    ensures
        is_selection_swaps(keys@, t@),
        non_increasing(apply_swaps(keys@, t@, keys.len() as nat), 0, keys.len() as int),
        non_increasing(keys@, 0, keys.len() as int) ==> forall|k: int|
            0 <= k < t.len() ==> #[trigger] t@[k] == k,
{
    let n = keys.len();
    let mut w: Vec<u64> = Vec::new();
    let mut c: usize = 0;
    while c < n
        invariant
            n == keys.len(),
            c <= n,
            w@ == keys@.subrange(0, c as int),
        decreases n - c,
    {
        w.push(keys[c]);
        c = c + 1;
        assert(w@ =~= keys@.subrange(0, c as int));
    }
    assert(w@ =~= keys@);
    let mut t = filled(n, 0);
    let mut k: usize = 0;
    while k < n
        invariant
            n == keys.len(),
            w.len() == n,
            t.len() == n,
            k <= n,
            forall|a: int| 0 <= a < k ==> a <= #[trigger] t@[a] < n,
            w@ == apply_swaps(keys@, t@, k as nat),
            forall|a: int|
                0 <= a < k ==> is_first_max(
                    apply_swaps(keys@, t@, a as nat),
                    a,
                    n as int,
                    #[trigger] t@[a] as int,
                ),
            non_increasing(w@, 0, k as int),
            forall|a: int, b: int| 0 <= a < k <= b < n ==> w@[a] >= w@[b],
            non_increasing(keys@, 0, n as int) ==> w@ == keys@ && forall|a: int|
                0 <= a < k ==> #[trigger] t@[a] == a,
        decreases n - k,
    {
        let mut max: u64 = 0;
        let mut max_idx: usize = k;
        let mut kk: usize = k;
        while kk < n
            invariant
                n == w.len(),
                k < n,
                k <= kk <= n,
                k <= max_idx < n,
                max_idx == k || max_idx < kk,
                kk > k ==> w@[max_idx as int] == max,
                kk == k ==> max == 0 && max_idx == k,
                forall|y: int| k <= y < kk ==> w@[y] <= max,
                forall|y: int| k <= y < max_idx ==> w@[y] < max,
            decreases n - kk,
        {
            if w[kk] > max {
                max = w[kk];
                max_idx = kk;
            } else if kk == k {
                assert(w@[k as int] == 0);
            }
            kk = kk + 1;
        }
        let ghost old_t = t@;
        let ghost old_w = w@;
        proof {
            assert(is_first_max(old_w, k as int, n as int, max_idx as int));
        }
        t.set(k, max_idx);
        let a = w[k];
        let b = w[max_idx];
        w.set(k, b);
        w.set(max_idx, a);
        proof {
            crate::perm::lemma_apply_swaps_prefix(keys@, old_t, t@, k as nat);
            assert(w@ =~= swap_at(old_w, k as int, max_idx as int));
            assert forall|q: int| 0 <= q < k + 1 implies is_first_max(
                apply_swaps(keys@, t@, q as nat),
                q,
                n as int,
                #[trigger] t@[q] as int,
            ) by {
                if q < k {
                    crate::perm::lemma_apply_swaps_prefix(keys@, old_t, t@, q as nat);
                }
            }
            if non_increasing(keys@, 0, n as int) {
                if max_idx != k {
                    assert(old_w[k as int] >= old_w[max_idx as int]);
                    assert(old_w[k as int] < old_w[max_idx as int]);
                }
                assert(w@ =~= keys@);
            }
        }
        k = k + 1;
    }
    t
}

} // verus!
