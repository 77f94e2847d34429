use vstd::prelude::*;
use crate::perm::{apply_swaps, is_permutation, swap_at, filled};

verus! {

/// The number of leading columns that take part in the secular solve:
/// trailing columns whose rank-one entry is exactly zero are dropped, but
/// column 0 always stays.
pub fn active_count(is_zero: &Vec<bool>) -> (m: usize)
    requires
        is_zero.len() >= 1,
    ensures
        1 <= m <= is_zero.len(),
        m == 1 || !is_zero@[m - 1],
        forall|y: int| m <= y < is_zero.len() ==> is_zero@[y],
{
    let mut m = is_zero.len();
    while m > 1 && is_zero[m - 1]
        invariant
            1 <= m <= is_zero.len(),
            forall|y: int| m <= y < is_zero.len() ==> is_zero@[y],
        decreases m,
    {
        m = m - 1;
    }
    m
}

/// The positions below `m` whose flag is clear, in increasing order.
pub open spec fn clear_positions(flags: Seq<bool>, m: nat) -> Seq<usize>
    decreases m,
{
    if m == 0 {
        seq![]
    } else {
        let rest = clear_positions(flags, (m - 1) as nat);
        if flags[m - 1] {
            rest
        } else {
            rest.push((m - 1) as usize)
        }
    }
}

/// The columns below `m` whose rank-one entry is not zero: the indices the
/// secular equation sums over.
pub fn nonzero_positions(is_zero: &Vec<bool>, m: usize) -> (r: Vec<usize>)
    requires
        m <= is_zero.len(),
    ensures
        r@ == clear_positions(is_zero@, m as nat),
{
    let mut r: Vec<usize> = Vec::new();
    let mut i: usize = 0;
    while i < m
        invariant
            m <= is_zero.len(),
            i <= m,
            r@ == clear_positions(is_zero@, i as nat),
        decreases m - i,
    {
        if !is_zero[i] {
            r.push(i);
        }
        i = i + 1;
    }
    r
}

/// `idx` is the first position of `lo..hi` that holds the smallest entry of
/// `s` on that range.
pub open spec fn is_first_min(s: Seq<u64>, lo: int, hi: int, idx: int) -> bool {
    &&& lo <= idx < hi
    &&& forall|y: int| lo <= y < hi ==> s[idx] <= s[y]
    &&& forall|y: int| lo <= y < idx ==> s[idx] < s[y]
}

/// The entries of `s` on `lo..hi` never decrease.
pub open spec fn non_decreasing(s: Seq<u64>, lo: int, hi: int) -> bool {
    forall|a: int, b: int| lo <= a < b < hi ==> s[a] <= s[b]
}

/// The swaps that sort `keys` into non-decreasing order by selection: the
/// swap at `k` brings the first smallest entry of what remains on `k..n` to
/// position `k`.
pub fn ascending_swaps(keys: &Vec<u64>) -> (t: Vec<usize>)
    ensures
        t.len() == keys.len(),
        forall|k: int| 0 <= k < t.len() ==> k <= #[trigger] t@[k] < t.len(),
        forall|k: int|
            0 <= k < t.len() ==> is_first_min(
                apply_swaps(keys@, t@, k as nat),
                k,
                keys.len() as int,
                #[trigger] t@[k] as int,
            ),
        non_decreasing(apply_swaps(keys@, t@, keys.len() as nat), 0, keys.len() as int),
{
    let n = keys.len();
    let mut w: Vec<u64> = Vec::new();
    let mut c: usize = 0;
    while c < n
        invariant
            n == keys.len(),
            c <= n,
            w@ == keys@.subrange(0, c as int),
        decreases n - c,
    {
        w.push(keys[c]);
        c = c + 1;
        assert(w@ =~= keys@.subrange(0, c as int));
    }
    assert(w@ =~= keys@);
    let mut t = filled(n, 0);
    let mut k: usize = 0;
    while k < n
        invariant
            n == keys.len(),
            w.len() == n,
            t.len() == n,
            k <= n,
            forall|a: int| 0 <= a < k ==> a <= #[trigger] t@[a] < n,
            w@ == apply_swaps(keys@, t@, k as nat),
            forall|a: int|
                0 <= a < k ==> is_first_min(
                    apply_swaps(keys@, t@, a as nat),
                    a,
                    n as int,
                    #[trigger] t@[a] as int,
                ),
            non_decreasing(w@, 0, k as int),
            forall|a: int, b: int| 0 <= a < k <= b < n ==> w@[a] <= w@[b],
        decreases n - k,
    {
        let mut min_idx: usize = k;
        let mut kk: usize = k + 1;
        while kk < n
            invariant
                n == w.len(),
                k < n,
                k < kk <= n,
                k <= min_idx < kk,
                forall|y: int| k <= y < kk ==> w@[min_idx as int] <= w@[y],
                forall|y: int| k <= y < min_idx ==> w@[min_idx as int] < w@[y],
            decreases n - kk,
        {
            if w[kk] < w[min_idx] {
                min_idx = kk;
            }
            kk = kk + 1;
        }
        let ghost old_t = t@;
        let ghost old_w = w@;
        proof {
            assert(is_first_min(old_w, k as int, n as int, min_idx as int));
        }
        t.set(k, min_idx);
        let a = w[k];
        let b = w[min_idx];
        w.set(k, b);
        w.set(min_idx, a);
        proof {
            crate::perm::lemma_apply_swaps_prefix(keys@, old_t, t@, k as nat);
            assert(w@ =~= swap_at(old_w, k as int, min_idx as int));
            assert forall|q: int| 0 <= q < k + 1 implies is_first_min(
                apply_swaps(keys@, t@, q as nat),
                q,
                n as int,
                #[trigger] t@[q] as int,
            ) by {
                if q < k {
                    crate::perm::lemma_apply_swaps_prefix(keys@, old_t, t@, q as nat);
                }
            }
        }
        k = k + 1;
    }
    t
}

/// The column each computed singular vector is written to. The `m` values
/// were sorted ascending, and `slot_inv[k]` is the place of value `k`
/// in that order; they are stored largest first, so value `k` goes to column
/// `m - 1 - slot_inv[k]`. Columns from `m` on keep their index.
pub fn output_columns(slot_inv: &Vec<usize>, n: usize) -> (r: Vec<usize>)
    requires
        slot_inv.len() <= n,
        is_permutation(slot_inv@),
    ensures
        r.len() == n,
        forall|k: int| 0 <= k < slot_inv.len() ==> #[trigger] r@[k] == slot_inv.len() - 1 - slot_inv@[k],
        forall|k: int| slot_inv.len() <= k < n ==> #[trigger] r@[k] == k,
        is_permutation(r@),
{
    let m = slot_inv.len();
    let mut r: Vec<usize> = Vec::new();
    let mut k: usize = 0;
    while k < n
        invariant
            m == slot_inv.len() <= n,
            is_permutation(slot_inv@),
            k <= n,
            r.len() == k,
            forall|q: int| 0 <= q < k && q < m ==> #[trigger] r@[q] == m - 1 - slot_inv@[q],
            forall|q: int| m <= q < k ==> #[trigger] r@[q] == q,
        decreases n - k,
    {
        if k >= m {
            r.push(k);
        } else {
            r.push(m - 1 - slot_inv[k]);
        }
        k = k + 1;
    }
    proof {
        assert forall|a: int, b: int| 0 <= a < n && 0 <= b < n && a != b implies r@[a] != r@[b] by {
            if a < m && b < m {
                assert(slot_inv@[a] != slot_inv@[b]);
            }
        }
    }
    r
}

/// The last position that holds `x` in `perm`, or 0 when none does.
pub fn position_of(perm: &Vec<usize>, x: usize) -> (r: usize)
    ensures
        perm.len() == 0 ==> r == 0,
        perm.len() > 0 ==> r < perm.len(),
        (exists|q: int| 0 <= q < perm.len() && perm@[q] == x) ==> perm@[r as int] == x && forall|q: int|
            r < q < perm.len() ==> perm@[q] != x,
        (forall|q: int| 0 <= q < perm.len() ==> perm@[q] != x) ==> r == 0,
{
    let mut r: usize = 0;
    let mut found = false;
    let mut q: usize = 0;
    while q < perm.len()
        invariant
            q <= perm.len(),
            perm.len() > 0 ==> r < perm.len(),
            found ==> r < q && perm@[r as int] == x && forall|y: int| r < y < q ==> perm@[y] != x,
            !found ==> r == 0 && forall|y: int| 0 <= y < q ==> perm@[y] != x,
        decreases perm.len() - q,
    {
        if perm[q] == x {
            r = q;
            found = true;
        }
        q = q + 1;
    }
    r
}

/// The first column after `k` whose rank-one entry is not zero: the right
/// end of the interval that holds root `k` of the secular equation.
pub fn next_active(col0_is_zero: &Vec<bool>, k: usize, m: usize) -> (l: usize)
    requires
        k + 1 < m <= col0_is_zero.len(),
        !col0_is_zero@[m - 1],
    ensures
        k < l < m,
        !col0_is_zero@[l as int],
        forall|y: int| k < y < l ==> col0_is_zero@[y],
{
    let mut l = k + 1;
    while col0_is_zero[l]
        invariant
            k < l < m <= col0_is_zero.len(),
            !col0_is_zero@[m - 1],
            forall|y: int| k < y < l ==> col0_is_zero@[y],
        decreases m - l,
    {
        l = l + 1;
    }
    l
}

/// What factor `l` of the product for `zhat[k]` uses.
#[derive(Clone, Copy, Debug, PartialEq, Eq, Structural)]
pub enum Partner {
    /// The factor is left out: it is column `k` itself.
    Skip,
    /// The product is zero: the first active column lies at or after `k`.
    Vanishes,
    /// The factor pairs the active column with the root of this index.
    Root(usize),
}

/// Which root pairs with the `l`-th active column `perm[l]` in the product
/// that recomputes the rank-one entry of column `k`: the root of the same
/// index below `k`, and the root of the previous active column above it.
pub fn perturb_partner(perm: &Vec<usize>, l: usize, k: usize) -> (r: Partner)
    requires
        l < perm.len(),
    ensures
        perm@[l as int] == k ==> r == Partner::Skip,
        perm@[l as int] != k && perm@[l as int] >= k && l == 0 ==> r == Partner::Vanishes,
        perm@[l as int] != k && perm@[l as int] < k ==> r == Partner::Root(perm@[l as int]),
        perm@[l as int] > k && l > 0 ==> r == Partner::Root(perm@[l - 1]),
{
    let i = perm[l];
    if i == k {
        Partner::Skip
    } else if i >= k && l == 0 {
        Partner::Vanishes
    } else if i < k {
        Partner::Root(i)
    } else {
        Partner::Root(perm[l - 1])
    }
}

} // verus!
