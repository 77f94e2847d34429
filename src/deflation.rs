use vstd::prelude::*;
use crate::perm::is_permutation;

verus! {

/// The entries of `keys` on `lo..hi` never increase.
pub open spec fn non_increasing(keys: Seq<u64>, lo: int, hi: int) -> bool {
    forall|a: int, b: int| lo <= a < b < hi ==> keys[a] >= keys[b]
}

/// Column `a` comes before column `b` in a merge by decreasing key: larger
/// keys first, and among equal keys the lower index first.
pub open spec fn precedes(keys: Seq<u64>, a: usize, b: usize) -> bool {
    keys[a as int] > keys[b as int] || (keys[a as int] == keys[b as int] && a < b)
}

/// The keys of the columns `order[lo..hi]` never decrease.
pub open spec fn ascending_on(keys: Seq<u64>, order: Seq<usize>, lo: int, hi: int) -> bool {
    forall|a: int, b: int|
        lo <= a <= b < hi ==> keys[#[trigger] order[a] as int] <= keys[#[trigger] order[b] as int]
}

/// Appends to `r` the columns `1..=k` and `k+1..n`, each half already
/// sorted by decreasing key, merged by decreasing key with the left half
/// first among equal keys.
#[verifier::rlimit(40)]
fn merge_halves(keys: &Vec<u64>, k: usize, r: &mut Vec<usize>)
    requires
        k < keys.len(),
        non_increasing(keys@, 1, k + 1),
        non_increasing(keys@, k + 1, keys.len() as int),
        old(r).len() == 1,
    ensures
        final(r).len() == keys.len(),
        final(r)@[0] == old(r)@[0],
        forall|q: int| 1 <= q < keys.len() ==> 1 <= #[trigger] final(r)@[q] < keys.len(),
        forall|a: int, b: int| 1 <= a < b < keys.len() ==> final(r)@[a] != final(r)@[b],
        forall|q: int|
            1 <= q < keys.len() - 1 ==> precedes(keys@, #[trigger] final(r)@[q], final(r)@[q + 1]),
{
    let n = keys.len();
    let ghost r0 = r@;
    let mut i: usize = 1;
    let mut j: usize = k + 1;
    while r.len() < n
        invariant
            n == keys.len(),
            k < n,
            non_increasing(keys@, 1, k + 1),
            non_increasing(keys@, k + 1, n as int),
            1 <= r.len() <= n,
            1 <= i <= k + 1,
            k + 1 <= j <= n,
            (i - 1) + (j - k - 1) == r.len() - 1,
            r@[0] == r0[0],
            forall|q: int| 1 <= q < r.len() ==> (1 <= #[trigger] r@[q] < i) || (k + 1 <= r@[q] < j),
            forall|a: int, b: int| 1 <= a < b < r.len() ==> r@[a] != r@[b],
            forall|q: int| 1 <= q < r.len() - 1 ==> precedes(keys@, #[trigger] r@[q], r@[q + 1]),
            r.len() > 1 ==> forall|y: usize|
                (i <= y < k + 1 || j <= y < n) ==> #[trigger] precedes(keys@, r@[r.len() - 1], y),
        decreases n - r.len(),
    {
        let ghost old_r = r@;
        let ghost old_i = i;
        let ghost old_j = j;
        let pick: usize;
        if i > k {
            pick = j;
            j = j + 1;
        } else if j >= n {
            pick = i;
            i = i + 1;
        } else if keys[i] < keys[j] {
            pick = j;
            j = j + 1;
        } else {
            pick = i;
            i = i + 1;
        }
        let ghost took_left = i != old_i;
        proof {
            if took_left {
                assert forall|y: usize| (i <= y < k + 1 || j <= y < n) implies precedes(
                    keys@,
                    pick,
                    y,
                ) by {
                    if i <= y < k + 1 {
                        assert(keys@[pick as int] >= keys@[y as int]);
                    } else {
                        assert(keys@[pick as int] >= keys@[old_j as int]);
                        assert(keys@[old_j as int] >= keys@[y as int]);
                    }
                }
            } else {
                assert forall|y: usize| (i <= y < k + 1 || j <= y < n) implies precedes(
                    keys@,
                    pick,
                    y,
                ) by {
                    if j <= y < n {
                        assert(keys@[pick as int] >= keys@[y as int]);
                    } else {
                        assert(keys@[old_i as int] < keys@[pick as int]);
                        assert(keys@[old_i as int] >= keys@[y as int]);
                    }
                }
            }
            if old_r.len() > 1 {
                assert(old_i <= pick < k + 1 || old_j <= pick < n);
                assert(precedes(keys@, old_r[old_r.len() - 1], pick));
            }
        }
        r.push(pick);
        proof {
            assert forall|q: int| 1 <= q < old_r.len() implies r@[q] != pick by {
                assert(r@[q] == old_r[q]);
            }
        }
    }
}

/// Along a chain of `precedes`, keys never increase.
proof fn lemma_precedes_chain(keys: Seq<u64>, order: Seq<usize>, lo: int, hi: int)
    requires
        1 <= lo <= hi < order.len(),
        forall|q: int| 0 <= q < order.len() ==> #[trigger] order[q] < keys.len(),
        forall|q: int| 1 <= q < order.len() - 1 ==> precedes(keys, #[trigger] order[q], order[q + 1]),
    ensures
        keys[order[lo] as int] >= keys[order[hi] as int],
    decreases hi - lo,
{
    if lo < hi {
        lemma_precedes_chain(keys, order, lo + 1, hi);
        assert(precedes(keys, order[lo], order[lo + 1]));
    }
}

/// The column order that deflation sorts into. Column 0 stays first; the
/// columns `1..n` follow by increasing key, taken from the two halves
/// `1..=k` and `k+1..n`, each already sorted by decreasing key. Among equal
/// keys the higher index comes first. The columns whose key is below
/// `threshold` (the near-zero diagonal entries) thus come right after
/// column 0.
///
/// Returns the order and the position `p` where the keys reach
/// `threshold`.
pub fn deflation_order(keys: &Vec<u64>, k: usize, threshold: u64) -> (r: (Vec<usize>, usize))
    requires
        k < keys.len(),
        non_increasing(keys@, 1, k + 1),
        non_increasing(keys@, k + 1, keys.len() as int),
    ensures
        r.0.len() == keys.len(),
        r.0@[0] == 0,
        is_permutation(r.0@),
        ascending_on(keys@, r.0@, 1, keys.len() as int),
        forall|q: int|
            1 <= q < keys.len() - 1 ==> precedes(keys@, #[trigger] r.0@[q + 1], r.0@[q]),
        1 <= r.1 <= keys.len(),
        forall|q: int| 1 <= q < r.1 ==> keys@[#[trigger] r.0@[q] as int] < threshold,
        forall|q: int| r.1 <= q < keys.len() ==> keys@[#[trigger] r.0@[q] as int] >= threshold,
{
    let n = keys.len();
    let mut desc: Vec<usize> = Vec::new();
    desc.push(0);
    merge_halves(keys, k, &mut desc);
    let mut r: Vec<usize> = Vec::new();
    r.push(0);
    let mut i: usize = 1;
    while i < n
        invariant
            n == keys.len() == desc.len(),
            1 <= i <= n,
            r.len() == i,
            r@[0] == 0,
            forall|q: int| 1 <= q < i ==> #[trigger] r@[q] == desc@[n - q],
        decreases n - i,
    {
        r.push(desc[n - i]);
        i = i + 1;
    }
    proof {
        assert forall|q: int| 0 <= q < n implies #[trigger] r@[q] < n by {
            if q > 0 {
                assert(r@[q] == desc@[n - q]);
            }
        }
        assert forall|a: int, b: int| 0 <= a < n && 0 <= b < n && a != b implies r@[a] != r@[b] by {
            if a > 0 {
                assert(r@[a] == desc@[n - a]);
            }
            if b > 0 {
                assert(r@[b] == desc@[n - b]);
            }
        }
        assert forall|q: int| 0 <= q < n implies #[trigger] desc@[q] < n by {
            if q == 0 {
                assert(desc@[0] == 0);
            }
        }
        assert forall|q: int| 1 <= q < n - 1 implies precedes(keys@, #[trigger] r@[q + 1], r@[q]) by {
            assert(r@[q] == desc@[n - q]);
            assert(r@[q + 1] == desc@[n - q - 1]);
            assert(precedes(keys@, desc@[n - q - 1], desc@[n - q - 1 + 1]));
        }
        assert forall|a: int, b: int| 1 <= a <= b < n implies keys@[#[trigger] r@[a] as int]
            <= keys@[#[trigger] r@[b] as int] by {
            assert(r@[a] == desc@[n - a]);
            assert(r@[b] == desc@[n - b]);
            lemma_precedes_chain(keys@, desc@, n - b, n - a);
        }
    }
    let mut p: usize = 1;
    while p < n && keys[r[p]] < threshold
        invariant
            n == keys.len() == r.len(),
            1 <= p <= n,
            forall|q: int| 0 <= q < n ==> #[trigger] r@[q] < n,
            forall|q: int| 1 <= q < p ==> keys@[#[trigger] r@[q] as int] < threshold,
        decreases n - p,
    {
        p = p + 1;
    }
    proof {
        assert forall|q: int| p <= q < n implies keys@[#[trigger] r@[q] as int] >= threshold by {
            assert(keys@[r@[p as int] as int] <= keys@[r@[q] as int]);
        }
    }
    (r, p)
}

/// Column `c` goes before column 0 on a total deflation: its key is at most
/// the key of column 0.
pub open spec fn goes_before_first(keys: Seq<u64>, c: usize) -> bool {
    keys[c as int] <= keys[0]
}

/// On a total deflation (every rank-one entry but the first negligible),
/// column 0 leaves the front of `order` and takes its place among the
/// others by key: after every column whose key is at most its own. The
/// whole order is then by increasing key.
///
/// Returns the new order and the position `m` in `order` of the first
/// column that stays after column 0 (`n` if none does).
pub fn shift_first_column(order: &Vec<usize>, keys: &Vec<u64>) -> (r: (Vec<usize>, usize))
    requires
        order.len() == keys.len(),
        order.len() >= 1,
        order@[0] == 0,
        is_permutation(order@),
        ascending_on(keys@, order@, 1, order.len() as int),
    ensures
        1 <= r.1 <= order.len(),
        forall|i: int| 1 <= i < r.1 ==> goes_before_first(keys@, #[trigger] order@[i]),
        r.1 < order.len() ==> !goes_before_first(keys@, order@[r.1 as int]),
        r.0@ == order@.subrange(1, r.1 as int) + seq![0usize] + order@.subrange(
            r.1 as int,
            order.len() as int,
        ),
        is_permutation(r.0@),
        ascending_on(keys@, r.0@, 0, order.len() as int),
{
    let n = order.len();
    let mut r: Vec<usize> = Vec::new();
    let mut m: usize = 1;
    while m < n
        invariant
            n == order.len() == keys.len(),
            is_permutation(order@),
            1 <= m <= n,
            forall|i: int| 1 <= i < m ==> goes_before_first(keys@, #[trigger] order@[i]),
            r@ == order@.subrange(1, m as int),
        ensures
            1 <= m <= n,
            forall|i: int| 1 <= i < m ==> goes_before_first(keys@, #[trigger] order@[i]),
            r@ == order@.subrange(1, m as int),
            m < n ==> !goes_before_first(keys@, order@[m as int]),
        decreases n - m,
    {
        let c = order[m];
        if keys[c] > keys[0] {
            break;
        }
        r.push(c);
        m = m + 1;
        assert(r@ =~= order@.subrange(1, m as int));
    }
    r.push(0);
    let mut q = m;
    while q < n
        invariant
            n == order.len(),
            1 <= m <= q <= n,
            r@ == order@.subrange(1, m as int) + seq![0usize] + order@.subrange(m as int, q as int),
        decreases n - q,
    {
        r.push(order[q]);
        q = q + 1;
        assert(r@ =~= order@.subrange(1, m as int) + seq![0usize] + order@.subrange(
            m as int,
            q as int,
        ));
    }
    proof {
        let s = r@;
        let src = |a: int|
            if a < m - 1 {
                a + 1
            } else if a == m - 1 {
                0
            } else {
                a
            };
        assert(s.len() == n);
        assert forall|a: int| 0 <= a < n implies s[a] == order@[src(a)] by {}
        assert forall|a: int, b: int| 0 <= a < n && 0 <= b < n && a != b implies s[a] != s[b] by {
            assert(s[a] == order@[src(a)]);
            assert(s[b] == order@[src(b)]);
        }
        assert forall|a: int| 0 <= a < n implies #[trigger] s[a] < n by {
            assert(s[a] == order@[src(a)]);
        }
        assert forall|a: int, b: int| 0 <= a <= b < n implies keys@[#[trigger] s[a] as int]
            <= keys@[#[trigger] s[b] as int] by {
            assert(s[a] == order@[src(a)]);
            assert(s[b] == order@[src(b)]);
            if a < m - 1 && b == m - 1 {
                assert(goes_before_first(keys@, order@[a + 1]));
            } else if a == m - 1 && b > m - 1 {
                assert(!goes_before_first(keys@, order@[m as int]));
                assert(keys@[order@[m as int] as int] <= keys@[order@[b] as int]);
            } else if a < m - 1 && b > m - 1 {
                assert(goes_before_first(keys@, order@[a + 1]));
                assert(!goes_before_first(keys@, order@[m as int]));
                assert(keys@[order@[m as int] as int] <= keys@[order@[b] as int]);
            }
        }
    }
    (r, m)
}

/// The last column that can still be merged with its neighbour: scanning
/// down from `n - 1`, columns whose diagonal or rank-one entry is
/// negligible are passed over; column 0 ends the scan.
pub fn last_unreduced(negligible: &Vec<bool>) -> (i: usize)
    requires
        negligible.len() >= 1,
    ensures
        i < negligible.len(),
        i == 0 || !negligible@[i as int],
        forall|y: int| i < y < negligible.len() ==> negligible@[y],
{
    let mut i = negligible.len() - 1;
    while i > 0 && negligible[i]
        invariant
            i < negligible.len(),
            forall|y: int| i < y < negligible.len() ==> negligible@[y],
        decreases i,
    {
        i = i - 1;
    }
    i
}

} // verus!
