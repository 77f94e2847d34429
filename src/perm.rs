use vstd::prelude::*;
use vstd::set_lib::*;

verus! {

/// `p` holds each of `0..p.len()` exactly once.
pub open spec fn is_permutation(p: Seq<usize>) -> bool {
    &&& forall|i: int| 0 <= i < p.len() ==> #[trigger] p[i] < p.len()
    &&& forall|i: int, j: int| 0 <= i < p.len() && 0 <= j < p.len() && i != j ==> p[i] != p[j]
}

/// `q` undoes `p`: the entry of `q` at `p[i]` is `i`.
pub open spec fn is_inverse(p: Seq<usize>, q: Seq<usize>) -> bool {
    &&& p.len() == q.len()
    &&& forall|i: int| 0 <= i < p.len() ==> #[trigger] q[p[i] as int] == i
}

/// `0, 1, ..., n - 1`.
pub open spec fn identity(n: nat) -> Seq<usize> {
    Seq::new(n, |i: int| i as usize)
}

/// `s` with the entries at `i` and `j` exchanged.
pub open spec fn swap_at<A>(s: Seq<A>, i: int, j: int) -> Seq<A> {
    s.update(i, s[j]).update(j, s[i])
}

/// `s` after the swaps `(m, t[m])` for `m` in `0..count`, applied in that order.
pub open spec fn apply_swaps<A>(s: Seq<A>, t: Seq<usize>, count: nat) -> Seq<A>
    decreases count,
{
    if count == 0 {
        s
    } else {
        swap_at(apply_swaps(s, t, (count - 1) as nat), count - 1, t[count - 1] as int)
    }
}

/// The first `count` swaps of a list are valid positions of a sequence of
/// length `n`.
pub open spec fn swaps_in_range(t: Seq<usize>, count: nat, n: nat) -> bool {
    count <= t.len() && count <= n && forall|m: int| 0 <= m < count ==> #[trigger] t[m] < n
}

/// A permutation reaches every value below its length.
pub proof fn lemma_permutation_onto(p: Seq<usize>, v: int)
    requires
        is_permutation(p),
        0 <= v < p.len(),
    ensures
        exists|i: int| 0 <= i < p.len() && p[i] == v,
{
    let ps = p.map_values(|x: usize| x as int);
    assert(ps.no_duplicates()) by {
        assert forall|i: int, j: int| 0 <= i < ps.len() && 0 <= j < ps.len() && i != j implies ps[i]
            != ps[j] by {
            assert(p[i] != p[j]);
        }
    }
    ps.unique_seq_to_set();
    lemma_int_range(0, p.len() as int);
    let range = set_int_range(0, p.len() as int);
    assert(ps.to_set().subset_of(range)) by {
        assert forall|x: int| ps.to_set().contains(x) implies range.contains(x) by {
            let i = choose|i: int| 0 <= i < ps.len() && ps[i] == x;
            assert(p[i] < p.len());
        }
    }
    lemma_subset_equality(ps.to_set(), range);
    assert(range.contains(v));
    assert(ps.to_set().contains(v));
    let i = choose|i: int| 0 <= i < ps.len() && ps[i] == v;
    assert(p[i] == v);
}

/// Applying the swaps to any sequence moves its entries the way they move
/// the identity: the entry that lands at `i` came from position
/// `apply_swaps(identity, t, count)[i]`.
pub proof fn lemma_apply_swaps_moves(s: Seq<usize>, t: Seq<usize>, count: nat)
    requires
        swaps_in_range(t, count, s.len()),
        s.len() <= usize::MAX,
    ensures
        apply_swaps(s, t, count).len() == s.len(),
        apply_swaps(identity(s.len()), t, count).len() == s.len(),
        forall|i: int|
            0 <= i < s.len() ==> #[trigger] apply_swaps(identity(s.len()), t, count)[i] < s.len(),
        forall|i: int|
            0 <= i < s.len() ==> #[trigger] apply_swaps(s, t, count)[i] == s[apply_swaps(
                identity(s.len()),
                t,
                count,
            )[i] as int],
    decreases count,
{
    if count == 0 {
        assert forall|i: int| 0 <= i < s.len() implies #[trigger] apply_swaps(
            identity(s.len()),
            t,
            count,
        )[i] < s.len() && apply_swaps(s, t, count)[i] == s[apply_swaps(
            identity(s.len()),
            t,
            count,
        )[i] as int] by {
            assert(identity(s.len())[i] == i);
        }
    } else {
        let c = (count - 1) as nat;
        lemma_apply_swaps_moves(s, t, c);
        let prev_s = apply_swaps(s, t, c);
        let prev_id = apply_swaps(identity(s.len()), t, c);
        let a = c as int;
        let b = t[a] as int;
        assert(apply_swaps(s, t, count) == swap_at(prev_s, a, b));
        assert(apply_swaps(identity(s.len()), t, count) == swap_at(prev_id, a, b));
        assert forall|i: int| 0 <= i < s.len() implies #[trigger] apply_swaps(
            identity(s.len()),
            t,
            count,
        )[i] < s.len() && apply_swaps(s, t, count)[i] == s[apply_swaps(
            identity(s.len()),
            t,
            count,
        )[i] as int] by {
            let k = if i == b {
                a
            } else if i == a {
                b
            } else {
                i
            };
            assert(swap_at(prev_s, a, b)[i] == prev_s[k]);
            assert(swap_at(prev_id, a, b)[i] == prev_id[k]);
            assert(prev_id[k] < s.len());
            assert(prev_s[k] == s[prev_id[k] as int]);
        }
    }
}

/// The swaps only read the first `count` entries of the list.
pub(crate) proof fn lemma_apply_swaps_prefix<A>(s: Seq<A>, t1: Seq<usize>, t2: Seq<usize>, count: nat)
    requires
        count <= t1.len(),
        count <= t2.len(),
        forall|m: int| 0 <= m < count ==> t1[m] == t2[m],
    ensures
        apply_swaps(s, t1, count) == apply_swaps(s, t2, count),
    decreases count,
{
    if count > 0 {
        lemma_apply_swaps_prefix(s, t1, t2, (count - 1) as nat);
    }
}

/// A vector of `n` copies of `v`.
pub fn filled(n: usize, v: usize) -> (r: Vec<usize>)
    ensures
        r@ == Seq::new(n as nat, |i: int| v),
{
    let mut r: Vec<usize> = Vec::new();
    let mut i: usize = 0;
    while i < n
        invariant
            i <= n,
            r@ == Seq::new(i as nat, |m: int| v),
        decreases n - i,
    {
        r.push(v);
        i = i + 1;
        assert(r@ =~= Seq::new(i as nat, |m: int| v));
    }
    r
}

/// The vector `0, 1, ..., n - 1`.
pub fn identity_vec(n: usize) -> (r: Vec<usize>)
    ensures
        r@ == identity(n as nat),
{
    let mut r: Vec<usize> = Vec::new();
    let mut i: usize = 0;
    while i < n
        invariant
            i <= n,
            r@ == identity(i as nat),
        decreases n - i,
    {
        r.push(i);
        i = i + 1;
        assert(r@ =~= identity(i as nat));
    }
    r
}

/// The inverse of a permutation.
pub fn invert_permutation(p: &Vec<usize>) -> (q: Vec<usize>)
    requires
        is_permutation(p@),
    ensures
        is_inverse(p@, q@),
        is_inverse(q@, p@),
        is_permutation(q@),
{
    let n = p.len();
    let mut q = filled(n, 0);
    let mut i: usize = 0;
    while i < n
        invariant
            n == p.len(),
            q.len() == n,
            i <= n,
            is_permutation(p@),
            forall|m: int| 0 <= m < i ==> #[trigger] q@[p@[m] as int] == m,
        decreases n - i,
    {
        q.set(p[i], i);
        i = i + 1;
    }
    proof {
        assert forall|v: int| 0 <= v < n implies #[trigger] q@[v] < n && p@[q@[v] as int] == v by {
            lemma_permutation_onto(p@, v);
            let m = choose|m: int| 0 <= m < p.len() && p@[m] == v;
            assert(q@[p@[m] as int] == m);
        }
        assert forall|a: int, b: int| 0 <= a < n && 0 <= b < n && a != b implies q@[a] != q@[b] by {
            assert(p@[q@[a] as int] == a);
            assert(p@[q@[b] as int] == b);
        }
    }
    q
}

/// The swap list that turns the identity arrangement into `target`, one
/// position at a time from the front: the swap at `i` brings `target[i]` to
/// position `i` from wherever the earlier swaps left it.
pub fn transpositions_for(target: &Vec<usize>) -> (t: Vec<usize>)
    requires
        is_permutation(target@),
    ensures
        t.len() == target.len(),
        forall|i: int| 0 <= i < t.len() ==> i <= #[trigger] t[i] < t.len(),
        apply_swaps(identity(target.len() as nat), t@, target.len() as nat) == target@,
{
    let n = target.len();
    let mut t = filled(n, 0);
    // where each starting column now sits, and which column sits at each position
    let mut real_col = identity_vec(n);
    let mut real_ind = identity_vec(n);
    let mut i: usize = 0;
    while i < n
        invariant
            n == target.len(),
            is_permutation(target@),
            i <= n,
            t.len() == n,
            real_col.len() == n,
            real_ind.len() == n,
            forall|m: int| 0 <= m < i ==> m <= #[trigger] t@[m] < n,
            real_ind@ == apply_swaps(identity(n as nat), t@, i as nat),
            forall|p: int| 0 <= p < n ==> #[trigger] real_ind@[p] < n,
            forall|x: int| 0 <= x < n ==> #[trigger] real_col@[x] < n,
            forall|x: int| 0 <= x < n ==> real_ind@[real_col@[x] as int] == x,
            forall|p: int| 0 <= p < n ==> #[trigger] real_col@[real_ind@[p] as int] == p,
            forall|p: int| 0 <= p < i ==> #[trigger] real_ind@[p] == target@[p],
        decreases n - i,
    {
        let pi = target[i];
        let j = real_col[pi];
        proof {
            if (j as int) < (i as int) {
                assert(real_ind@[j as int] == target@[j as int]);
                assert(real_ind@[j as int] == pi);
                assert(false);
            }
        }
        let ghost old_t = t@;
        let ghost old_ind = real_ind@;
        let ghost old_col = real_col@;
        t.set(i, j);
        proof {
            lemma_apply_swaps_prefix(identity(n as nat), old_t, t@, i as nat);
        }
        let real_i = real_ind[i];
        real_col.set(real_i, j);
        real_col.set(pi, i);
        real_ind.set(j, real_i);
        real_ind.set(i, pi);
        proof {
            assert(real_ind@ =~= swap_at(old_ind, i as int, j as int));
            assert forall|p: int| 0 <= p < n implies #[trigger] real_col@[real_ind@[p] as int] == p by {
                if p != i && p != j {
                    assert(old_col[old_ind[p] as int] == p);
                    assert(old_col[old_ind[i as int] as int] == i);
                    assert(old_col[old_ind[j as int] as int] == j);
                }
            }
        }
        i = i + 1;
    }
    t
}

/// Swaps keep a permutation a permutation.
pub proof fn lemma_swaps_permutation(n: nat, t: Seq<usize>, count: nat)
    requires
        swaps_in_range(t, count, n),
        n <= usize::MAX,
    ensures
        is_permutation(apply_swaps(identity(n), t, count)),
        apply_swaps(identity(n), t, count).len() == n,
    decreases count,
{
    if count == 0 {
        assert forall|i: int| 0 <= i < n implies #[trigger] identity(n)[i] < n by {}
    } else {
        let c = (count - 1) as nat;
        lemma_swaps_permutation(n, t, c);
        let prev = apply_swaps(identity(n), t, c);
        let a = c as int;
        let b = t[a] as int;
        let cur = swap_at(prev, a, b);
        assert(apply_swaps(identity(n), t, count) == cur);
        let src = |i: int|
            if i == b {
                a
            } else if i == a {
                b
            } else {
                i
            };
        assert forall|i: int| 0 <= i < n implies cur[i] == prev[src(i)] by {}
        assert forall|i: int| 0 <= i < n implies #[trigger] cur[i] < n by {
            assert(cur[i] == prev[src(i)]);
        }
        assert forall|i: int, j: int| 0 <= i < n && 0 <= j < n && i != j implies cur[i] != cur[j] by {
            assert(cur[i] == prev[src(i)]);
            assert(cur[j] == prev[src(j)]);
        }
    }
}

/// The arrangement `apply_swaps(identity(n), t, count)`: the column that
/// lands at each position once the swaps are done.
pub fn arrange_by_swaps(t: &Vec<usize>, count: usize, n: usize) -> (r: Vec<usize>)
    requires
        swaps_in_range(t@, count as nat, n as nat),
    ensures
        r@ == apply_swaps(identity(n as nat), t@, count as nat),
        is_permutation(r@),
{
    let mut r = identity_vec(n);
    let mut m: usize = 0;
    while m < count
        invariant
            swaps_in_range(t@, count as nat, n as nat),
            m <= count,
            r@ == apply_swaps(identity(n as nat), t@, m as nat),
        decreases count - m,
    {
        proof {
            lemma_swaps_permutation(n as nat, t@, m as nat);
        }
        let j = t[m];
        let a = r[m];
        let b = r[j];
        r.set(m, b);
        r.set(j, a);
        m = m + 1;
        assert(r@ =~= apply_swaps(identity(n as nat), t@, m as nat));
    }
    proof {
        lemma_swaps_permutation(n as nat, t@, count as nat);
    }
    r
}

} // verus!
