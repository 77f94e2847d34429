use vstd::prelude::*;
use vstd::arithmetic::power2::is_pow2;
use dyn_stack::StackReq;
use faer_core::jacobi::JacobiRotation;
use faer_core::Parallelism;
use faer_entity::Entity;

verus! {

#[verifier::external_type_specification]
#[verifier::external_body]
pub struct ExParallelism(Parallelism);

#[verifier::external_type_specification]
#[verifier::external_body]
#[verifier::reject_recursive_types(T)]
pub struct ExJacobiRotation<T>(JacobiRotation<T>);

/// A scratch-memory requirement: `size` bytes at an alignment of `align`.
#[derive(Clone, Copy, Debug, PartialEq, Eq, Structural)]
pub struct ScratchReq {
    pub size: usize,
    pub align: usize,
}

/// A requirement computation overflowed `usize`.
#[derive(Clone, Copy, Debug, PartialEq, Eq, Structural)]
pub struct SizeOverflow;

impl ScratchReq {
    /// The alignment is a power of two.
    pub open spec fn wf(self) -> bool {
        is_pow2(self.align as int)
    }
}

/// The requirement of nothing at all.
pub open spec fn empty_req() -> ScratchReq {
    ScratchReq { size: 0, align: 1 }
}

/// `x` rounded up to a multiple of `a`.
pub open spec fn round_up(x: int, a: int) -> int {
    ((x + a - 1) / a) * a
}

/// Room for both `a` and `b` at once: the larger alignment, and both sizes
/// rounded up to it and added; `None` where a sum leaves `usize`.
pub open spec fn and_of(a: ScratchReq, b: ScratchReq) -> Option<ScratchReq> {
    let al = if a.align >= b.align {
        a.align
    } else {
        b.align
    };
    if a.size + al - 1 > usize::MAX || b.size + al - 1 > usize::MAX || round_up(a.size as int, al as int)
        + round_up(b.size as int, al as int) > usize::MAX {
        None
    } else {
        Some(
            ScratchReq {
                size: (round_up(a.size as int, al as int) + round_up(b.size as int, al as int)) as usize,
                align: al,
            },
        )
    }
}

/// Room for all of `reqs` at once, combined from the front.
pub open spec fn all_of(reqs: Seq<ScratchReq>) -> Option<ScratchReq>
    decreases reqs.len(),
{
    if reqs.len() == 0 {
        Some(empty_req())
    } else {
        match all_of(reqs.drop_last()) {
            None => None,
            Some(acc) => and_of(acc, reqs.last()),
        }
    }
}

/// Relies on `dyn_stack::StackReq::try_and`: the larger alignment, and both
/// sizes rounded up to it and added, or an overflow error. The two
/// requirements are brought to `StackReq` as byte arrays of their size and
/// alignment.
#[verifier::external_body]
fn req_and(a: ScratchReq, b: ScratchReq) -> (r: Option<ScratchReq>)
    requires
        a.wf(),
        b.wf(),
    ensures
        r == and_of(a, b),
{
    let sa = StackReq::try_new_aligned::<u8>(a.size, a.align).unwrap();
    let sb = StackReq::try_new_aligned::<u8>(b.size, b.align).unwrap();
    match sa.try_and(sb) {
        Ok(s) => Some(ScratchReq { size: s.size_bytes(), align: s.align_bytes() }),
        Err(_) => None,
    }
}

/// Relies on `dyn_stack::StackReq::try_new::<usize>`: `n` indices at the
/// alignment of `usize`, or an overflow error.
#[verifier::external_body]
fn index_array_req(n: usize) -> (r: Option<ScratchReq>)
    ensures
        r is None <==> n * vstd::layout::size_of::<usize>() > usize::MAX,
        r is Some ==> r->Some_0.size == n * vstd::layout::size_of::<usize>() && r->Some_0.align
            == vstd::layout::align_of::<usize>() && r->Some_0.wf(),
{
    match StackReq::try_new::<usize>(n) {
        Ok(s) => Some(ScratchReq { size: s.size_bytes(), align: s.align_bytes() }),
        Err(_) => None,
    }
}

/// Relies on `dyn_stack::StackReq::try_new::<JacobiRotation<E>>`: `n`
/// plane rotations at their own alignment, or an overflow error.
#[verifier::external_body]
fn rotation_array_req<E>(n: usize) -> (r: Option<ScratchReq>)
    ensures
        r is None <==> n * vstd::layout::size_of::<JacobiRotation<E>>() > usize::MAX,
        r is Some ==> r->Some_0.size == n * vstd::layout::size_of::<JacobiRotation<E>>()
            && r->Some_0.align == vstd::layout::align_of::<JacobiRotation<E>>() && r->Some_0.wf(),
{
    match StackReq::try_new::<JacobiRotation<E>>(n) {
        Ok(s) => Some(ScratchReq { size: s.size_bytes(), align: s.align_bytes() }),
        Err(_) => None,
    }
}

/// Relies on `faer_core::temp_mat_req::<E>`: room for a temporary
/// `nrows × ncols` matrix, or an overflow error.
#[verifier::external_body]
fn temp_matrix_req<E: Entity>(nrows: usize, ncols: usize) -> (r: Option<ScratchReq>)
    ensures
        r is Some ==> r->Some_0.wf(),
{
    match faer_core::temp_mat_req::<E>(nrows, ncols) {
        Ok(s) => Some(ScratchReq { size: s.size_bytes(), align: s.align_bytes() }),
        Err(_) => None,
    }
}

/// The sum of the sizes of `reqs`.
pub open spec fn total_size(reqs: Seq<ScratchReq>) -> int
    decreases reqs.len(),
{
    if reqs.len() == 0 {
        0
    } else {
        total_size(reqs.drop_last()) + reqs.last().size
    }
}

/// Rounding up never lowers a size.
proof fn lemma_round_up_grows(x: int, a: int)
    requires
        x >= 0,
        a >= 1,
    ensures
        round_up(x, a) >= x,
{
    vstd::arithmetic::div_mod::lemma_fundamental_div_mod(x + a - 1, a);
    let q = (x + a - 1) / a;
    let r = (x + a - 1) % a;
    assert(q * a == a * q) by (nonlinear_arith);
    assert(r < a);
}

/// Room for everything is at least the sum of the parts, and its alignment
/// is one of theirs.
pub proof fn lemma_all_of_covers(reqs: Seq<ScratchReq>)
    requires
        forall|i: int| 0 <= i < reqs.len() ==> #[trigger] reqs[i].wf(),
    ensures
        all_of(reqs) is Some ==> all_of(reqs)->Some_0.wf() && all_of(reqs)->Some_0.size >= total_size(
            reqs,
        ),
    decreases reqs.len(),
{
    if reqs.len() == 0 {
        reveal(is_pow2);
        assert(is_pow2(1));
    } else {
        let init = reqs.drop_last();
        assert forall|i: int| 0 <= i < init.len() implies #[trigger] init[i].wf() by {
            assert(init[i] == reqs[i]);
        }
        lemma_all_of_covers(init);
        assert(reqs.last().wf());
        if all_of(reqs) is Some {
            assert(all_of(init) is Some);
            let acc = all_of(init)->Some_0;
            assert(is_pow2(acc.align as int));
            assert(is_pow2(reqs.last().align as int));
            reveal(is_pow2);
            let b = reqs.last();
            let al = if acc.align >= b.align {
                acc.align
            } else {
                b.align
            };
            assert(acc.align >= 1 && b.align >= 1);
            lemma_round_up_grows(acc.size as int, al as int);
            lemma_round_up_grows(b.size as int, al as int);
        }
    }
}

/// Combines a list of requirements from the front, ending at the first
/// overflow.
pub fn req_all_of(reqs: &Vec<ScratchReq>) -> (r: Result<ScratchReq, SizeOverflow>)
    requires
        forall|i: int| 0 <= i < reqs.len() ==> #[trigger] reqs@[i].wf(),
    ensures
        r is Ok <==> all_of(reqs@) is Some,
        r is Ok ==> r->Ok_0 == all_of(reqs@)->Some_0 && r->Ok_0.wf(),
{
    let mut acc = ScratchReq { size: 0, align: 1 };
    let mut i: usize = 0;
    proof {
        lemma_all_of_covers(reqs@.subrange(0, 0));
        assert(reqs@.subrange(0, 0) =~= Seq::<ScratchReq>::empty());
    }
    while i < reqs.len()
        invariant
            i <= reqs.len(),
            forall|j: int| 0 <= j < reqs.len() ==> #[trigger] reqs@[j].wf(),
            all_of(reqs@.subrange(0, i as int)) == Some(acc),
            acc.wf(),
        decreases reqs.len() - i,
    {
        let ghost prefix = reqs@.subrange(0, i as int + 1);
        proof {
            assert(prefix.drop_last() =~= reqs@.subrange(0, i as int));
            assert(prefix.last() == reqs@[i as int]);
            assert forall|j: int| 0 <= j < prefix.len() implies #[trigger] prefix[j].wf() by {
                assert(prefix[j] == reqs@[j]);
            }
            lemma_all_of_covers(prefix);
        }
        match req_and(acc, reqs[i]) {
            Some(next) => {
                acc = next;
            },
            None => {
                proof {
                    lemma_all_of_none_extends(reqs@, i as nat + 1);
                    assert(reqs@.subrange(0, reqs.len() as int) =~= reqs@);
                }
                return Err(SizeOverflow);
            },
        }
        i = i + 1;
    }
    assert(reqs@.subrange(0, reqs.len() as int) =~= reqs@);
    Ok(acc)
}

/// Once a prefix overflows, every longer prefix does.
proof fn lemma_all_of_none_extends(reqs: Seq<ScratchReq>, m: nat)
    requires
        m <= reqs.len(),
        all_of(reqs.subrange(0, m as int)) is None,
    ensures
        all_of(reqs.subrange(0, reqs.len() as int)) is None,
    decreases reqs.len() - m,
{
    if m < reqs.len() {
        let next = reqs.subrange(0, m as int + 1);
        assert(next.drop_last() =~= reqs.subrange(0, m as int));
        lemma_all_of_none_extends(reqs, m + 1);
    }
}

/// The scratch requirement of one divide-and-conquer merge, from the
/// requirements of its parts: an index array, the rotation list, the inner
/// factors `um` and `vm`, and the product buffer for `U`. The index array
/// is needed five times over (permutation, rotation indices, transpositions,
/// and the two bookkeeping arrays of the sort), the `V` buffer twice.
pub fn dc_scratch_req(
    index: ScratchReq,
    rotations: ScratchReq,
    um: ScratchReq,
    vm: ScratchReq,
    combined_u: ScratchReq,
) -> (r: Result<ScratchReq, SizeOverflow>)
    requires
        index.wf(),
        rotations.wf(),
        um.wf(),
        vm.wf(),
        combined_u.wf(),
    ensures
        r is Ok <==> all_of(seq![index, rotations, index]) is Some && all_of(
            seq![all_of(seq![index, rotations, index])->Some_0, um, vm, combined_u, vm, index, index, index],
        ) is Some,
        r is Ok ==> r->Ok_0 == all_of(
            seq![all_of(seq![index, rotations, index])->Some_0, um, vm, combined_u, vm, index, index, index],
        )->Some_0,
        r is Ok ==> r->Ok_0.wf() && r->Ok_0.size >= 5 * index.size + rotations.size,
{
    let prologue_parts = vec![index, rotations, index];
    proof {
        assert(prologue_parts@ =~= seq![index, rotations, index]);
    }
    let prologue = match req_all_of(&prologue_parts) {
        Ok(p) => p,
        Err(e) => {
            return Err(e);
        },
    };
    let parts = vec![prologue, um, vm, combined_u, vm, index, index, index];
    let ghost ps = seq![prologue, um, vm, combined_u, vm, index, index, index];
    proof {
        assert(parts@ =~= ps);
        lemma_all_of_covers(prologue_parts@);
        lemma_all_of_covers(ps);
        assert(total_size(prologue_parts@) == index.size + rotations.size + index.size) by {
            reveal_with_fuel(total_size, 4);
            assert(prologue_parts@.drop_last() =~= seq![index, rotations]);
            assert(prologue_parts@.drop_last().drop_last() =~= seq![index]);
            assert(prologue_parts@.drop_last().drop_last().drop_last() =~= Seq::<ScratchReq>::empty());
        }
        assert(total_size(ps) >= prologue.size + 3 * index.size) by {
            lemma_total_size_ge_parts(ps);
        }
    }
    req_all_of(&parts)
}

/// A total size is at least the first part plus the last three.
proof fn lemma_total_size_ge_parts(reqs: Seq<ScratchReq>)
    requires
        reqs.len() == 8,
    ensures
        total_size(reqs) >= reqs[0].size + reqs[5].size + reqs[6].size + reqs[7].size,
{
    reveal_with_fuel(total_size, 9);
    let s = reqs;
    assert(s.drop_last()[0] == s[0]);
    assert(s.drop_last().drop_last()[0] == s[0]);
    assert(s.drop_last().drop_last().drop_last()[0] == s[0]);
    assert(s.drop_last().drop_last().drop_last().drop_last()[0] == s[0]);
    assert(s.drop_last().drop_last().drop_last().drop_last().drop_last()[0] == s[0]);
    assert(s.drop_last().drop_last().drop_last().drop_last().drop_last().drop_last()[0] == s[0]);
    assert(s.drop_last().drop_last().drop_last().drop_last().drop_last().drop_last().drop_last()
        =~= seq![s[0]]);
    assert(seq![s[0]].drop_last() =~= Seq::<ScratchReq>::empty());
    assert(s.drop_last().last() == s[6]);
    assert(s.drop_last().drop_last().last() == s[5]);
}

/// The shape of the one temporary that the Jacobi path needs for `n`
/// columns: the square matrix it works on.
pub fn jacobi_temp_shape(n: usize) -> (r: (usize, usize))
    ensures
        r == (n, n),
{
    (n, n)
}

/// What one divide-and-conquer merge of `n` columns allocates besides its
/// index arrays.
#[derive(Clone, Copy, Debug)]
pub struct DcShapes {
    /// The number of deferred plane rotations.
    pub rotations: usize,
    /// The inner left factor.
    pub um: (usize, usize),
    /// The inner right factor, empty when `V` is not wanted.
    pub vm: (usize, usize),
    /// The buffer for the product with `U`: full, or its first and last row.
    pub combined_u: (usize, usize),
}

/// The shapes a merge of `n` columns allocates: `n` rotations, an
/// `(n+1) × (n+1)` inner left factor, an `n × n` inner right factor (`n × 0`
/// without `V`), and an `(n+1) × (n+1)` product buffer for `U` (`2 × (n+1)`
/// when only the first and last rows of `U` are kept).
pub fn dc_temp_shapes(n: usize, compute_u: bool, compute_v: bool) -> (r: DcShapes)
    requires
        n < usize::MAX,
    ensures
        r == (DcShapes {
            rotations: n,
            um: ((n + 1) as usize, (n + 1) as usize),
            vm: (
                n,
                if compute_v {
                    n
                } else {
                    0
                },
            ),
            combined_u: (
                if compute_u {
                    (n + 1) as usize
                } else {
                    2
                },
                (n + 1) as usize,
            ),
        }),
{
    DcShapes {
        rotations: n,
        um: (n + 1, n + 1),
        vm: (
            n,
            if compute_v {
                n
            } else {
                0
            },
        ),
        combined_u: (
            if compute_u {
                n + 1
            } else {
                2
            },
            n + 1,
        ),
    }
}

/// The scratch memory that solving a bidiagonal problem with `n` columns
/// needs, for scalars of type `E`. Up to the Jacobi threshold it is the one
/// temporary of `jacobi_temp_shape`; above it, what one divide-and-conquer
/// merge needs (`dc_scratch_req` over the shapes of `dc_temp_shapes`), which
/// holds the five index arrays and the rotation list at once.
/// `parallelism` does not change the amount.
pub fn bidiag_real_svd_req<E: Entity>(
    n: usize,
    jacobi_fallback_threshold: usize,
    compute_u: bool,
    compute_v: bool,
    parallelism: Parallelism,
) -> (r: Result<ScratchReq, SizeOverflow>)
    ensures
        r is Ok ==> r->Ok_0.wf(),
        n > jacobi_fallback_threshold && r is Ok ==> r->Ok_0.size >= 5 * n
            * vstd::layout::size_of::<usize>() + n * vstd::layout::size_of::<JacobiRotation<E>>(),
        n > jacobi_fallback_threshold && n * vstd::layout::size_of::<usize>() > usize::MAX
            ==> r is Err,
        n > jacobi_fallback_threshold && n * vstd::layout::size_of::<JacobiRotation<E>>()
            > usize::MAX ==> r is Err,
{
    let _ = parallelism;
    if n <= jacobi_fallback_threshold {
        let (rows, cols) = jacobi_temp_shape(n);
        return match temp_matrix_req::<E>(rows, cols) {
            Some(m) => Ok(m),
            None => Err(SizeOverflow),
        };
    }
    let index = match index_array_req(n) {
        Some(x) => x,
        None => {
            return Err(SizeOverflow);
        },
    };
    proof {
        broadcast use vstd::layout::layout_of_primitives;
        assert(vstd::layout::size_of::<usize>() >= 2);
        assert(n * vstd::layout::size_of::<usize>() >= 2 * n) by (nonlinear_arith)
            requires
                vstd::layout::size_of::<usize>() >= 2,
        ;
    }
    let shapes = dc_temp_shapes(n, compute_u, compute_v);
    let rotations = match rotation_array_req::<E>(shapes.rotations) {
        Some(x) => x,
        None => {
            return Err(SizeOverflow);
        },
    };
    let um = match temp_matrix_req::<E>(shapes.um.0, shapes.um.1) {
        Some(x) => x,
        None => {
            return Err(SizeOverflow);
        },
    };
    let vm = match temp_matrix_req::<E>(shapes.vm.0, shapes.vm.1) {
        Some(x) => x,
        None => {
            return Err(SizeOverflow);
        },
    };
    let combined_u = match temp_matrix_req::<E>(shapes.combined_u.0, shapes.combined_u.1) {
        Some(x) => x,
        None => {
            return Err(SizeOverflow);
        },
    };
    proof {
        assert(5 * index.size == 5 * n * vstd::layout::size_of::<usize>()) by (nonlinear_arith)
            requires
                index.size == n * vstd::layout::size_of::<usize>(),
        ;
    }
    dc_scratch_req(index, rotations, um, vm, combined_u)
}

} // verus!
