use bidiag_svd::req::{dc_scratch_req, dc_temp_shapes, jacobi_temp_shape, req_all_of};
use bidiag_svd::{bidiag_real_svd_req, ScratchReq, SizeOverflow};
use faer_core::Parallelism;

fn req(size: usize, align: usize) -> ScratchReq {
    ScratchReq { size, align }
}

fn round_up(x: usize, a: usize) -> usize {
    (x + a - 1) / a * a
}

fn both(a: ScratchReq, b: ScratchReq) -> ScratchReq {
    let align = a.align.max(b.align);
    req(round_up(a.size, align) + round_up(b.size, align), align)
}

fn all(parts: &[ScratchReq]) -> ScratchReq {
    parts.iter().fold(req(0, 1), |acc, &p| both(acc, p))
}

/// A temporary matrix of doubles: columns padded to the cache line.
fn double_matrix(nrows: usize, ncols: usize) -> ScratchReq {
    let align = faer_core::CACHELINE_ALIGN.max(8);
    let per_line = align / 8;
    req(round_up(nrows, per_line) * ncols * 8, align)
}

#[test]
fn small_problems_need_one_square_temporary() {
    let r = bidiag_real_svd_req::<f64>(4, 5, true, true, Parallelism::None);
    assert_eq!(r, Ok(double_matrix(4, 4)));
    if faer_core::CACHELINE_ALIGN == 128 {
        assert_eq!(r, Ok(req(512, 128)));
    }
}

#[test]
fn merge_requirement_of_nine_columns() {
    let r = bidiag_real_svd_req::<f64>(9, 5, true, true, Parallelism::None);
    let index = req(9 * core::mem::size_of::<usize>(), core::mem::align_of::<usize>());
    let rotations = req(9 * 16, 8);
    let prologue = all(&[index, rotations, index]);
    let vm = double_matrix(9, 9);
    let expected = all(&[
        prologue,
        double_matrix(10, 10),
        vm,
        double_matrix(10, 10),
        vm,
        index,
        index,
        index,
    ]);
    assert_eq!(r, Ok(expected));
    if faer_core::CACHELINE_ALIGN == 128 && core::mem::size_of::<usize>() == 8 {
        assert_eq!(r, Ok(req(5632, 128)));
    }
}

#[test]
fn merge_requirement_without_u_keeps_two_rows() {
    let r = bidiag_real_svd_req::<f64>(9, 5, false, false, Parallelism::None);
    let index = req(9 * core::mem::size_of::<usize>(), core::mem::align_of::<usize>());
    let rotations = req(9 * 16, 8);
    let prologue = all(&[index, rotations, index]);
    let vm = double_matrix(9, 0);
    let expected = all(&[
        prologue,
        double_matrix(10, 10),
        vm,
        double_matrix(2, 10),
        vm,
        index,
        index,
        index,
    ]);
    assert_eq!(r, Ok(expected));
}

#[test]
fn merge_requirement_from_its_parts() {
    let r = dc_scratch_req(req(72, 8), req(144, 8), req(1280, 128), req(1152, 128), req(1280, 128));
    assert_eq!(r, Ok(req(5632, 128)));
}

#[test]
fn temporary_shapes_of_each_path() {
    assert_eq!(jacobi_temp_shape(4), (4, 4));
    let s = dc_temp_shapes(9, true, true);
    assert_eq!(s.rotations, 9);
    assert_eq!(s.um, (10, 10));
    assert_eq!(s.vm, (9, 9));
    assert_eq!(s.combined_u, (10, 10));
    let s = dc_temp_shapes(9, false, false);
    assert_eq!(s.vm, (9, 0));
    assert_eq!(s.combined_u, (2, 10));
}

#[test]
fn combining_rounds_up_to_the_larger_alignment() {
    assert_eq!(req_all_of(&vec![req(3, 1), req(5, 8)]), Ok(req(16, 8)));
    assert_eq!(req_all_of(&vec![]), Ok(req(0, 1)));
    assert_eq!(req_all_of(&vec![req(usize::MAX - 2, 1), req(8, 8)]), Err(SizeOverflow));
}

#[test]
fn huge_sizes_overflow() {
    let r = bidiag_real_svd_req::<f64>(usize::MAX / 4, 5, true, true, Parallelism::None);
    assert_eq!(r, Err(SizeOverflow));
}
