use faer::bidiag::{BidiagParams, Par};
use faer::cholesky::{reconstruct_lower_in_place_req, reconstruct_lower_req};
use faer::stack::{bidiag_in_place_scratch, temp_mat_scratch, ScratchOverflow, StackReq};

#[test]
fn bidiag_scratch_holds_both_vectors() {
    let r = bidiag_in_place_scratch::<f64>(8, 4, Par::Sequential, BidiagParams::auto()).unwrap();
    assert_eq!(r, StackReq { size_bytes: 96, align_bytes: 8 });
    assert!(r.size_bytes >= 8 * (8 + 4));
}

#[test]
fn bidiag_scratch_rounds_to_alignment() {
    let r = bidiag_in_place_scratch::<u8>(3, 5, Par::Rayon(2), BidiagParams::auto()).unwrap();
    assert_eq!(r, StackReq { size_bytes: 8, align_bytes: 1 });
    let r = bidiag_in_place_scratch::<u32>(0, 0, Par::Sequential, BidiagParams::auto()).unwrap();
    assert_eq!(r.size_bytes, 0);
}

#[test]
fn bidiag_scratch_reports_overflow() {
    assert_eq!(bidiag_in_place_scratch::<f64>(usize::MAX, 1, Par::Sequential, BidiagParams::auto()), Err(ScratchOverflow));
    assert_eq!(bidiag_in_place_scratch::<u8>(usize::MAX, 1, Par::Sequential, BidiagParams::auto()), Err(ScratchOverflow));
    assert_eq!(bidiag_in_place_scratch::<u8>(1, usize::MAX, Par::Sequential, BidiagParams::auto()), Err(ScratchOverflow));
}

#[test]
fn temp_matrix_scratch() {
    assert_eq!(temp_mat_scratch::<u16>(3, 5), Ok(StackReq { size_bytes: 30, align_bytes: 2 }));
    assert_eq!(temp_mat_scratch::<u8>(usize::MAX, 2), Err(ScratchOverflow));
}

#[test]
fn cholesky_scratch() {
    assert_eq!(reconstruct_lower_req(7), Ok(StackReq { size_bytes: 0, align_bytes: 1 }));
    assert_eq!(reconstruct_lower_in_place_req::<f64>(3), Ok(StackReq { size_bytes: 72, align_bytes: 8 }));
    assert_eq!(reconstruct_lower_in_place_req::<f64>(usize::MAX), Err(ScratchOverflow));
}

#[test]
fn default_params() {
    assert_eq!(BidiagParams::auto().par_threshold, 192 * 256);
    assert_eq!(BidiagParams::default().par_threshold, 192 * 256);
}
