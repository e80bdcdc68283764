//! Scratch-memory requirements, computed with `dyn_stack`.
//!
//! A requirement is a size in bytes and a power-of-two alignment. Two
//! requirements held at once round each size up to the larger alignment and
//! add them. Sizes that do not fit in `usize` are reported as an error.
use crate::bidiag::{BidiagParams, Par};
use vstd::arithmetic::power2::is_pow2;
use vstd::layout::{align_of, size_of};
use vstd::prelude::*;

verus! {

/// `dyn_stack::SizeOverflow`, the error of a size computation that
/// overflows; carried through as an opaque value and mapped to
/// `ScratchOverflow`.
#[verifier::external_type_specification]
#[verifier::external_body]
pub struct ExStackSizeOverflow(dyn_stack::SizeOverflow);

/// Room for a scratch buffer: `size_bytes` bytes, aligned to `align_bytes`.
#[derive(Clone, Copy, Debug, PartialEq, Eq, Structural)]
pub struct StackReq {
    pub size_bytes: usize,
    pub align_bytes: usize,
}

/// A requirement whose size does not fit in `usize`.
#[derive(Clone, Copy, Debug, PartialEq, Eq, Structural)]
pub struct ScratchOverflow;

/// `x` rounded up to a multiple of `al`.
pub open spec fn round_up(x: int, al: int) -> int {
    ((x + al - 1) / al) * al
}

/// Room for both `a` and `b` at once, or `None` where the size overflows.
pub open spec fn req_and(a: StackReq, b: StackReq) -> Option<StackReq> {
    let al = if a.align_bytes >= b.align_bytes {
        a.align_bytes as int
    } else {
        b.align_bytes as int
    };
    let x = round_up(a.size_bytes as int, al);
    let y = round_up(b.size_bytes as int, al);
    if a.size_bytes + al - 1 <= usize::MAX && b.size_bytes + al - 1 <= usize::MAX && x + y
        <= usize::MAX {
        Some(StackReq { size_bytes: (x + y) as usize, align_bytes: al as usize })
    } else {
        None
    }
}

/// The empty requirement: no bytes, alignment one.
pub open spec fn req_empty() -> StackReq {
    StackReq { size_bytes: 0, align_bytes: 1 }
}

/// Room for `a` and `b` at once, added to the empty requirement in order.
pub open spec fn req_all_of2(a: StackReq, b: StackReq) -> Option<StackReq> {
    match req_and(req_empty(), a) {
        Some(x) => req_and(x, b),
        None => None,
    }
}

/// Room for `n` values of type `T`, or `None` where the size overflows.
pub open spec fn req_array<T>(n: int) -> Option<StackReq> {
    if size_of::<T>() * n <= usize::MAX {
        Some(StackReq { size_bytes: (size_of::<T>() * n) as usize, align_bytes: align_of::<T>() as usize })
    } else {
        None
    }
}

/// Relies on `dyn_stack::StackReq::try_new`: `n` values of `T`, aligned as
/// `T`; an error exactly where `size_of::<T>() * n` overflows.
#[verifier::external_body]
fn stack_req_try_new<T>(n: usize) -> (r: Result<StackReq, dyn_stack::SizeOverflow>)
    ensures
        r is Ok <==> req_array::<T>(n as int) is Some,
        r matches Ok(q) ==> req_array::<T>(n as int) == Some(q),
{
    dyn_stack::StackReq::try_new::<T>(n).map(
        |q: dyn_stack::StackReq| StackReq { size_bytes: q.size_bytes(), align_bytes: q.align_bytes() },
    )
}

/// Relies on `dyn_stack::StackReq::try_all_of`: room for the two
/// requirements at once, each size rounded up to the larger alignment; an
/// error exactly where one of those sums overflows.
#[verifier::external_body]
fn stack_req_try_all_of2(a: StackReq, b: StackReq) -> (r: Result<StackReq, dyn_stack::SizeOverflow>)
    requires
        is_pow2(a.align_bytes as int),
        is_pow2(b.align_bytes as int),
    ensures
        r is Ok <==> req_all_of2(a, b) is Some,
        r matches Ok(q) ==> req_all_of2(a, b) == Some(q),
{
    dyn_stack::StackReq::try_all_of(
        [
            dyn_stack::StackReq::new_aligned::<u8>(a.size_bytes, a.align_bytes),
            dyn_stack::StackReq::new_aligned::<u8>(b.size_bytes, b.align_bytes),
        ],
    ).map(|q: dyn_stack::StackReq| StackReq { size_bytes: q.size_bytes(), align_bytes: q.align_bytes() })
}

/// Room for an `nrows x ncols` matrix of `T`, stored without padding.
pub open spec fn temp_mat_req<T>(nrows: int, ncols: int) -> Option<StackReq> {
    if nrows * ncols <= usize::MAX {
        req_array::<T>(nrows * ncols)
    } else {
        None
    }
}

/// The scratch requirement of an `nrows x ncols` temporary matrix of `T`.
pub fn temp_mat_scratch<T>(nrows: usize, ncols: usize) -> (r: Result<StackReq, ScratchOverflow>)
    ensures
        r is Ok <==> temp_mat_req::<T>(nrows as int, ncols as int) is Some,
        r matches Ok(q) ==> temp_mat_req::<T>(nrows as int, ncols as int) == Some(q),
{
    match nrows.checked_mul(ncols) {
        None => Err(ScratchOverflow),
        Some(len) => match stack_req_try_new::<T>(len) {
            Ok(q) => Ok(q),
            Err(_) => Err(ScratchOverflow),
        },
    }
}

/// The scratch requirement of the bidiagonal reduction of an
/// `nrows x ncols` matrix: a column of `nrows` and a row of `ncols` values.
pub open spec fn bidiag_req<T>(nrows: int, ncols: int) -> Option<StackReq> {
    match (temp_mat_req::<T>(nrows, 1), temp_mat_req::<T>(ncols, 1)) {
        (Some(z), Some(y)) => req_all_of2(z, y),
        _ => None,
    }
}

/// The size and alignment of the scratch space that `bidiag_in_place`
/// needs for an `nrows x ncols` matrix.
pub fn bidiag_in_place_scratch<T>(nrows: usize, ncols: usize, par: Par, params: BidiagParams) -> (r: Result<
    StackReq,
    ScratchOverflow,
>)
    ensures
        r is Ok <==> bidiag_req::<T>(nrows as int, ncols as int) is Some,
        r matches Ok(q) ==> bidiag_req::<T>(nrows as int, ncols as int) == Some(q),
{
    let z = match temp_mat_scratch::<T>(nrows, 1) {
        Ok(q) => q,
        Err(e) => {
            return Err(e);
        },
    };
    let y = match temp_mat_scratch::<T>(ncols, 1) {
        Ok(q) => q,
        Err(e) => {
            return Err(e);
        },
    };
    vstd::layout::layout_for_type_is_valid::<T>();
    proof {
        broadcast use vstd::layout::align_properties;

        assert(is_pow2(align_of::<T>() as int));
    }
    match stack_req_try_all_of2(z, y) {
        Ok(q) => Ok(q),
        Err(_) => Err(ScratchOverflow),
    }
}


proof fn lemma_round_up(x: int, al: int)
    requires
        0 <= x,
        1 <= al,
    ensures
        round_up(x, al) >= x,
        x == 0 ==> round_up(0, al) == 0,
{
    let v = x + al - 1;
    vstd::arithmetic::div_mod::lemma_fundamental_div_mod(v, al);
    vstd::arithmetic::div_mod::lemma_mod_pos_bound(v, al);
    let q = v / al;
    let r = v % al;
    assert(al * q >= x) by (nonlinear_arith)
        requires
            v == al * q + r,
            0 <= r < al,
            v == x + al - 1,
    ;
    assert(q * al == al * q) by (nonlinear_arith);
    if x == 0 {
        assert(q == 0) by (nonlinear_arith)
            requires
                v == al * q + r,
                0 <= r < al,
                v == al - 1,
                1 <= al,
        ;
    }
}

/// The scratch space that `bidiag_in_place_scratch` reports for an
/// `nrows x ncols` matrix holds the `ncols + nrows` values of `T` that
/// `bidiag_in_place` requires of its scratch vector, aligned as `T`.
pub proof fn lemma_bidiag_scratch_covers_vectors<T>(nrows: int, ncols: int)
    requires
        0 <= nrows,
        0 <= ncols,
        align_of::<T>() <= usize::MAX,
    ensures
        bidiag_req::<T>(nrows, ncols) matches Some(q) ==> q.size_bytes >= size_of::<T>() * (ncols
            + nrows) && q.align_bytes == align_of::<T>(),
{
    broadcast use vstd::layout::align_nonzero;

    let s = size_of::<T>() as int;
    let al = align_of::<T>() as int;
    assert(al >= 1);
    if let Some(q) = bidiag_req::<T>(nrows, ncols) {
        assert(nrows * 1 == nrows);
        assert(ncols * 1 == ncols);
        let z = req_array::<T>(nrows).unwrap();
        let y = req_array::<T>(ncols).unwrap();
        assert(z.align_bytes == al && y.align_bytes == al);
        lemma_round_up(0, al);
        lemma_round_up(s * nrows, al);
        let x = req_and(req_empty(), z).unwrap();
        assert(x.size_bytes >= s * nrows);
        assert(x.align_bytes == al);
        lemma_round_up(x.size_bytes as int, al);
        assert(0 <= s * ncols) by (nonlinear_arith)
            requires
                0 <= s,
                0 <= ncols,
        ;
        lemma_round_up(s * ncols, al);
        assert(s * (ncols + nrows) == s * ncols + s * nrows) by (nonlinear_arith);
    }
}

} // verus!
