//! Chunking of a batched polynomial evaluation on the GPU: each evaluation
//! point sums its polynomial's coefficients in chunks, one partial sum per
//! chunk, and the partial sums are then reduced.

use vstd::prelude::*;
use crate::dispatch::MAX_EXACT_JS_INTEGER;

verus! {

/// Most coefficients one partial sum covers.
pub const WEBGPU_BATCH_EVALUATE_CHUNK_SIZE: usize = 1024;

/// Alignment, in bytes, of a storage buffer binding's offset.
pub const WEBGPU_STORAGE_BUFFER_OFFSET_ALIGNMENT: u64 = 256;

/// Bytes in a base field element.
pub const ELEM_BYTES: u64 = 4;

/// Words in an extension field element.
pub const EXT_WORDS: usize = 4;

/// How a batched evaluation is chunked.
#[derive(Clone, Copy, Debug, PartialEq, Eq)]
pub struct BatchEvaluatePlan {
    /// Coefficients per polynomial.
    pub deg: usize,
    /// Coefficients per partial sum.
    pub chunk_size: usize,
    /// Partial sums per evaluation point.
    pub chunk_count: usize,
    /// Bytes of one polynomial's coefficients.
    pub coeff_slice_bytes: u64,
}

/// Why the parameters of an evaluation point could not be computed.
#[derive(Clone, Copy, Debug, PartialEq, Eq)]
pub enum BatchEvaluateError {
    /// The point names a polynomial that does not exist.
    PolyIdOutOfRange { poly_id: usize, poly_count: usize },
    /// The polynomial's slice offset overflows.
    CoeffSliceOverflow,
    /// The slice's byte offset in the coefficient buffer overflows.
    CoeffOffsetOverflow,
    /// The point's offset among the partial sums exceeds `u32`.
    PartialOffsetOverflow,
    /// The point's partial sums start past `u32`.
    PartialBaseOverflow,
}

/// Coefficients per partial sum for polynomials of `deg` coefficients.
pub open spec fn chunk_size_for(deg: int) -> int {
    if deg > WEBGPU_BATCH_EVALUATE_CHUNK_SIZE {
        WEBGPU_BATCH_EVALUATE_CHUNK_SIZE as int
    } else if deg < 1 {
        1
    } else {
        deg
    }
}

/// `a / b` rounded up.
pub open spec fn div_ceil(a: int, b: int) -> int {
    (a + b - 1) / b
}

/// The GPU can evaluate `poly_count` polynomials stored one after another
/// in a buffer of `coeffs_size` coefficients starting at byte
/// `coeffs_byte_offset`: they have equal, non-zero lengths, and one
/// polynomial's coefficients can be bound on their own.
pub open spec fn batch_plan_ok(coeffs_size: int, coeffs_byte_offset: int, poly_count: int, max_binding: int) -> bool {
    &&& poly_count > 0
    &&& coeffs_size % poly_count == 0
    &&& {
        let bytes = (coeffs_size / poly_count) * ELEM_BYTES;
        &&& bytes != 0
        &&& bytes <= max_binding
        &&& bytes <= MAX_EXACT_JS_INTEGER
        &&& coeffs_byte_offset % (WEBGPU_STORAGE_BUFFER_OFFSET_ALIGNMENT as int) == 0
        &&& bytes % (WEBGPU_STORAGE_BUFFER_OFFSET_ALIGNMENT as int) == 0
    }
}

/// The chunking of a batched evaluation of `poly_count` polynomials held in
/// `coeffs_size` coefficients at byte `coeffs_byte_offset`, with bindings of
/// at most `max_binding` bytes; `None` when the GPU cannot take it.
pub fn plan_batch_evaluate_any(coeffs_size: usize, coeffs_byte_offset: u64, poly_count: usize, max_binding: u64) -> (r:
    Option<BatchEvaluatePlan>)
    requires
        coeffs_size * ELEM_BYTES <= usize::MAX,
    ensures
        r is Some <==> batch_plan_ok(coeffs_size as int, coeffs_byte_offset as int, poly_count as int, max_binding as int),
        r matches Some(p) ==> {
            &&& p.deg == coeffs_size / poly_count
            &&& p.chunk_size == chunk_size_for(p.deg as int)
            &&& p.chunk_count == div_ceil(p.deg as int, p.chunk_size as int)
            &&& p.coeff_slice_bytes == p.deg * ELEM_BYTES
        },
{
    if poly_count == 0 || coeffs_size % poly_count != 0 {
        return None;
    }
    let deg = coeffs_size / poly_count;
    let chunk_size = if deg > WEBGPU_BATCH_EVALUATE_CHUNK_SIZE {
        WEBGPU_BATCH_EVALUATE_CHUNK_SIZE
    } else if deg < 1 {
        1
    } else {
        deg
    };
    let chunk_count = deg / chunk_size + if deg % chunk_size == 0 { 0 } else { 1 };
    proof {
        let d = deg as int;
        let c = chunk_size as int;
        assert(deg <= coeffs_size) by (nonlinear_arith)
            requires
                poly_count > 0,
                deg == coeffs_size / poly_count,
        ;
        vstd::arithmetic::div_mod::lemma_fundamental_div_mod(d, c);
        let q = d / c;
        let m = d % c;
        assert(c * q == q * c) by (nonlinear_arith);
        assert((q + 1) * c == q * c + c) by (nonlinear_arith);
        if m == 0 {
            vstd::arithmetic::div_mod::lemma_fundamental_div_mod_converse(d + c - 1, c, q, c - 1);
        } else {
            vstd::arithmetic::div_mod::lemma_fundamental_div_mod_converse(d + c - 1, c, q + 1, m - 1);
        }
    }
    let coeff_slice_bytes = (deg as u64) * ELEM_BYTES;
    if coeff_slice_bytes == 0 || coeff_slice_bytes > max_binding || coeff_slice_bytes > MAX_EXACT_JS_INTEGER
        || coeffs_byte_offset % WEBGPU_STORAGE_BUFFER_OFFSET_ALIGNMENT != 0 || coeff_slice_bytes
        % WEBGPU_STORAGE_BUFFER_OFFSET_ALIGNMENT != 0 {
        return None;
    }
    Some(BatchEvaluatePlan { deg, chunk_size, chunk_count, coeff_slice_bytes })
}

/// Why evaluation point `i`, of polynomial `poly_id`, has no parameters.
pub open spec fn slice_error(
    plan: BatchEvaluatePlan,
    coeffs_byte_offset: int,
    partials_base: int,
    poly_count: int,
    i: int,
    poly_id: int,
) -> Option<BatchEvaluateError> {
    if poly_id >= poly_count {
        Some(BatchEvaluateError::PolyIdOutOfRange { poly_id: poly_id as usize, poly_count: poly_count as usize })
    } else if poly_id * plan.coeff_slice_bytes > u64::MAX {
        Some(BatchEvaluateError::CoeffSliceOverflow)
    } else if coeffs_byte_offset + poly_id * plan.coeff_slice_bytes > u64::MAX {
        Some(BatchEvaluateError::CoeffOffsetOverflow)
    } else if i * plan.chunk_count * EXT_WORDS > u32::MAX {
        Some(BatchEvaluateError::PartialOffsetOverflow)
    } else if partials_base + i * plan.chunk_count * EXT_WORDS > u32::MAX {
        Some(BatchEvaluateError::PartialBaseOverflow)
    } else {
        None
    }
}

/// The first of the first `n` evaluation points of `which` with no
/// parameters.
pub open spec fn slices_error(
    plan: BatchEvaluatePlan,
    coeffs_byte_offset: int,
    partials_base: int,
    poly_count: int,
    which: Seq<u32>,
    n: int,
) -> Option<BatchEvaluateError>
    decreases n,
{
    if n <= 0 {
        None
    } else {
        match slices_error(plan, coeffs_byte_offset, partials_base, poly_count, which, n - 1) {
            Some(e) => Some(e),
            None => slice_error(plan, coeffs_byte_offset, partials_base, poly_count, n - 1, which[n - 1] as int),
        }
    }
}

/// For each evaluation point `i` of polynomial `which[i]`: the byte offset
/// of that polynomial's coefficients, and the word offset of the point's
/// partial sums; or the first point that has none.
pub fn batch_evaluate_slices(
    plan: &BatchEvaluatePlan,
    coeffs_byte_offset: u64,
    partials_base: u32,
    which: &[u32],
    poly_count: usize,
) -> (res: Result<Vec<(u64, u32)>, BatchEvaluateError>)
    ensures
        match slices_error(
            *plan,
            coeffs_byte_offset as int,
            partials_base as int,
            poly_count as int,
            which@,
            which@.len() as int,
        ) {
            Some(e) => res == Err::<Vec<(u64, u32)>, BatchEvaluateError>(e),
            None => res is Ok && res->Ok_0@.len() == which@.len() && forall|i: int|
                0 <= i < which@.len() ==> #[trigger] res->Ok_0@[i] == (
                    (coeffs_byte_offset + which@[i] * plan.coeff_slice_bytes) as u64,
                    (partials_base + i * plan.chunk_count * EXT_WORDS) as u32,
                ),
        },
{
    let mut out: Vec<(u64, u32)> = Vec::new();
    let mut i: usize = 0;
    while i < which.len()
        invariant
            i <= which@.len(),
            slices_error(*plan, coeffs_byte_offset as int, partials_base as int, poly_count as int, which@, i as int)
                is None,
            out@.len() == i,
            forall|k: int|
                0 <= k < i ==> #[trigger] out@[k] == (
                    (coeffs_byte_offset + which@[k] * plan.coeff_slice_bytes) as u64,
                    (partials_base + k * plan.chunk_count * EXT_WORDS) as u32,
                ),
        decreases which@.len() - i,
    {
        let poly_id = which[i] as usize;
        proof {
            assert(slices_error(*plan, coeffs_byte_offset as int, partials_base as int, poly_count as int, which@, i + 1)
                == slice_error(*plan, coeffs_byte_offset as int, partials_base as int, poly_count as int, i as int, which@[i as int] as int));
        }
        if poly_id >= poly_count {
            proof {
                lemma_slices_error_sticks(*plan, coeffs_byte_offset as int, partials_base as int, poly_count as int, which@, i + 1, which@.len() as int);
            }
            return Err(BatchEvaluateError::PolyIdOutOfRange { poly_id, poly_count });
        }
        let slice = match (poly_id as u64).checked_mul(plan.coeff_slice_bytes) {
            Some(s) => s,
            None => {
                proof {
                    lemma_slices_error_sticks(*plan, coeffs_byte_offset as int, partials_base as int, poly_count as int, which@, i + 1, which@.len() as int);
                }
                return Err(BatchEvaluateError::CoeffSliceOverflow);
            },
        };
        let coeff_offset = match coeffs_byte_offset.checked_add(slice) {
            Some(o) => o,
            None => {
                proof {
                    lemma_slices_error_sticks(*plan, coeffs_byte_offset as int, partials_base as int, poly_count as int, which@, i + 1, which@.len() as int);
                }
                return Err(BatchEvaluateError::CoeffOffsetOverflow);
            },
        };
        let words = match i.checked_mul(plan.chunk_count) {
            Some(w) => w.checked_mul(EXT_WORDS),
            None => None,
        };
        let offset: u32 = match words {
            Some(w) => {
                if w > 4294967295usize {
                    proof {
                        lemma_slices_error_sticks(*plan, coeffs_byte_offset as int, partials_base as int, poly_count as int, which@, i + 1, which@.len() as int);
                    }
                    return Err(BatchEvaluateError::PartialOffsetOverflow);
                }
                w as u32
            },
            None => {
                proof {
                    assert(i * plan.chunk_count * EXT_WORDS > u32::MAX) by (nonlinear_arith)
                        requires
                            i * plan.chunk_count > usize::MAX || i * plan.chunk_count * EXT_WORDS > usize::MAX,
                            usize::MAX >= u32::MAX,
                            EXT_WORDS == 4,
                    ;
                    lemma_slices_error_sticks(*plan, coeffs_byte_offset as int, partials_base as int, poly_count as int, which@, i + 1, which@.len() as int);
                }
                return Err(BatchEvaluateError::PartialOffsetOverflow);
            },
        };
        let base = match partials_base.checked_add(offset) {
            Some(b) => b,
            None => {
                proof {
                    lemma_slices_error_sticks(*plan, coeffs_byte_offset as int, partials_base as int, poly_count as int, which@, i + 1, which@.len() as int);
                }
                return Err(BatchEvaluateError::PartialBaseOverflow);
            },
        };
        out.push((coeff_offset, base));
        i = i + 1;
    }
    Ok(out)
}

/// Once an evaluation point has no parameters, the first such point stays
/// the same.
proof fn lemma_slices_error_sticks(
    plan: BatchEvaluatePlan,
    coeffs_byte_offset: int,
    partials_base: int,
    poly_count: int,
    which: Seq<u32>,
    q: int,
    m: int,
)
    requires
        0 <= q <= m,
        slices_error(plan, coeffs_byte_offset, partials_base, poly_count, which, q) is Some,
    ensures
        slices_error(plan, coeffs_byte_offset, partials_base, poly_count, which, m) == slices_error(
            plan,
            coeffs_byte_offset,
            partials_base,
            poly_count,
            which,
            q,
        ),
    decreases m,
{
    if m > q {
        lemma_slices_error_sticks(plan, coeffs_byte_offset, partials_base, poly_count, which, q, m - 1);
    }
}

} // verus!
