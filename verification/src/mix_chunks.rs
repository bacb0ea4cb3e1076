//! Mixing polynomial coefficients on the GPU when the input polynomials do
//! not fit one binding: the polynomials are taken in chunks that do, and
//! each chunk starts its mix at the power of the mix its first polynomial
//! has.

use vstd::prelude::*;
use crate::batch_evaluate::{ELEM_BYTES, WEBGPU_STORAGE_BUFFER_OFFSET_ALIGNMENT};
use crate::field::{ExtWords, ext_mul, ext_mul_spec, ext_pow, ext_pow_spec, ext_reduced, lemma_ext_pow_reduced};

verus! {

/// One chunk of input polynomials.
#[derive(Clone, Copy, Debug, PartialEq, Eq)]
pub struct MixPolyChunk {
    /// First polynomial of the chunk.
    pub chunk_start: usize,
    /// Polynomials in the chunk.
    pub chunk_size: usize,
    /// Byte offset of the chunk's coefficients in the input buffer.
    pub input_offset: u64,
    /// Bytes of the chunk's coefficients.
    pub input_bytes: u64,
    /// Offset of the chunk's first combo id.
    pub combos_offset: u32,
    /// The mix power of the chunk's first polynomial, times the starting mix.
    pub mix_start: ExtWords,
}

/// Why a chunk could not be placed.
#[derive(Clone, Copy, Debug, PartialEq, Eq)]
pub enum MixPolyChunkError {
    /// A chunk's byte length overflows.
    ChunkByteLenOverflow,
    /// A chunk's byte offset overflows.
    InputOffsetOverflow,
    /// A chunk's combo offset exceeds `u32`.
    ComboOffsetOverflow,
}

/// Polynomials of `poly_bytes` bytes each that one binding of at most
/// `max_binding` bytes holds (at least one).
pub open spec fn polys_per_chunk(max_binding: int, poly_bytes: int) -> int {
    let n = max_binding / poly_bytes;
    if n < 1 {
        1
    } else {
        n
    }
}

/// The GPU can mix polynomials of `count` coefficients held from byte
/// `input_byte_offset`: one polynomial is non-empty, fits a binding, and
/// polynomials start at aligned offsets.
pub open spec fn mix_chunks_ok(count: int, input_byte_offset: int, max_binding: int) -> bool {
    let bytes = count * ELEM_BYTES;
    &&& bytes != 0
    &&& bytes <= max_binding
    &&& input_byte_offset % (WEBGPU_STORAGE_BUFFER_OFFSET_ALIGNMENT as int) == 0
    &&& bytes % (WEBGPU_STORAGE_BUFFER_OFFSET_ALIGNMENT as int) == 0
}

/// Chunk `k`, of `per` polynomials, out of `input_size`.
pub open spec fn mix_chunk_at(
    input_size: int,
    count: int,
    input_byte_offset: int,
    combos_base: int,
    mix_start: ExtWords,
    mix: ExtWords,
    per: int,
    k: int,
) -> MixPolyChunk {
    let start = k * per;
    let size = if input_size - start < per { input_size - start } else { per };
    MixPolyChunk {
        chunk_start: start as usize,
        chunk_size: size as usize,
        input_offset: (input_byte_offset + start * (count * ELEM_BYTES)) as u64,
        input_bytes: (count * ELEM_BYTES * size) as u64,
        combos_offset: (combos_base + start) as u32,
        mix_start: ext_mul_spec(mix_start, ext_pow_spec(mix, start as nat)),
    }
}

/// Why chunk `k` could not be placed, if it could not.
pub open spec fn mix_chunk_error(
    input_size: int,
    count: int,
    input_byte_offset: int,
    combos_base: int,
    per: int,
    k: int,
) -> Option<MixPolyChunkError> {
    let start = k * per;
    let size = if input_size - start < per { input_size - start } else { per };
    if count * ELEM_BYTES * size > u64::MAX {
        Some(MixPolyChunkError::ChunkByteLenOverflow)
    } else if start * (count * ELEM_BYTES) > u64::MAX || input_byte_offset + start * (count * ELEM_BYTES)
        > u64::MAX {
        Some(MixPolyChunkError::InputOffsetOverflow)
    } else if combos_base + start > u32::MAX {
        Some(MixPolyChunkError::ComboOffsetOverflow)
    } else {
        None
    }
}

/// The first of the first `n` chunks that could not be placed.
pub open spec fn mix_chunks_error(
    input_size: int,
    count: int,
    input_byte_offset: int,
    combos_base: int,
    per: int,
    n: int,
) -> Option<MixPolyChunkError>
    decreases n,
{
    if n <= 0 {
        None
    } else {
        match mix_chunks_error(input_size, count, input_byte_offset, combos_base, per, n - 1) {
            Some(e) => Some(e),
            None => mix_chunk_error(input_size, count, input_byte_offset, combos_base, per, n - 1),
        }
    }
}

proof fn lemma_mix_error_sticks(
    input_size: int,
    count: int,
    input_byte_offset: int,
    combos_base: int,
    per: int,
    q: int,
    m: int,
)
    requires
        0 <= q <= m,
        mix_chunks_error(input_size, count, input_byte_offset, combos_base, per, q) is Some,
    ensures
        mix_chunks_error(input_size, count, input_byte_offset, combos_base, per, m) == mix_chunks_error(
            input_size,
            count,
            input_byte_offset,
            combos_base,
            per,
            q,
        ),
    decreases m,
{
    if m > q {
        lemma_mix_error_sticks(input_size, count, input_byte_offset, combos_base, per, q, m - 1);
    }
}

/// The chunks in which `input_size` polynomials of `count` coefficients,
/// held from byte `input_byte_offset`, are mixed starting from `mix_start`
/// by powers of `mix`, with combo ids from `combos_base`: `Ok(None)` when
/// the GPU cannot take them, an error when a chunk cannot be placed.
pub fn plan_mix_poly_coeffs_chunks(
    input_size: usize,
    count: usize,
    input_byte_offset: u64,
    max_binding: u64,
    combos_base: u32,
    mix_start: ExtWords,
    mix: ExtWords,
) -> (res: Result<Option<Vec<MixPolyChunk>>, MixPolyChunkError>)
    requires
        count * ELEM_BYTES <= usize::MAX,
        input_size <= u32::MAX + 1,
        ext_reduced(mix_start),
        ext_reduced(mix),
    ensures
        count == 0 || input_size == 0 ==> (res matches Ok(Some(v)) && v@.len() == 0),
        count > 0 && input_size > 0 && !mix_chunks_ok(count as int, input_byte_offset as int, max_binding as int)
            ==> res == Ok::<Option<Vec<MixPolyChunk>>, MixPolyChunkError>(None),
        count > 0 && input_size > 0 && mix_chunks_ok(count as int, input_byte_offset as int, max_binding as int) ==> {
            let per = polys_per_chunk(max_binding as int, count * ELEM_BYTES);
            let n = (input_size + per - 1) / per;
            match mix_chunks_error(input_size as int, count as int, input_byte_offset as int, combos_base as int, per, n) {
                Some(e) => res == Err::<Option<Vec<MixPolyChunk>>, MixPolyChunkError>(e),
                None => (res matches Ok(Some(v)) && v@.len() == n && forall|k: int|
                    0 <= k < n ==> #[trigger] v@[k] == mix_chunk_at(
                        input_size as int,
                        count as int,
                        input_byte_offset as int,
                        combos_base as int,
                        mix_start,
                        mix,
                        per,
                        k,
                    )),
            }
        },
{
    if count == 0 || input_size == 0 {
        return Ok(Some(Vec::new()));
    }
    let poly_bytes = (count as u64) * ELEM_BYTES;
    if poly_bytes == 0 || poly_bytes > max_binding || input_byte_offset % WEBGPU_STORAGE_BUFFER_OFFSET_ALIGNMENT != 0
        || poly_bytes % WEBGPU_STORAGE_BUFFER_OFFSET_ALIGNMENT != 0 {
        return Ok(None);
    }
    let fit = max_binding / poly_bytes;
    let per64: u64 = if fit < 1 { 1 } else { fit };
    // `per64` polynomials take at most `max_binding` bytes, and one takes
    // `count * 4`, which fits in `usize`.
    let per: usize = if per64 > input_size as u64 { input_size } else { per64 as usize };
    let ghost per_spec = polys_per_chunk(max_binding as int, count * ELEM_BYTES);
    assert(per_spec == per64);
    let ghost (sz, c, o, cb) = (input_size as int, count as int, input_byte_offset as int, combos_base as int);
    let mut out: Vec<MixPolyChunk> = Vec::new();
    let mut start: usize = 0;
    assert(0 * per_spec == 0);
    while start < input_size
        invariant
            count > 0,
            mix_chunks_ok(count as int, input_byte_offset as int, max_binding as int),
            per_spec == polys_per_chunk(max_binding as int, count * ELEM_BYTES),
            0 < per <= input_size,
            per as int == per_spec || (per == input_size && per_spec >= input_size),
            per_spec >= 1,
            input_size <= u32::MAX + 1,
            count * ELEM_BYTES <= usize::MAX,
            ext_reduced(mix_start),
            ext_reduced(mix),
            poly_bytes == count * ELEM_BYTES,
            sz == input_size,
            c == count,
            o == input_byte_offset,
            cb == combos_base,
            start <= input_size,
            start < input_size ==> start == out@.len() * per_spec,
            start == input_size ==> out@.len() * per_spec >= sz,
            out@.len() == 0 || (out@.len() - 1) * per_spec < sz,
            out@.len() > 0 || start == 0,
            mix_chunks_error(sz, c, o, cb, per_spec, out@.len() as int) is None,
            forall|k: int| 0 <= k < out@.len() ==> #[trigger] out@[k] == mix_chunk_at(sz, c, o, cb, mix_start, mix, per_spec, k),
        decreases input_size - start,
    {
        let ghost k = out@.len() as int;
        let size = if input_size - start < per { input_size - start } else { per };
        proof {
            assert(size as int == (if sz - start < per_spec { sz - start } else { per_spec }));
        }
        let input_bytes = match poly_bytes.checked_mul(size as u64) {
            Some(b) => b,
            None => {
                proof {
                    assert(poly_bytes * size == c * ELEM_BYTES * size) by (nonlinear_arith)
                        requires
                            poly_bytes == c * ELEM_BYTES,
                    ;
                    lemma_mix_count(sz, per_spec, k);
                    lemma_mix_error_sticks(sz, c, o, cb, per_spec, k + 1, (sz + per_spec - 1) / per_spec);
                }
                return Err(MixPolyChunkError::ChunkByteLenOverflow);
            },
        };
        let input_offset = match (start as u64).checked_mul(poly_bytes) {
            Some(rel) => input_byte_offset.checked_add(rel),
            None => None,
        };
        let input_offset = match input_offset {
            Some(off) => off,
            None => {
                proof {
                    assert(poly_bytes * size == c * ELEM_BYTES * size) by (nonlinear_arith)
                        requires
                            poly_bytes == c * ELEM_BYTES,
                    ;
                    lemma_mix_count(sz, per_spec, k);
                    lemma_mix_error_sticks(sz, c, o, cb, per_spec, k + 1, (sz + per_spec - 1) / per_spec);
                }
                return Err(MixPolyChunkError::InputOffsetOverflow);
            },
        };
        let combos_offset = match combos_base.checked_add(start as u32) {
            Some(off) => off,
            None => {
                proof {
                    assert(poly_bytes * size == c * ELEM_BYTES * size) by (nonlinear_arith)
                        requires
                            poly_bytes == c * ELEM_BYTES,
                    ;
                    lemma_mix_count(sz, per_spec, k);
                    lemma_mix_error_sticks(sz, c, o, cb, per_spec, k + 1, (sz + per_spec - 1) / per_spec);
                }
                return Err(MixPolyChunkError::ComboOffsetOverflow);
            },
        };
        let power = ext_pow(mix, start);
        proof {
            lemma_ext_pow_reduced(mix, start as nat);
            assert(poly_bytes * size == c * ELEM_BYTES * size) by (nonlinear_arith)
                requires
                    poly_bytes == c * ELEM_BYTES,
            ;
        }
        let chunk_mix = ext_mul(mix_start, power);
        out.push(MixPolyChunk {
            chunk_start: start,
            chunk_size: size,
            input_offset,
            input_bytes,
            combos_offset,
            mix_start: chunk_mix,
        });
        proof {
            assert((k + 1) * per_spec == k * per_spec + per_spec) by (nonlinear_arith);
        }
        start = start + size;
    }
    proof {
        let n = out@.len() as int;
        assert((n - 1) * per_spec == n * per_spec - per_spec) by (nonlinear_arith);
        lemma_mix_count_exact(sz, per_spec, n);
    }
    Ok(Some(out))
}

/// A chunk starting before the last polynomial is one of the chunks.
proof fn lemma_mix_count(sz: int, per: int, k: int)
    requires
        per > 0,
        k >= 0,
        k * per < sz,
    ensures
        k + 1 <= (sz + per - 1) / per,
{
    vstd::arithmetic::div_mod::lemma_fundamental_div_mod(sz + per - 1, per);
    let q = (sz + per - 1) / per;
    assert((k + 1) * per <= sz + per - 1) by (nonlinear_arith)
        requires
            k * per < sz,
    ;
    assert(k + 1 <= q) by (nonlinear_arith)
        requires
            (k + 1) * per <= sz + per - 1,
            sz + per - 1 == per * q + (sz + per - 1) % per,
            (sz + per - 1) % per < per,
            per > 0,
    ;
}

/// `n` chunks of `per` polynomials cover `sz` polynomials, and `n - 1` do
/// not.
proof fn lemma_mix_count_exact(sz: int, per: int, n: int)
    requires
        per > 0,
        n >= 1,
        n * per >= sz,
        (n - 1) * per < sz,
    ensures
        n == (sz + per - 1) / per,
{
    let y = sz + per - 1;
    assert((n - 1) * per == n * per - per) by (nonlinear_arith);
    assert(n * per <= y);
    assert(y < (n + 1) * per) by (nonlinear_arith)
        requires
            n * per >= sz,
            y == sz + per - 1,
    ;
    vstd::arithmetic::div_mod::lemma_fundamental_div_mod_converse(y, per, n, y - n * per);
}

} // verus!
