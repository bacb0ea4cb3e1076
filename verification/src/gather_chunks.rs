//! Gathering one sample from each column of a source buffer too large to
//! bind at once: the columns are split into chunks, and each chunk binds
//! only the aligned byte range its reads fall in.

use vstd::prelude::*;
use crate::batch_evaluate::{ELEM_BYTES, WEBGPU_STORAGE_BUFFER_OFFSET_ALIGNMENT};

verus! {

/// Largest storage binding, in bytes, that every WebGPU implementation
/// handles reliably.
pub const WEBGPU_SAFE_STORAGE_BINDING_BYTES: u64 = 1073741824;

/// One chunk of a chunked gather.
#[derive(Clone, Copy, Debug, PartialEq, Eq)]
pub struct GatherChunk {
    /// First column of the chunk.
    pub col_start: usize,
    /// Columns in the chunk.
    pub cols: usize,
    /// Byte offset of the chunk's binding in the source buffer (aligned).
    pub binding_offset: u64,
    /// Word, inside the binding, of the chunk's first column.
    pub binding_base_elems: usize,
    /// Bytes the binding covers.
    pub binding_bytes: u64,
}

/// Why a chunked gather cannot run.
#[derive(Clone, Copy, Debug, PartialEq, Eq)]
pub enum GatherChunkError {
    /// The chunk starting at column `col_start` would bind `bytes` bytes,
    /// more than a binding may safely hold.
    BindingTooLarge { col_start: usize, bytes: u64 },
}

/// Chunk `k` of a gather of `size` columns, `chunk_cols` per chunk, reading
/// word `idx` of each column of `stride` words from a source that starts at
/// word `src_elem_offset` of its buffer.
pub open spec fn gather_chunk_at(src_elem_offset: int, idx: int, size: int, stride: int, chunk_cols: int, k: int) -> GatherChunk {
    let col_start = k * chunk_cols;
    let cols = if chunk_cols < size - col_start { chunk_cols } else { size - col_start };
    let byte = (src_elem_offset + col_start * stride) * ELEM_BYTES;
    let align = WEBGPU_STORAGE_BUFFER_OFFSET_ALIGNMENT as int;
    let binding_offset = byte / align * align;
    let base_bytes = byte - binding_offset;
    GatherChunk {
        col_start: col_start as usize,
        cols: cols as usize,
        binding_offset: binding_offset as u64,
        binding_base_elems: (base_bytes / (ELEM_BYTES as int)) as usize,
        binding_bytes: (base_bytes + ((cols - 1) * stride + idx + 1) * ELEM_BYTES) as u64,
    }
}

/// Chunks in a gather of `size` columns, `chunk_cols` per chunk.
pub open spec fn gather_chunk_count(size: int, chunk_cols: int) -> int {
    (size + chunk_cols - 1) / chunk_cols
}

/// The first of the first `n` chunks whose binding is too large.
pub open spec fn gather_chunks_error(src_elem_offset: int, idx: int, size: int, stride: int, chunk_cols: int, n: int) -> Option<
    GatherChunkError,
>
    decreases n,
{
    if n <= 0 {
        None
    } else {
        match gather_chunks_error(src_elem_offset, idx, size, stride, chunk_cols, n - 1) {
            Some(e) => Some(e),
            None => {
                let c = gather_chunk_at(src_elem_offset, idx, size, stride, chunk_cols, n - 1);
                if c.binding_bytes > WEBGPU_SAFE_STORAGE_BINDING_BYTES {
                    Some(GatherChunkError::BindingTooLarge { col_start: c.col_start, bytes: c.binding_bytes })
                } else {
                    None
                }
            },
        }
    }
}

/// The words a gather reads lie in byte-addressable memory.
pub open spec fn gather_fits(src_elem_offset: int, idx: int, size: int, stride: int) -> bool {
    (src_elem_offset + idx + (size - 1) * stride + 1) * ELEM_BYTES <= usize::MAX
}

proof fn lemma_chunk_bounds(src_elem_offset: int, idx: int, size: int, stride: int, chunk_cols: int, k: int)
    requires
        src_elem_offset >= 0,
        idx >= 0,
        stride >= 0,
        size > 0,
        chunk_cols > 0,
        0 <= k,
        k * chunk_cols < size,
        gather_fits(src_elem_offset, idx, size, stride),
    ensures
        ({
            let col_start = k * chunk_cols;
            let cols = if chunk_cols < size - col_start { chunk_cols } else { size - col_start };
            let e = src_elem_offset + col_start * stride;
            &&& 1 <= cols
            &&& col_start + cols <= size
            &&& (e + (cols - 1) * stride + idx + 1) * ELEM_BYTES <= usize::MAX
            &&& e >= 0
        }),
{
    let col_start = k * chunk_cols;
    let cols = if chunk_cols < size - col_start { chunk_cols } else { size - col_start };
    assert(col_start >= 0) by (nonlinear_arith)
        requires
            k >= 0,
            chunk_cols > 0,
            col_start == k * chunk_cols,
    ;
    assert(col_start * stride + (cols - 1) * stride <= (size - 1) * stride) by (nonlinear_arith)
        requires
            col_start + cols <= size,
            cols >= 1,
            stride >= 0,
            col_start >= 0,
    ;
    assert(col_start * stride >= 0) by (nonlinear_arith)
        requires
            col_start >= 0,
            stride >= 0,
    ;
    assert((cols - 1) * stride >= 0) by (nonlinear_arith)
        requires
            cols >= 1,
            stride >= 0,
    ;
}

/// The chunks of a gather of word `idx` from each of `size` columns of
/// `stride` words, `chunk_cols` columns per chunk, from a source starting
/// at word `src_elem_offset` of its buffer; or the first chunk whose
/// binding would be too large.
pub fn plan_gather_sample_chunks(
    src_elem_offset: usize,
    idx: usize,
    size: usize,
    stride: usize,
    chunk_cols: usize,
) -> (res: Result<Vec<GatherChunk>, GatherChunkError>)
    requires
        size > 0,
        chunk_cols > 0,
        gather_fits(src_elem_offset as int, idx as int, size as int, stride as int),
    ensures
        ({
            let n = gather_chunk_count(size as int, chunk_cols as int);
            match gather_chunks_error(src_elem_offset as int, idx as int, size as int, stride as int, chunk_cols as int, n) {
                Some(e) => res == Err::<Vec<GatherChunk>, GatherChunkError>(e),
                None => res is Ok && res->Ok_0@.len() == n && forall|k: int|
                    0 <= k < n ==> #[trigger] res->Ok_0@[k] == gather_chunk_at(
                        src_elem_offset as int,
                        idx as int,
                        size as int,
                        stride as int,
                        chunk_cols as int,
                        k,
                    ),
            }
        }),
{
    let ghost (o, x, sz, st, cc) = (src_elem_offset as int, idx as int, size as int, stride as int, chunk_cols as int);
    let mut out: Vec<GatherChunk> = Vec::new();
    let mut col_start: usize = 0;
    assert(0 * cc == 0);
    while col_start < size
        invariant
            size > 0,
            chunk_cols > 0,
            gather_fits(o, x, sz, st),
            o == src_elem_offset,
            x == idx,
            sz == size,
            st == stride,
            cc == chunk_cols,
            col_start == out@.len() * chunk_cols,
            col_start < size,
            gather_chunks_error(o, x, sz, st, cc, out@.len() as int) is None,
            forall|k: int| 0 <= k < out@.len() ==> #[trigger] out@[k] == gather_chunk_at(o, x, sz, st, cc, k),
        decreases size - col_start,
    {
        let ghost k = out@.len() as int;
        let c = gather_chunk(src_elem_offset, idx, size, stride, chunk_cols, col_start, Ghost(k));
        if c.binding_bytes > WEBGPU_SAFE_STORAGE_BINDING_BYTES {
            proof {
                lemma_gather_count(sz, cc, k);
                lemma_gather_error_sticks(o, x, sz, st, cc, k + 1, gather_chunk_count(sz, cc));
            }
            return Err(GatherChunkError::BindingTooLarge { col_start, bytes: c.binding_bytes });
        }
        out.push(c);
        proof {
            assert((k + 1) * cc == k * cc + cc) by (nonlinear_arith);
        }
        if size - col_start <= chunk_cols {
            proof {
                let n = out@.len() as int;
                assert((n - 1) * cc == n * cc - cc) by (nonlinear_arith);
                lemma_gather_count_exact(sz, cc, n);
            }
            return Ok(out);
        }
        col_start = col_start + chunk_cols;
    }
    Ok(out)
}

/// Chunk `k`, which starts at column `col_start`.
#[verifier::rlimit(30)]
fn gather_chunk(
    src_elem_offset: usize,
    idx: usize,
    size: usize,
    stride: usize,
    chunk_cols: usize,
    col_start: usize,
    Ghost(k): Ghost<int>,
) -> (c: GatherChunk)
    requires
        size > 0,
        chunk_cols > 0,
        k >= 0,
        col_start == k * chunk_cols,
        col_start < size,
        gather_fits(src_elem_offset as int, idx as int, size as int, stride as int),
    ensures
        c == gather_chunk_at(src_elem_offset as int, idx as int, size as int, stride as int, chunk_cols as int, k),
{
    proof {
        lemma_chunk_bounds(src_elem_offset as int, idx as int, size as int, stride as int, chunk_cols as int, k);
    }
    let cols = if chunk_cols < size - col_start { chunk_cols } else { size - col_start };
    let elem = src_elem_offset + col_start * stride;
    let byte = (elem as u64) * ELEM_BYTES;
    let binding_offset = byte / WEBGPU_STORAGE_BUFFER_OFFSET_ALIGNMENT * WEBGPU_STORAGE_BUFFER_OFFSET_ALIGNMENT;
    let base_bytes = byte - binding_offset;
    let base_elems = (base_bytes / ELEM_BYTES) as usize;
    let chunk_elems = (cols - 1) * stride + idx + 1;
    let binding_bytes = base_bytes + (chunk_elems as u64) * ELEM_BYTES;
    GatherChunk { col_start, cols, binding_offset, binding_base_elems: base_elems, binding_bytes }
}

proof fn lemma_gather_error_sticks(o: int, x: int, sz: int, st: int, cc: int, q: int, m: int)
    requires
        0 <= q,
        gather_chunks_error(o, x, sz, st, cc, q) is Some,
    ensures
        q <= m ==> gather_chunks_error(o, x, sz, st, cc, m) == gather_chunks_error(o, x, sz, st, cc, q),
    decreases m,
{
    if m > q {
        lemma_gather_error_sticks(o, x, sz, st, cc, q, m - 1);
    }
}

/// A chunk starting before the last column is one of the chunks.
proof fn lemma_gather_count(sz: int, cc: int, k: int)
    requires
        cc > 0,
        k >= 0,
        k * cc < sz,
    ensures
        k + 1 <= gather_chunk_count(sz, cc),
{
    vstd::arithmetic::div_mod::lemma_fundamental_div_mod(sz + cc - 1, cc);
    let q = (sz + cc - 1) / cc;
    assert((k + 1) * cc <= sz + cc - 1) by (nonlinear_arith)
        requires
            k * cc < sz,
    ;
    assert(k + 1 <= q) by (nonlinear_arith)
        requires
            (k + 1) * cc <= sz + cc - 1,
            sz + cc - 1 == cc * q + (sz + cc - 1) % cc,
            (sz + cc - 1) % cc < cc,
            cc > 0,
    ;
}

/// `n` chunks of `cc` columns cover `sz` columns, and `n - 1` do not.
proof fn lemma_gather_count_exact(sz: int, cc: int, n: int)
    requires
        cc > 0,
        n >= 0,
        n * cc >= sz,
        n == 0 || (n - 1) * cc < sz,
        sz > 0,
    ensures
        n == gather_chunk_count(sz, cc),
{
    let y = sz + cc - 1;
    if n > 0 {
        assert((n - 1) * cc == n * cc - cc) by (nonlinear_arith);
    }
    assert(n * cc <= y);
    assert(y < (n + 1) * cc) by (nonlinear_arith)
        requires
            n * cc >= sz,
            y == sz + cc - 1,
    ;
    vstd::arithmetic::div_mod::lemma_fundamental_div_mod_converse(y, cc, n, y - n * cc);
}

/// Every word a chunk reads lies inside its binding: column `col_start + j`
/// reads the binding's word `binding_base_elems + j * stride + idx`, whose
/// bytes the binding covers, and the binding starts at an aligned offset.
pub proof fn lemma_gather_chunk_holds_reads(
    src_elem_offset: usize,
    idx: usize,
    size: usize,
    stride: usize,
    chunk_cols: usize,
    k: int,
    j: int,
)
    requires
        size > 0,
        chunk_cols > 0,
        gather_fits(src_elem_offset as int, idx as int, size as int, stride as int),
        0 <= k < gather_chunk_count(size as int, chunk_cols as int),
        0 <= j < gather_chunk_at(src_elem_offset as int, idx as int, size as int, stride as int, chunk_cols as int, k).cols,
    ensures
        ({
            let c = gather_chunk_at(src_elem_offset as int, idx as int, size as int, stride as int, chunk_cols as int, k);
            let g = src_elem_offset + (c.col_start + j) * stride + idx;
            let w = c.binding_base_elems + j * stride + idx;
            &&& c.binding_offset % WEBGPU_STORAGE_BUFFER_OFFSET_ALIGNMENT == 0
            &&& c.binding_offset + w * ELEM_BYTES == g * ELEM_BYTES
            &&& (w + 1) * ELEM_BYTES <= c.binding_bytes
        }),
{
    let (o, x, sz, st, cc) = (src_elem_offset as int, idx as int, size as int, stride as int, chunk_cols as int);
    let col_start = k * cc;
    // The chunk starts before the end: `k` is below the chunk count.
    assert(col_start < sz) by {
        let n = gather_chunk_count(sz, cc);
        vstd::arithmetic::div_mod::lemma_fundamental_div_mod(sz + cc - 1, cc);
        assert(k * cc + cc <= n * cc) by (nonlinear_arith)
            requires
                k + 1 <= n,
                cc > 0,
        ;
        assert(n * cc <= sz + cc - 1) by (nonlinear_arith)
            requires
                sz + cc - 1 == cc * n + (sz + cc - 1) % cc,
                (sz + cc - 1) % cc >= 0,
        ;
    }
    lemma_chunk_bounds(o, x, sz, st, cc, k);
    let cols = if cc < sz - col_start { cc } else { sz - col_start };
    let e = o + col_start * st;
    let byte = e * 4;
    let bo = byte / 256 * 256;
    vstd::arithmetic::div_mod::lemma_fundamental_div_mod(e, 64);
    let q = e / 64;
    let r = e % 64;
    assert(byte == 256 * q + 4 * r);
    vstd::arithmetic::div_mod::lemma_fundamental_div_mod_converse(byte, 256, q, 4 * r);
    assert(bo == 256 * q) by (nonlinear_arith)
        requires
            bo == byte / 256 * 256,
            byte / 256 == q,
    ;
    assert(bo % 256 == 0) by {
        vstd::arithmetic::div_mod::lemma_mod_multiples_basic(q, 256);
        assert(256 * q == q * 256) by (nonlinear_arith);
    }
    let c = gather_chunk_at(o, x, sz, st, cc, k);
    assert(c.col_start == col_start);
    assert(c.cols == cols);
    assert(c.binding_offset == bo);
    assert(c.binding_base_elems == r);
    assert((col_start + j) * st == col_start * st + j * st) by (nonlinear_arith);
    assert(j * st <= (cols - 1) * st) by (nonlinear_arith)
        requires
            0 <= j < cols,
            st >= 0,
    ;
    assert(j * st >= 0) by (nonlinear_arith)
        requires
            j >= 0,
            st >= 0,
    ;
    assert(c.binding_bytes == 4 * r + ((cols - 1) * st + x + 1) * 4);
}

} // verus!
