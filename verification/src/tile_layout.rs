//! Tiled multi-buffer layout for column-major matrices that exceed a single
//! storage-buffer binding.
//!
//! A logical matrix of `total_cols` columns, each `stride` elements long, is
//! split into tiles of `tile_cols` consecutive columns (the last tile may be
//! shorter). `tile_cols` is chosen so that every tile fits the binding limit.

use vstd::prelude::*;
use vstd::arithmetic::div_mod::*;
use vstd::arithmetic::mul::*;

verus! {

/// Why a tile layout could not be built.
#[derive(Debug, Clone, Copy, PartialEq, Eq, Structural)]
pub enum TileLayoutError {
    /// The element size was zero.
    ZeroElemSize,
    /// The binding limit was zero.
    ZeroMaxBinding,
    /// `stride * elem_size` does not fit in a `u64`.
    ColumnBytesOverflow,
    /// A single column is larger than the binding limit.
    ColumnExceedsBinding { col_bytes: u64, stride: usize, max_binding_bytes: u64 },
}

/// How a `total_cols x stride` column-major matrix is split across tiles.
#[derive(Debug, Clone, Copy, PartialEq, Eq, Structural)]
pub struct TileLayout {
    /// Number of elements in one column.
    pub stride: usize,
    /// Number of columns packed into each tile.
    pub tile_cols: usize,
    /// Total number of columns across all tiles.
    pub total_cols: usize,
}

/// Ceiling division on naturals.
pub open spec fn ceil_div(a: nat, b: nat) -> nat
    recommends
        b > 0,
{
    ((a + b - 1) as nat) / b
}

/// The result of `TileLayout::new` on the given arguments.
pub open spec fn layout_result(
    stride: usize,
    total_cols: usize,
    elem_size: usize,
    max_binding_bytes: u64,
) -> Result<TileLayout, TileLayoutError> {
    if elem_size == 0 {
        Err(TileLayoutError::ZeroElemSize)
    } else if max_binding_bytes == 0 {
        Err(TileLayoutError::ZeroMaxBinding)
    } else if stride == 0 || total_cols == 0 {
        Ok(TileLayout {
            stride,
            tile_cols: if total_cols > 1 { total_cols } else { 1 },
            total_cols,
        })
    } else if stride * elem_size > u64::MAX {
        Err(TileLayoutError::ColumnBytesOverflow)
    } else if stride * elem_size > max_binding_bytes {
        Err(
            TileLayoutError::ColumnExceedsBinding {
                col_bytes: (stride * elem_size) as u64,
                stride,
                max_binding_bytes,
            },
        )
    } else {
        // The quotient is narrowed to `usize` before clamping.
        let fit = (max_binding_bytes / ((stride * elem_size) as u64)) as usize;
        let clamped = if fit < total_cols { fit } else { total_cols };
        Ok(TileLayout { stride, tile_cols: if clamped > 1 { clamped } else { 1 }, total_cols })
    }
}

impl TileLayout {
    /// Column counts are addressable: tiles are non-empty.
    pub open spec fn wf(self) -> bool {
        self.tile_cols > 0
    }

    /// Number of tiles that cover all columns.
    pub open spec fn tile_count(self) -> nat {
        if self.total_cols == 0 {
            0
        } else {
            ceil_div(self.total_cols as nat, self.tile_cols as nat)
        }
    }

    /// Number of columns stored in tile `t`.
    pub open spec fn cols_in(self, t: int) -> nat {
        let start = t * self.tile_cols;
        if start >= self.total_cols {
            0
        } else if self.total_cols - start < self.tile_cols {
            (self.total_cols - start) as nat
        } else {
            self.tile_cols as nat
        }
    }

    /// Number of elements stored in tile `t`, saturated at `usize::MAX`.
    pub open spec fn elems_in(self, t: int) -> nat {
        let n = (self.cols_in(t) * self.stride) as nat;
        if n > usize::MAX { usize::MAX as nat } else { n }
    }

    /// Pick `tile_cols` so each tile's byte size (`tile_cols * stride *
    /// elem_size`) fits in `max_binding_bytes`. Fails if even a single
    /// column does not fit. Empty inputs (`stride == 0` or `total_cols ==
    /// 0`) give a degenerate one-tile layout.
    pub fn new(stride: usize, total_cols: usize, elem_size: usize, max_binding_bytes: u64) -> (res:
        Result<Self, TileLayoutError>)
        ensures
            res == layout_result(stride, total_cols, elem_size, max_binding_bytes),
    {
        if elem_size == 0 {
            return Err(TileLayoutError::ZeroElemSize);
        }
        if max_binding_bytes == 0 {
            return Err(TileLayoutError::ZeroMaxBinding);
        }
        if stride == 0 || total_cols == 0 {
            let tile_cols = if total_cols > 1 { total_cols } else { 1 };
            return Ok(TileLayout { stride, tile_cols, total_cols });
        }
        let s: u64 = stride as u64;
        let e: u64 = elem_size as u64;
        if s > u64::MAX / e {
            proof {
                lemma_div_col_overflow(s as int, e as int);
            }
            return Err(TileLayoutError::ColumnBytesOverflow);
        }
        proof {
            lemma_div_col_fits(s as int, e as int);
        }
        let col_bytes: u64 = s * e;
        assert(col_bytes > 0) by (nonlinear_arith)
            requires
                s > 0,
                e > 0,
                col_bytes == s * e,
        ;
        if col_bytes > max_binding_bytes {
            return Err(
                TileLayoutError::ColumnExceedsBinding { col_bytes, stride, max_binding_bytes },
            );
        }
        let fit: usize = #[verifier::truncate] ((max_binding_bytes / col_bytes) as usize);
        let clamped = if fit < total_cols { fit } else { total_cols };
        let tile_cols = if clamped > 1 { clamped } else { 1 };
        Ok(TileLayout { stride, tile_cols, total_cols })
    }

    /// Number of tile buffers needed to cover all columns.
    pub fn num_tiles(&self) -> (n: usize)
        requires
            self.total_cols == 0 || self.tile_cols > 0,
        ensures
            n == self.tile_count(),
    {
        if self.total_cols == 0 {
            return 0;
        }
        let q = self.total_cols / self.tile_cols;
        let r = self.total_cols % self.tile_cols;
        proof {
            lemma_ceil_div_parts(self.total_cols as int, self.tile_cols as int);
            lemma_fundamental_div_mod(self.total_cols as int, self.tile_cols as int);
            if r != 0 {
                assert(q < self.total_cols) by (nonlinear_arith)
                    requires
                        self.total_cols == self.tile_cols * q + r,
                        r > 0,
                        self.tile_cols >= 1,
                        q >= 0,
                ;
            }
        }
        if r != 0 {
            q + 1
        } else {
            q
        }
    }

    /// Which tile contains the given column index.
    pub fn tile_for_col(&self, col: usize) -> (t: usize)
        requires
            self.wf(),
        ensures
            t == col / self.tile_cols,
    {
        col / self.tile_cols
    }

    /// Column index relative to the start of its tile.
    pub fn col_within_tile(&self, col: usize) -> (c: usize)
        requires
            self.wf(),
        ensures
            c == col % self.tile_cols,
    {
        col % self.tile_cols
    }

    /// Number of columns actually stored in tile `tile_idx`. The last tile
    /// may be smaller than `tile_cols` when `total_cols` does not divide
    /// evenly.
    pub fn cols_in_tile(&self, tile_idx: usize) -> (n: usize)
        ensures
            n == self.cols_in(tile_idx as int),
    {
        let start = saturating_mul_usize(tile_idx, self.tile_cols);
        if start >= self.total_cols {
            return 0;
        }
        let rest = self.total_cols - start;
        if rest < self.tile_cols {
            rest
        } else {
            self.tile_cols
        }
    }

    /// Number of elements in tile `tile_idx`'s backing buffer.
    pub fn elems_in_tile(&self, tile_idx: usize) -> (n: usize)
        ensures
            n == self.elems_in(tile_idx as int),
    {
        saturating_mul_usize(self.cols_in_tile(tile_idx), self.stride)
    }

    /// Number of source elements skipped by the first `col_within_tile`
    /// columns of a tile, saturated at `usize::MAX`.
    pub fn col_offset_within_tile(&self, col_within_tile: usize) -> (n: usize)
        ensures
            n as int == if col_within_tile * self.stride > usize::MAX {
                usize::MAX as int
            } else {
                col_within_tile * self.stride
            },
    {
        saturating_mul_usize(col_within_tile, self.stride)
    }
}

/// `a * b`, or `usize::MAX` when the product does not fit.
pub fn saturating_mul_usize(a: usize, b: usize) -> (r: usize)
    ensures
        r as int == if a * b > usize::MAX { usize::MAX as int } else { a * b },
{
    match a.checked_mul(b) {
        Some(v) => v,
        None => usize::MAX,
    }
}


impl TileLayout {
    /// Total number of columns stored in tiles `0..n`.
    pub open spec fn cols_before(self, n: nat) -> nat
        decreases n,
    {
        if n == 0 {
            0
        } else {
            self.cols_before((n - 1) as nat) + self.cols_in(n - 1)
        }
    }
}

proof fn lemma_cols_before_closed_form(l: TileLayout, k: nat)
    requires
        l.wf(),
    ensures
        l.cols_before(k) == if k * l.tile_cols < l.total_cols {
            k * l.tile_cols
        } else {
            l.total_cols as int
        },
    decreases k,
{
    if k > 0 {
        let j = (k - 1) as nat;
        lemma_cols_before_closed_form(l, j);
        let b = l.tile_cols as int;
        let km = j * b;
        assert(km + b == k * b) by (nonlinear_arith)
            requires
                km == j * b,
                j == k - 1,
        ;
        assert(km >= 0) by (nonlinear_arith)
            requires
                km == j * b,
                j >= 0,
                b > 0,
        ;
        assert((j as int) * l.tile_cols == km);
        assert(l.cols_in(j as int) == if km >= l.total_cols {
            0
        } else if l.total_cols - km < b {
            l.total_cols - km
        } else {
            b
        });
        assert(l.cols_before(k) == l.cols_before(j) + l.cols_in(j as int));
        assert(k * l.tile_cols == km + b);
        assert(j * l.tile_cols == km);
        if km >= l.total_cols {
            assert(l.cols_before(k) == l.total_cols);
        } else if l.total_cols - km < b {
            assert(l.cols_before(k) == l.total_cols);
        } else {
            assert(l.cols_before(k) == km + b);
        }
    } else {
        assert(k * l.tile_cols == 0) by (nonlinear_arith)
            requires
                k == 0,
        ;
    }
}

proof fn lemma_tile_count_covers(l: TileLayout)
    requires
        l.wf(),
    ensures
        l.tile_count() * l.tile_cols >= l.total_cols,
        l.total_cols > 0 ==> (l.tile_count() - 1) * l.tile_cols < l.total_cols,
{
    if l.total_cols > 0 {
        let a = l.total_cols as int;
        let b = l.tile_cols as int;
        lemma_ceil_div_parts(a, b);
        lemma_fundamental_div_mod(a, b);
        lemma_mod_bound(a, b);
        let q = a / b;
        assert(b * q == q * b) by (nonlinear_arith);
        assert((q + 1) * b == q * b + b) by (nonlinear_arith);
        assert((q - 1) * b == q * b - b) by (nonlinear_arith);
        assert(q >= 0) by (nonlinear_arith)
            requires
                a >= 0,
                b > 0,
                a == b * q + a % b,
                a % b < b,
        ;
    }
}

/// Law: every column index splits into its tile and its position in the
/// tile, `col == tile_for_col(col) * tile_cols + col_within_tile(col)`; the
/// position lies inside the columns actually stored in that tile, and the
/// tile is one of the `num_tiles()` tiles.
pub proof fn lemma_col_addressing_roundtrip(l: TileLayout, col: usize)
    requires
        l.wf(),
        col < l.total_cols,
    ensures
        (col / l.tile_cols) * l.tile_cols + col % l.tile_cols == col,
        col % l.tile_cols < l.cols_in((col / l.tile_cols) as int),
        col / l.tile_cols < l.tile_count(),
{
    let c = col as int;
    let b = l.tile_cols as int;
    lemma_fundamental_div_mod(c, b);
    lemma_mod_bound(c, b);
    let q = c / b;
    assert(b * q == q * b) by (nonlinear_arith);
    assert(q >= 0) by (nonlinear_arith)
        requires
            c >= 0,
            b > 0,
            c == b * q + c % b,
            c % b < b,
    ;
    lemma_tile_count_covers(l);
    let n = l.tile_count() as int;
    if q >= n {
        assert(q * b >= n * b) by (nonlinear_arith)
            requires
                q >= n,
                b > 0,
        ;
    }
}

/// Law: the tiles partition the columns. Summed over all `num_tiles()`
/// tiles, `cols_in_tile` gives exactly `total_cols`, every tile below
/// `num_tiles()` is non-empty, and every tile from `num_tiles()` on is
/// empty.
pub proof fn lemma_tiles_cover_all_columns(l: TileLayout, t: int)
    requires
        l.wf(),
        t >= 0,
    ensures
        l.cols_before(l.tile_count()) == l.total_cols,
        t < l.tile_count() ==> l.cols_in(t) > 0,
        t >= l.tile_count() ==> l.cols_in(t) == 0,
{
    lemma_tile_count_covers(l);
    lemma_cols_before_closed_form(l, l.tile_count());
    let n = l.tile_count() as int;
    let b = l.tile_cols as int;
    if t < n {
        assert(t * b <= (n - 1) * b) by (nonlinear_arith)
            requires
                t <= n - 1,
                b > 0,
        ;
    } else {
        assert(t * b >= n * b) by (nonlinear_arith)
            requires
                t >= n,
                b > 0,
        ;
    }
}

/// Law: a layout built by `TileLayout::new` has non-empty tiles, and each
/// tile's bytes (`cols_in_tile(t) * stride * elem_size`) fit within
/// `max_binding_bytes`.
pub proof fn lemma_new_tiles_fit_binding(
    stride: usize,
    total_cols: usize,
    elem_size: usize,
    max_binding_bytes: u64,
    t: int,
)
    requires
        layout_result(stride, total_cols, elem_size, max_binding_bytes) is Ok,
        t >= 0,
    ensures
        ({
            let l = layout_result(stride, total_cols, elem_size, max_binding_bytes)->Ok_0;
            &&& l.wf()
            &&& l.stride == stride
            &&& l.total_cols == total_cols
            &&& l.cols_in(t) * stride * elem_size <= max_binding_bytes
        }),
{
    let l = layout_result(stride, total_cols, elem_size, max_binding_bytes)->Ok_0;
    let c = l.cols_in(t) as int;
    assert(c <= l.tile_cols);
    if stride == 0 || total_cols == 0 {
        if stride == 0 {
            assert(c * stride * elem_size == 0) by (nonlinear_arith)
                requires
                    stride == 0,
            ;
        } else {
            assert(t * l.tile_cols >= 0) by (nonlinear_arith)
                requires
                    t >= 0,
                    l.tile_cols > 0,
            ;
            assert(c == 0);
            assert(c * stride * elem_size == 0) by (nonlinear_arith)
                requires
                    c == 0,
            ;
        }
    } else {
        let cb = (stride * elem_size) as int;
        let m = max_binding_bytes as int;
        let q = m / cb;
        assert(cb > 0) by (nonlinear_arith)
            requires
                stride > 0,
                elem_size > 0,
                cb == stride * elem_size,
        ;
        let qu = q as u64;
        assert((qu as usize) as u64 <= qu) by (bit_vector);
        let fit = (qu as usize);
        lemma_fundamental_div_mod(m, cb);
        lemma_mod_bound(m, cb);
        assert(cb * q == q * cb) by (nonlinear_arith);
        assert(c * stride * elem_size == c * cb) by (nonlinear_arith)
            requires
                cb == stride * elem_size,
        ;
        if l.tile_cols == 1 {
            assert(c * cb <= cb) by (nonlinear_arith)
                requires
                    c <= 1,
                    c >= 0,
                    cb > 0,
            ;
        } else {
            assert(l.tile_cols <= fit);
            assert(c * cb <= q * cb) by (nonlinear_arith)
                requires
                    c <= q,
                    cb > 0,
            ;
        }
    }
}

/// Law: `TileLayout::new` packs as many columns per tile as fit. When the
/// matrix is split (`tile_cols < total_cols`) and the fitting column count
/// is representable in `usize`, one more column per tile would exceed
/// `max_binding_bytes`.
pub proof fn lemma_new_tile_cols_maximal(
    stride: usize,
    total_cols: usize,
    elem_size: usize,
    max_binding_bytes: u64,
)
    requires
        layout_result(stride, total_cols, elem_size, max_binding_bytes) is Ok,
        stride > 0,
        layout_result(stride, total_cols, elem_size, max_binding_bytes)->Ok_0.tile_cols
            < total_cols,
        (max_binding_bytes as int) / (stride * elem_size) <= usize::MAX,
    ensures
        (layout_result(stride, total_cols, elem_size, max_binding_bytes)->Ok_0.tile_cols + 1)
            * stride * elem_size > max_binding_bytes,
{
    let l = layout_result(stride, total_cols, elem_size, max_binding_bytes)->Ok_0;
    let cb = (stride * elem_size) as int;
    let m = max_binding_bytes as int;
    assert(cb > 0) by (nonlinear_arith)
        requires
            stride > 0,
            elem_size > 0,
            cb == stride * elem_size,
    ;
    let q = m / cb;
    lemma_fundamental_div_mod(m, cb);
    lemma_mod_bound(m, cb);
    assert(cb * q == q * cb) by (nonlinear_arith);
    assert(q >= 1) by (nonlinear_arith)
        requires
            cb <= m,
            m == cb * q + m % cb,
            m % cb < cb,
            cb > 0,
    ;
    let qu = q as u64;
    assert((qu as usize) as int == q);
    assert(l.tile_cols == q);
    assert((q + 1) * stride * elem_size == q * cb + cb) by (nonlinear_arith)
        requires
            cb == stride * elem_size,
    ;
}

proof fn lemma_div_col_overflow(s: int, e: int)
    requires
        e > 0,
        s >= 0,
        s > u64::MAX as int / e,
    ensures
        s * e > u64::MAX,
{
    lemma_fundamental_div_mod(u64::MAX as int, e);
    let q = u64::MAX as int / e;
    lemma_mul_inequality(q + 1, s, e);
    lemma_mod_bound(u64::MAX as int, e);
    assert((q + 1) * e == q * e + e) by (nonlinear_arith);
    assert(e * q == q * e) by (nonlinear_arith);
}

proof fn lemma_div_col_fits(s: int, e: int)
    requires
        e > 0,
        s >= 0,
        s <= u64::MAX as int / e,
    ensures
        s * e <= u64::MAX,
{
    lemma_fundamental_div_mod(u64::MAX as int, e);
    lemma_mul_inequality(s, u64::MAX as int / e, e);
    lemma_mod_bound(u64::MAX as int, e);
    assert(e * (u64::MAX as int / e) == (u64::MAX as int / e) * e) by (nonlinear_arith);
    assert(s * e >= 0) by (nonlinear_arith)
        requires
            s >= 0,
            e > 0,
    ;
}

proof fn lemma_ceil_div_parts(a: int, b: int)
    requires
        a >= 0,
        b > 0,
    ensures
        ceil_div(a as nat, b as nat) == (if a % b != 0 { a / b + 1 } else { a / b }),
{
    lemma_fundamental_div_mod(a, b);
    lemma_mod_bound(a, b);
    let q = a / b;
    let r = a % b;
    assert(b * q == q * b) by (nonlinear_arith);
    if r == 0 {
        lemma_fundamental_div_mod_converse(a + b - 1, b, q, b - 1);
    } else {
        assert((q + 1) * b == q * b + b) by (nonlinear_arith);
        lemma_fundamental_div_mod_converse(a + b - 1, b, q + 1, r - 1);
    }
}

/// Why a pool upload could not be planned.
#[derive(Debug, Clone, Copy, PartialEq, Eq, Structural)]
pub enum PoolUploadError {
    /// `total_cols * stride * elem_size` does not fit in `usize`.
    TotalBytesOverflow,
    /// The source does not hold exactly the matrix's bytes.
    SizeMismatch { cpu: usize, expected: usize },
}

/// First byte of tile `t` in the contiguous column-major source.
pub open spec fn tile_byte_start(l: TileLayout, elem_size: int, t: int) -> int {
    t * l.tile_cols * l.stride * elem_size
}

/// Bytes of tile `t`.
pub open spec fn tile_byte_len(l: TileLayout, elem_size: int, t: int) -> int {
    l.cols_in(t) * l.stride * elem_size
}

/// The byte range of the contiguous source that each tile buffer receives,
/// after checking that the source holds exactly the matrix's bytes.
pub fn pool_upload_ranges(layout: &TileLayout, elem_size: usize, cpu_len: usize) -> (res: Result<
    Vec<(usize, usize)>,
    PoolUploadError,
>)
    requires
        layout.wf(),
    ensures
        ({
            let cells = layout.total_cols * layout.stride;
            let expected = cells * elem_size;
            if cells > usize::MAX || expected > usize::MAX {
                res == Err::<Vec<(usize, usize)>, PoolUploadError>(PoolUploadError::TotalBytesOverflow)
            } else if cpu_len != expected {
                res == Err::<Vec<(usize, usize)>, PoolUploadError>(
                    PoolUploadError::SizeMismatch { cpu: cpu_len, expected: expected as usize },
                )
            } else {
                res is Ok && res->Ok_0@.len() == layout.tile_count() && forall|t: int|
                    0 <= t < layout.tile_count() ==> (#[trigger] res->Ok_0@[t]).0 == tile_byte_start(
                        *layout,
                        elem_size as int,
                        t,
                    ) && res->Ok_0@[t].1 == tile_byte_start(*layout, elem_size as int, t) + tile_byte_len(
                        *layout,
                        elem_size as int,
                        t,
                    )
            }
        }),
{
    let cells = match layout.total_cols.checked_mul(layout.stride) {
        Some(c) => c,
        None => {
            return Err(PoolUploadError::TotalBytesOverflow);
        },
    };
    let expected = match cells.checked_mul(elem_size) {
        Some(e) => e,
        None => {
            return Err(PoolUploadError::TotalBytesOverflow);
        },
    };
    if cpu_len != expected {
        return Err(PoolUploadError::SizeMismatch { cpu: cpu_len, expected });
    }
    let n = layout.num_tiles();
    let mut ranges: Vec<(usize, usize)> = Vec::new();
    let mut t: usize = 0;
    proof {
        lemma_tile_count_covers(*layout);
    }
    while t < n
        invariant
            layout.wf(),
            n == layout.tile_count(),
            layout.tile_count() * layout.tile_cols >= layout.total_cols,
            layout.total_cols > 0 ==> (layout.tile_count() - 1) * layout.tile_cols < layout.total_cols,
            cells == layout.total_cols * layout.stride,
            expected == cells * elem_size,
            t <= n,
            ranges@.len() == t,
            forall|k: int|
                0 <= k < t ==> (#[trigger] ranges@[k]).0 == tile_byte_start(*layout, elem_size as int, k)
                    && ranges@[k].1 == tile_byte_start(*layout, elem_size as int, k) + tile_byte_len(
                    *layout,
                    elem_size as int,
                    k,
                ),
        decreases n - t,
    {
        let tc = layout.tile_cols;
        let st = layout.stride;
        let total = layout.total_cols;
        proof {
            assert(total > 0);
            assert(t * tc <= (n - 1) * tc) by (nonlinear_arith)
                requires
                    t <= n - 1,
                    tc > 0,
            ;
        }
        let col_start = t * tc;
        let cols = layout.cols_in_tile(t);
        proof {
            assert(col_start + cols <= total);
            assert(col_start * st <= cells && (col_start + cols) * st <= cells) by (nonlinear_arith)
                requires
                    col_start + cols <= total,
                    cols >= 0,
                    cells == total * st,
            ;
            assert(col_start * st * elem_size <= expected && (col_start + cols) * st * elem_size
                <= expected) by (nonlinear_arith)
                requires
                    col_start * st <= cells,
                    (col_start + cols) * st <= cells,
                    expected == cells * elem_size,
            ;
            assert((col_start + cols) * st * elem_size == col_start * st * elem_size + cols * st
                * elem_size) by (nonlinear_arith);
            assert(cols * st * elem_size >= 0) by (nonlinear_arith);
            assert(cols * st <= cells && cols * st * elem_size <= expected) by (nonlinear_arith)
                requires
                    cols <= total,
                    cells == total * st,
                    expected == cells * elem_size,
            ;
        }
        let byte_start = col_start * st * elem_size;
        let byte_end = byte_start + cols * st * elem_size;
        ranges.push((byte_start, byte_end));
        t = t + 1;
    }
    Ok(ranges)
}

/// Law: the tile upload ranges split the source bytes in order, without
/// gaps or overlap: the first starts at 0, each ends where the next one
/// starts, and the last ends at `total_cols * stride * elem_size`.
pub proof fn lemma_pool_upload_ranges_contiguous(l: TileLayout, elem_size: int, t: int)
    requires
        l.wf(),
        elem_size >= 0,
        0 <= t < l.tile_count(),
    ensures
        tile_byte_start(l, elem_size, 0) == 0,
        t + 1 < l.tile_count() ==> tile_byte_start(l, elem_size, t) + tile_byte_len(l, elem_size, t)
            == tile_byte_start(l, elem_size, t + 1),
        t + 1 == l.tile_count() ==> tile_byte_start(l, elem_size, t) + tile_byte_len(l, elem_size, t)
            == l.total_cols * l.stride * elem_size,
{
    lemma_tile_count_covers(l);
    let n = l.tile_count() as int;
    let b = l.tile_cols as int;
    let st = l.stride as int;
    assert(0 * b * st * elem_size == 0) by (nonlinear_arith);
    assert(l.total_cols > 0);
    assert(t * b <= (n - 1) * b) by (nonlinear_arith)
        requires
            t <= n - 1,
            b > 0,
    ;
    assert((t + 1) * b == t * b + b) by (nonlinear_arith);
    let start = t * b;
    assert(t * b * st * elem_size == start * st * elem_size);
    if t + 1 < n {
        assert((t + 1) * b <= (n - 1) * b) by (nonlinear_arith)
            requires
                t + 1 <= n - 1,
                b > 0,
        ;
        assert(l.total_cols - start >= b);
        assert(l.cols_in(t) == b);
        assert((t + 1) * b * st * elem_size == t * b * st * elem_size + b * st * elem_size) by (nonlinear_arith);
    } else {
        assert(n * b >= l.total_cols);
        assert(l.total_cols - start <= b) by (nonlinear_arith)
            requires
                n * b >= l.total_cols,
                t + 1 == n,
                start == t * b,
        ;
        assert(start + l.cols_in(t) == l.total_cols);
        assert(start * st * elem_size + l.cols_in(t) * st * elem_size == (start + l.cols_in(t)) * st
            * elem_size) by (nonlinear_arith);
    }
}

} // verus!
