//! Planning of GPU-to-host readbacks: which byte ranges are copied from
//! which source buffer to where in the one mapped staging buffer.
//!
//! Byte offsets and lengths are handed to JavaScript as numbers, so every
//! one of them must be an exactly representable integer.

use vstd::prelude::*;
use crate::dispatch::MAX_EXACT_JS_INTEGER;

verus! {

/// One buffer-to-buffer copy: `len` bytes from `src_offset` of source
/// buffer number `source` to `dst_offset` of the staging buffer.
#[derive(Clone, Copy, Debug, PartialEq, Eq, Structural)]
pub struct ReadbackCopy {
    pub source: usize,
    pub src_offset: u64,
    pub dst_offset: u64,
    pub len: u64,
}

/// A readback: the staging buffer's length and the copies that fill it.
pub struct ReadbackPlan {
    pub byte_len: u64,
    pub copies: Vec<ReadbackCopy>,
}

/// Fixed-size elements at `indices` (in element units from
/// `base_byte_offset`) of one source buffer.
pub struct IndexedReadbackGroup {
    pub base_byte_offset: u64,
    pub elem_size: u64,
    pub indices: Vec<usize>,
}

/// Why a readback could not be planned.
#[derive(Clone, Copy, Debug, PartialEq, Eq, Structural)]
pub enum ReadbackError {
    /// An element size is zero.
    ZeroElementSize,
    /// A length or a combined length does not fit.
    LengthOverflow,
    /// A source byte offset exceeds `u64`.
    OffsetOverflow,
    /// An offset or length is not an exact JavaScript integer.
    NotExactInJs,
}

/// A copy with mathematical offsets, before they are checked.
pub struct CopySpec {
    pub source: int,
    pub src: int,
    pub dst: int,
    pub len: int,
}

/// The copies of `indices` of one source: element `j` goes to
/// `dst_base + j * size`.
pub open spec fn indexed_copies(source: int, base: int, size: int, indices: Seq<usize>, dst_base: int) -> Seq<
    CopySpec,
> {
    Seq::new(
        indices.len(),
        |j: int| CopySpec { source, src: base + indices[j] * size, dst: dst_base + j * size, len: size },
    )
}

/// What is wrong with a copy, if anything: a source offset beyond `u64`,
/// or an offset or length that is not an exact JavaScript integer.
pub open spec fn copy_error(c: CopySpec) -> Option<ReadbackError> {
    if c.src > u64::MAX {
        Some(ReadbackError::OffsetOverflow)
    } else if c.src > MAX_EXACT_JS_INTEGER || c.dst > MAX_EXACT_JS_INTEGER || c.len > MAX_EXACT_JS_INTEGER {
        Some(ReadbackError::NotExactInJs)
    } else {
        None
    }
}

/// Every copy of `cs` is fine.
pub open spec fn copies_ok(cs: Seq<CopySpec>) -> bool {
    forall|k: int| 0 <= k < cs.len() ==> (#[trigger] copy_error(cs[k])) is None
}

/// Copy `k` is the first of `cs` with something wrong.
pub open spec fn first_bad_copy(cs: Seq<CopySpec>, k: int) -> bool {
    &&& 0 <= k < cs.len()
    &&& copy_error(cs[k]) is Some
    &&& forall|m: int| 0 <= m < k ==> (#[trigger] copy_error(cs[m])) is None
}

/// The checked copy.
pub open spec fn as_copy(c: CopySpec) -> ReadbackCopy {
    ReadbackCopy { source: c.source as usize, src_offset: c.src as u64, dst_offset: c.dst as u64, len: c.len as u64 }
}

pub open spec fn as_copies(cs: Seq<CopySpec>) -> Seq<ReadbackCopy> {
    cs.map_values(|c: CopySpec| as_copy(c))
}

/// Appends the copies of one indexed source, stopping at the first copy
/// with something wrong.
fn push_indexed_copies(
    copies: &mut Vec<ReadbackCopy>,
    source: usize,
    base: u64,
    size: u64,
    indices: &[usize],
    dst_base: u64,
) -> (r: Result<(), ReadbackError>)
    requires
        size > 0,
        dst_base + indices@.len() * size <= u64::MAX,
    ensures
        ({
            let cs = indexed_copies(source as int, base as int, size as int, indices@, dst_base as int);
            &&& r is Ok <==> copies_ok(cs)
            &&& r is Ok ==> final(copies)@ == old(copies)@ + as_copies(cs)
            &&& forall|k: int| #[trigger] first_bad_copy(cs, k) ==> r == Err::<(), ReadbackError>(
                copy_error(cs[k])->Some_0,
            )
        }),
{
    let ghost cs = indexed_copies(source as int, base as int, size as int, indices@, dst_base as int);
    let ghost start = copies@;
    let mut j: usize = 0;
    while j < indices.len()
        invariant
            size > 0,
            dst_base + indices@.len() * size <= u64::MAX,
            cs == indexed_copies(source as int, base as int, size as int, indices@, dst_base as int),
            j <= indices@.len(),
            forall|k: int| 0 <= k < j ==> (#[trigger] copy_error(cs[k])) is None,
            copies@ == start + as_copies(cs.take(j as int)),
        decreases indices@.len() - j,
    {
        let ghost c = cs[j as int];
        proof {
            assert(c.dst == dst_base + j * size);
            assert(j * size <= indices@.len() * size) by (nonlinear_arith)
                requires
                    j <= indices@.len(),
            ;
            assert(indices@[j as int] * size >= 0) by (nonlinear_arith);
        }
        let idx = indices[j] as u64;
        let src = match idx.checked_mul(size) {
            Some(o) => match base.checked_add(o) {
                Some(s) => s,
                None => {
                    proof {
                        assert(first_bad_copy(cs, j as int));
                        assert forall|k: int| #[trigger] first_bad_copy(cs, k) implies k == j by {
                            if k < j {
                                assert(copy_error(cs[k]) is None);
                            } else if k > j {
                                assert(copy_error(cs[j as int]) is Some);
                            }
                        }
                    }
                    return Err(ReadbackError::OffsetOverflow);
                },
            },
            None => {
                proof {
                    assert(first_bad_copy(cs, j as int));
                    assert forall|k: int| #[trigger] first_bad_copy(cs, k) implies k == j by {
                        if k < j {
                            assert(copy_error(cs[k]) is None);
                        } else if k > j {
                            assert(copy_error(cs[j as int]) is Some);
                        }
                    }
                }
                return Err(ReadbackError::OffsetOverflow);
            },
        };
        let dst = dst_base + (j as u64) * size;
        if src > MAX_EXACT_JS_INTEGER || dst > MAX_EXACT_JS_INTEGER || size > MAX_EXACT_JS_INTEGER {
            proof {
                assert(first_bad_copy(cs, j as int));
                assert forall|k: int| #[trigger] first_bad_copy(cs, k) implies k == j by {
                    if k < j {
                        assert(copy_error(cs[k]) is None);
                    } else if k > j {
                        assert(copy_error(cs[j as int]) is Some);
                    }
                }
            }
            return Err(ReadbackError::NotExactInJs);
        }
        copies.push(ReadbackCopy { source, src_offset: src, dst_offset: dst, len: size });
        proof {
            assert(cs.take(j + 1) =~= cs.take(j as int).push(c));
            assert(as_copies(cs.take(j + 1)) =~= as_copies(cs.take(j as int)).push(as_copy(c)));
        }
        j = j + 1;
    }
    proof {
        assert(cs.take(indices@.len() as int) =~= cs);
        assert forall|k: int| #![trigger first_bad_copy(cs, k)] !first_bad_copy(cs, k) by {}
    }
    Ok(())
}

proof fn lemma_copies_concat(a: Seq<CopySpec>, b: Seq<CopySpec>)
    requires
        copies_ok(a),
    ensures
        copies_ok(a + b) <==> copies_ok(b),
        forall|k: int| #[trigger] first_bad_copy(b, k) ==> first_bad_copy(a + b, a.len() + k),
        forall|k: int| #[trigger] first_bad_copy(a + b, k) ==> k >= a.len() && first_bad_copy(b, k - a.len()),
        as_copies(a + b) == as_copies(a) + as_copies(b),
{
    assert forall|k: int| 0 <= k < b.len() implies (a + b)[a.len() + k] == b[k] by {}
    assert forall|k: int| 0 <= k < a.len() implies (a + b)[k] == a[k] by {}
    if copies_ok(b) {
        assert forall|k: int| 0 <= k < (a + b).len() implies (#[trigger] copy_error((a + b)[k])) is None by {
            if k >= a.len() {
                assert(copy_error(b[k - a.len()]) is None);
            } else {
                assert(copy_error(a[k]) is None);
            }
        }
    }
    if copies_ok(a + b) {
        assert forall|k: int| 0 <= k < b.len() implies (#[trigger] copy_error(b[k])) is None by {
            assert(copy_error((a + b)[a.len() + k]) is None);
        }
    }
    assert forall|k: int| #[trigger] first_bad_copy(b, k) implies first_bad_copy(a + b, a.len() + k) by {
        assert forall|m: int| 0 <= m < a.len() + k implies (#[trigger] copy_error((a + b)[m])) is None by {
            if m >= a.len() {
                assert(copy_error(b[m - a.len()]) is None);
            } else {
                assert(copy_error(a[m]) is None);
            }
        }
    }
    assert forall|k: int| #[trigger] first_bad_copy(a + b, k) implies k >= a.len() && first_bad_copy(
        b,
        k - a.len(),
    ) by {
        if k < a.len() {
            assert(copy_error(a[k]) is None);
        }
        assert forall|m: int| 0 <= m < k - a.len() implies (#[trigger] copy_error(b[m])) is None by {
            assert(copy_error((a + b)[a.len() + m]) is None);
        }
    }
    assert(as_copies(a + b) =~= as_copies(a) + as_copies(b));
}

/// The plan for reading the elements at `indices` of one buffer.
pub open spec fn indices_plan_spec(base: u64, size: u64, indices: Seq<usize>) -> Result<(int, Seq<CopySpec>), ReadbackError> {
    let n = indices.len() as int;
    let cs = indexed_copies(0, base as int, size as int, indices, 0);
    if n == 0 {
        Ok((0, Seq::empty()))
    } else if size == 0 {
        Err(ReadbackError::ZeroElementSize)
    } else if size > usize::MAX || n * size > usize::MAX {
        Err(ReadbackError::LengthOverflow)
    } else if !copies_ok(cs) {
        Err(copy_error(cs[choose|k: int| first_bad_copy(cs, k)])->Some_0)
    } else if n * size > MAX_EXACT_JS_INTEGER {
        Err(ReadbackError::NotExactInJs)
    } else {
        Ok((n * size, cs))
    }
}

/// `res` is what `spec` describes.
pub open spec fn plan_matches(res: Result<ReadbackPlan, ReadbackError>, spec: Result<(int, Seq<CopySpec>), ReadbackError>) -> bool {
    match (res, spec) {
        (Ok(p), Ok((len, cs))) => p.byte_len == len && p.copies@ == as_copies(cs),
        (Err(x), Err(y)) => x == y,
        _ => false,
    }
}

proof fn lemma_first_bad_unique(cs: Seq<CopySpec>, k: int)
    requires
        first_bad_copy(cs, k),
    ensures
        (choose|m: int| first_bad_copy(cs, m)) == k,
{
    let m = choose|m: int| first_bad_copy(cs, m);
    assert(first_bad_copy(cs, m));
    if m < k {
        assert(copy_error(cs[m]) is None);
    } else if m > k {
        assert(copy_error(cs[k]) is None);
    }
}

proof fn lemma_some_first_bad(cs: Seq<CopySpec>)
    requires
        !copies_ok(cs),
    ensures
        exists|k: int| first_bad_copy(cs, k),
    decreases cs.len(),
{
    let d = cs.drop_last();
    if copies_ok(d) {
        assert forall|m: int| 0 <= m < cs.len() - 1 implies (#[trigger] copy_error(cs[m])) is None by {
            assert(copy_error(d[m]) is None);
        }
        assert(first_bad_copy(cs, cs.len() - 1));
    } else {
        lemma_some_first_bad(d);
        let k = choose|k: int| first_bad_copy(d, k);
        assert forall|m: int| 0 <= m < k implies (#[trigger] copy_error(cs[m])) is None by {
            assert(copy_error(d[m]) is None);
        }
        assert(first_bad_copy(cs, k));
    }
}

/// Plans reading the `elem_size`-byte elements at `indices` (in element
/// units from `base_byte_offset`) of one buffer, in index order.
pub fn plan_read_buffer_indices(base_byte_offset: u64, elem_size: u64, indices: &[usize]) -> (res: Result<
    ReadbackPlan,
    ReadbackError,
>)
    ensures
        plan_matches(res, indices_plan_spec(base_byte_offset, elem_size, indices@)),
{
    let n = indices.len();
    if n == 0 {
        assert(as_copies(Seq::<CopySpec>::empty()) =~= Seq::<ReadbackCopy>::empty());
        return Ok(ReadbackPlan { byte_len: 0, copies: Vec::new() });
    }
    if elem_size == 0 {
        return Err(ReadbackError::ZeroElementSize);
    }
    if elem_size > usize::MAX as u64 {
        return Err(ReadbackError::LengthOverflow);
    }
    let byte_len = match n.checked_mul(elem_size as usize) {
        Some(b) => b as u64,
        None => return Err(ReadbackError::LengthOverflow),
    };
    let mut copies: Vec<ReadbackCopy> = Vec::new();
    let ghost cs = indexed_copies(0, base_byte_offset as int, elem_size as int, indices@, 0);
    match push_indexed_copies(&mut copies, 0, base_byte_offset, elem_size, indices, 0) {
        Ok(()) => {},
        Err(e) => {
            proof {
                lemma_some_first_bad(cs);
                let k = choose|k: int| first_bad_copy(cs, k);
                lemma_first_bad_unique(cs, k);
            }
            return Err(e);
        },
    }
    if byte_len > MAX_EXACT_JS_INTEGER {
        return Err(ReadbackError::NotExactInJs);
    }
    proof {
        assert(copies@ =~= as_copies(cs));
    }
    Ok(ReadbackPlan { byte_len, copies })
}

/// Bytes read for one group.
pub open spec fn group_bytes(g: IndexedReadbackGroup) -> int {
    g.indices@.len() * g.elem_size
}

/// Bytes read for the groups before group `i`.
pub open spec fn groups_prefix_bytes(gs: Seq<IndexedReadbackGroup>, i: int) -> int
    decreases i,
{
    if i <= 0 {
        0
    } else {
        groups_prefix_bytes(gs, i - 1) + group_bytes(gs[i - 1])
    }
}

/// Group `i` cannot be read: its element size is zero, or its length or
/// the running total does not fit in `usize`.
pub open spec fn group_bad(gs: Seq<IndexedReadbackGroup>, i: int) -> bool {
    ||| gs[i].elem_size == 0
    ||| gs[i].elem_size > usize::MAX
    ||| group_bytes(gs[i]) > usize::MAX
    ||| groups_prefix_bytes(gs, i) + group_bytes(gs[i]) > usize::MAX
}

pub open spec fn first_bad_group(gs: Seq<IndexedReadbackGroup>, i: int) -> bool {
    &&& 0 <= i < gs.len()
    &&& group_bad(gs, i)
    &&& forall|h: int| 0 <= h < i ==> !#[trigger] group_bad(gs, h)
}

/// The copies of the first `i` groups, each group's elements placed right
/// after the previous group's.
pub open spec fn groups_copies(gs: Seq<IndexedReadbackGroup>, i: int) -> Seq<CopySpec>
    decreases i,
{
    if i <= 0 {
        Seq::empty()
    } else {
        groups_copies(gs, i - 1) + indexed_copies(
            i - 1,
            gs[i - 1].base_byte_offset as int,
            gs[i - 1].elem_size as int,
            gs[i - 1].indices@,
            groups_prefix_bytes(gs, i - 1),
        )
    }
}

/// The plan for reading several indexed groups into one staging buffer.
pub open spec fn groups_plan_spec(gs: Seq<IndexedReadbackGroup>) -> Result<(int, Seq<CopySpec>), ReadbackError> {
    let total = groups_prefix_bytes(gs, gs.len() as int);
    let cs = groups_copies(gs, gs.len() as int);
    if gs.len() == 0 {
        Ok((0, Seq::empty()))
    } else if exists|i: int| first_bad_group(gs, i) {
        let i = choose|i: int| first_bad_group(gs, i);
        if gs[i].elem_size == 0 {
            Err(ReadbackError::ZeroElementSize)
        } else {
            Err(ReadbackError::LengthOverflow)
        }
    } else if total == 0 {
        Ok((0, Seq::empty()))
    } else if !copies_ok(cs) {
        Err(copy_error(cs[choose|k: int| first_bad_copy(cs, k)])->Some_0)
    } else if total > MAX_EXACT_JS_INTEGER {
        Err(ReadbackError::NotExactInJs)
    } else {
        Ok((total, cs))
    }
}

proof fn lemma_group_bytes_nonneg(g: IndexedReadbackGroup)
    ensures
        group_bytes(g) >= 0,
{
    assert(group_bytes(g) >= 0) by (nonlinear_arith)
        requires
            g.indices@.len() >= 0,
            g.elem_size >= 0,
    ;
}

proof fn lemma_groups_prefix_mono(gs: Seq<IndexedReadbackGroup>, i: int, j: int)
    requires
        0 <= i <= j <= gs.len(),
    ensures
        groups_prefix_bytes(gs, i) <= groups_prefix_bytes(gs, j),
        groups_prefix_bytes(gs, i) >= 0,
    decreases j,
{
    if i < j {
        lemma_groups_prefix_mono(gs, i, j - 1);
        lemma_group_bytes_nonneg(gs[j - 1]);
    } else if i > 0 {
        lemma_groups_prefix_mono(gs, i - 1, i - 1);
        lemma_group_bytes_nonneg(gs[i - 1]);
    }
}

proof fn lemma_first_bad_group_unique(gs: Seq<IndexedReadbackGroup>, i: int)
    requires
        first_bad_group(gs, i),
    ensures
        (choose|m: int| first_bad_group(gs, m)) == i,
{
    let m = choose|m: int| first_bad_group(gs, m);
    assert(first_bad_group(gs, m));
    if m < i {
        assert(!group_bad(gs, m));
    } else if m > i {
        assert(!group_bad(gs, i));
    }
}

proof fn lemma_groups_copies_empty(gs: Seq<IndexedReadbackGroup>, i: int)
    requires
        0 <= i <= gs.len(),
        groups_prefix_bytes(gs, gs.len() as int) == 0,
        forall|h: int| 0 <= h < gs.len() ==> (#[trigger] gs[h]).elem_size > 0,
    ensures
        groups_copies(gs, i) == Seq::<CopySpec>::empty(),
    decreases i,
{
    if i > 0 {
        lemma_groups_copies_empty(gs, i - 1);
        lemma_groups_prefix_mono(gs, i, gs.len() as int);
        lemma_groups_prefix_mono(gs, i - 1, i - 1);
        let g = gs[i - 1];
        if g.indices@.len() > 0 {
            assert(group_bytes(g) >= g.elem_size) by (nonlinear_arith)
                requires
                    g.indices@.len() >= 1,
                    g.elem_size >= 0,
            ;
        }
        assert(indexed_copies(
            i - 1,
            g.base_byte_offset as int,
            g.elem_size as int,
            g.indices@,
            groups_prefix_bytes(gs, i - 1),
        ) =~= Seq::<CopySpec>::empty());
        assert(groups_copies(gs, i) =~= Seq::<CopySpec>::empty());
    }
}

/// Plans reading the elements at the indices of several buffers into one
/// staging buffer; the bytes come out group by group, and within a group
/// in index order.
pub fn plan_read_buffer_index_groups(groups: &[IndexedReadbackGroup]) -> (res: Result<
    ReadbackPlan,
    ReadbackError,
>)
    ensures
        plan_matches(res, groups_plan_spec(groups@)),
{
    let ghost gs = groups@;
    let count = groups.len();
    if count == 0 {
        assert(as_copies(Seq::<CopySpec>::empty()) =~= Seq::<ReadbackCopy>::empty());
        return Ok(ReadbackPlan { byte_len: 0, copies: Vec::new() });
    }
    let mut total: usize = 0;
    let mut g: usize = 0;
    while g < count
        invariant
            gs == groups@,
            count == gs.len(),
            g <= count,
            total == groups_prefix_bytes(gs, g as int),
            forall|h: int| 0 <= h < g ==> !#[trigger] group_bad(gs, h),
        decreases count - g,
    {
        let group = &groups[g];
        let size = group.elem_size;
        let bad = if size == 0 {
            Some(ReadbackError::ZeroElementSize)
        } else if size > usize::MAX as u64 {
            Some(ReadbackError::LengthOverflow)
        } else {
            match group.indices.len().checked_mul(size as usize) {
                Some(b) => match total.checked_add(b) {
                    Some(t) => {
                        total = t;
                        None
                    },
                    None => Some(ReadbackError::LengthOverflow),
                },
                None => Some(ReadbackError::LengthOverflow),
            }
        };
        match bad {
            Some(e) => {
                proof {
                    assert(group_bad(gs, g as int));
                    assert(first_bad_group(gs, g as int));
                    lemma_first_bad_group_unique(gs, g as int);
                }
                return Err(e);
            },
            None => {},
        }
        g = g + 1;
    }
    proof {
        assert forall|i: int| #![trigger first_bad_group(gs, i)] !first_bad_group(gs, i) by {}
        assert forall|h: int| 0 <= h < gs.len() implies (#[trigger] gs[h]).elem_size > 0 by {
            assert(!group_bad(gs, h));
        }
    }
    if total == 0 {
        proof {
            lemma_groups_copies_empty(gs, gs.len() as int);
        }
        assert(as_copies(Seq::<CopySpec>::empty()) =~= Seq::<ReadbackCopy>::empty());
        return Ok(ReadbackPlan { byte_len: 0, copies: Vec::new() });
    }
    let mut copies: Vec<ReadbackCopy> = Vec::new();
    let mut dst_base: usize = 0;
    let mut g: usize = 0;
    proof {
        assert(as_copies(groups_copies(gs, 0)) =~= copies@);
    }
    while g < count
        invariant
            gs == groups@,
            count == gs.len(),
            g <= count,
            total == groups_prefix_bytes(gs, count as int),
            total > 0,
            forall|h: int| 0 <= h < count ==> !#[trigger] group_bad(gs, h),
            dst_base == groups_prefix_bytes(gs, g as int),
            copies_ok(groups_copies(gs, g as int)),
            copies@ == as_copies(groups_copies(gs, g as int)),
        decreases count - g,
    {
        let group = &groups[g];
        let ghost before = groups_copies(gs, g as int);
        let ghost mine = indexed_copies(
            g as int,
            group.base_byte_offset as int,
            group.elem_size as int,
            group.indices@,
            dst_base as int,
        );
        proof {
            assert(!group_bad(gs, g as int));
            lemma_groups_prefix_mono(gs, g + 1, count as int);
            assert(groups_copies(gs, g + 1) == before + mine);
            lemma_copies_concat(before, mine);
        }
        match push_indexed_copies(
            &mut copies,
            g,
            group.base_byte_offset,
            group.elem_size,
            group.indices.as_slice(),
            dst_base as u64,
        ) {
            Ok(()) => {},
            Err(e) => {
                proof {
                    lemma_groups_copies_prefix_bad(gs, g as int + 1, count as int);
                    let cs = groups_copies(gs, count as int);
                    lemma_some_first_bad(mine);
                    let k = choose|k: int| first_bad_copy(mine, k);
                    assert(first_bad_copy(before + mine, before.len() + k));
                    lemma_first_bad_prefix(before + mine, cs, before.len() + k);
                    lemma_first_bad_unique(cs, before.len() + k);
                    assert forall|i: int| #![trigger first_bad_group(gs, i)] !first_bad_group(gs, i) by {
                        if 0 <= i < gs.len() {
                            assert(!group_bad(gs, i));
                        }
                    }
                }
                return Err(e);
            },
        }
        dst_base = dst_base + group.indices.len() * (group.elem_size as usize);
        g = g + 1;
    }
    if total as u64 > MAX_EXACT_JS_INTEGER {
        return Err(ReadbackError::NotExactInJs);
    }
    Ok(ReadbackPlan { byte_len: total as u64, copies })
}

/// The copies of the first `i` groups are a prefix of those of the first
/// `j` groups.
proof fn lemma_groups_copies_prefix_bad(gs: Seq<IndexedReadbackGroup>, i: int, j: int)
    requires
        0 <= i <= j <= gs.len(),
    ensures
        groups_copies(gs, i).len() <= groups_copies(gs, j).len(),
        groups_copies(gs, j).take(groups_copies(gs, i).len() as int) == groups_copies(gs, i),
    decreases j - i,
{
    if i < j {
        lemma_groups_copies_prefix_bad(gs, i, j - 1);
        let a = groups_copies(gs, j - 1);
        let b = groups_copies(gs, j);
        assert(b.take(a.len() as int) =~= a);
        assert(b.take(groups_copies(gs, i).len() as int) =~= a.take(groups_copies(gs, i).len() as int));
    } else {
        assert(groups_copies(gs, j).take(groups_copies(gs, i).len() as int) =~= groups_copies(gs, i));
    }
}

/// A first bad copy of a prefix is the first bad copy of the whole.
proof fn lemma_first_bad_prefix(a: Seq<CopySpec>, b: Seq<CopySpec>, k: int)
    requires
        a.len() <= b.len(),
        b.take(a.len() as int) == a,
        first_bad_copy(a, k),
    ensures
        first_bad_copy(b, k),
        !copies_ok(b),
{
    assert(b[k] == a[k]);
    assert forall|m: int| 0 <= m < k implies (#[trigger] copy_error(b[m])) is None by {
        assert(b[m] == a[m]);
    }
}

/// The plan for reading the elements at the indices of two buffers.
pub open spec fn two_plan_spec(
    b1: u64,
    s1: u64,
    i1: Seq<usize>,
    b2: u64,
    s2: u64,
    i2: Seq<usize>,
) -> Result<(int, Seq<CopySpec>), ReadbackError> {
    let l1 = i1.len() * s1;
    let l2 = i2.len() * s2;
    let cs = indexed_copies(0, b1 as int, s1 as int, i1, 0) + indexed_copies(1, b2 as int, s2 as int, i2, l1);
    if s1 == 0 || s2 == 0 {
        Err(ReadbackError::ZeroElementSize)
    } else if i1.len() == 0 && i2.len() == 0 {
        Ok((0, Seq::empty()))
    } else if s1 > usize::MAX || s2 > usize::MAX || l1 > usize::MAX || l2 > usize::MAX || l1 + l2 > usize::MAX {
        Err(ReadbackError::LengthOverflow)
    } else if !copies_ok(cs) {
        Err(copy_error(cs[choose|k: int| first_bad_copy(cs, k)])->Some_0)
    } else if l1 + l2 > MAX_EXACT_JS_INTEGER {
        Err(ReadbackError::NotExactInJs)
    } else {
        Ok((l1 + l2, cs))
    }
}

/// Plans reading the elements at the indices of two buffers into one
/// staging buffer: the first buffer's elements, then the second's.
pub fn plan_read_two_buffer_indices(
    first_base_byte_offset: u64,
    first_elem_size: u64,
    first_indices: &[usize],
    second_base_byte_offset: u64,
    second_elem_size: u64,
    second_indices: &[usize],
) -> (res: Result<ReadbackPlan, ReadbackError>)
    ensures
        plan_matches(
            res,
            two_plan_spec(
                first_base_byte_offset,
                first_elem_size,
                first_indices@,
                second_base_byte_offset,
                second_elem_size,
                second_indices@,
            ),
        ),
{
    if first_elem_size == 0 || second_elem_size == 0 {
        return Err(ReadbackError::ZeroElementSize);
    }
    if first_indices.len() == 0 && second_indices.len() == 0 {
        assert(as_copies(Seq::<CopySpec>::empty()) =~= Seq::<ReadbackCopy>::empty());
        return Ok(ReadbackPlan { byte_len: 0, copies: Vec::new() });
    }
    if first_elem_size > usize::MAX as u64 || second_elem_size > usize::MAX as u64 {
        return Err(ReadbackError::LengthOverflow);
    }
    let first_byte_len = match first_indices.len().checked_mul(first_elem_size as usize) {
        Some(b) => b,
        None => return Err(ReadbackError::LengthOverflow),
    };
    let second_byte_len = match second_indices.len().checked_mul(second_elem_size as usize) {
        Some(b) => b,
        None => return Err(ReadbackError::LengthOverflow),
    };
    let total = match first_byte_len.checked_add(second_byte_len) {
        Some(t) => t,
        None => return Err(ReadbackError::LengthOverflow),
    };
    let ghost a = indexed_copies(0, first_base_byte_offset as int, first_elem_size as int, first_indices@, 0);
    let ghost b = indexed_copies(
        1,
        second_base_byte_offset as int,
        second_elem_size as int,
        second_indices@,
        first_byte_len as int,
    );
    let mut copies: Vec<ReadbackCopy> = Vec::new();
    match push_indexed_copies(&mut copies, 0, first_base_byte_offset, first_elem_size, first_indices, 0) {
        Ok(()) => {},
        Err(e) => {
            proof {
                lemma_some_first_bad(a);
                let k = choose|k: int| first_bad_copy(a, k);
                assert((a + b).take(a.len() as int) =~= a);
                lemma_first_bad_prefix(a, a + b, k);
                lemma_first_bad_unique(a + b, k);
            }
            return Err(e);
        },
    }
    proof {
        lemma_copies_concat(a, b);
    }
    match push_indexed_copies(
        &mut copies,
        1,
        second_base_byte_offset,
        second_elem_size,
        second_indices,
        first_byte_len as u64,
    ) {
        Ok(()) => {},
        Err(e) => {
            proof {
                lemma_some_first_bad(b);
                let k = choose|k: int| first_bad_copy(b, k);
                lemma_first_bad_unique(a + b, a.len() + k);
            }
            return Err(e);
        },
    }
    if total as u64 > MAX_EXACT_JS_INTEGER {
        return Err(ReadbackError::NotExactInJs);
    }
    proof {
        assert(copies@ =~= as_copies(a + b));
    }
    Ok(ReadbackPlan { byte_len: total as u64, copies })
}

/// Bytes of the ranges before range `i`.
pub open spec fn ranges_prefix_bytes(rs: Seq<(u64, u64)>, i: int) -> int
    decreases i,
{
    if i <= 0 {
        0
    } else {
        ranges_prefix_bytes(rs, i - 1) + rs[i - 1].1
    }
}

/// The copies of the first `i` ranges: each non-empty range `(offset,
/// len)` of source `i` is placed right after the previous ones.
pub open spec fn ranges_copies(rs: Seq<(u64, u64)>, i: int) -> Seq<CopySpec>
    decreases i,
{
    if i <= 0 {
        Seq::empty()
    } else if rs[i - 1].1 > 0 {
        ranges_copies(rs, i - 1).push(
            CopySpec { source: i - 1, src: rs[i - 1].0 as int, dst: ranges_prefix_bytes(rs, i - 1), len: rs[i - 1].1 as int },
        )
    } else {
        ranges_copies(rs, i - 1)
    }
}

/// The plan for reading byte ranges `(offset, len)`, one per source buffer.
pub open spec fn ranges_plan_spec(rs: Seq<(u64, u64)>) -> Result<(int, Seq<CopySpec>), ReadbackError> {
    let total = ranges_prefix_bytes(rs, rs.len() as int);
    let cs = ranges_copies(rs, rs.len() as int);
    if rs.len() == 0 {
        Ok((0, Seq::empty()))
    } else if total > u64::MAX {
        Err(ReadbackError::LengthOverflow)
    } else if total == 0 {
        Ok((0, Seq::empty()))
    } else if !copies_ok(cs) {
        Err(copy_error(cs[choose|k: int| first_bad_copy(cs, k)])->Some_0)
    } else if total > MAX_EXACT_JS_INTEGER {
        Err(ReadbackError::NotExactInJs)
    } else {
        Ok((total, cs))
    }
}

proof fn lemma_ranges_prefix_mono(rs: Seq<(u64, u64)>, i: int, j: int)
    requires
        0 <= i <= j <= rs.len(),
    ensures
        0 <= ranges_prefix_bytes(rs, i) <= ranges_prefix_bytes(rs, j),
    decreases j,
{
    if i < j {
        lemma_ranges_prefix_mono(rs, i, j - 1);
    } else if i > 0 {
        lemma_ranges_prefix_mono(rs, i - 1, i - 1);
    }
}

proof fn lemma_ranges_copies_prefix(rs: Seq<(u64, u64)>, i: int, j: int)
    requires
        0 <= i <= j <= rs.len(),
    ensures
        ranges_copies(rs, i).len() <= ranges_copies(rs, j).len(),
        ranges_copies(rs, j).take(ranges_copies(rs, i).len() as int) == ranges_copies(rs, i),
    decreases j - i,
{
    if i < j {
        lemma_ranges_copies_prefix(rs, i, j - 1);
        let a = ranges_copies(rs, j - 1);
        let b = ranges_copies(rs, j);
        assert(b.take(a.len() as int) =~= a);
        assert(b.take(ranges_copies(rs, i).len() as int) =~= a.take(ranges_copies(rs, i).len() as int));
    } else {
        assert(ranges_copies(rs, j).take(ranges_copies(rs, i).len() as int) =~= ranges_copies(rs, i));
    }
}

proof fn lemma_ranges_copies_empty(rs: Seq<(u64, u64)>, i: int)
    requires
        0 <= i <= rs.len(),
        ranges_prefix_bytes(rs, rs.len() as int) == 0,
    ensures
        ranges_copies(rs, i) == Seq::<CopySpec>::empty(),
    decreases i,
{
    if i > 0 {
        lemma_ranges_copies_empty(rs, i - 1);
        lemma_ranges_prefix_mono(rs, i, rs.len() as int);
        lemma_ranges_prefix_mono(rs, i - 1, i - 1);
    }
}

/// Plans reading byte ranges `(offset, len)`, range `i` from source buffer
/// `i`, into one staging buffer in range order; empty ranges are skipped.
pub fn plan_read_buffer_ranges(ranges: &[(u64, u64)]) -> (res: Result<ReadbackPlan, ReadbackError>)
    ensures
        plan_matches(res, ranges_plan_spec(ranges@)),
{
    let ghost rs = ranges@;
    let count = ranges.len();
    if count == 0 {
        assert(as_copies(Seq::<CopySpec>::empty()) =~= Seq::<ReadbackCopy>::empty());
        return Ok(ReadbackPlan { byte_len: 0, copies: Vec::new() });
    }
    let mut total: u64 = 0;
    let mut i: usize = 0;
    while i < count
        invariant
            rs == ranges@,
            count == rs.len(),
            i <= count,
            total == ranges_prefix_bytes(rs, i as int),
        decreases count - i,
    {
        match total.checked_add(ranges[i].1) {
            Some(t) => {
                total = t;
            },
            None => {
                proof {
                    lemma_ranges_prefix_mono(rs, i + 1, count as int);
                }
                return Err(ReadbackError::LengthOverflow);
            },
        }
        i = i + 1;
    }
    if total == 0 {
        proof {
            lemma_ranges_copies_empty(rs, count as int);
        }
        assert(as_copies(Seq::<CopySpec>::empty()) =~= Seq::<ReadbackCopy>::empty());
        return Ok(ReadbackPlan { byte_len: 0, copies: Vec::new() });
    }
    let mut copies: Vec<ReadbackCopy> = Vec::new();
    let mut dst: u64 = 0;
    let mut i: usize = 0;
    proof {
        assert(as_copies(ranges_copies(rs, 0)) =~= copies@);
    }
    while i < count
        invariant
            rs == ranges@,
            count == rs.len(),
            i <= count,
            total == ranges_prefix_bytes(rs, count as int),
            total > 0,
            dst == ranges_prefix_bytes(rs, i as int),
            copies_ok(ranges_copies(rs, i as int)),
            copies@ == as_copies(ranges_copies(rs, i as int)),
        decreases count - i,
    {
        let (src, len) = ranges[i];
        let ghost before = ranges_copies(rs, i as int);
        proof {
            lemma_ranges_prefix_mono(rs, i + 1, count as int);
        }
        if len > 0 {
            let ghost c = CopySpec { source: i as int, src: src as int, dst: dst as int, len: len as int };
            proof {
                assert(ranges_copies(rs, i + 1) == before.push(c));
            }
            if src > MAX_EXACT_JS_INTEGER || dst > MAX_EXACT_JS_INTEGER || len > MAX_EXACT_JS_INTEGER {
                proof {
                    let cs = ranges_copies(rs, count as int);
                    lemma_ranges_copies_prefix(rs, i + 1, count as int);
                    assert(first_bad_copy(before.push(c), before.len() as int));
                    lemma_first_bad_prefix(before.push(c), cs, before.len() as int);
                    lemma_first_bad_unique(cs, before.len() as int);
                }
                return Err(ReadbackError::NotExactInJs);
            }
            copies.push(ReadbackCopy { source: i, src_offset: src, dst_offset: dst, len });
            proof {
                assert(copies@ =~= as_copies(before.push(c)));
                assert forall|k: int| 0 <= k < before.push(c).len() implies (#[trigger] copy_error(
                    before.push(c)[k],
                )) is None by {
                    if k < before.len() {
                        assert(before.push(c)[k] == before[k]);
                    }
                }
            }
        }
        dst = dst + len;
        i = i + 1;
    }
    if total > MAX_EXACT_JS_INTEGER {
        return Err(ReadbackError::NotExactInJs);
    }
    Ok(ReadbackPlan { byte_len: total, copies })
}

/// The copies fill `[start, end)` of the staging buffer one after the
/// other, in order, without gaps or overlap.
pub open spec fn copies_tile(cs: Seq<CopySpec>, start: int, end: int) -> bool {
    &&& cs.len() == 0 ==> start == end
    &&& cs.len() > 0 ==> cs[0].dst == start && cs[cs.len() - 1].dst + cs[cs.len() - 1].len == end
    &&& forall|k: int| 0 <= k < cs.len() - 1 ==> #[trigger] cs[k].dst + cs[k].len == cs[k + 1].dst
}

proof fn lemma_tile_concat(a: Seq<CopySpec>, b: Seq<CopySpec>, s: int, m: int, e: int)
    requires
        copies_tile(a, s, m),
        copies_tile(b, m, e),
    ensures
        copies_tile(a + b, s, e),
{
    let c = a + b;
    assert forall|k: int| 0 <= k < c.len() - 1 implies #[trigger] c[k].dst + c[k].len == c[k + 1].dst by {
        if k < a.len() - 1 {
            assert(c[k] == a[k] && c[k + 1] == a[k + 1]);
        } else if k == a.len() - 1 {
            assert(c[k] == a[k] && c[k + 1] == b[0]);
        } else {
            assert(c[k] == b[k - a.len()] && c[k + 1] == b[k + 1 - a.len()]);
        }
    }
    if a.len() == 0 {
        assert(c =~= b);
    }
    if b.len() == 0 {
        assert(c =~= a);
    }
}

proof fn lemma_indexed_tile(source: int, base: int, size: int, indices: Seq<usize>, d: int)
    ensures
        copies_tile(indexed_copies(source, base, size, indices, d), d, d + indices.len() * size),
{
    let cs = indexed_copies(source, base, size, indices, d);
    assert forall|k: int| 0 <= k < cs.len() - 1 implies #[trigger] cs[k].dst + cs[k].len == cs[k + 1].dst by {
        assert(d + k * size + size == d + (k + 1) * size) by (nonlinear_arith);
    }
    if cs.len() > 0 {
        assert(d + (cs.len() - 1) * size + size == d + indices.len() * size) by (nonlinear_arith)
            requires
                cs.len() == indices.len(),
        ;
    }
}

/// A group readback keeps group order, and index order within a group:
/// its copies fill the staging buffer one after the other, from offset 0
/// to the total length.
pub proof fn lemma_group_readback_in_order(gs: Seq<IndexedReadbackGroup>, i: int)
    requires
        0 <= i <= gs.len(),
    ensures
        copies_tile(groups_copies(gs, i), 0, groups_prefix_bytes(gs, i)),
    decreases i,
{
    if i > 0 {
        lemma_group_readback_in_order(gs, i - 1);
        let g = gs[i - 1];
        lemma_indexed_tile(i - 1, g.base_byte_offset as int, g.elem_size as int, g.indices@, groups_prefix_bytes(gs, i - 1));
        lemma_tile_concat(
            groups_copies(gs, i - 1),
            indexed_copies(i - 1, g.base_byte_offset as int, g.elem_size as int, g.indices@, groups_prefix_bytes(gs, i - 1)),
            0,
            groups_prefix_bytes(gs, i - 1),
            groups_prefix_bytes(gs, i),
        );
    }
}

/// A range readback keeps range order: its copies fill the staging buffer
/// one after the other, from offset 0 to the total length.
pub proof fn lemma_range_readback_in_order(rs: Seq<(u64, u64)>, i: int)
    requires
        0 <= i <= rs.len(),
    ensures
        copies_tile(ranges_copies(rs, i), 0, ranges_prefix_bytes(rs, i)),
    decreases i,
{
    if i > 0 {
        lemma_range_readback_in_order(rs, i - 1);
        if rs[i - 1].1 > 0 {
            let c = CopySpec {
                source: i - 1,
                src: rs[i - 1].0 as int,
                dst: ranges_prefix_bytes(rs, i - 1),
                len: rs[i - 1].1 as int,
            };
            assert(copies_tile(seq![c], ranges_prefix_bytes(rs, i - 1), ranges_prefix_bytes(rs, i)));
            lemma_tile_concat(ranges_copies(rs, i - 1), seq![c], 0, ranges_prefix_bytes(rs, i - 1), ranges_prefix_bytes(rs, i));
            assert(ranges_copies(rs, i - 1).push(c) =~= ranges_copies(rs, i - 1) + seq![c]);
        }
    }
}

} // verus!
