//! Size, offset and bounds arithmetic of kernel dispatches, and the sparse
//! upload plan that replaces a dense upload of a mostly-zero buffer.

use vstd::prelude::*;
use vstd::slice::slice_subrange;

verus! {

/// Largest integer a JavaScript number holds exactly.
pub const MAX_EXACT_JS_INTEGER: u64 = 9007199254740992;

/// Words in a digest.
pub const DIGEST_WORDS: usize = 8;

/// Whether a byte length or offset can be handed to JavaScript as a number
/// without losing precision.
pub fn fits_js_exact_integer(value: u64) -> (b: bool)
    ensures
        b == (value <= MAX_EXACT_JS_INTEGER),
{
    value <= MAX_EXACT_JS_INTEGER
}

/// The smallest multiple of `alignment` that is at least `value`.
pub open spec fn align_up_spec(value: int, alignment: int) -> int {
    if alignment == 0 {
        value
    } else {
        ((value + alignment - 1) / alignment) * alignment
    }
}

/// Rounds `value` up to a multiple of `alignment` (0 leaves it as it is).
pub fn align_up(value: usize, alignment: usize) -> (r: usize)
    requires
        align_up_spec(value as int, alignment as int) <= usize::MAX,
    ensures
        r == align_up_spec(value as int, alignment as int),
        alignment > 0 ==> r % alignment == 0 && value <= r < value + alignment,
{
    if alignment == 0 {
        return value;
    }
    proof {
        if value % alignment != 0 {
            assert(alignment >= 2);
            assert(value / alignment <= value / 2) by (nonlinear_arith)
                requires
                    alignment >= 2,
            ;
        }
    }
    let q = value / alignment + if value % alignment == 0 { 0 } else { 1 };
    proof {
        let a = alignment as int;
        let v = value as int;
        let d = v / a;
        let r = v % a;
        vstd::arithmetic::div_mod::lemma_fundamental_div_mod(v, a);
        assert(a * d == d * a) by (nonlinear_arith);
        assert(0 <= r < a);
        if r == 0 {
            assert(q * a == v);
            vstd::arithmetic::div_mod::lemma_fundamental_div_mod_converse(v + a - 1, a, d, a - 1);
        } else {
            assert((d + 1) * a == d * a + a) by (nonlinear_arith);
            assert(q * a == v - r + a);
            vstd::arithmetic::div_mod::lemma_fundamental_div_mod_converse(v + a - 1, a, d + 1, r - 1);
        }
        vstd::arithmetic::div_mod::lemma_mod_multiples_basic(q as int, a);
    }
    q * alignment
}

/// Byte length of `size` values of type `T`.
pub fn byte_len_for<T>(size: usize) -> (r: u64)
    requires
        size * vstd::layout::size_of::<T>() <= usize::MAX,
    ensures
        r == size * vstd::layout::size_of::<T>(),
{
    let elem = core::mem::size_of::<T>();
    let bytes = size * elem;
    bytes as u64
}

/// Offset in words of digest number `digest_offset`, if it fits in `u32`.
pub fn digest_word_offset(digest_offset: usize) -> (r: Option<u32>)
    ensures
        r is Some <==> digest_offset * DIGEST_WORDS <= u32::MAX,
        r is Some ==> r->Some_0 == digest_offset * DIGEST_WORDS,
{
    match digest_offset.checked_mul(DIGEST_WORDS) {
        Some(offset) => {
            if offset <= 4294967295usize {
                Some(offset as u32)
            } else {
                None
            }
        },
        None => None,
    }
}

/// A `rows` x `cols` region starting at `offset`, with rows `stride` apart,
/// lies inside a buffer of `len` elements.
pub open spec fn slice_region_fits(len: int, rows: int, cols: int, offset: int, stride: int) -> bool {
    rows == 0 || cols == 0 || offset + (rows - 1) * stride + (cols - 1) < len
}

pub fn slice_region_in_bounds(len: usize, rows: usize, cols: usize, offset: usize, stride: usize) -> (b: bool)
    ensures
        b == slice_region_fits(len as int, rows as int, cols as int, offset as int, stride as int),
{
    if rows == 0 || cols == 0 {
        return true;
    }
    let last_row_start = match (rows - 1).checked_mul(stride) {
        Some(v) => v,
        None => {
            proof {
                assert((rows - 1) * stride >= 0) by (nonlinear_arith)
                    requires
                        rows >= 1,
                ;
            }
            return false;
        },
    };
    let last_col = cols - 1;
    let last_idx = match offset.checked_add(last_row_start) {
        Some(v) => match v.checked_add(last_col) {
            Some(w) => w,
            None => return false,
        },
        None => return false,
    };
    last_idx < len
}

/// Rows `idx`, `idx + stride`, ... (`size` of them) lie inside a buffer of
/// `len` elements.
pub open spec fn gather_region_fits(len: int, idx: int, size: int, stride: int) -> bool {
    size == 0 || (size - 1) * stride + idx < len
}

pub fn gather_region_in_bounds(len: usize, idx: usize, size: usize, stride: usize) -> (b: bool)
    ensures
        b == gather_region_fits(len as int, idx as int, size as int, stride as int),
{
    if size == 0 {
        return true;
    }
    let last_row = size - 1;
    match last_row.checked_mul(stride) {
        Some(v) => match v.checked_add(idx) {
            Some(last_idx) => last_idx < len,
            None => false,
        },
        None => {
            proof {
                assert(last_row * stride >= 0) by (nonlinear_arith);
            }
            false
        },
    }
}

/// A word that has to be uploaded: neither zero nor the all-ones invalid
/// marker.
pub open spec fn live_word(w: u32) -> bool {
    w != 0 && w != u32::MAX
}

/// Word `i` of `c` is uploaded by the sparse plan: it is live, or it is a
/// single zero between two live words (uploading it is cheaper than
/// starting a new range).
pub open spec fn kept_word(c: Seq<u32>, i: int) -> bool {
    &&& 0 <= i < c.len()
    &&& live_word(c[i]) || (c[i] == 0 && 0 < i && i + 1 < c.len() && live_word(c[i - 1]) && live_word(
        c[i + 1],
    ))
}

/// Word `i` starts a maximal run of kept words.
pub open spec fn run_start(c: Seq<u32>, i: int) -> bool {
    kept_word(c, i) && (i == 0 || !kept_word(c, i - 1))
}

/// Number of kept words before position `s`.
pub open spec fn kept_count(c: Seq<u32>, s: int) -> nat
    decreases s,
{
    if s <= 0 {
        0
    } else {
        kept_count(c, s - 1) + if kept_word(c, s - 1) { 1nat } else { 0nat }
    }
}

proof fn lemma_kept_count_le(c: Seq<u32>, s: int, t: int)
    requires
        0 <= s <= t,
    ensures
        kept_count(c, s) <= kept_count(c, t),
        kept_count(c, t) <= kept_count(c, s) + (t - s),
    decreases t - s,
{
    if s < t {
        lemma_kept_count_le(c, s, t - 1);
    }
}

/// A range-upload plan: `values` are written, range by range, at the
/// destinations given in `ranges` as (source index, destination index)
/// pairs; a range runs up to the next range's source index (the last one
/// up to the end of `values`).
pub struct SparseUploadPlan {
    pub values: Vec<u32>,
    pub ranges: Vec<u32>,
}

/// Why a sparse upload plan could not be built.
#[derive(Clone, Copy, Debug, PartialEq, Eq, Structural)]
pub enum SparseUploadError {
    EmptyRange,
    SourceOffsetTooLarge(usize),
    DestinationOffsetTooLarge(usize),
}

impl SparseUploadPlan {
    pub fn new() -> (p: Self)
        ensures
            p.values@.len() == 0,
            p.ranges@.len() == 0,
    {
        SparseUploadPlan { values: Vec::new(), ranges: Vec::new() }
    }

    /// Appends a range writing `values` at `dst_start`. An empty range is
    /// refused, as is a source or destination index beyond `u32`; a refused
    /// destination leaves the source index already appended.
    pub fn push_range(&mut self, dst_start: usize, values: &[u32]) -> (r: Result<(), SparseUploadError>)
        ensures
            values@.len() == 0 ==> r == Err::<(), SparseUploadError>(SparseUploadError::EmptyRange)
                && final(self).values@ == old(self).values@ && final(self).ranges@ == old(self).ranges@,
            values@.len() > 0 && old(self).values@.len() > u32::MAX ==> r == Err::<(), SparseUploadError>(
                SparseUploadError::SourceOffsetTooLarge(old(self).values@.len() as usize),
            ) && final(self).values@ == old(self).values@ && final(self).ranges@ == old(self).ranges@,
            values@.len() > 0 && old(self).values@.len() <= u32::MAX && dst_start > u32::MAX ==> r == Err::<
                (),
                SparseUploadError,
            >(SparseUploadError::DestinationOffsetTooLarge(dst_start)) && final(self).values@ == old(
                self,
            ).values@ && final(self).ranges@ == old(self).ranges@.push(old(self).values@.len() as u32),
            values@.len() > 0 && old(self).values@.len() <= u32::MAX && dst_start <= u32::MAX ==> r is Ok
                && final(self).values@ == old(self).values@ + values@ && final(self).ranges@ == old(
                self,
            ).ranges@.push(old(self).values@.len() as u32).push(dst_start as u32),
    {
        let len = values.len();
        if len == 0 {
            return Err(SparseUploadError::EmptyRange);
        }
        let src = self.values.len();
        if src > 4294967295usize {
            return Err(SparseUploadError::SourceOffsetTooLarge(src));
        }
        self.ranges.push(src as u32);
        if dst_start > 4294967295usize {
            return Err(SparseUploadError::DestinationOffsetTooLarge(dst_start));
        }
        self.ranges.push(dst_start as u32);
        self.values.extend_from_slice(values);
        proof {
            assert(self.values@ =~= old(self).values@ + values@);
        }
        Ok(())
    }
}

fn kept_at(c: &[u32], i: usize) -> (b: bool)
    requires
        i < c@.len(),
    ensures
        b == kept_word(c@, i as int),
{
    let w = c[i];
    if w != 0 && w != u32::MAX {
        return true;
    }
    if w != 0 || i == 0 || i + 1 >= c.len() {
        return false;
    }
    let prev = c[i - 1];
    let next = c[i + 1];
    prev != 0 && prev != u32::MAX && next != 0 && next != u32::MAX
}

/// Destination index of range `k` of a plan.
pub open spec fn range_dst(ranges: Seq<u32>, k: int) -> u32 {
    ranges[2 * k + 1]
}

/// Source index of range `k` of a plan.
pub open spec fn range_src(ranges: Seq<u32>, k: int) -> u32 {
    ranges[2 * k]
}

/// The plan uploads exactly the kept words of `c`: `values` are those words
/// in order, and each range starts at one run of kept words (all of them,
/// in order), its source index counting the kept words before it.
pub open spec fn sparse_plan_of(c: Seq<u32>, values: Seq<u32>, ranges: Seq<u32>) -> bool {
    &&& values.len() == kept_count(c, c.len() as int)
    &&& forall|i: int| #[trigger] kept_word(c, i) ==> values[kept_count(c, i) as int] == c[i]
    &&& ranges.len() % 2 == 0
    &&& forall|k: int|
        0 <= k < ranges.len() / 2 ==> run_start(c, #[trigger] range_dst(ranges, k) as int) && range_src(ranges, k)
            == kept_count(c, range_dst(ranges, k) as int)
    &&& forall|k: int, l: int| 0 <= k < l < ranges.len() / 2 ==> #[trigger] range_dst(ranges, k) < #[trigger] range_dst(ranges, l)
    &&& forall|s: int| #[trigger] run_start(c, s) ==> exists|k: int| 0 <= k < ranges.len() / 2 && range_dst(ranges, k) == s
}

/// The first run of kept words that starts beyond `u32` range.
pub open spec fn first_unaddressable_run(c: Seq<u32>, s: int) -> bool {
    &&& run_start(c, s)
    &&& s > u32::MAX
    &&& forall|t: int| 0 <= t < s && #[trigger] run_start(c, t) ==> t <= u32::MAX
}

/// Plans the upload of the non-zero words of `cpu` (raw words; the
/// all-ones invalid marker counts as zero) into a zeroed buffer, as ranges
/// of consecutive words, joining ranges separated by a single zero.
pub fn build_sparse_zero_upload_plan(cpu: &[u32]) -> (res: Result<SparseUploadPlan, SparseUploadError>)
    ensures
        res is Err <==> exists|s: int| run_start(cpu@, s) && s > u32::MAX,
        res is Ok ==> sparse_plan_of(cpu@, res->Ok_0.values@, res->Ok_0.ranges@),
        forall|s: int|
            #[trigger] first_unaddressable_run(cpu@, s) ==> res == if kept_count(cpu@, s) > u32::MAX {
                Err::<SparseUploadPlan, SparseUploadError>(
                    SparseUploadError::SourceOffsetTooLarge(kept_count(cpu@, s) as usize),
                )
            } else {
                Err::<SparseUploadPlan, SparseUploadError>(SparseUploadError::DestinationOffsetTooLarge(s as usize))
            },
{
    let ghost c = cpu@;
    let n = cpu.len();
    let mut plan = SparseUploadPlan::new();
    let mut idx: usize = 0;
    while idx < n
        invariant
            n == c.len(),
            c == cpu@,
            idx <= n,
            plan.values@.len() == kept_count(c, idx as int),
            forall|i: int| 0 <= i < idx && #[trigger] kept_word(c, i) ==> plan.values@[kept_count(c, i) as int] == c[i],
            plan.ranges@.len() % 2 == 0,
            forall|k: int|
                0 <= k < plan.ranges@.len() / 2 ==> #[trigger] range_dst(plan.ranges@, k) < idx && run_start(
                    c,
                    range_dst(plan.ranges@, k) as int,
                ) && range_src(plan.ranges@, k) == kept_count(c, range_dst(plan.ranges@, k) as int),
            forall|k: int, l: int|
                0 <= k < l < plan.ranges@.len() / 2 ==> #[trigger] range_dst(plan.ranges@, k)
                    < #[trigger] range_dst(plan.ranges@, l),
            forall|s: int|
                0 <= s < idx && #[trigger] run_start(c, s) ==> exists|k: int|
                    0 <= k < plan.ranges@.len() / 2 && range_dst(plan.ranges@, k) == s,
            forall|s: int| 0 <= s < idx && #[trigger] run_start(c, s) ==> s <= u32::MAX,
            0 < idx < n && kept_word(c, idx - 1) ==> !kept_word(c, idx as int),
        decreases n - idx,
    {
        if !kept_at(cpu, idx) {
            idx = idx + 1;
        } else {
            let start = idx;
            assert(run_start(c, start as int));
            while idx < n && kept_at(cpu, idx)
                invariant
                    n == c.len(),
                    c == cpu@,
                    start <= idx <= n,
                    forall|i: int| start <= i < idx ==> #[trigger] kept_word(c, i),
                decreases n - idx,
            {
                idx = idx + 1;
            }
            proof {
                lemma_kept_count_le(c, 0, start as int);
                assert forall|i: int| start <= i <= idx implies #[trigger] kept_count(c, i) == kept_count(c, start as int) + (i - start) by {
                    lemma_kept_count_run(c, start as int, i);
                }
                assert forall|s: int| start < s < idx implies !#[trigger] run_start(c, s) by {
                    assert(kept_word(c, s - 1));
                }
                if idx < n {
                    assert(!kept_word(c, idx as int));
                }
            }
            let ghost old_values = plan.values@;
            let ghost old_ranges = plan.ranges@;
            let slice = slice_subrange(cpu, start, idx);
            match plan.push_range(start, slice) {
                Ok(()) => {},
                Err(e) => {
                    proof {
                        assert(first_unaddressable_run(c, start as int));
                        assert forall|s: int| #[trigger] first_unaddressable_run(c, s) implies s == start by {
                            if s < start {
                                assert(run_start(c, s));
                            } else if s > start {
                                assert(run_start(c, start as int));
                            }
                        }
                    }
                    return Err(e);
                },
            }
            proof {
                let k0: int = (old_ranges.len() / 2) as int;
                let r = plan.ranges@;
                assert(range_src(r, k0) == kept_count(c, start as int));
                assert(range_dst(r, k0) == start);
                assert forall|k: int| 0 <= k < k0 implies range_dst(r, k) == range_dst(old_ranges, k) && range_src(r, k)
                    == range_src(old_ranges, k) by {}
                assert forall|i: int| 0 <= i < idx && #[trigger] kept_word(c, i) implies plan.values@[kept_count(
                    c,
                    i,
                ) as int] == c[i] by {
                    if i < start {
                        lemma_kept_count_le(c, i + 1, start as int);
                        assert(plan.values@[kept_count(c, i) as int] == old_values[kept_count(c, i) as int]);
                    } else {
                        assert(kept_count(c, i) == kept_count(c, start as int) + (i - start));
                        assert(plan.values@[kept_count(c, i) as int] == slice@[i - start]);
                    }
                }
                assert forall|s: int| 0 <= s < idx && #[trigger] run_start(c, s) implies exists|k: int|
                    0 <= k < r.len() / 2 && range_dst(r, k) == s by {
                    if s < start {
                        let k = choose|k: int| 0 <= k < old_ranges.len() / 2 && range_dst(old_ranges, k) == s;
                        assert(range_dst(r, k) == s);
                    } else {
                        assert(s == start);
                        assert(range_dst(r, k0) == s);
                    }
                }
            }
        }
    }
    proof {
        assert forall|s: int| #[trigger] run_start(c, s) implies s <= u32::MAX by {}
        assert forall|s: int| #![trigger first_unaddressable_run(c, s)] !first_unaddressable_run(c, s) by {}
    }
    Ok(plan)
}

/// Inside a run of kept words, the kept count grows by one per word.
proof fn lemma_kept_count_run(c: Seq<u32>, start: int, i: int)
    requires
        0 <= start <= i,
        forall|j: int| start <= j < i ==> #[trigger] kept_word(c, j),
    ensures
        kept_count(c, i) == kept_count(c, start) + (i - start),
    decreases i - start,
{
    if i > start {
        lemma_kept_count_run(c, start, i - 1);
    }
}

/// The source index one past range `k`.
pub open spec fn range_end(values_len: int, ranges: Seq<u32>, k: int) -> int {
    if k + 1 < ranges.len() / 2 {
        range_src(ranges, k + 1) as int
    } else {
        values_len
    }
}

/// Range `k` of the plan writes destination word `i`.
pub open spec fn range_covers(values_len: int, ranges: Seq<u32>, k: int, i: int) -> bool {
    &&& 0 <= k < ranges.len() / 2
    &&& range_dst(ranges, k) <= i
    &&& i < range_dst(ranges, k) + (range_end(values_len, ranges, k) - range_src(ranges, k))
}

/// Word `i` of a zeroed buffer after the plan's ranges are written into it.
pub open spec fn plan_word(values: Seq<u32>, ranges: Seq<u32>, i: int) -> u32 {
    if exists|k: int| range_covers(values.len() as int, ranges, k, i) {
        let k = choose|k: int| range_covers(values.len() as int, ranges, k, i);
        values[range_src(ranges, k) + i - range_dst(ranges, k)]
    } else {
        0
    }
}

/// A word with the invalid marker replaced by zero.
pub open spec fn zeroized_word(w: u32) -> u32 {
    if w == u32::MAX {
        0
    } else {
        w
    }
}

/// Between a run start `s` and any `t` before the next run start, the kept
/// words form a prefix of `[s, t)`.
proof fn lemma_kept_prefix(c: Seq<u32>, s: int, t: int)
    requires
        run_start(c, s),
        s < t <= c.len(),
        forall|u: int| s < u < t ==> !#[trigger] run_start(c, u),
    ensures
        forall|j: int|
            s <= j < t ==> (#[trigger] kept_word(c, j) <==> j - s < kept_count(c, t) - kept_count(c, s)),
        kept_count(c, t) - kept_count(c, s) >= 1,
    decreases t - s,
{
    lemma_kept_count_le(c, s, t);
    if t > s + 1 {
        lemma_kept_prefix(c, s, t - 1);
        lemma_kept_count_le(c, s, t - 1);
        let u = t - 1;
        if kept_word(c, u) {
            assert(!run_start(c, u));
            assert(kept_word(c, u - 1));
        }
    }
}

/// Every kept word lies in a run that starts at or before it.
proof fn lemma_run_start_before(c: Seq<u32>, i: int) -> (s: int)
    requires
        kept_word(c, i),
    ensures
        s <= i,
        run_start(c, s),
        forall|j: int| s <= j <= i ==> #[trigger] kept_word(c, j),
    decreases i,
{
    if i == 0 || !kept_word(c, i - 1) {
        i
    } else {
        lemma_run_start_before(c, i - 1)
    }
}

/// Range `k` of a sparse plan covers exactly the run of kept words that
/// starts at its destination.
proof fn lemma_range_is_run(c: Seq<u32>, values: Seq<u32>, ranges: Seq<u32>, k: int)
    requires
        sparse_plan_of(c, values, ranges),
        0 <= k < ranges.len() / 2,
    ensures
        ({
            let s = range_dst(ranges, k) as int;
            let len = range_end(values.len() as int, ranges, k) - range_src(ranges, k);
            &&& len >= 1
            &&& range_src(ranges, k) == kept_count(c, s)
            &&& forall|j: int| s <= j < c.len() && j < s + len ==> #[trigger] kept_word(c, j)
            &&& forall|j: int| s <= j < c.len() && #[trigger] kept_word(c, j) && (forall|t: int| s <= t <= j ==> kept_word(c, t)) ==> j < s + len
            &&& s + len <= c.len()
        }),
{
    let s = range_dst(ranges, k) as int;
    let kk = ranges.len() / 2;
    let next: int = if k + 1 < kk { range_dst(ranges, k + 1) as int } else { c.len() as int };
    assert(run_start(c, s));
    assert forall|u: int| s < u < next implies !#[trigger] run_start(c, u) by {
        if run_start(c, u) {
            let l = choose|l: int| 0 <= l < kk && range_dst(ranges, l) == u;
            if l <= k {
                if l < k {
                    assert(range_dst(ranges, l) < range_dst(ranges, k));
                }
            } else if l > k + 1 {
                assert(range_dst(ranges, k + 1) < range_dst(ranges, l));
            }
        }
    }
    if k + 1 < kk {
        assert(range_dst(ranges, k) < range_dst(ranges, k + 1));
        assert(run_start(c, next));
    }
    lemma_kept_prefix(c, s, next);
    assert(range_src(ranges, k) == kept_count(c, s));
    if k + 1 < kk {
        assert(range_src(ranges, k + 1) == kept_count(c, next));
    }
    assert(range_end(values.len() as int, ranges, k) == kept_count(c, next));
    lemma_kept_count_le(c, s, next);
    assert forall|j: int|
        s <= j < c.len() && #[trigger] kept_word(c, j) && (forall|t: int| s <= t <= j ==> kept_word(c, t)) implies j
        < s + (range_end(values.len() as int, ranges, k) - range_src(ranges, k)) by {
        if j >= next {
            assert(kept_word(c, next - 1));
            assert(run_start(c, next));
        }
    }
}

/// Writing a sparse plan's ranges into a zeroed buffer reproduces the
/// planned words, with the invalid marker read as zero.
pub proof fn lemma_sparse_plan_restores_words(c: Seq<u32>, values: Seq<u32>, ranges: Seq<u32>, i: int)
    requires
        sparse_plan_of(c, values, ranges),
        0 <= i < c.len(),
    ensures
        plan_word(values, ranges, i) == zeroized_word(c[i]),
{
    let vl = values.len() as int;
    if exists|k: int| range_covers(vl, ranges, k, i) {
        let k = choose|k: int| range_covers(vl, ranges, k, i);
        lemma_range_is_run(c, values, ranges, k);
        let s = range_dst(ranges, k) as int;
        assert(kept_word(c, i));
        lemma_kept_count_run(c, s, i);
        assert(values[kept_count(c, i) as int] == c[i]);
    } else {
        if kept_word(c, i) {
            let s = lemma_run_start_before(c, i);
            let k = choose|k: int| 0 <= k < ranges.len() / 2 && range_dst(ranges, k) == s;
            lemma_range_is_run(c, values, ranges, k);
            assert(range_covers(vl, ranges, k, i));
        }
    }
}

/// The words a plan leaves in a zeroed buffer of `n` words.
pub open spec fn plan_applied(values: Seq<u32>, ranges: Seq<u32>, n: nat) -> Seq<u32> {
    Seq::new(n, |i: int| plan_word(values, ranges, i))
}

/// Round trip: writing the plan built for `c` into a zeroed buffer gives
/// back `c`, with the invalid marker read as zero.
pub proof fn lemma_sparse_plan_round_trip(c: Seq<u32>, values: Seq<u32>, ranges: Seq<u32>)
    requires
        sparse_plan_of(c, values, ranges),
    ensures
        plan_applied(values, ranges, c.len()) == c.map_values(|w: u32| zeroized_word(w)),
{
    assert forall|i: int| 0 <= i < c.len() implies #[trigger] plan_applied(values, ranges, c.len())[i] == c.map_values(
        |w: u32| zeroized_word(w),
    )[i] by {
        lemma_sparse_plan_restores_words(c, values, ranges, i);
    }
    assert(plan_applied(values, ranges, c.len()) =~= c.map_values(|w: u32| zeroized_word(w)));
}

/// WebGPU's portable limit on workgroups per dispatch dimension.
pub const WEBGPU_MAX_WORKGROUPS_PER_DIMENSION: u32 = 65535;

/// A 1D workgroup count fits a portable 2D grid.
pub open spec fn workgroups_fit_2d(workgroups: u32) -> bool {
    workgroups <= 65535 * 65535
}

/// The `(x, y)` workgroup grid of a logical 1D dispatch: `x` alone when it
/// fits one dimension, otherwise full rows of the portable maximum and as
/// many rows as needed.
pub fn workgroups_2d(workgroups: u32) -> (r: (u32, u32))
    requires
        workgroups_fit_2d(workgroups),
    ensures
        workgroups <= WEBGPU_MAX_WORKGROUPS_PER_DIMENSION ==> r == (workgroups, 1u32),
        workgroups > WEBGPU_MAX_WORKGROUPS_PER_DIMENSION ==> r.0 == WEBGPU_MAX_WORKGROUPS_PER_DIMENSION
            && r.1 == (workgroups + 65534) / 65535,
        r.0 <= WEBGPU_MAX_WORKGROUPS_PER_DIMENSION,
        r.1 <= WEBGPU_MAX_WORKGROUPS_PER_DIMENSION,
        r.0 * r.1 >= workgroups,
        workgroups > 0 ==> r.0 * r.1 < workgroups + r.0,
{
    if workgroups <= WEBGPU_MAX_WORKGROUPS_PER_DIMENSION {
        assert(workgroups * 1 == workgroups);
        return (workgroups, 1);
    }
    let y = workgroups / WEBGPU_MAX_WORKGROUPS_PER_DIMENSION + if workgroups % WEBGPU_MAX_WORKGROUPS_PER_DIMENSION
        == 0 {
        0
    } else {
        1
    };
    proof {
        let w = workgroups as int;
        assert((w + 65534) / 65535 == y && y <= 65535 && 65535 * y >= w && 65535 * y < w + 65535) by (nonlinear_arith)
            requires
                w > 65535,
                w <= 65535 * 65535,
                y == w / 65535 + if w % 65535 == 0 { 0int } else { 1int },
        ;
    }
    (WEBGPU_MAX_WORKGROUPS_PER_DIMENSION, y)
}

} // verus!
