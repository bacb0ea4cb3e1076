//! Evaluating the check polynomial when a column group is too large to bind:
//! the cycles are dispatched in windows, and for each window the rows of
//! each such group that its cycles read (up to the largest tap distance
//! behind them) are packed into a chunk small enough to bind.

use vstd::prelude::*;
use crate::eval_check::tape::EvalCheckTap;
use crate::eval_check::powers::INV_RATE;

verus! {

/// Rows behind its cycle that tap `t` reads, in a domain of `domain` rows.
pub open spec fn tap_back_rows(t: EvalCheckTap, domain: int) -> int {
    (t.back * INV_RATE) % domain
}

/// The most rows behind a cycle that any of `taps` on a chunked group
/// reads (0 when none does).
pub open spec fn max_back_rows(taps: Seq<EvalCheckTap>, chunked: Seq<bool>, domain: int) -> int
    decreases taps.len(),
{
    if taps.len() == 0 {
        0
    } else {
        let prev = max_back_rows(taps.drop_last(), chunked, domain);
        let t = taps.last();
        if chunked[t.group as int] && tap_back_rows(t, domain) > prev {
            tap_back_rows(t, domain)
        } else {
            prev
        }
    }
}

/// The most rows behind a cycle that a tap on a chunked group reads.
pub fn eval_check_chunk_back_rows(taps: &[EvalCheckTap], chunked: &[bool], domain: usize) -> (r: usize)
    requires
        domain > 0,
        forall|i: int| 0 <= i < taps@.len() ==> #[trigger] taps@[i].group < chunked@.len(),
        forall|i: int| 0 <= i < taps@.len() ==> #[trigger] taps@[i].back * INV_RATE <= usize::MAX,
    ensures
        r == max_back_rows(taps@, chunked@, domain as int),
        r < domain,
{
    let mut r: usize = 0;
    let mut i: usize = 0;
    assert(taps@.take(0) =~= Seq::<EvalCheckTap>::empty());
    while i < taps.len()
        invariant
            i <= taps@.len(),
            domain > 0,
            forall|k: int| 0 <= k < taps@.len() ==> #[trigger] taps@[k].group < chunked@.len(),
            forall|k: int| 0 <= k < taps@.len() ==> #[trigger] taps@[k].back * INV_RATE <= usize::MAX,
            r == max_back_rows(taps@.take(i as int), chunked@, domain as int),
            r < domain,
        decreases taps@.len() - i,
    {
        let t = taps[i];
        proof {
            assert(taps@[i as int] == t);
            let s = taps@.take(i + 1);
            assert(s.drop_last() =~= taps@.take(i as int));
            assert(s.last() == t);
        }
        if chunked[t.group] {
            let rows = (t.back * INV_RATE) % domain;
            if rows > r {
                r = rows;
            }
        }
        i = i + 1;
    }
    assert(taps@.take(taps@.len() as int) =~= taps@);
    r
}

/// The most cycles one window may dispatch, over the first `g` groups:
/// every chunked group of `cols[g]` columns must bind `back` rows more than
/// the window, in chunks of at most `max_elems` elements; `None` when one
/// cannot bind even the rows behind.
pub open spec fn chunk_dispatch_rows(
    domain: int,
    back: int,
    chunked: Seq<bool>,
    cols: Seq<usize>,
    max_elems: int,
    g: int,
) -> Option<int>
    decreases g,
{
    if g <= 0 {
        Some(domain)
    } else {
        match chunk_dispatch_rows(domain, back, chunked, cols, max_elems, g - 1) {
            None => None,
            Some(m) => if !chunked[g - 1] || cols[g - 1] == 0 {
                Some(m)
            } else {
                let rows = max_elems / (cols[g - 1] as int);
                if rows <= back {
                    None
                } else if rows - back < m {
                    Some(rows - back)
                } else {
                    Some(m)
                }
            },
        }
    }
}

/// The most cycles one window may dispatch (see `chunk_dispatch_rows`).
pub fn eval_check_chunk_dispatch_rows(
    domain: usize,
    back: usize,
    chunked: &[bool],
    cols: &[usize],
    max_chunk_elems: usize,
) -> (r: Option<usize>)
    requires
        chunked@.len() == cols@.len(),
    ensures
        match chunk_dispatch_rows(domain as int, back as int, chunked@, cols@, max_chunk_elems as int, cols@.len() as int) {
            None => r is None,
            Some(m) => r == Some(m as usize),
        },
{
    let mut m: usize = domain;
    let mut g: usize = 0;
    while g < cols.len()
        invariant
            g <= cols@.len(),
            chunked@.len() == cols@.len(),
            chunk_dispatch_rows(domain as int, back as int, chunked@, cols@, max_chunk_elems as int, g as int) == Some(
                m as int,
            ),
        decreases cols@.len() - g,
    {
        if chunked[g] && cols[g] != 0 {
            let rows = max_chunk_elems / cols[g];
            if rows <= back {
                proof {
                    lemma_dispatch_rows_none_sticks(
                        domain as int,
                        back as int,
                        chunked@,
                        cols@,
                        max_chunk_elems as int,
                        g + 1,
                        cols@.len() as int,
                    );
                }
                return None;
            }
            if rows - back < m {
                m = rows - back;
            }
        }
        g = g + 1;
    }
    Some(m)
}

proof fn lemma_dispatch_rows_none_sticks(
    domain: int,
    back: int,
    chunked: Seq<bool>,
    cols: Seq<usize>,
    max_elems: int,
    g: int,
    h: int,
)
    requires
        0 <= g <= h,
        chunk_dispatch_rows(domain, back, chunked, cols, max_elems, g) is None,
    ensures
        chunk_dispatch_rows(domain, back, chunked, cols, max_elems, h) is None,
    decreases h,
{
    if h > g {
        lemma_dispatch_rows_none_sticks(domain, back, chunked, cols, max_elems, g, h - 1);
    }
}

/// One window of cycles and the chunk of rows it reads.
#[derive(Clone, Copy, Debug, PartialEq, Eq)]
pub struct GroupChunkWindow {
    /// First cycle of the window.
    pub cycle_base: usize,
    /// Cycles in the window.
    pub dispatch_rows: usize,
    /// First row of the chunk (the rows wrap around the domain).
    pub chunk_base: usize,
    /// Rows in the chunk.
    pub chunk_rows: usize,
}

/// The window starting at cycle `base` of a domain of `domain` rows, with
/// at most `rows` cycles, whose cycles read up to `back` rows behind them.
pub open spec fn window_at(domain: int, back: int, rows: int, base: int) -> GroupChunkWindow {
    let n = if rows < domain - base { rows } else { domain - base };
    GroupChunkWindow {
        cycle_base: base as usize,
        dispatch_rows: n as usize,
        chunk_base: ((base + domain - back) % domain) as usize,
        chunk_rows: (n + back) as usize,
    }
}

/// The windows covering a domain of `domain` cycles, `rows` cycles each
/// (the last may be shorter), whose cycles read up to `back` rows behind
/// them.
pub fn eval_check_chunk_windows(domain: usize, back: usize, rows: usize) -> (w: Vec<GroupChunkWindow>)
    requires
        rows > 0,
        back < domain,
        domain + domain + rows <= usize::MAX,
    ensures
        w@.len() == (domain + rows - 1) / (rows as int),
        forall|i: int| 0 <= i < w@.len() ==> #[trigger] w@[i] == window_at(domain as int, back as int, rows as int, i * rows),
{
    let mut w: Vec<GroupChunkWindow> = Vec::new();
    let mut base: usize = 0;
    assert(0 * (rows as int) == 0);
    while base < domain
        invariant
            rows > 0,
            back < domain,
            domain + domain + rows <= usize::MAX,
            base == w@.len() * rows,
            base < domain + rows,
            w@.len() == 0 || base - rows < domain,
            forall|i: int| 0 <= i < w@.len() ==> #[trigger] w@[i] == window_at(domain as int, back as int, rows as int, i * rows),
        decreases domain + rows - base,
    {
        let n = if rows < domain - base { rows } else { domain - base };
        let chunk_base = (base + domain - back) % domain;
        proof {
            assert((w@.len() + 1) * rows == w@.len() * rows + rows) by (nonlinear_arith);
        }
        w.push(GroupChunkWindow { cycle_base: base, dispatch_rows: n, chunk_base, chunk_rows: n + back });
        base = base + rows;
    }
    proof {
        let k = w@.len() as int;
        assert((k - 1) * rows == k * rows - rows) by (nonlinear_arith);
        lemma_windows_count(domain as int, rows as int, k);
    }
    w
}

/// `k` windows of `rows` cycles cover a domain of `domain` cycles, and
/// `k - 1` do not.
proof fn lemma_windows_count(domain: int, rows: int, k: int)
    requires
        rows > 0,
        domain > (k - 1) * rows,
        domain <= k * rows,
        k >= 0,
    ensures
        k == (domain + rows - 1) / rows,
{
    let x = domain + rows - 1;
    assert(k * rows <= x) by (nonlinear_arith)
        requires
            domain > (k - 1) * rows,
            rows > 0,
            x == domain + rows - 1,
    ;
    assert(x < (k + 1) * rows) by (nonlinear_arith)
        requires
            domain <= k * rows,
            x == domain + rows - 1,
    ;
    vstd::arithmetic::div_mod::lemma_fundamental_div_mod_converse(x, rows, k, x - k * rows);
}

/// A cycle of a window finds every row it reads, up to `back` rows behind
/// it, in the window's chunk: the row `b` behind cycle `c` is the chunk's
/// row `c - cycle_base + back - b`.
pub proof fn lemma_chunk_holds_reads(domain: int, back: int, rows: int, base: int, c: int, b: int)
    requires
        0 <= back < domain,
        0 <= base < domain,
        rows > 0,
        base + domain + back <= usize::MAX,
        base <= c < base + window_at(domain, back, rows, base).dispatch_rows,
        0 <= b <= back,
    ensures
        ({
            let w = window_at(domain, back, rows, base);
            let local = c - base + back - b;
            &&& 0 <= local < w.chunk_rows
            &&& (w.chunk_base + local) % domain == (c + domain - b) % domain
        }),
{
    let w = window_at(domain, back, rows, base);
    let local = c - base + back - b;
    let x = base + domain - back;
    vstd::arithmetic::div_mod::lemma_add_mod_noop(x, local, domain);
    vstd::arithmetic::div_mod::lemma_mod_twice(x, domain);
    vstd::arithmetic::div_mod::lemma_mod_bound(local, domain);
    vstd::arithmetic::div_mod::lemma_add_mod_noop(x % domain, local, domain);
    assert(x + local == c + domain - b);
}

/// Packs rows `chunk_base ..` (`chunk_rows` of them, wrapping around the
/// domain) of each of `cols` columns of `domain` rows into one chunk,
/// column after column.
pub fn pack_group_chunk<T: Copy>(source: &[T], cols: usize, domain: usize, chunk_base: usize, chunk_rows: usize) -> (r: Vec<
    T,
>)
    requires
        domain > 0,
        cols * domain <= source@.len(),
        cols * chunk_rows <= usize::MAX,
        chunk_base + chunk_rows <= usize::MAX,
    ensures
        r@.len() == cols * chunk_rows,
        forall|col: int, local: int|
            0 <= col < cols && 0 <= local < chunk_rows ==> #[trigger] r@[col * chunk_rows + local] == source@[col
                * domain + (chunk_base + local) % (domain as int)],
{
    let mut r: Vec<T> = Vec::new();
    let slen: usize = source.len();
    let mut col: usize = 0;
    while col < cols
        invariant
            slen == source@.len(),
            col <= cols,
            domain > 0,
            cols * domain <= source@.len(),
            cols * chunk_rows <= usize::MAX,
            chunk_base + chunk_rows <= usize::MAX,
            r@.len() == col * chunk_rows,
            forall|c: int, l: int|
                0 <= c < col && 0 <= l < chunk_rows ==> #[trigger] r@[c * chunk_rows + l] == source@[c * domain + (
                chunk_base + l) % (domain as int)],
        decreases cols - col,
    {
        proof {
            assert((col + 1) * domain <= cols * domain) by (nonlinear_arith)
                requires
                    col < cols,
            ;
            assert((col + 1) * chunk_rows <= cols * chunk_rows) by (nonlinear_arith)
                requires
                    col < cols,
            ;
            assert((col + 1) * domain == col * domain + domain) by (nonlinear_arith);
            assert((col + 1) * chunk_rows == col * chunk_rows + chunk_rows) by (nonlinear_arith);
        }
        let start = col * domain;
        let mut local: usize = 0;
        while local < chunk_rows
            invariant
                slen == source@.len(),
                local <= chunk_rows,
                col < cols,
                domain > 0,
                start == col * domain,
                start + domain <= source@.len(),
                col * chunk_rows + chunk_rows <= usize::MAX,
                chunk_base + chunk_rows <= usize::MAX,
                r@.len() == col * chunk_rows + local,
                forall|c: int, l: int|
                    0 <= c < col && 0 <= l < chunk_rows ==> #[trigger] r@[c * chunk_rows + l] == source@[c * domain + (
                    chunk_base + l) % (domain as int)],
                forall|l: int|
                    0 <= l < local ==> #[trigger] r@[col * chunk_rows + l] == source@[col * domain + (chunk_base + l) % (
                    domain as int)],
            decreases chunk_rows - local,
        {
            let row = (chunk_base + local) % domain;
            let ghost len0 = r@.len();
            r.push(source[start + row]);
            proof {
                assert forall|c: int, l: int| 0 <= c < col && 0 <= l < chunk_rows implies #[trigger] r@[c * chunk_rows
                    + l] == source@[c * domain + (chunk_base + l) % (domain as int)] by {
                    assert(c * chunk_rows + l < col * chunk_rows) by (nonlinear_arith)
                        requires
                            0 <= c < col,
                            0 <= l < chunk_rows,
                    ;
                }
            }
            local = local + 1;
        }
        col = col + 1;
    }
    r
}

} // verus!
