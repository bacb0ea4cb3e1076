//! Backend usage counters exposed to the browser harness.
//!
//! Per-name tables are kept sorted by the name's bytes, the order in which
//! `&str` compares, so a snapshot lists each name once, in that order.

use vstd::prelude::*;
use vstd::string::StringSliceAdditionalSpecFns;

verus! {

/// Lexicographic order on byte strings (the order of `str`'s `Ord`).
pub open spec fn bytes_lt(a: Seq<u8>, b: Seq<u8>) -> bool
    decreases a.len(),
{
    if a.len() == 0 {
        b.len() > 0
    } else if b.len() == 0 {
        false
    } else if a[0] != b[0] {
        a[0] < b[0]
    } else {
        bytes_lt(a.drop_first(), b.drop_first())
    }
}

/// The key a name is compared and found by: its UTF-8 bytes.
pub open spec fn name_key(name: &str) -> Seq<u8> {
    name.spec_bytes()
}

/// Exactly one of `a < b`, `a == b`, `b < a` holds.
pub proof fn lemma_bytes_trichotomy(a: Seq<u8>, b: Seq<u8>)
    ensures
        bytes_lt(a, b) || a == b || bytes_lt(b, a),
        !(bytes_lt(a, b) && bytes_lt(b, a)),
        !bytes_lt(a, a),
    decreases a.len(),
{
    if a.len() > 0 && b.len() > 0 {
        lemma_bytes_trichotomy(a.drop_first(), b.drop_first());
        if a[0] == b[0] && a.drop_first() == b.drop_first() {
            assert forall|k: int| 0 <= k < a.len() implies a[k] == b[k] by {
                if k > 0 {
                    assert(a[k] == a.drop_first()[k - 1]);
                    assert(b[k] == b.drop_first()[k - 1]);
                }
            }
            assert(a =~= b);
        }
    }
    if a.len() > 0 {
        lemma_bytes_trichotomy(a.drop_first(), a.drop_first());
    }
    if a.len() == 0 && b.len() == 0 {
        assert(a =~= b);
    }
}

/// The byte order is transitive.
pub proof fn lemma_bytes_transitive(a: Seq<u8>, b: Seq<u8>, c: Seq<u8>)
    requires
        bytes_lt(a, b),
        bytes_lt(b, c),
    ensures
        bytes_lt(a, c),
    decreases a.len(),
{
    if a.len() > 0 && b.len() > 0 && c.len() > 0 && a[0] == b[0] && b[0] == c[0] {
        lemma_bytes_transitive(a.drop_first(), b.drop_first(), c.drop_first());
    }
}

/// How two names compare.
#[derive(Clone, Copy, Debug, PartialEq, Eq, Structural)]
pub enum NameOrder {
    Less,
    Equal,
    Greater,
}

/// Compares two names by their bytes, as `str`'s `Ord` does.
pub fn compare_names(a: &str, b: &str) -> (r: NameOrder)
    ensures
        r == NameOrder::Less <==> bytes_lt(name_key(a), name_key(b)),
        r == NameOrder::Equal <==> name_key(a) == name_key(b),
        r == NameOrder::Greater <==> bytes_lt(name_key(b), name_key(a)),
{
    let x = a.as_bytes();
    let y = b.as_bytes();
    let ghost ka = name_key(a);
    let ghost kb = name_key(b);
    proof {
        lemma_bytes_trichotomy(ka, kb);
        assert(ka.skip(0) =~= ka);
        assert(kb.skip(0) =~= kb);
    }
    let mut i: usize = 0;
    while i < x.len() && i < y.len() && x[i] == y[i]
        invariant
            x@ == ka,
            y@ == kb,
            i <= x@.len(),
            i <= y@.len(),
            ka.take(i as int) == kb.take(i as int),
            bytes_lt(ka, kb) == bytes_lt(ka.skip(i as int), kb.skip(i as int)),
            bytes_lt(kb, ka) == bytes_lt(kb.skip(i as int), ka.skip(i as int)),
        decreases x@.len() - i,
    {
        proof {
            assert(ka.skip(i as int).drop_first() =~= ka.skip(i + 1));
            assert(kb.skip(i as int).drop_first() =~= kb.skip(i + 1));
            assert(ka.take(i + 1) =~= ka.take(i as int).push(ka[i as int]));
            assert(kb.take(i + 1) =~= kb.take(i as int).push(kb[i as int]));
        }
        i = i + 1;
    }
    proof {
        lemma_bytes_trichotomy(ka.skip(i as int), kb.skip(i as int));
    }
    if i == x.len() && i == y.len() {
        proof {
            assert(ka =~= ka.take(i as int));
            assert(kb =~= kb.take(i as int));
        }
        NameOrder::Equal
    } else {
        proof {
            if ka == kb {
                assert(ka.skip(i as int) =~= kb.skip(i as int));
            }
        }
        if i == x.len() {
            NameOrder::Less
        } else if i == y.len() {
            NameOrder::Greater
        } else if x[i] < y[i] {
            NameOrder::Less
        } else {
            NameOrder::Greater
        }
    }
}

/// The entries of a per-name table are strictly increasing by name.
pub open spec fn sorted_by_name<T>(t: Seq<(&'static str, T)>) -> bool {
    forall|i: int, j: int| 0 <= i < j < t.len() ==> bytes_lt(name_key(#[trigger] t[i].0), name_key(#[trigger] t[j].0))
}

/// The table has an entry for `name`.
pub open spec fn has_name<T>(t: Seq<(&'static str, T)>, name: &str) -> bool {
    exists|i: int| 0 <= i < t.len() && name_key(#[trigger] t[i].0) == name_key(name)
}

/// Finds the entry for `name`, inserting `(name, fresh)` at its sorted
/// place if there is none, and returns its index.
fn entry_index<T: Copy>(table: &mut Vec<(&'static str, T)>, name: &'static str, fresh: T) -> (idx: usize)
    requires
        sorted_by_name(old(table)@),
    ensures
        sorted_by_name(final(table)@),
        idx < final(table)@.len(),
        name_key(final(table)@[idx as int].0) == name_key(name),
        has_name(old(table)@, name) ==> final(table)@ == old(table)@,
        !has_name(old(table)@, name) ==> idx <= old(table)@.len() && final(table)@ == old(table)@.insert(
            idx as int,
            (name, fresh),
        ),
{
    let mut p: usize = 0;
    while p < table.len()
        invariant
            p <= table@.len(),
            table@ == old(table)@,
            sorted_by_name(table@),
            forall|i: int| 0 <= i < p ==> bytes_lt(name_key(#[trigger] table@[i].0), name_key(name)),
        decreases table@.len() - p,
    {
        match compare_names(table[p].0, name) {
            NameOrder::Less => {},
            NameOrder::Equal => {
                return p;
            },
            NameOrder::Greater => {
                proof {
                    assert forall|i: int| 0 <= i < table@.len() implies name_key(#[trigger] table@[i].0)
                        != name_key(name) by {
                        lemma_bytes_trichotomy(name_key(table@[i].0), name_key(name));
                        if i > p {
                            lemma_bytes_transitive(name_key(name), name_key(table@[p as int].0), name_key(table@[i].0));
                        }
                    }
                    let t = table@;
                    let u = t.insert(p as int, (name, fresh));
                    assert forall|i: int, j: int| 0 <= i < j < u.len() implies bytes_lt(
                        name_key(#[trigger] u[i].0),
                        name_key(#[trigger] u[j].0),
                    ) by {
                        if j < p {
                            assert(u[i] == t[i] && u[j] == t[j]);
                        } else if j == p {
                            assert(u[i] == t[i] && u[j] == (name, fresh));
                        } else {
                            assert(u[j] == t[j - 1]);
                            if j - 1 > p {
                                lemma_bytes_transitive(name_key(name), name_key(t[p as int].0), name_key(t[j - 1].0));
                            }
                            assert(bytes_lt(name_key(name), name_key(u[j].0)));
                            if i < p {
                                assert(u[i] == t[i]);
                                lemma_bytes_transitive(name_key(u[i].0), name_key(name), name_key(u[j].0));
                            } else if i > p {
                                assert(u[i] == t[i - 1]);
                            }
                        }
                    }
                }
                table.insert(p, (name, fresh));
                return p;
            },
        }
        p = p + 1;
    }
    proof {
        let t = table@;
        let u = t.push((name, fresh));
        assert forall|i: int| 0 <= i < t.len() implies name_key(#[trigger] t[i].0) != name_key(name) by {
            lemma_bytes_trichotomy(name_key(t[i].0), name_key(name));
        }
        assert forall|i: int, j: int| 0 <= i < j < u.len() implies bytes_lt(
            name_key(#[trigger] u[i].0),
            name_key(#[trigger] u[j].0),
        ) by {
            if j < t.len() {
                assert(u[i] == t[i] && u[j] == t[j]);
            }
        }
        assert(u =~= t.insert(t.len() as int, (name, fresh)));
    }
    table.push((name, fresh));
    p
}


impl Default for WebGpuDiagnosticsState {
    fn default() -> (s: Self)
        ensures
            s.wf(),
            s.is_cleared(),
    {
        WebGpuDiagnosticsState::new()
    }
}

/// Snapshot of WebGPU HAL backend usage.
#[derive(Clone, Debug, Default, PartialEq, Eq)]
pub struct WebGpuDiagnostics {
    pub buffers_allocated: u64,
    pub bytes_allocated: u64,
    pub host_to_gpu_uploads: u64,
    pub host_to_gpu_bytes: u64,
    pub device_copies: u64,
    pub device_copy_bytes: u64,
    pub readbacks: u64,
    pub readback_bytes: u64,
    pub bind_group_layout_creations: u64,
    pub bind_group_layout_cache_hits: u64,
    pub bind_group_creations: u64,
    pub compute_pipeline_creations: u64,
    pub compute_pipeline_cache_hits: u64,
    pub gpu_dispatches: u64,
    pub raw_compute_dispatches: u64,
    pub queue_submits: u64,
    pub cpu_mirrors: u64,
    pub cpu_fallbacks: u64,
    pub cpu_only_ops: u64,
    pub stages: Vec<WebGpuStageDiagnostics>,
    pub ops: Vec<WebGpuOpDiagnostics>,
    pub upload_sources: Vec<WebGpuUploadDiagnostics>,
    pub device_copy_sources: Vec<WebGpuDeviceCopyDiagnostics>,
    pub readback_sources: Vec<WebGpuReadbackDiagnostics>,
}

/// Per-stage browser WebGPU timing diagnostics.
#[derive(Clone, Debug, Default, PartialEq, Eq)]
pub struct WebGpuStageDiagnostics {
    pub label: String,
    pub elapsed_us: u64,
    pub gpu_active: bool,
}

/// Per-operation WebGPU HAL backend usage.
#[derive(Clone, Debug, Default, PartialEq, Eq)]
pub struct WebGpuOpDiagnostics {
    pub name: &'static str,
    pub gpu_dispatches: u64,
    pub cpu_mirrors: u64,
    pub cpu_fallbacks: u64,
    pub cpu_only_ops: u64,
}

/// Per-buffer WebGPU host-to-device upload usage.
#[derive(Clone, Debug, Default, PartialEq, Eq)]
pub struct WebGpuUploadDiagnostics {
    pub name: &'static str,
    pub uploads: u64,
    pub upload_bytes: u64,
}

/// Per-buffer WebGPU device-to-device copy usage.
#[derive(Clone, Debug, Default, PartialEq, Eq)]
pub struct WebGpuDeviceCopyDiagnostics {
    pub name: &'static str,
    pub device_copies: u64,
    pub device_copy_bytes: u64,
}

/// Per-buffer WebGPU readback usage.
#[derive(Clone, Debug, Default, PartialEq, Eq)]
pub struct WebGpuReadbackDiagnostics {
    pub name: &'static str,
    pub readbacks: u64,
    pub readback_bytes: u64,
}

/// Per-operation counters.
#[derive(Clone, Copy, Debug, Default, PartialEq, Eq, Structural)]
pub struct WebGpuOpStats {
    pub gpu_dispatches: u64,
    pub cpu_mirrors: u64,
    pub cpu_fallbacks: u64,
    pub cpu_only_ops: u64,
}

/// Per-buffer upload counters.
#[derive(Clone, Copy, Debug, Default, PartialEq, Eq, Structural)]
pub struct WebGpuUploadStats {
    pub uploads: u64,
    pub upload_bytes: u64,
}

/// Per-buffer device-copy counters.
#[derive(Clone, Copy, Debug, Default, PartialEq, Eq, Structural)]
pub struct WebGpuDeviceCopyStats {
    pub device_copies: u64,
    pub device_copy_bytes: u64,
}

/// Per-buffer readback counters.
#[derive(Clone, Copy, Debug, Default, PartialEq, Eq, Structural)]
pub struct WebGpuReadbackStats {
    pub readbacks: u64,
    pub readback_bytes: u64,
}

/// Which per-operation counter a record bumps.
#[derive(Clone, Copy, Debug, PartialEq, Eq, Structural)]
pub enum WebGpuOpCounter {
    GpuDispatch,
    CpuMirror,
    CpuFallback,
    CpuOnly,
}

/// `s` with the counter `c` bumped by one (saturating).
pub open spec fn bump_op(s: WebGpuOpStats, c: WebGpuOpCounter) -> WebGpuOpStats {
    match c {
        WebGpuOpCounter::GpuDispatch => WebGpuOpStats { gpu_dispatches: s.gpu_dispatches.saturating_add(1), ..s },
        WebGpuOpCounter::CpuMirror => WebGpuOpStats { cpu_mirrors: s.cpu_mirrors.saturating_add(1), ..s },
        WebGpuOpCounter::CpuFallback => WebGpuOpStats { cpu_fallbacks: s.cpu_fallbacks.saturating_add(1), ..s },
        WebGpuOpCounter::CpuOnly => WebGpuOpStats { cpu_only_ops: s.cpu_only_ops.saturating_add(1), ..s },
    }
}

pub open spec fn zero_op_stats() -> WebGpuOpStats {
    WebGpuOpStats { gpu_dispatches: 0, cpu_mirrors: 0, cpu_fallbacks: 0, cpu_only_ops: 0 }
}

pub open spec fn zero_upload_stats() -> WebGpuUploadStats {
    WebGpuUploadStats { uploads: 0, upload_bytes: 0 }
}

pub open spec fn zero_device_copy_stats() -> WebGpuDeviceCopyStats {
    WebGpuDeviceCopyStats { device_copies: 0, device_copy_bytes: 0 }
}

pub open spec fn zero_readback_stats() -> WebGpuReadbackStats {
    WebGpuReadbackStats { readbacks: 0, readback_bytes: 0 }
}

/// `new` is `old` with the entry for `name` (a `fresh` one, inserted at its
/// sorted place, if there was none) replaced by `f` of it; the table stays
/// sorted, and no other entry changes.
pub open spec fn table_bumped<T>(
    old: Seq<(&'static str, T)>,
    new: Seq<(&'static str, T)>,
    name: &'static str,
    fresh: T,
    f: spec_fn(T) -> T,
) -> bool {
    &&& sorted_by_name(new)
    &&& if has_name(old, name) {
        exists|i: int|
            0 <= i < old.len() && name_key(#[trigger] old[i].0) == name_key(name) && new == old.update(
                i,
                (old[i].0, f(old[i].1)),
            )
    } else {
        exists|i: int| 0 <= i <= old.len() && new == #[trigger] old.insert(i, (name, f(fresh)))
    }
}

proof fn lemma_table_bumped<T>(
    old: Seq<(&'static str, T)>,
    mid: Seq<(&'static str, T)>,
    new: Seq<(&'static str, T)>,
    name: &'static str,
    fresh: T,
    idx: int,
    f: spec_fn(T) -> T,
)
    requires
        sorted_by_name(mid),
        0 <= idx < mid.len(),
        name_key(mid[idx].0) == name_key(name),
        has_name(old, name) ==> mid == old,
        !has_name(old, name) ==> idx <= old.len() && mid == old.insert(idx, (name, fresh)),
        new == mid.update(idx, (mid[idx].0, f(mid[idx].1))),
    ensures
        table_bumped(old, new, name, fresh, f),
{
    assert forall|i: int| 0 <= i < new.len() implies (#[trigger] new[i]).0 == mid[i].0 by {}
    assert forall|i: int, j: int| 0 <= i < j < new.len() implies bytes_lt(
        name_key(#[trigger] new[i].0),
        name_key(#[trigger] new[j].0),
    ) by {
        assert(new[i].0 == mid[i].0 && new[j].0 == mid[j].0);
    }
    if has_name(old, name) {
        assert(name_key(old[idx].0) == name_key(name));
    } else {
        assert(mid[idx] == (name, fresh));
        assert(new =~= old.insert(idx, (name, f(fresh))));
    }
}

/// The backend-wide counters. Every counter saturates at `u64::MAX`.
#[derive(Clone, Copy, Debug, Default, PartialEq, Eq, Structural)]
pub struct WebGpuCounters {
    pub buffers_allocated: u64,
    pub bytes_allocated: u64,
    pub host_to_gpu_uploads: u64,
    pub host_to_gpu_bytes: u64,
    pub device_copies: u64,
    pub device_copy_bytes: u64,
    pub readbacks: u64,
    pub readback_bytes: u64,
    pub bind_group_layout_creations: u64,
    pub bind_group_layout_cache_hits: u64,
    pub bind_group_creations: u64,
    pub compute_pipeline_creations: u64,
    pub compute_pipeline_cache_hits: u64,
    pub gpu_dispatches: u64,
    pub raw_compute_dispatches: u64,
    pub queue_submits: u64,
    pub cpu_mirrors: u64,
    pub cpu_fallbacks: u64,
    pub cpu_only_ops: u64,
}

pub open spec fn zero_counters() -> WebGpuCounters {
    WebGpuCounters {
        buffers_allocated: 0,
        bytes_allocated: 0,
        host_to_gpu_uploads: 0,
        host_to_gpu_bytes: 0,
        device_copies: 0,
        device_copy_bytes: 0,
        readbacks: 0,
        readback_bytes: 0,
        bind_group_layout_creations: 0,
        bind_group_layout_cache_hits: 0,
        bind_group_creations: 0,
        compute_pipeline_creations: 0,
        compute_pipeline_cache_hits: 0,
        gpu_dispatches: 0,
        raw_compute_dispatches: 0,
        queue_submits: 0,
        cpu_mirrors: 0,
        cpu_fallbacks: 0,
        cpu_only_ops: 0,
    }
}

/// Live WebGPU HAL backend usage: the counters, the stage log, and the
/// per-name tables (each sorted by name).
pub struct WebGpuDiagnosticsState {
    pub counters: WebGpuCounters,
    pub stages: Vec<WebGpuStageDiagnostics>,
    pub ops: Vec<(&'static str, WebGpuOpStats)>,
    pub upload_sources: Vec<(&'static str, WebGpuUploadStats)>,
    pub device_copy_sources: Vec<(&'static str, WebGpuDeviceCopyStats)>,
    pub readback_sources: Vec<(&'static str, WebGpuReadbackStats)>,
}

impl WebGpuDiagnosticsState {
    /// Every per-name table is strictly sorted by name.
    pub open spec fn wf(&self) -> bool {
        &&& sorted_by_name(self.ops@)
        &&& sorted_by_name(self.upload_sources@)
        &&& sorted_by_name(self.device_copy_sources@)
        &&& sorted_by_name(self.readback_sources@)
    }

    /// Every counter is zero and every table and the stage log are empty.
    pub open spec fn is_cleared(&self) -> bool {
        &&& self.counters == zero_counters()
        &&& self.stages@.len() == 0
        &&& self.ops@.len() == 0
        &&& self.upload_sources@.len() == 0
        &&& self.device_copy_sources@.len() == 0
        &&& self.readback_sources@.len() == 0
    }

    /// A state with nothing recorded.
    pub fn new() -> (s: Self)
        ensures
            s.wf(),
            s.is_cleared(),
    {
        WebGpuDiagnosticsState {
            counters: WebGpuCounters {
                buffers_allocated: 0,
                bytes_allocated: 0,
                host_to_gpu_uploads: 0,
                host_to_gpu_bytes: 0,
                device_copies: 0,
                device_copy_bytes: 0,
                readbacks: 0,
                readback_bytes: 0,
                bind_group_layout_creations: 0,
                bind_group_layout_cache_hits: 0,
                bind_group_creations: 0,
                compute_pipeline_creations: 0,
                compute_pipeline_cache_hits: 0,
                gpu_dispatches: 0,
                raw_compute_dispatches: 0,
                queue_submits: 0,
                cpu_mirrors: 0,
                cpu_fallbacks: 0,
                cpu_only_ops: 0,
            },
            stages: Vec::new(),
            ops: Vec::new(),
            upload_sources: Vec::new(),
            device_copy_sources: Vec::new(),
            readback_sources: Vec::new(),
        }
    }
}

/// An upload record of `byte_len` bytes applied to one name's counters.
pub open spec fn upload_bump(byte_len: u64) -> spec_fn(WebGpuUploadStats) -> WebGpuUploadStats {
    |s: WebGpuUploadStats|
        WebGpuUploadStats {
            uploads: s.uploads.saturating_add(1),
            upload_bytes: s.upload_bytes.saturating_add(byte_len),
        }
}

/// A device-copy record of `byte_len` bytes applied to one name's counters.
pub open spec fn device_copy_bump(byte_len: u64) -> spec_fn(WebGpuDeviceCopyStats) -> WebGpuDeviceCopyStats {
    |s: WebGpuDeviceCopyStats|
        WebGpuDeviceCopyStats {
            device_copies: s.device_copies.saturating_add(1),
            device_copy_bytes: s.device_copy_bytes.saturating_add(byte_len),
        }
}

/// A readback record of `byte_len` bytes applied to one name's counters.
pub open spec fn readback_bump(byte_len: u64) -> spec_fn(WebGpuReadbackStats) -> WebGpuReadbackStats {
    |s: WebGpuReadbackStats|
        WebGpuReadbackStats {
            readbacks: s.readbacks.saturating_add(1),
            readback_bytes: s.readback_bytes.saturating_add(byte_len),
        }
}

/// An operation record bumping counter `c`.
pub open spec fn op_bump(c: WebGpuOpCounter) -> spec_fn(WebGpuOpStats) -> WebGpuOpStats {
    |s: WebGpuOpStats| bump_op(s, c)
}

/// `a` and `b` have the same stage log and the same per-name tables.
pub open spec fn same_logs(a: &WebGpuDiagnosticsState, b: &WebGpuDiagnosticsState) -> bool {
    &&& a.stages@ == b.stages@
    &&& a.ops@ == b.ops@
    &&& a.upload_sources@ == b.upload_sources@
    &&& a.device_copy_sources@ == b.device_copy_sources@
    &&& a.readback_sources@ == b.readback_sources@
}

impl WebGpuDiagnosticsState {
    /// Adds `value` to a counter, saturating at `u64::MAX`.
    pub fn add(counter: &mut u64, value: u64)
        ensures
            *final(counter) == (*old(counter)).saturating_add(value),
    {
        *counter = counter.saturating_add(value);
    }

    /// Clears every counter, the stage log and every table.
    pub fn reset(&mut self)
        ensures
            final(self).wf(),
            final(self).is_cleared(),
    {
        self.counters = WebGpuCounters {
            buffers_allocated: 0,
            bytes_allocated: 0,
            host_to_gpu_uploads: 0,
            host_to_gpu_bytes: 0,
            device_copies: 0,
            device_copy_bytes: 0,
            readbacks: 0,
            readback_bytes: 0,
            bind_group_layout_creations: 0,
            bind_group_layout_cache_hits: 0,
            bind_group_creations: 0,
            compute_pipeline_creations: 0,
            compute_pipeline_cache_hits: 0,
            gpu_dispatches: 0,
            raw_compute_dispatches: 0,
            queue_submits: 0,
            cpu_mirrors: 0,
            cpu_fallbacks: 0,
            cpu_only_ops: 0,
        };
        self.stages.clear();
        self.ops.clear();
        self.upload_sources.clear();
        self.device_copy_sources.clear();
        self.readback_sources.clear();
    }

    /// Bumps counter `counter` of operation `name`.
    pub fn record_op(&mut self, name: &'static str, counter: WebGpuOpCounter)
        requires
            old(self).wf(),
        ensures
            final(self).wf(),
            final(self).counters == old(self).counters,
            table_bumped(old(self).ops@, final(self).ops@, name, zero_op_stats(), op_bump(counter)),
            final(self).stages@ == old(self).stages@,
            final(self).upload_sources@ == old(self).upload_sources@,
            final(self).device_copy_sources@ == old(self).device_copy_sources@,
            final(self).readback_sources@ == old(self).readback_sources@,
    {
        let zero = WebGpuOpStats { gpu_dispatches: 0, cpu_mirrors: 0, cpu_fallbacks: 0, cpu_only_ops: 0 };
        let idx = entry_index(&mut self.ops, name, zero);
        let ghost mid = self.ops@;
        let (key, st) = self.ops[idx];
        let bumped = match counter {
            WebGpuOpCounter::GpuDispatch => WebGpuOpStats {
                gpu_dispatches: st.gpu_dispatches.saturating_add(1),
                ..st
            },
            WebGpuOpCounter::CpuMirror => WebGpuOpStats { cpu_mirrors: st.cpu_mirrors.saturating_add(1), ..st },
            WebGpuOpCounter::CpuFallback => WebGpuOpStats {
                cpu_fallbacks: st.cpu_fallbacks.saturating_add(1),
                ..st
            },
            WebGpuOpCounter::CpuOnly => WebGpuOpStats { cpu_only_ops: st.cpu_only_ops.saturating_add(1), ..st },
        };
        self.ops.set(idx, (key, bumped));
        proof {
            assert(bumped == (op_bump(counter))(mid[idx as int].1));
            lemma_table_bumped(old(self).ops@, mid, self.ops@, name, zero, idx as int, op_bump(counter));
        }
    }

    /// Records a new buffer of `byte_len` bytes.
    pub fn record_buffer_allocated(&mut self, byte_len: u64)
        ensures
            final(self).counters == (WebGpuCounters {
                buffers_allocated: old(self).counters.buffers_allocated.saturating_add(1),
                bytes_allocated: old(self).counters.bytes_allocated.saturating_add(byte_len),
                ..old(self).counters
            }),
            same_logs(final(self), old(self)),
    {
        Self::add(&mut self.counters.buffers_allocated, 1);
        Self::add(&mut self.counters.bytes_allocated, byte_len);
    }

    /// Records a host-to-GPU upload of `byte_len` bytes into buffer `name`.
    pub fn record_upload(&mut self, name: &'static str, byte_len: u64)
        requires
            old(self).wf(),
        ensures
            final(self).wf(),
            final(self).counters == (WebGpuCounters {
                host_to_gpu_uploads: old(self).counters.host_to_gpu_uploads.saturating_add(1),
                host_to_gpu_bytes: old(self).counters.host_to_gpu_bytes.saturating_add(byte_len),
                ..old(self).counters
            }),
            table_bumped(
                old(self).upload_sources@,
                final(self).upload_sources@,
                name,
                zero_upload_stats(),
                upload_bump(byte_len),
            ),
            final(self).stages@ == old(self).stages@,
            final(self).ops@ == old(self).ops@,
            final(self).device_copy_sources@ == old(self).device_copy_sources@,
            final(self).readback_sources@ == old(self).readback_sources@,
    {
        Self::add(&mut self.counters.host_to_gpu_uploads, 1);
        Self::add(&mut self.counters.host_to_gpu_bytes, byte_len);
        let zero = WebGpuUploadStats { uploads: 0, upload_bytes: 0 };
        let idx = entry_index(&mut self.upload_sources, name, zero);
        let ghost mid = self.upload_sources@;
        let (key, st) = self.upload_sources[idx];
        let bumped = WebGpuUploadStats {
            uploads: st.uploads.saturating_add(1),
            upload_bytes: st.upload_bytes.saturating_add(byte_len),
        };
        self.upload_sources.set(idx, (key, bumped));
        proof {
            assert(bumped == (upload_bump(byte_len))(mid[idx as int].1));
            lemma_table_bumped(
                old(self).upload_sources@,
                mid,
                self.upload_sources@,
                name,
                zero,
                idx as int,
                upload_bump(byte_len),
            );
        }
    }

    /// Records a device-to-device copy of `byte_len` bytes into buffer `name`.
    pub fn record_device_copy(&mut self, name: &'static str, byte_len: u64)
        requires
            old(self).wf(),
        ensures
            final(self).wf(),
            final(self).counters == (WebGpuCounters {
                device_copies: old(self).counters.device_copies.saturating_add(1),
                device_copy_bytes: old(self).counters.device_copy_bytes.saturating_add(byte_len),
                ..old(self).counters
            }),
            table_bumped(
                old(self).device_copy_sources@,
                final(self).device_copy_sources@,
                name,
                zero_device_copy_stats(),
                device_copy_bump(byte_len),
            ),
            final(self).stages@ == old(self).stages@,
            final(self).ops@ == old(self).ops@,
            final(self).upload_sources@ == old(self).upload_sources@,
            final(self).readback_sources@ == old(self).readback_sources@,
    {
        Self::add(&mut self.counters.device_copies, 1);
        Self::add(&mut self.counters.device_copy_bytes, byte_len);
        let zero = WebGpuDeviceCopyStats { device_copies: 0, device_copy_bytes: 0 };
        let idx = entry_index(&mut self.device_copy_sources, name, zero);
        let ghost mid = self.device_copy_sources@;
        let (key, st) = self.device_copy_sources[idx];
        let bumped = WebGpuDeviceCopyStats {
            device_copies: st.device_copies.saturating_add(1),
            device_copy_bytes: st.device_copy_bytes.saturating_add(byte_len),
        };
        self.device_copy_sources.set(idx, (key, bumped));
        proof {
            assert(bumped == (device_copy_bump(byte_len))(mid[idx as int].1));
            lemma_table_bumped(
                old(self).device_copy_sources@,
                mid,
                self.device_copy_sources@,
                name,
                zero,
                idx as int,
                device_copy_bump(byte_len),
            );
        }
    }

    /// Records a readback of `byte_len` bytes from buffer `name`.
    pub fn record_readback(&mut self, name: &'static str, byte_len: u64)
        requires
            old(self).wf(),
        ensures
            final(self).wf(),
            final(self).counters == (WebGpuCounters {
                readbacks: old(self).counters.readbacks.saturating_add(1),
                readback_bytes: old(self).counters.readback_bytes.saturating_add(byte_len),
                ..old(self).counters
            }),
            table_bumped(
                old(self).readback_sources@,
                final(self).readback_sources@,
                name,
                zero_readback_stats(),
                readback_bump(byte_len),
            ),
            final(self).stages@ == old(self).stages@,
            final(self).ops@ == old(self).ops@,
            final(self).upload_sources@ == old(self).upload_sources@,
            final(self).device_copy_sources@ == old(self).device_copy_sources@,
    {
        Self::add(&mut self.counters.readbacks, 1);
        Self::add(&mut self.counters.readback_bytes, byte_len);
        let zero = WebGpuReadbackStats { readbacks: 0, readback_bytes: 0 };
        let idx = entry_index(&mut self.readback_sources, name, zero);
        let ghost mid = self.readback_sources@;
        let (key, st) = self.readback_sources[idx];
        let bumped = WebGpuReadbackStats {
            readbacks: st.readbacks.saturating_add(1),
            readback_bytes: st.readback_bytes.saturating_add(byte_len),
        };
        self.readback_sources.set(idx, (key, bumped));
        proof {
            assert(bumped == (readback_bump(byte_len))(mid[idx as int].1));
            lemma_table_bumped(
                old(self).readback_sources@,
                mid,
                self.readback_sources@,
                name,
                zero,
                idx as int,
                readback_bump(byte_len),
            );
        }
    }

    pub fn record_bind_group_layout_creation(&mut self)
        ensures
            final(self).counters == (WebGpuCounters {
                bind_group_layout_creations: old(self).counters.bind_group_layout_creations.saturating_add(1),
                ..old(self).counters
            }),
            same_logs(final(self), old(self)),
    {
        Self::add(&mut self.counters.bind_group_layout_creations, 1);
    }

    pub fn record_bind_group_layout_cache_hit(&mut self)
        ensures
            final(self).counters == (WebGpuCounters {
                bind_group_layout_cache_hits: old(self).counters.bind_group_layout_cache_hits.saturating_add(1),
                ..old(self).counters
            }),
            same_logs(final(self), old(self)),
    {
        Self::add(&mut self.counters.bind_group_layout_cache_hits, 1);
    }

    pub fn record_bind_group_creation(&mut self)
        ensures
            final(self).counters == (WebGpuCounters {
                bind_group_creations: old(self).counters.bind_group_creations.saturating_add(1),
                ..old(self).counters
            }),
            same_logs(final(self), old(self)),
    {
        Self::add(&mut self.counters.bind_group_creations, 1);
    }

    pub fn record_compute_pipeline_creation(&mut self)
        ensures
            final(self).counters == (WebGpuCounters {
                compute_pipeline_creations: old(self).counters.compute_pipeline_creations.saturating_add(1),
                ..old(self).counters
            }),
            same_logs(final(self), old(self)),
    {
        Self::add(&mut self.counters.compute_pipeline_creations, 1);
    }

    pub fn record_compute_pipeline_cache_hit(&mut self)
        ensures
            final(self).counters == (WebGpuCounters {
                compute_pipeline_cache_hits: old(self).counters.compute_pipeline_cache_hits.saturating_add(1),
                ..old(self).counters
            }),
            same_logs(final(self), old(self)),
    {
        Self::add(&mut self.counters.compute_pipeline_cache_hits, 1);
    }

    pub fn record_raw_compute_dispatch(&mut self)
        ensures
            final(self).counters == (WebGpuCounters {
                raw_compute_dispatches: old(self).counters.raw_compute_dispatches.saturating_add(1),
                ..old(self).counters
            }),
            same_logs(final(self), old(self)),
    {
        Self::add(&mut self.counters.raw_compute_dispatches, 1);
    }

    pub fn record_queue_submit(&mut self)
        ensures
            final(self).counters == (WebGpuCounters {
                queue_submits: old(self).counters.queue_submits.saturating_add(1),
                ..old(self).counters
            }),
            same_logs(final(self), old(self)),
    {
        Self::add(&mut self.counters.queue_submits, 1);
    }

    /// Records a GPU dispatch of operation `name`.
    pub fn record_gpu_dispatch(&mut self, name: &'static str)
        requires
            old(self).wf(),
        ensures
            final(self).wf(),
            final(self).counters == (WebGpuCounters {
                gpu_dispatches: old(self).counters.gpu_dispatches.saturating_add(1),
                ..old(self).counters
            }),
            table_bumped(old(self).ops@, final(self).ops@, name, zero_op_stats(), op_bump(WebGpuOpCounter::GpuDispatch)),
            final(self).stages@ == old(self).stages@,
            final(self).upload_sources@ == old(self).upload_sources@,
            final(self).device_copy_sources@ == old(self).device_copy_sources@,
            final(self).readback_sources@ == old(self).readback_sources@,
    {
        Self::add(&mut self.counters.gpu_dispatches, 1);
        self.record_op(name, WebGpuOpCounter::GpuDispatch);
    }

    /// Records that operation `name` also ran on the CPU to mirror the GPU.
    pub fn record_cpu_mirror(&mut self, name: &'static str)
        requires
            old(self).wf(),
        ensures
            final(self).wf(),
            final(self).counters == (WebGpuCounters {
                cpu_mirrors: old(self).counters.cpu_mirrors.saturating_add(1),
                ..old(self).counters
            }),
            table_bumped(old(self).ops@, final(self).ops@, name, zero_op_stats(), op_bump(WebGpuOpCounter::CpuMirror)),
            final(self).stages@ == old(self).stages@,
            final(self).upload_sources@ == old(self).upload_sources@,
            final(self).device_copy_sources@ == old(self).device_copy_sources@,
            final(self).readback_sources@ == old(self).readback_sources@,
    {
        Self::add(&mut self.counters.cpu_mirrors, 1);
        self.record_op(name, WebGpuOpCounter::CpuMirror);
    }

    /// Records that operation `name` fell back to the CPU.
    pub fn record_cpu_fallback(&mut self, name: &'static str)
        requires
            old(self).wf(),
        ensures
            final(self).wf(),
            final(self).counters == (WebGpuCounters {
                cpu_fallbacks: old(self).counters.cpu_fallbacks.saturating_add(1),
                ..old(self).counters
            }),
            table_bumped(old(self).ops@, final(self).ops@, name, zero_op_stats(), op_bump(WebGpuOpCounter::CpuFallback)),
            final(self).stages@ == old(self).stages@,
            final(self).upload_sources@ == old(self).upload_sources@,
            final(self).device_copy_sources@ == old(self).device_copy_sources@,
            final(self).readback_sources@ == old(self).readback_sources@,
    {
        Self::add(&mut self.counters.cpu_fallbacks, 1);
        self.record_op(name, WebGpuOpCounter::CpuFallback);
    }

    /// Appends a finished stage to the stage log.
    pub fn record_stage(&mut self, stage: WebGpuStageDiagnostics)
        ensures
            final(self).counters == old(self).counters,
            final(self).stages@ == old(self).stages@.push(stage),
            final(self).ops@ == old(self).ops@,
            final(self).upload_sources@ == old(self).upload_sources@,
            final(self).device_copy_sources@ == old(self).device_copy_sources@,
            final(self).readback_sources@ == old(self).readback_sources@,
    {
        self.stages.push(stage);
    }
}

/// The snapshot's counters are `c`.
pub open spec fn counters_shown(d: &WebGpuDiagnostics, c: WebGpuCounters) -> bool {
    &&& d.buffers_allocated == c.buffers_allocated
    &&& d.bytes_allocated == c.bytes_allocated
    &&& d.host_to_gpu_uploads == c.host_to_gpu_uploads
    &&& d.host_to_gpu_bytes == c.host_to_gpu_bytes
    &&& d.device_copies == c.device_copies
    &&& d.device_copy_bytes == c.device_copy_bytes
    &&& d.readbacks == c.readbacks
    &&& d.readback_bytes == c.readback_bytes
    &&& d.bind_group_layout_creations == c.bind_group_layout_creations
    &&& d.bind_group_layout_cache_hits == c.bind_group_layout_cache_hits
    &&& d.bind_group_creations == c.bind_group_creations
    &&& d.compute_pipeline_creations == c.compute_pipeline_creations
    &&& d.compute_pipeline_cache_hits == c.compute_pipeline_cache_hits
    &&& d.gpu_dispatches == c.gpu_dispatches
    &&& d.raw_compute_dispatches == c.raw_compute_dispatches
    &&& d.queue_submits == c.queue_submits
    &&& d.cpu_mirrors == c.cpu_mirrors
    &&& d.cpu_fallbacks == c.cpu_fallbacks
    &&& d.cpu_only_ops == c.cpu_only_ops
}

/// A snapshot stage shows stage `s`.
pub open spec fn stage_shown(d: WebGpuStageDiagnostics, s: WebGpuStageDiagnostics) -> bool {
    d.label@ == s.label@ && d.elapsed_us == s.elapsed_us && d.gpu_active == s.gpu_active
}

pub open spec fn op_shown(d: WebGpuOpDiagnostics, e: (&'static str, WebGpuOpStats)) -> bool {
    &&& d.name == e.0
    &&& d.gpu_dispatches == e.1.gpu_dispatches
    &&& d.cpu_mirrors == e.1.cpu_mirrors
    &&& d.cpu_fallbacks == e.1.cpu_fallbacks
    &&& d.cpu_only_ops == e.1.cpu_only_ops
}

pub open spec fn upload_shown(d: WebGpuUploadDiagnostics, e: (&'static str, WebGpuUploadStats)) -> bool {
    d.name == e.0 && d.uploads == e.1.uploads && d.upload_bytes == e.1.upload_bytes
}

pub open spec fn device_copy_shown(d: WebGpuDeviceCopyDiagnostics, e: (&'static str, WebGpuDeviceCopyStats)) -> bool {
    d.name == e.0 && d.device_copies == e.1.device_copies && d.device_copy_bytes == e.1.device_copy_bytes
}

pub open spec fn readback_shown(d: WebGpuReadbackDiagnostics, e: (&'static str, WebGpuReadbackStats)) -> bool {
    d.name == e.0 && d.readbacks == e.1.readbacks && d.readback_bytes == e.1.readback_bytes
}

impl WebGpuDiagnosticsState {
    /// A copy of every counter, the stage log, and each table in name order.
    pub fn snapshot(&self) -> (r: WebGpuDiagnostics)
        ensures
            counters_shown(&r, self.counters),
            r.stages@.len() == self.stages@.len(),
            forall|i: int| 0 <= i < r.stages@.len() ==> stage_shown(#[trigger] r.stages@[i], self.stages@[i]),
            r.ops@.len() == self.ops@.len(),
            forall|i: int| 0 <= i < r.ops@.len() ==> op_shown(#[trigger] r.ops@[i], self.ops@[i]),
            r.upload_sources@.len() == self.upload_sources@.len(),
            forall|i: int|
                0 <= i < r.upload_sources@.len() ==> upload_shown(
                    #[trigger] r.upload_sources@[i],
                    self.upload_sources@[i],
                ),
            r.device_copy_sources@.len() == self.device_copy_sources@.len(),
            forall|i: int|
                0 <= i < r.device_copy_sources@.len() ==> device_copy_shown(
                    #[trigger] r.device_copy_sources@[i],
                    self.device_copy_sources@[i],
                ),
            r.readback_sources@.len() == self.readback_sources@.len(),
            forall|i: int|
                0 <= i < r.readback_sources@.len() ==> readback_shown(
                    #[trigger] r.readback_sources@[i],
                    self.readback_sources@[i],
                ),
    {
        let mut stages: Vec<WebGpuStageDiagnostics> = Vec::new();
        let mut i: usize = 0;
        while i < self.stages.len()
            invariant
                i <= self.stages@.len(),
                stages@.len() == i,
                forall|k: int| 0 <= k < i ==> stage_shown(#[trigger] stages@[k], self.stages@[k]),
            decreases self.stages@.len() - i,
        {
            let st = &self.stages[i];
            stages.push(WebGpuStageDiagnostics {
                label: st.label.clone(),
                elapsed_us: st.elapsed_us,
                gpu_active: st.gpu_active,
            });
            i = i + 1;
        }
        let mut ops: Vec<WebGpuOpDiagnostics> = Vec::new();
        let mut i: usize = 0;
        while i < self.ops.len()
            invariant
                i <= self.ops@.len(),
                ops@.len() == i,
                forall|k: int| 0 <= k < i ==> op_shown(#[trigger] ops@[k], self.ops@[k]),
            decreases self.ops@.len() - i,
        {
            let (name, st) = self.ops[i];
            ops.push(WebGpuOpDiagnostics {
                name,
                gpu_dispatches: st.gpu_dispatches,
                cpu_mirrors: st.cpu_mirrors,
                cpu_fallbacks: st.cpu_fallbacks,
                cpu_only_ops: st.cpu_only_ops,
            });
            i = i + 1;
        }
        let mut upload_sources: Vec<WebGpuUploadDiagnostics> = Vec::new();
        let mut i: usize = 0;
        while i < self.upload_sources.len()
            invariant
                i <= self.upload_sources@.len(),
                upload_sources@.len() == i,
                forall|k: int| 0 <= k < i ==> upload_shown(#[trigger] upload_sources@[k], self.upload_sources@[k]),
            decreases self.upload_sources@.len() - i,
        {
            let (name, st) = self.upload_sources[i];
            upload_sources.push(WebGpuUploadDiagnostics {
                name,
                uploads: st.uploads,
                upload_bytes: st.upload_bytes,
            });
            i = i + 1;
        }
        let mut device_copy_sources: Vec<WebGpuDeviceCopyDiagnostics> = Vec::new();
        let mut i: usize = 0;
        while i < self.device_copy_sources.len()
            invariant
                i <= self.device_copy_sources@.len(),
                device_copy_sources@.len() == i,
                forall|k: int|
                    0 <= k < i ==> device_copy_shown(#[trigger] device_copy_sources@[k], self.device_copy_sources@[k]),
            decreases self.device_copy_sources@.len() - i,
        {
            let (name, st) = self.device_copy_sources[i];
            device_copy_sources.push(WebGpuDeviceCopyDiagnostics {
                name,
                device_copies: st.device_copies,
                device_copy_bytes: st.device_copy_bytes,
            });
            i = i + 1;
        }
        let mut readback_sources: Vec<WebGpuReadbackDiagnostics> = Vec::new();
        let mut i: usize = 0;
        while i < self.readback_sources.len()
            invariant
                i <= self.readback_sources@.len(),
                readback_sources@.len() == i,
                forall|k: int| 0 <= k < i ==> readback_shown(#[trigger] readback_sources@[k], self.readback_sources@[k]),
            decreases self.readback_sources@.len() - i,
        {
            let (name, st) = self.readback_sources[i];
            readback_sources.push(WebGpuReadbackDiagnostics {
                name,
                readbacks: st.readbacks,
                readback_bytes: st.readback_bytes,
            });
            i = i + 1;
        }
        WebGpuDiagnostics {
            buffers_allocated: self.counters.buffers_allocated,
            bytes_allocated: self.counters.bytes_allocated,
            host_to_gpu_uploads: self.counters.host_to_gpu_uploads,
            host_to_gpu_bytes: self.counters.host_to_gpu_bytes,
            device_copies: self.counters.device_copies,
            device_copy_bytes: self.counters.device_copy_bytes,
            readbacks: self.counters.readbacks,
            readback_bytes: self.counters.readback_bytes,
            bind_group_layout_creations: self.counters.bind_group_layout_creations,
            bind_group_layout_cache_hits: self.counters.bind_group_layout_cache_hits,
            bind_group_creations: self.counters.bind_group_creations,
            compute_pipeline_creations: self.counters.compute_pipeline_creations,
            compute_pipeline_cache_hits: self.counters.compute_pipeline_cache_hits,
            gpu_dispatches: self.counters.gpu_dispatches,
            raw_compute_dispatches: self.counters.raw_compute_dispatches,
            queue_submits: self.counters.queue_submits,
            cpu_mirrors: self.counters.cpu_mirrors,
            cpu_fallbacks: self.counters.cpu_fallbacks,
            cpu_only_ops: self.counters.cpu_only_ops,
            stages,
            ops,
            upload_sources,
            device_copy_sources,
            readback_sources,
        }
    }
}

/// The counters a table holds for `name`, if it has an entry for it.
pub open spec fn lookup<T>(t: Seq<(&'static str, T)>, name: &str) -> Option<T> {
    if has_name(t, name) {
        Some(t[choose|i: int| 0 <= i < t.len() && name_key(#[trigger] t[i].0) == name_key(name)].1)
    } else {
        None
    }
}

proof fn lemma_sorted_unique<T>(t: Seq<(&'static str, T)>, i: int, j: int)
    requires
        sorted_by_name(t),
        0 <= i < t.len(),
        0 <= j < t.len(),
        name_key(t[i].0) == name_key(t[j].0),
    ensures
        i == j,
{
    lemma_bytes_trichotomy(name_key(t[i].0), name_key(t[j].0));
    if i < j {
        assert(bytes_lt(name_key(t[i].0), name_key(t[j].0)));
    } else if j < i {
        assert(bytes_lt(name_key(t[j].0), name_key(t[i].0)));
    }
}

proof fn lemma_lookup_at<T>(t: Seq<(&'static str, T)>, name: &str, i: int)
    requires
        sorted_by_name(t),
        0 <= i < t.len(),
        name_key(t[i].0) == name_key(name),
    ensures
        lookup(t, name) == Some(t[i].1),
{
    assert(has_name(t, name));
    let j = choose|j: int| 0 <= j < t.len() && name_key(#[trigger] t[j].0) == name_key(name);
    lemma_sorted_unique(t, i, j);
}

/// A record on `name` changes that name's counters, and only them: the
/// table then holds `f` of what it held for `name` (of `fresh` where it
/// held nothing), and holds for every other name what it held before.
pub proof fn lemma_record_changes_only_its_name<T>(
    old: Seq<(&'static str, T)>,
    new: Seq<(&'static str, T)>,
    name: &'static str,
    fresh: T,
    f: spec_fn(T) -> T,
    other: &str,
)
    requires
        sorted_by_name(old),
        table_bumped(old, new, name, fresh, f),
    ensures
        lookup(new, name) == Some(
            f(
                match lookup(old, name) {
                    Some(s) => s,
                    None => fresh,
                },
            ),
        ),
        name_key(other) != name_key(name) ==> lookup(new, other) == lookup(old, other),
{
    if has_name(old, name) {
        let i = choose|i: int|
            0 <= i < old.len() && name_key(#[trigger] old[i].0) == name_key(name) && new == old.update(
                i,
                (old[i].0, f(old[i].1)),
            );
        lemma_lookup_at(old, name, i);
        lemma_lookup_at(new, name, i);
        if name_key(other) != name_key(name) {
            if has_name(old, other) {
                let j = choose|j: int| 0 <= j < old.len() && name_key(#[trigger] old[j].0) == name_key(other);
                assert(new[j] == old[j]);
                lemma_lookup_at(old, other, j);
                lemma_lookup_at(new, other, j);
            } else {
                assert forall|j: int| 0 <= j < new.len() implies name_key(#[trigger] new[j].0) != name_key(other) by {
                    assert(new[j].0 == old[j].0);
                }
            }
        }
    } else {
        let i = choose|i: int| 0 <= i <= old.len() && new == #[trigger] old.insert(i, (name, f(fresh)));
        assert(new[i] == (name, f(fresh)));
        lemma_lookup_at(new, name, i);
        if name_key(other) != name_key(name) {
            if has_name(old, other) {
                let j = choose|j: int| 0 <= j < old.len() && name_key(#[trigger] old[j].0) == name_key(other);
                let nj = if j < i { j } else { j + 1 };
                assert(new[nj] == old[j]);
                lemma_lookup_at(old, other, j);
                lemma_lookup_at(new, other, nj);
            } else {
                assert forall|j: int| 0 <= j < new.len() implies name_key(#[trigger] new[j].0) != name_key(other) by {
                    if j < i {
                        assert(new[j] == old[j]);
                    } else if j > i {
                        assert(new[j] == old[j - 1]);
                    }
                }
            }
        }
    }
}

/// What a table held for `name` before a record: its counters, or fresh
/// zero counters.
pub open spec fn op_stats_before(t: Seq<(&'static str, WebGpuOpStats)>, name: &str) -> WebGpuOpStats {
    match lookup(t, name) {
        Some(s) => s,
        None => zero_op_stats(),
    }
}

impl WebGpuDiagnosticsState {
    /// Records the outcome of an operation whose CPU result is kept as a
    /// mirror: a GPU dispatch and a CPU mirror when the GPU ran it, a CPU
    /// fallback otherwise.
    pub fn record_gpu_result_with_cpu_mirror(&mut self, name: &'static str, gpu_used: bool)
        requires
            old(self).wf(),
        ensures
            final(self).wf(),
            gpu_used ==> final(self).counters == (WebGpuCounters {
                gpu_dispatches: old(self).counters.gpu_dispatches.saturating_add(1),
                cpu_mirrors: old(self).counters.cpu_mirrors.saturating_add(1),
                ..old(self).counters
            }),
            gpu_used ==> lookup(final(self).ops@, name) == Some(
                bump_op(
                    bump_op(op_stats_before(old(self).ops@, name), WebGpuOpCounter::GpuDispatch),
                    WebGpuOpCounter::CpuMirror,
                ),
            ),
            !gpu_used ==> final(self).counters == (WebGpuCounters {
                cpu_fallbacks: old(self).counters.cpu_fallbacks.saturating_add(1),
                ..old(self).counters
            }),
            !gpu_used ==> lookup(final(self).ops@, name) == Some(
                bump_op(op_stats_before(old(self).ops@, name), WebGpuOpCounter::CpuFallback),
            ),
            forall|other: &str|
                name_key(other) != name_key(name) ==> #[trigger] lookup(final(self).ops@, other) == lookup(
                    old(self).ops@,
                    other,
                ),
            final(self).stages@ == old(self).stages@,
            final(self).upload_sources@ == old(self).upload_sources@,
            final(self).device_copy_sources@ == old(self).device_copy_sources@,
            final(self).readback_sources@ == old(self).readback_sources@,
    {
        let ghost t0 = self.ops@;
        if gpu_used {
            self.record_gpu_dispatch(name);
            let ghost t1 = self.ops@;
            self.record_cpu_mirror(name);
            proof {
                lemma_record_changes_only_its_name(t0, t1, name, zero_op_stats(), op_bump(WebGpuOpCounter::GpuDispatch), name);
                lemma_record_changes_only_its_name(t1, self.ops@, name, zero_op_stats(), op_bump(WebGpuOpCounter::CpuMirror), name);
                assert forall|other: &str| name_key(other) != name_key(name) implies #[trigger] lookup(
                    self.ops@,
                    other,
                ) == lookup(t0, other) by {
                    lemma_record_changes_only_its_name(t0, t1, name, zero_op_stats(), op_bump(WebGpuOpCounter::GpuDispatch), other);
                    lemma_record_changes_only_its_name(t1, self.ops@, name, zero_op_stats(), op_bump(WebGpuOpCounter::CpuMirror), other);
                }
            }
        } else {
            self.record_cpu_fallback(name);
            proof {
                lemma_record_changes_only_its_name(t0, self.ops@, name, zero_op_stats(), op_bump(WebGpuOpCounter::CpuFallback), name);
                assert forall|other: &str| name_key(other) != name_key(name) implies #[trigger] lookup(
                    self.ops@,
                    other,
                ) == lookup(t0, other) by {
                    lemma_record_changes_only_its_name(t0, self.ops@, name, zero_op_stats(), op_bump(WebGpuOpCounter::CpuFallback), other);
                }
            }
        }
    }

    /// Records the outcome of an operation whose GPU result is
    /// authoritative: a GPU dispatch when the GPU ran it, a CPU fallback
    /// otherwise.
    pub fn record_gpu_result_authoritative(&mut self, name: &'static str, gpu_used: bool)
        requires
            old(self).wf(),
        ensures
            final(self).wf(),
            gpu_used ==> final(self).counters == (WebGpuCounters {
                gpu_dispatches: old(self).counters.gpu_dispatches.saturating_add(1),
                ..old(self).counters
            }),
            gpu_used ==> lookup(final(self).ops@, name) == Some(
                bump_op(op_stats_before(old(self).ops@, name), WebGpuOpCounter::GpuDispatch),
            ),
            !gpu_used ==> final(self).counters == (WebGpuCounters {
                cpu_fallbacks: old(self).counters.cpu_fallbacks.saturating_add(1),
                ..old(self).counters
            }),
            !gpu_used ==> lookup(final(self).ops@, name) == Some(
                bump_op(op_stats_before(old(self).ops@, name), WebGpuOpCounter::CpuFallback),
            ),
            forall|other: &str|
                name_key(other) != name_key(name) ==> #[trigger] lookup(final(self).ops@, other) == lookup(
                    old(self).ops@,
                    other,
                ),
            final(self).stages@ == old(self).stages@,
            final(self).upload_sources@ == old(self).upload_sources@,
            final(self).device_copy_sources@ == old(self).device_copy_sources@,
            final(self).readback_sources@ == old(self).readback_sources@,
    {
        let ghost t0 = self.ops@;
        let c = if gpu_used {
            self.record_gpu_dispatch(name);
            WebGpuOpCounter::GpuDispatch
        } else {
            self.record_cpu_fallback(name);
            WebGpuOpCounter::CpuFallback
        };
        proof {
            lemma_record_changes_only_its_name(t0, self.ops@, name, zero_op_stats(), op_bump(c), name);
            assert forall|other: &str| name_key(other) != name_key(name) implies #[trigger] lookup(
                self.ops@,
                other,
            ) == lookup(t0, other) by {
                lemma_record_changes_only_its_name(t0, self.ops@, name, zero_op_stats(), op_bump(c), other);
            }
        }
    }
}

/// Which buffer holds an operation's result once it is finished.
#[derive(Clone, Copy, Debug, PartialEq, Eq, Structural)]
pub enum HalOpOutcome {
    /// The GPU result stands: the output's GPU copy is current.
    GpuResult,
    /// The CPU mirror is run and its result stands (`gpu_used`: the GPU
    /// also ran the operation).
    CpuResult { gpu_used: bool },
}

impl WebGpuDiagnosticsState {
    /// Finishes operation `name`: when the GPU ran it and its result is
    /// authoritative, the GPU result stands and a GPU dispatch is recorded;
    /// otherwise the CPU mirror stands and the outcome is recorded as
    /// mirrored (GPU dispatch and CPU mirror) or as a CPU fallback.
    pub fn finish_hal_op(&mut self, name: &'static str, gpu_used: bool, gpu_authoritative: bool) -> (r:
        HalOpOutcome)
        requires
            old(self).wf(),
        ensures
            r == if gpu_authoritative && gpu_used {
                HalOpOutcome::GpuResult
            } else {
                HalOpOutcome::CpuResult { gpu_used }
            },
            final(self).wf(),
            final(self).counters == if !gpu_used {
                WebGpuCounters { cpu_fallbacks: old(self).counters.cpu_fallbacks.saturating_add(1), ..old(self).counters }
            } else if gpu_authoritative {
                WebGpuCounters { gpu_dispatches: old(self).counters.gpu_dispatches.saturating_add(1), ..old(self).counters }
            } else {
                WebGpuCounters {
                    gpu_dispatches: old(self).counters.gpu_dispatches.saturating_add(1),
                    cpu_mirrors: old(self).counters.cpu_mirrors.saturating_add(1),
                    ..old(self).counters
                }
            },
            lookup(final(self).ops@, name) == Some(
                if !gpu_used {
                    bump_op(op_stats_before(old(self).ops@, name), WebGpuOpCounter::CpuFallback)
                } else if gpu_authoritative {
                    bump_op(op_stats_before(old(self).ops@, name), WebGpuOpCounter::GpuDispatch)
                } else {
                    bump_op(
                        bump_op(op_stats_before(old(self).ops@, name), WebGpuOpCounter::GpuDispatch),
                        WebGpuOpCounter::CpuMirror,
                    )
                },
            ),
            forall|other: &str|
                name_key(other) != name_key(name) ==> #[trigger] lookup(final(self).ops@, other) == lookup(
                    old(self).ops@,
                    other,
                ),
            final(self).stages@ == old(self).stages@,
            final(self).upload_sources@ == old(self).upload_sources@,
            final(self).device_copy_sources@ == old(self).device_copy_sources@,
            final(self).readback_sources@ == old(self).readback_sources@,
    {
        if gpu_authoritative && gpu_used {
            self.record_gpu_result_authoritative(name, gpu_used);
            HalOpOutcome::GpuResult
        } else {
            self.record_gpu_result_with_cpu_mirror(name, gpu_used);
            HalOpOutcome::CpuResult { gpu_used }
        }
    }
}

/// The sum of `g` over the entries of a table.
pub open spec fn table_sum<T>(t: Seq<(&'static str, T)>, g: spec_fn(T) -> int) -> int
    decreases t.len(),
{
    if t.len() == 0 {
        0
    } else {
        table_sum(t.drop_last(), g) + g(t.last().1)
    }
}

proof fn lemma_table_sum_update<T>(t: Seq<(&'static str, T)>, i: int, e: (&'static str, T), g: spec_fn(T) -> int)
    requires
        0 <= i < t.len(),
    ensures
        table_sum(t.update(i, e), g) == table_sum(t, g) - g(t[i].1) + g(e.1),
    decreases t.len(),
{
    let u = t.update(i, e);
    if i == t.len() - 1 {
        assert(u.drop_last() =~= t.drop_last());
    } else {
        assert(u.drop_last() =~= t.drop_last().update(i, e));
        lemma_table_sum_update(t.drop_last(), i, e, g);
    }
}

proof fn lemma_table_sum_insert<T>(t: Seq<(&'static str, T)>, i: int, e: (&'static str, T), g: spec_fn(T) -> int)
    requires
        0 <= i <= t.len(),
    ensures
        table_sum(t.insert(i, e), g) == table_sum(t, g) + g(e.1),
    decreases t.len(),
{
    let u = t.insert(i, e);
    if i == t.len() {
        assert(u.drop_last() =~= t);
    } else {
        assert(u.drop_last() =~= t.drop_last().insert(i, e));
        lemma_table_sum_insert(t.drop_last(), i, e, g);
    }
}

proof fn lemma_table_sum_ge<T>(t: Seq<(&'static str, T)>, i: int, g: spec_fn(T) -> int)
    requires
        0 <= i < t.len(),
        forall|x: T| #[trigger] g(x) >= 0,
    ensures
        table_sum(t, g) >= g(t[i].1),
        table_sum(t, g) >= 0,
    decreases t.len(),
{
    assert(g(t.last().1) >= 0);
    assert(table_sum(t, g) == table_sum(t.drop_last(), g) + g(t.last().1));
    if i == t.len() - 1 {
        assert(t[i] == t.last());
    }
    if i < t.len() - 1 {
        lemma_table_sum_ge(t.drop_last(), i, g);
        assert(t.drop_last()[i] == t[i]);
    } else if t.len() > 1 {
        lemma_table_sum_ge(t.drop_last(), 0, g);
    } else {
        assert(t.drop_last().len() == 0);
        assert(table_sum(t.drop_last(), g) == 0);
    }
}

/// The counters a record on `name` starts from: the name's entry, or
/// `fresh` where the table has none.
pub open spec fn current<T>(t: Seq<(&'static str, T)>, name: &str, fresh: T) -> T {
    match lookup(t, name) {
        Some(s) => s,
        None => fresh,
    }
}

/// A record on `name` changes a table's sum of `g` by what it changes that
/// name's entry by.
pub proof fn lemma_record_adds_to_sum<T>(
    old: Seq<(&'static str, T)>,
    new: Seq<(&'static str, T)>,
    name: &'static str,
    fresh: T,
    f: spec_fn(T) -> T,
    g: spec_fn(T) -> int,
)
    requires
        sorted_by_name(old),
        table_bumped(old, new, name, fresh, f),
        g(fresh) == 0,
        forall|x: T| #[trigger] g(x) >= 0,
    ensures
        table_sum(new, g) == table_sum(old, g) - g(current(old, name, fresh)) + g(f(current(old, name, fresh))),
        table_sum(old, g) >= g(current(old, name, fresh)),
{
    if has_name(old, name) {
        let i = choose|i: int|
            0 <= i < old.len() && name_key(#[trigger] old[i].0) == name_key(name) && new == old.update(
                i,
                (old[i].0, f(old[i].1)),
            );
        lemma_lookup_at(old, name, i);
        lemma_table_sum_update(old, i, (old[i].0, f(old[i].1)), g);
        lemma_table_sum_ge(old, i, g);
    } else {
        let i = choose|i: int| 0 <= i <= old.len() && new == #[trigger] old.insert(i, (name, f(fresh)));
        lemma_table_sum_insert(old, i, (name, f(fresh)), g);
        if old.len() > 0 {
            lemma_table_sum_ge(old, 0, g);
        }
    }
}

/// The upload totals are the sums over the upload sources.
pub open spec fn upload_totals_match(s: &WebGpuDiagnosticsState) -> bool {
    &&& s.counters.host_to_gpu_uploads == table_sum(s.upload_sources@, |x: WebGpuUploadStats| x.uploads as int)
    &&& s.counters.host_to_gpu_bytes == table_sum(s.upload_sources@, |x: WebGpuUploadStats| x.upload_bytes as int)
}

/// Totals track sources: when the upload totals are the sums over the
/// upload sources, they still are after `record_upload` (as its contract
/// states it), unless a total saturates.
pub proof fn lemma_upload_totals_track_sources(
    old: &WebGpuDiagnosticsState,
    new: &WebGpuDiagnosticsState,
    name: &'static str,
    byte_len: u64,
)
    requires
        old.wf(),
        upload_totals_match(old),
        old.counters.host_to_gpu_uploads < u64::MAX,
        old.counters.host_to_gpu_bytes + byte_len <= u64::MAX,
        new.counters == (WebGpuCounters {
            host_to_gpu_uploads: old.counters.host_to_gpu_uploads.saturating_add(1),
            host_to_gpu_bytes: old.counters.host_to_gpu_bytes.saturating_add(byte_len),
            ..old.counters
        }),
        table_bumped(old.upload_sources@, new.upload_sources@, name, zero_upload_stats(), upload_bump(byte_len)),
    ensures
        upload_totals_match(new),
{
    let gc = |x: WebGpuUploadStats| x.uploads as int;
    let gb = |x: WebGpuUploadStats| x.upload_bytes as int;
    let f = upload_bump(byte_len);
    lemma_record_adds_to_sum(old.upload_sources@, new.upload_sources@, name, zero_upload_stats(), f, gc);
    lemma_record_adds_to_sum(old.upload_sources@, new.upload_sources@, name, zero_upload_stats(), f, gb);
    let cur = current(old.upload_sources@, name, zero_upload_stats());
    assert(f(cur).uploads == cur.uploads + 1);
    assert(f(cur).upload_bytes == cur.upload_bytes + byte_len);
}

/// The device-copy totals are the sums over the device-copy targets.
pub open spec fn device_copy_totals_match(s: &WebGpuDiagnosticsState) -> bool {
    &&& s.counters.device_copies == table_sum(
        s.device_copy_sources@,
        |x: WebGpuDeviceCopyStats| x.device_copies as int,
    )
    &&& s.counters.device_copy_bytes == table_sum(
        s.device_copy_sources@,
        |x: WebGpuDeviceCopyStats| x.device_copy_bytes as int,
    )
}

/// Totals track targets: when the device-copy totals are the sums over the
/// targets, they still are after `record_device_copy`, unless a total
/// saturates.
pub proof fn lemma_device_copy_totals_track_sources(
    old: &WebGpuDiagnosticsState,
    new: &WebGpuDiagnosticsState,
    name: &'static str,
    byte_len: u64,
)
    requires
        old.wf(),
        device_copy_totals_match(old),
        old.counters.device_copies < u64::MAX,
        old.counters.device_copy_bytes + byte_len <= u64::MAX,
        new.counters == (WebGpuCounters {
            device_copies: old.counters.device_copies.saturating_add(1),
            device_copy_bytes: old.counters.device_copy_bytes.saturating_add(byte_len),
            ..old.counters
        }),
        table_bumped(
            old.device_copy_sources@,
            new.device_copy_sources@,
            name,
            zero_device_copy_stats(),
            device_copy_bump(byte_len),
        ),
    ensures
        device_copy_totals_match(new),
{
    let gc = |x: WebGpuDeviceCopyStats| x.device_copies as int;
    let gb = |x: WebGpuDeviceCopyStats| x.device_copy_bytes as int;
    let f = device_copy_bump(byte_len);
    lemma_record_adds_to_sum(old.device_copy_sources@, new.device_copy_sources@, name, zero_device_copy_stats(), f, gc);
    lemma_record_adds_to_sum(old.device_copy_sources@, new.device_copy_sources@, name, zero_device_copy_stats(), f, gb);
    let cur = current(old.device_copy_sources@, name, zero_device_copy_stats());
    assert(f(cur).device_copies == cur.device_copies + 1);
    assert(f(cur).device_copy_bytes == cur.device_copy_bytes + byte_len);
}

/// The readback totals are the sums over the readback sources.
pub open spec fn readback_totals_match(s: &WebGpuDiagnosticsState) -> bool {
    &&& s.counters.readbacks == table_sum(s.readback_sources@, |x: WebGpuReadbackStats| x.readbacks as int)
    &&& s.counters.readback_bytes == table_sum(
        s.readback_sources@,
        |x: WebGpuReadbackStats| x.readback_bytes as int,
    )
}

/// Totals track sources: when the readback totals are the sums over the
/// readback sources, they still are after `record_readback`, unless a
/// total saturates.
pub proof fn lemma_readback_totals_track_sources(
    old: &WebGpuDiagnosticsState,
    new: &WebGpuDiagnosticsState,
    name: &'static str,
    byte_len: u64,
)
    requires
        old.wf(),
        readback_totals_match(old),
        old.counters.readbacks < u64::MAX,
        old.counters.readback_bytes + byte_len <= u64::MAX,
        new.counters == (WebGpuCounters {
            readbacks: old.counters.readbacks.saturating_add(1),
            readback_bytes: old.counters.readback_bytes.saturating_add(byte_len),
            ..old.counters
        }),
        table_bumped(old.readback_sources@, new.readback_sources@, name, zero_readback_stats(), readback_bump(byte_len)),
    ensures
        readback_totals_match(new),
{
    let gc = |x: WebGpuReadbackStats| x.readbacks as int;
    let gb = |x: WebGpuReadbackStats| x.readback_bytes as int;
    let f = readback_bump(byte_len);
    lemma_record_adds_to_sum(old.readback_sources@, new.readback_sources@, name, zero_readback_stats(), f, gc);
    lemma_record_adds_to_sum(old.readback_sources@, new.readback_sources@, name, zero_readback_stats(), f, gb);
    let cur = current(old.readback_sources@, name, zero_readback_stats());
    assert(f(cur).readbacks == cur.readbacks + 1);
    assert(f(cur).readback_bytes == cur.readback_bytes + byte_len);
}

} // verus!
