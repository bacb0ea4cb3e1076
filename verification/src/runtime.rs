//! Per-thread runtime switches of the WebGPU backend, the decisions of the
//! web-worker pool start-up, and the text of its console metric lines.

use vstd::prelude::*;
use crate::text::{decimal, push_decimal};

verus! {

/// How far the web-worker thread pool got.
#[derive(Clone, Copy, Debug, PartialEq, Eq, Structural)]
pub enum WasmThreadPoolState {
    Uninit,
    Ready,
    Failed,
}

/// The backend's per-thread switches and counters.
#[derive(Clone, Copy, Debug, PartialEq, Eq, Structural)]
pub struct WebGpuRuntimeFlags {
    pub poly_group_drain_diagnostic_enabled: bool,
    pub combos_divide_parallel_enabled: bool,
    pub combos_divide_parallel_dispatches: u64,
    pub wasm_thread_pool_workers: usize,
    pub wasm_thread_pool_state: WasmThreadPoolState,
}

/// Worker count used when the browser does not report its hardware
/// concurrency, and the most workers ever started automatically.
pub const WASM_THREAD_POOL_MAX_AUTO_WORKERS: usize = 8;

/// Smallest CPU shadow materialization, in bytes, that is logged.
pub const CPU_SHADOW_LOG_MIN_BYTES: usize = 1048576;

impl WebGpuRuntimeFlags {
    /// The start-up state: drain diagnostics off, parallel `combos_divide`
    /// on, no dispatch counted, automatic pool size, pool not started.
    pub fn new() -> (f: Self)
        ensures
            !f.poly_group_drain_diagnostic_enabled,
            f.combos_divide_parallel_enabled,
            f.combos_divide_parallel_dispatches == 0,
            f.wasm_thread_pool_workers == 0,
            f.wasm_thread_pool_state == WasmThreadPoolState::Uninit,
    {
        WebGpuRuntimeFlags {
            poly_group_drain_diagnostic_enabled: false,
            combos_divide_parallel_enabled: true,
            combos_divide_parallel_dispatches: 0,
            wasm_thread_pool_workers: 0,
            wasm_thread_pool_state: WasmThreadPoolState::Uninit,
        }
    }
}

/// Enables or disables explicit queue-drain diagnostics around PolyGroup and
/// Merkle construction stages (default off: the waits perturb wall time).
pub fn set_poly_group_drain_diagnostic_enabled(flags: &mut WebGpuRuntimeFlags, enabled: bool)
    ensures
        *final(flags) == (WebGpuRuntimeFlags { poly_group_drain_diagnostic_enabled: enabled, ..*old(flags) }),
{
    flags.poly_group_drain_diagnostic_enabled = enabled;
}

pub fn poly_group_drain_diagnostic_enabled(flags: &WebGpuRuntimeFlags) -> (b: bool)
    ensures
        b == flags.poly_group_drain_diagnostic_enabled,
{
    flags.poly_group_drain_diagnostic_enabled
}

/// Enables or disables the parallel-scan `combos_divide` implementation
/// (default on; off falls back to the sequential kernel).
pub fn set_combos_divide_parallel_enabled(flags: &mut WebGpuRuntimeFlags, enabled: bool)
    ensures
        *final(flags) == (WebGpuRuntimeFlags { combos_divide_parallel_enabled: enabled, ..*old(flags) }),
{
    flags.combos_divide_parallel_enabled = enabled;
}

pub fn combos_divide_parallel_enabled(flags: &WebGpuRuntimeFlags) -> (b: bool)
    ensures
        b == flags.combos_divide_parallel_enabled,
{
    flags.combos_divide_parallel_enabled
}

/// Number of `combos_divide` calls that took the parallel-scan path.
pub fn combos_divide_parallel_dispatches(flags: &WebGpuRuntimeFlags) -> (n: u64)
    ensures
        n == flags.combos_divide_parallel_dispatches,
{
    flags.combos_divide_parallel_dispatches
}

/// The switches after one more parallel-scan `combos_divide` call is
/// counted.
pub open spec fn dispatch_recorded(f: WebGpuRuntimeFlags) -> WebGpuRuntimeFlags {
    WebGpuRuntimeFlags { combos_divide_parallel_dispatches: (f.combos_divide_parallel_dispatches + 1) as u64, ..f }
}

/// The switches after `k` more calls are counted.
pub open spec fn dispatches_recorded(f: WebGpuRuntimeFlags, k: nat) -> WebGpuRuntimeFlags
    decreases k,
{
    if k == 0 {
        f
    } else {
        dispatch_recorded(dispatches_recorded(f, (k - 1) as nat))
    }
}

/// Counts one more parallel-scan `combos_divide` call.
pub fn record_combos_divide_parallel_dispatch(flags: &mut WebGpuRuntimeFlags)
    requires
        old(flags).combos_divide_parallel_dispatches < u64::MAX,
    ensures
        *final(flags) == dispatch_recorded(*old(flags)),
{
    flags.combos_divide_parallel_dispatches = flags.combos_divide_parallel_dispatches + 1;
}

/// After `k` counted calls the dispatch count is its start value plus `k`,
/// and no other switch has changed.
pub proof fn lemma_dispatch_count(f: WebGpuRuntimeFlags, k: nat)
    requires
        f.combos_divide_parallel_dispatches + k <= u64::MAX,
    ensures
        dispatches_recorded(f, k) == (WebGpuRuntimeFlags {
            combos_divide_parallel_dispatches: (f.combos_divide_parallel_dispatches + k) as u64,
            ..f
        }),
    decreases k,
{
    if k > 0 {
        lemma_dispatch_count(f, (k - 1) as nat);
    }
}

/// Overrides the web-worker pool size (0 = automatic). Takes effect only
/// before the pool is started.
pub fn set_wasm_thread_pool_workers(flags: &mut WebGpuRuntimeFlags, workers: usize)
    ensures
        *final(flags) == (WebGpuRuntimeFlags { wasm_thread_pool_workers: workers, ..*old(flags) }),
{
    flags.wasm_thread_pool_workers = workers;
}

/// The pool size for a configured size and the browser's reported hardware
/// concurrency (0 when unknown).
pub open spec fn pool_workers(configured: usize, hardware_concurrency: usize) -> usize {
    if configured != 0 {
        configured
    } else if hardware_concurrency == 0 {
        WASM_THREAD_POOL_MAX_AUTO_WORKERS
    } else if hardware_concurrency < WASM_THREAD_POOL_MAX_AUTO_WORKERS {
        hardware_concurrency
    } else {
        WASM_THREAD_POOL_MAX_AUTO_WORKERS
    }
}

/// Decides whether the web-worker pool is to be started now, and with how
/// many workers: `None` once a start has been attempted, successful or not.
pub fn ensure_wasm_thread_pool(flags: &WebGpuRuntimeFlags, hardware_concurrency: usize) -> (r: Option<usize>)
    ensures
        flags.wasm_thread_pool_state != WasmThreadPoolState::Uninit ==> r is None,
        flags.wasm_thread_pool_state == WasmThreadPoolState::Uninit ==> r == Some(
            pool_workers(flags.wasm_thread_pool_workers, hardware_concurrency),
        ),
        flags.wasm_thread_pool_workers == 0 && r is Some ==> 0 < r->Some_0 <= WASM_THREAD_POOL_MAX_AUTO_WORKERS,
{
    if flags.wasm_thread_pool_state != WasmThreadPoolState::Uninit {
        return None;
    }
    let configured = flags.wasm_thread_pool_workers;
    let workers = if configured == 0 {
        if hardware_concurrency == 0 {
            WASM_THREAD_POOL_MAX_AUTO_WORKERS
        } else if hardware_concurrency < WASM_THREAD_POOL_MAX_AUTO_WORKERS {
            hardware_concurrency
        } else {
            WASM_THREAD_POOL_MAX_AUTO_WORKERS
        }
    } else {
        configured
    };
    Some(workers)
}

/// Records how the pool start ended.
pub fn finish_wasm_thread_pool(flags: &mut WebGpuRuntimeFlags, started: bool)
    ensures
        *final(flags) == (WebGpuRuntimeFlags {
            wasm_thread_pool_state: if started {
                WasmThreadPoolState::Ready
            } else {
                WasmThreadPoolState::Failed
            },
            ..*old(flags)
        }),
{
    flags.wasm_thread_pool_state = if started {
        WasmThreadPoolState::Ready
    } else {
        WasmThreadPoolState::Failed
    };
}

/// The console line a metric message is logged as.
pub fn log_webgpu_metric(message: &str) -> (line: String)
    ensures
        line@ == "browser-prove:metric "@ + message@,
{
    let mut line = String::from_str("browser-prove:metric ");
    line.append(message);
    line
}

/// The metric line logged for a CPU shadow materialization of `bytes`
/// bytes of buffer `name`: only those of at least 1 MiB are logged.
pub fn log_cpu_shadow_materialize(name: &str, bytes: usize) -> (line: Option<String>)
    ensures
        bytes < CPU_SHADOW_LOG_MIN_BYTES ==> line is None,
        bytes >= CPU_SHADOW_LOG_MIN_BYTES ==> line is Some && line->Some_0@ == "browser-prove:metric "@
            + "cpu_shadow_materialize name="@ + name@ + " bytes="@ + decimal(bytes as nat),
{
    if bytes < CPU_SHADOW_LOG_MIN_BYTES {
        return None;
    }
    let mut message = String::from_str("cpu_shadow_materialize name=");
    message.append(name);
    message.append(" bytes=");
    push_decimal(&mut message, bytes as u64);
    let line = log_webgpu_metric(message.as_str());
    proof {
        assert(line@ =~= "browser-prove:metric "@ + "cpu_shadow_materialize name="@ + name@ + " bytes="@
            + decimal(bytes as nat));
    }
    Some(line)
}

} // verus!
