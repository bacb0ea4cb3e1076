//! Which shader path evaluates a check polynomial on the GPU, and what the
//! global buffers must hold for it.

use vstd::prelude::*;
use super::tape::PolyExtStep;
use super::split::WEBGPU_EVAL_CHECK_MAX_POLY_EXT_STEPS;
use super::hybrid::WEBGPU_EVAL_CHECK_BASE_PRIVATE_MAX_FP_SLOTS;
use super::powers::INV_RATE;
use crate::batch_evaluate::EXT_WORDS;

verus! {

/// Fewest steps a polynomial needs before the staged shader is tried.
pub const STAGED_EVAL_CHECK_MIN_BLOCK_OPS: usize = 8000;

/// Whether large polynomials may be split into chunks of terms.
pub const WEBGPU_EVAL_CHECK_ENABLE_SPLIT: bool = false;

/// The fewest words global buffer `a` must hold for the `GetGlobal` steps
/// of `s`: one past the largest offset read from it.
pub open spec fn min_global_size(s: Seq<PolyExtStep>, a: usize) -> nat
    decreases s.len(),
{
    if s.len() == 0 {
        0
    } else {
        let prev = min_global_size(s.drop_last(), a);
        match s.last() {
            PolyExtStep::GetGlobal(arg, off) => if arg == a && off + 1 > prev {
                (off + 1) as nat
            } else {
                prev
            },
            _ => prev,
        }
    }
}

/// Every `GetGlobal` step of `s` reads one of the two global buffers.
pub open spec fn globals_in_range(s: Seq<PolyExtStep>) -> bool {
    forall|k: int| 0 <= k < s.len() ==> match #[trigger] s[k] {
        PolyExtStep::GetGlobal(arg, _) => arg < 2,
        _ => true,
    }
}

/// The fewest words each of the two global buffers must hold for `block`,
/// or `None` when a step reads a third global buffer.
pub fn eval_check_min_global_sizes(block: &[PolyExtStep]) -> (r: Option<(usize, usize)>)
    requires
        forall|k: int| 0 <= k < block@.len() ==> match #[trigger] block@[k] {
            PolyExtStep::GetGlobal(arg, off) => arg < 2 ==> off < usize::MAX,
            _ => true,
        },
    ensures
        r is None <==> !globals_in_range(block@),
        r matches Some(m) ==> m.0 == min_global_size(block@, 0) && m.1 == min_global_size(block@, 1),
{
    let mut m0: usize = 0;
    let mut m1: usize = 0;
    let mut i: usize = 0;
    assert(block@.take(0) =~= Seq::<PolyExtStep>::empty());
    while i < block.len()
        invariant
            i <= block@.len(),
            forall|k: int| 0 <= k < block@.len() ==> match #[trigger] block@[k] {
                PolyExtStep::GetGlobal(arg, off) => arg < 2 ==> off < usize::MAX,
                _ => true,
            },
            globals_in_range(block@.take(i as int)),
            m0 == min_global_size(block@.take(i as int), 0),
            m1 == min_global_size(block@.take(i as int), 1),
        decreases block@.len() - i,
    {
        let ghost t = block@.take(i + 1);
        proof {
            assert(t.drop_last() =~= block@.take(i as int));
            assert(t.last() == block@[i as int]);
        }
        match block[i] {
            PolyExtStep::GetGlobal(arg, off) => {
                if arg >= 2 {
                    assert(!globals_in_range(block@)) by {
                        assert(block@[i as int] == block[i as int]);
                    }
                    return None;
                }
                if arg == 0 {
                    if off + 1 > m0 {
                        m0 = off + 1;
                    }
                } else {
                    if off + 1 > m1 {
                        m1 = off + 1;
                    }
                }
            },
            _ => {},
        }
        proof {
            assert forall|k: int| 0 <= k < t.len() implies match #[trigger] t[k] {
                PolyExtStep::GetGlobal(arg, _) => arg < 2,
                _ => true,
            } by {
                if k < i {
                    assert(t[k] == block@.take(i as int)[k]);
                }
            }
        }
        i = i + 1;
    }
    assert(block@.take(block@.len() as int) =~= block@);
    Some((m0, m1))
}

/// A shader path for a check polynomial.
#[derive(Clone, Copy, Debug, PartialEq, Eq)]
pub enum EvalCheckPath {
    /// The staged shader.
    Staged,
    /// One shader per chunk of terms.
    Split,
    /// The instruction interpreter, run once per group chunk (`base`: the
    /// base-field interpreter).
    GroupChunks { base: bool },
    /// The instruction interpreter in one dispatch (`base`: the base-field
    /// interpreter).
    Interpreted { base: bool },
    /// The slotted shader compiled for the polynomial.
    Unrolled,
}

/// The paths to try, in order: each of `fallbacks` gives way to the next
/// path when it cannot run or fails; the result of `last` is final, and
/// when there is none the polynomial is left to the CPU.
pub struct EvalCheckRoute {
    pub fallbacks: Vec<EvalCheckPath>,
    pub last: Option<EvalCheckPath>,
}

/// The interpreter in one dispatch when every group binds, else one
/// dispatch per group chunk.
pub open spec fn interpreter_path(all_bind: bool, base: bool) -> EvalCheckPath {
    if all_bind {
        EvalCheckPath::Interpreted { base }
    } else {
        EvalCheckPath::GroupChunks { base }
    }
}

/// The route for a polynomial of `block_len` steps: `staged` whether the
/// staged shader is enabled, `all_bind` whether every group buffer can be
/// bound at once, `base_fp_slots` the fp slots of the base-field
/// interpreter program when it can be built, `interpreter_fits` whether the
/// extension-field interpreter program can be built.
pub open spec fn route_spec(
    block_len: usize,
    staged: bool,
    all_bind: bool,
    base_fp_slots: Option<usize>,
    interpreter_fits: bool,
) -> (Seq<EvalCheckPath>, Option<EvalCheckPath>) {
    let pre = if staged && block_len >= STAGED_EVAL_CHECK_MIN_BLOCK_OPS && all_bind {
        seq![EvalCheckPath::Staged]
    } else {
        Seq::empty()
    };
    if block_len > WEBGPU_EVAL_CHECK_MAX_POLY_EXT_STEPS {
        match base_fp_slots {
            Some(slots) => {
                let split = WEBGPU_EVAL_CHECK_ENABLE_SPLIT && slots > WEBGPU_EVAL_CHECK_BASE_PRIVATE_MAX_FP_SLOTS
                    && all_bind;
                (
                    if split {
                        pre.push(EvalCheckPath::Split)
                    } else {
                        pre
                    },
                    Some(interpreter_path(all_bind, true)),
                )
            },
            None => if interpreter_fits {
                (pre, Some(interpreter_path(all_bind, false)))
            } else if WEBGPU_EVAL_CHECK_ENABLE_SPLIT && all_bind {
                (pre, Some(EvalCheckPath::Split))
            } else {
                (pre, None)
            },
        }
    } else if all_bind {
        (pre, Some(EvalCheckPath::Unrolled))
    } else {
        (pre, None)
    }
}

fn interpreter_path_of(all_bind: bool, base: bool) -> (p: EvalCheckPath)
    ensures
        p == interpreter_path(all_bind, base),
{
    if all_bind {
        EvalCheckPath::Interpreted { base }
    } else {
        EvalCheckPath::GroupChunks { base }
    }
}

/// Chooses the shader paths for a check polynomial of `block_len` steps
/// (see `route_spec`).
pub fn eval_check_route(
    block_len: usize,
    staged: bool,
    all_bind: bool,
    base_fp_slots: Option<usize>,
    interpreter_fits: bool,
) -> (r: EvalCheckRoute)
    ensures
        (r.fallbacks@, r.last) == route_spec(block_len, staged, all_bind, base_fp_slots, interpreter_fits),
{
    let mut fallbacks: Vec<EvalCheckPath> = Vec::new();
    if staged && block_len >= STAGED_EVAL_CHECK_MIN_BLOCK_OPS && all_bind {
        fallbacks.push(EvalCheckPath::Staged);
    }
    let last = if block_len > WEBGPU_EVAL_CHECK_MAX_POLY_EXT_STEPS {
        match base_fp_slots {
            Some(slots) => {
                if WEBGPU_EVAL_CHECK_ENABLE_SPLIT && slots > WEBGPU_EVAL_CHECK_BASE_PRIVATE_MAX_FP_SLOTS && all_bind {
                    fallbacks.push(EvalCheckPath::Split);
                }
                Some(interpreter_path_of(all_bind, true))
            },
            None => {
                if interpreter_fits {
                    Some(interpreter_path_of(all_bind, false))
                } else if WEBGPU_EVAL_CHECK_ENABLE_SPLIT && all_bind {
                    Some(EvalCheckPath::Split)
                } else {
                    None
                }
            },
        }
    } else if all_bind {
        Some(EvalCheckPath::Unrolled)
    } else {
        None
    };
    let r = EvalCheckRoute { fallbacks, last };
    assert(r.fallbacks@ =~= route_spec(block_len, staged, all_bind, base_fp_slots, interpreter_fits).0);
    r
}

/// What the opening checks of a GPU check-polynomial evaluation decide.
#[derive(Clone, Copy, Debug, PartialEq, Eq)]
pub enum EvalCheckGuard {
    /// The GPU path does not apply; the CPU evaluates the polynomial.
    Declined,
    /// The domain is empty: nothing to evaluate.
    NothingToDo,
    /// The GPU evaluates the polynomial over `domain` rows.
    Proceed { domain: usize },
}

/// Why the inputs of a GPU check-polynomial evaluation are inconsistent.
#[derive(Clone, Copy, Debug, PartialEq, Eq)]
pub enum EvalCheckGuardError {
    /// The evaluation domain overflows.
    DomainOverflow,
    /// The check buffer does not hold one extension element per row.
    CheckSizeMismatch { got: usize, expected: usize },
    /// A group buffer does not hold its columns over the domain.
    GroupSizeMismatch { group: usize, got: usize, expected: usize },
    /// A global buffer is shorter than the largest offset read from it.
    GlobalTooSmall { global: usize, got: usize, need: usize },
}

/// The first of the three groups whose buffer size is not its column
/// count times the domain.
pub open spec fn group_size_mismatch(sizes: Seq<usize>, cols: Seq<usize>, domain: int) -> Option<int> {
    if sizes[0] != cols[0] * domain {
        Some(0)
    } else if sizes[1] != cols[1] * domain {
        Some(1)
    } else if sizes[2] != cols[2] * domain {
        Some(2)
    } else {
        None
    }
}

/// The opening checks: the GPU path must be enabled and see three groups
/// and two globals; the domain (`steps` times the rate) must not overflow
/// and may be empty; the check and group buffers must match the domain;
/// the polynomial must read only the two globals, each long enough.
pub open spec fn eval_check_guard_spec(
    gpu_enabled: bool,
    num_groups: usize,
    globals_len: usize,
    steps: usize,
    check_size: usize,
    group_sizes: Seq<usize>,
    group_cols: Seq<usize>,
    global_sizes: (usize, usize),
    block: Seq<PolyExtStep>,
) -> Result<EvalCheckGuard, EvalCheckGuardError> {
    let domain = steps * INV_RATE;
    if !gpu_enabled || num_groups != 3 || group_sizes.len() != 3 || globals_len != 2 {
        Ok(EvalCheckGuard::Declined)
    } else if domain > usize::MAX {
        Err(EvalCheckGuardError::DomainOverflow)
    } else if domain == 0 {
        Ok(EvalCheckGuard::NothingToDo)
    } else if check_size != EXT_WORDS * domain {
        Err(EvalCheckGuardError::CheckSizeMismatch { got: check_size, expected: (EXT_WORDS * domain) as usize })
    } else {
        match group_size_mismatch(group_sizes, group_cols, domain) {
            Some(g) => Err(
                EvalCheckGuardError::GroupSizeMismatch {
                    group: g as usize,
                    got: group_sizes[g],
                    expected: (group_cols[g] * domain) as usize,
                },
            ),
            None => if !globals_in_range(block) {
                Ok(EvalCheckGuard::Declined)
            } else if global_sizes.0 < min_global_size(block, 0) {
                Err(
                    EvalCheckGuardError::GlobalTooSmall {
                        global: 0,
                        got: global_sizes.0,
                        need: min_global_size(block, 0) as usize,
                    },
                )
            } else if global_sizes.1 < min_global_size(block, 1) {
                Err(
                    EvalCheckGuardError::GlobalTooSmall {
                        global: 1,
                        got: global_sizes.1,
                        need: min_global_size(block, 1) as usize,
                    },
                )
            } else {
                Ok(EvalCheckGuard::Proceed { domain: domain as usize })
            },
        }
    }
}

/// The opening checks of a GPU check-polynomial evaluation (see
/// `eval_check_guard_spec`): `group_sizes` are the group buffers' sizes,
/// `group_cols` the taps' column count of each group, `global_sizes` the
/// sizes of the two globals in the order the polynomial numbers them.
pub fn eval_check_guard(
    gpu_enabled: bool,
    num_groups: usize,
    globals_len: usize,
    steps: usize,
    check_size: usize,
    group_sizes: &[usize],
    group_cols: &[usize],
    global_sizes: (usize, usize),
    block: &[PolyExtStep],
) -> (r: Result<EvalCheckGuard, EvalCheckGuardError>)
    requires
        group_cols@.len() == 3,
        steps * INV_RATE <= usize::MAX ==> EXT_WORDS * (steps * INV_RATE) <= usize::MAX,
        steps * INV_RATE <= usize::MAX ==> forall|g: int|
            0 <= g < 3 ==> #[trigger] group_cols@[g] * (steps * INV_RATE) <= usize::MAX,
        forall|k: int| 0 <= k < block@.len() ==> match #[trigger] block@[k] {
            PolyExtStep::GetGlobal(arg, off) => arg < 2 ==> off < usize::MAX,
            _ => true,
        },
    ensures
        r == eval_check_guard_spec(
            gpu_enabled,
            num_groups,
            globals_len,
            steps,
            check_size,
            group_sizes@,
            group_cols@,
            global_sizes,
            block@,
        ),
{
    if !gpu_enabled || num_groups != 3 || group_sizes.len() != 3 || globals_len != 2 {
        return Ok(EvalCheckGuard::Declined);
    }
    let domain = match steps.checked_mul(INV_RATE) {
        Some(d) => d,
        None => return Err(EvalCheckGuardError::DomainOverflow),
    };
    if domain == 0 {
        return Ok(EvalCheckGuard::NothingToDo);
    }
    let expected = EXT_WORDS * domain;
    if check_size != expected {
        return Err(EvalCheckGuardError::CheckSizeMismatch { got: check_size, expected });
    }
    let mut g: usize = 0;
    while g < 3
        invariant
            g <= 3,
            group_sizes@.len() == 3,
            group_cols@.len() == 3,
            domain == steps * INV_RATE,
            domain != 0,
            gpu_enabled,
            num_groups == 3,
            globals_len == 2,
            check_size == EXT_WORDS * domain,
            forall|h: int| 0 <= h < 3 ==> #[trigger] group_cols@[h] * domain <= usize::MAX,
            forall|h: int| 0 <= h < g ==> group_sizes@[h] == #[trigger] group_cols@[h] * domain,
        decreases 3 - g,
    {
        let want = group_cols[g] * domain;
        if group_sizes[g] != want {
            proof {
                assert(group_sizes@[g as int] != group_cols@[g as int] * domain);
                if g >= 1 {
                    assert(group_sizes@[0] == group_cols@[0] * domain);
                }
                if g == 2 {
                    assert(group_sizes@[1] == group_cols@[1] * domain);
                }
                assert(group_size_mismatch(group_sizes@, group_cols@, domain as int) == Some(g as int));
            }
            return Err(EvalCheckGuardError::GroupSizeMismatch { group: g, got: group_sizes[g], expected: want });
        }
        g = g + 1;
    }
    let (need0, need1) = match eval_check_min_global_sizes(block) {
        Some(m) => m,
        None => return Ok(EvalCheckGuard::Declined),
    };
    if global_sizes.0 < need0 {
        return Err(EvalCheckGuardError::GlobalTooSmall { global: 0, got: global_sizes.0, need: need0 });
    }
    if global_sizes.1 < need1 {
        return Err(EvalCheckGuardError::GlobalTooSmall { global: 1, got: global_sizes.1, need: need1 });
    }
    Ok(EvalCheckGuard::Proceed { domain })
}

} // verus!
