//! The uniform buffer of a batched NTT's butterfly passes: one block of
//! parameter words per level, all in one buffer that the passes bind at
//! dynamic offsets.

use vstd::prelude::*;

verus! {

/// Parameter words each butterfly pass reads.
pub const NTT_STEP_PARAM_WORDS: usize = 8;

/// What a butterfly pass needs to know besides its level.
#[derive(Clone, Copy, Debug, PartialEq, Eq)]
pub struct NttStepShape {
    /// log2 of the row length.
    pub n_bits: u32,
    /// Rows transformed together.
    pub count: u32,
    /// Butterfly pairs over all rows.
    pub total_pairs: u32,
    /// Word offset of the rows in their buffer.
    pub output_offset: u32,
    /// Word offset of the twiddle factors in their buffer.
    pub twiddles_offset: u32,
    /// Whether the passes run the inverse transform.
    pub inverse: bool,
}

/// The parameter words of the pass at level `s_bits`.
pub open spec fn ntt_step_words(shape: NttStepShape, s_bits: int) -> Seq<u32> {
    seq![
        shape.n_bits,
        s_bits as u32,
        shape.count,
        shape.total_pairs,
        shape.output_offset,
        shape.twiddles_offset,
        if shape.inverse { 1u32 } else { 0u32 },
        0u32,
    ]
}

/// The level of pass `i`: counting down from `first` when `descending`,
/// else up from it.
pub open spec fn ntt_level(first: int, descending: bool, i: int) -> int {
    if descending {
        first - i
    } else {
        first + i
    }
}

/// The parameter buffer of the passes and where each pass's block starts.
pub struct NttStepParams {
    /// The buffer, word by word.
    pub words: Vec<u32>,
    /// Byte offset of each pass's block.
    pub offsets: Vec<u32>,
}

/// The parameter buffer of `passes` butterfly passes of `shape`, at levels
/// counting from `first` (down when `descending`), each block
/// `stride_words` words long (its parameters, then zeros); `None` when a
/// block's byte offset exceeds `u32`.
pub fn ntt_step_params(shape: NttStepShape, first: u32, passes: usize, descending: bool, stride_words: usize) -> (r:
    Option<NttStepParams>)
    requires
        stride_words >= NTT_STEP_PARAM_WORDS,
        passes * stride_words <= usize::MAX,
        descending ==> passes <= first + 1,
        !descending ==> first + passes <= u32::MAX + 1,
    ensures
        r is Some <==> passes == 0 || (passes - 1) * stride_words * 4 <= u32::MAX,
        r matches Some(p) ==> {
            &&& p.words@.len() == passes * stride_words
            &&& p.offsets@.len() == passes
            &&& forall|i: int| 0 <= i < passes ==> #[trigger] p.offsets@[i] == i * stride_words * 4
            &&& forall|i: int, j: int|
                0 <= i < passes && 0 <= j < stride_words ==> #[trigger] p.words@[i * stride_words + j] == if j
                    < NTT_STEP_PARAM_WORDS {
                    ntt_step_words(shape, ntt_level(first as int, descending, i))[j]
                } else {
                    0u32
                }
        },
{
    if passes > 0 {
        let last = passes - 1;
        proof {
            assert(last * stride_words <= passes * stride_words) by (nonlinear_arith)
                requires
                    last < passes,
            ;
        }
        let last_words = last * stride_words;
        if last_words > 1073741823usize {
            proof {
                assert((passes - 1) * stride_words * 4 > u32::MAX);
            }
            return None;
        }
    }
    let mut words: Vec<u32> = Vec::new();
    let mut offsets: Vec<u32> = Vec::new();
    let mut i: usize = 0;
    while i < passes
        invariant
            i <= passes,
            stride_words >= NTT_STEP_PARAM_WORDS,
            passes * stride_words <= usize::MAX,
            passes == 0 || (passes - 1) * stride_words * 4 <= u32::MAX,
            descending ==> passes <= first + 1,
            !descending ==> first + passes <= u32::MAX + 1,
            words@.len() == i * stride_words,
            offsets@.len() == i,
            forall|k: int| 0 <= k < i ==> #[trigger] offsets@[k] == k * stride_words * 4,
            forall|k: int, j: int|
                0 <= k < i && 0 <= j < stride_words ==> #[trigger] words@[k * stride_words + j] == if j
                    < NTT_STEP_PARAM_WORDS {
                    ntt_step_words(shape, ntt_level(first as int, descending, k))[j]
                } else {
                    0u32
                },
        decreases passes - i,
    {
        proof {
            assert((i + 1) * stride_words == i * stride_words + stride_words) by (nonlinear_arith);
            assert(i * stride_words <= (passes - 1) * stride_words) by (nonlinear_arith)
                requires
                    i < passes,
            ;
            assert((i + 1) * stride_words <= passes * stride_words) by (nonlinear_arith)
                requires
                    i < passes,
            ;
        }
        let level: u32 = if descending { first - (i as u32) } else { first + (i as u32) };
        let base = i * stride_words;
        offsets.push((base * 4) as u32);
        let block: [u32; 8] = [
            shape.n_bits,
            level,
            shape.count,
            shape.total_pairs,
            shape.output_offset,
            shape.twiddles_offset,
            if shape.inverse { 1 } else { 0 },
            0,
        ];
        let ghost w0 = words@;
        let mut j: usize = 0;
        while j < stride_words
            invariant
                j <= stride_words,
                i < passes,
                stride_words >= NTT_STEP_PARAM_WORDS,
                base == i * stride_words,
                base + stride_words <= usize::MAX,
                words@.len() == base + j,
                words@.subrange(0, base as int) == w0,
                w0.len() == base,
                level as int == ntt_level(first as int, descending, i as int),
                block@ == ntt_step_words(shape, level as int),
                forall|m: int| 0 <= m < j ==> #[trigger] words@[base + m] == if m < NTT_STEP_PARAM_WORDS {
                    ntt_step_words(shape, level as int)[m]
                } else {
                    0u32
                },
            decreases stride_words - j,
        {
            if j < NTT_STEP_PARAM_WORDS {
                words.push(block[j]);
            } else {
                words.push(0);
            }
            proof {
                assert(words@.subrange(0, base as int) =~= w0);
            }
            j = j + 1;
        }
        proof {
            assert forall|k: int, m: int| 0 <= k < i + 1 && 0 <= m < stride_words implies #[trigger] words@[k
                * stride_words + m] == if m < NTT_STEP_PARAM_WORDS {
                ntt_step_words(shape, ntt_level(first as int, descending, k))[m]
            } else {
                0u32
            } by {
                if k < i {
                    assert(k * stride_words + m < i * stride_words) by (nonlinear_arith)
                        requires
                            0 <= k < i,
                            0 <= m < stride_words,
                    ;
                    assert(words@[k * stride_words + m] == w0[k * stride_words + m]);
                } else {
                    assert(words@[base + m] == words@[k * stride_words + m]);
                }
            }
        }
        i = i + 1;
    }
    Some(NttStepParams { words, offsets })
}

} // verus!
