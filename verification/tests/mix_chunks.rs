use webgpu_hal::field::ExtWords;
use webgpu_hal::mix_chunks::{plan_mix_poly_coeffs_chunks, MixPolyChunk, MixPolyChunkError};

fn base(w: u32) -> ExtWords {
    ExtWords { w0: w, w1: 0, w2: 0, w3: 0 }
}

const ONE: u32 = 268435454;
const TWO: u32 = 536870908;
const FOUR: u32 = 1073741816;
const SIXTEEN: u32 = 268435422;

#[test]
fn chunks_start_at_their_mix_power() {
    let chunks = plan_mix_poly_coeffs_chunks(5, 64, 0, 512, 7, base(ONE), base(TWO)).unwrap().unwrap();
    assert_eq!(
        chunks,
        vec![
            MixPolyChunk {
                chunk_start: 0,
                chunk_size: 2,
                input_offset: 0,
                input_bytes: 512,
                combos_offset: 7,
                mix_start: base(ONE),
            },
            MixPolyChunk {
                chunk_start: 2,
                chunk_size: 2,
                input_offset: 512,
                input_bytes: 512,
                combos_offset: 9,
                mix_start: base(FOUR),
            },
            MixPolyChunk {
                chunk_start: 4,
                chunk_size: 1,
                input_offset: 1024,
                input_bytes: 256,
                combos_offset: 11,
                mix_start: base(SIXTEEN),
            },
        ]
    );
}

#[test]
fn one_chunk_when_everything_fits() {
    let chunks = plan_mix_poly_coeffs_chunks(3, 64, 256, 1 << 20, 0, base(TWO), base(TWO)).unwrap().unwrap();
    assert_eq!(chunks.len(), 1);
    assert_eq!(chunks[0].chunk_size, 3);
    assert_eq!(chunks[0].input_offset, 256);
    assert_eq!(chunks[0].mix_start, base(TWO));
}

#[test]
fn nothing_to_mix_gives_no_chunks() {
    assert_eq!(plan_mix_poly_coeffs_chunks(0, 64, 0, 512, 0, base(ONE), base(TWO)), Ok(Some(vec![])));
    assert_eq!(plan_mix_poly_coeffs_chunks(5, 0, 0, 512, 0, base(ONE), base(TWO)), Ok(Some(vec![])));
}

#[test]
fn unbindable_polynomials_are_declined() {
    assert_eq!(plan_mix_poly_coeffs_chunks(5, 10, 0, 512, 0, base(ONE), base(TWO)), Ok(None));
    assert_eq!(plan_mix_poly_coeffs_chunks(5, 64, 4, 512, 0, base(ONE), base(TWO)), Ok(None));
    assert_eq!(plan_mix_poly_coeffs_chunks(5, 64, 0, 100, 0, base(ONE), base(TWO)), Ok(None));
}

#[test]
fn chunk_offsets_that_overflow_are_errors() {
    assert_eq!(
        plan_mix_poly_coeffs_chunks(5, 64, 0, 512, u32::MAX - 1, base(ONE), base(TWO)),
        Err(MixPolyChunkError::ComboOffsetOverflow)
    );
    assert_eq!(
        plan_mix_poly_coeffs_chunks(5, 64, u64::MAX - 255, 512, 0, base(ONE), base(TWO)),
        Err(MixPolyChunkError::InputOffsetOverflow)
    );
}
