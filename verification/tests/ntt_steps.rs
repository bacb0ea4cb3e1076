use webgpu_hal::ntt::ntt_inverse_norm;
use webgpu_hal::ntt_steps::{ntt_step_params, NttStepShape};

fn shape(inverse: bool) -> NttStepShape {
    NttStepShape { n_bits: 3, count: 2, total_pairs: 8, output_offset: 16, twiddles_offset: 32, inverse }
}

#[test]
fn inverse_passes_count_down() {
    let p = ntt_step_params(shape(true), 3, 3, true, 64).unwrap();
    assert_eq!(p.offsets, vec![0, 256, 512]);
    assert_eq!(p.words.len(), 192);
    assert_eq!(&p.words[0..8], &[3, 3, 2, 8, 16, 32, 1, 0]);
    assert_eq!(&p.words[64..72], &[3, 2, 2, 8, 16, 32, 1, 0]);
    assert_eq!(&p.words[128..136], &[3, 1, 2, 8, 16, 32, 1, 0]);
    assert!(p.words[8..64].iter().all(|w| *w == 0));
    assert!(p.words[136..].iter().all(|w| *w == 0));
}

#[test]
fn forward_passes_count_up() {
    let p = ntt_step_params(shape(false), 2, 2, false, 8).unwrap();
    assert_eq!(p.offsets, vec![0, 32]);
    assert_eq!(p.words, vec![3, 2, 2, 8, 16, 32, 0, 0, 3, 3, 2, 8, 16, 32, 0, 0]);
}

#[test]
fn no_passes_give_an_empty_buffer() {
    let p = ntt_step_params(shape(true), 0, 0, true, 64).unwrap();
    assert!(p.words.is_empty());
    assert!(p.offsets.is_empty());
}

#[test]
fn offsets_past_u32_are_refused() {
    assert!(ntt_step_params(shape(true), 5, 5, true, 1 << 28).is_none());
}

#[test]
fn inverse_norm_is_one_over_the_row_length() {
    assert_eq!(ntt_inverse_norm(1), 268435454);
    assert_eq!(ntt_inverse_norm(4), 1073741824);
    assert_eq!(ntt_inverse_norm(8), 536870912);
}
