use webgpu_hal::eval_check::tape::EvalCheckTap;
use webgpu_hal::group_chunks::{
    eval_check_chunk_back_rows, eval_check_chunk_dispatch_rows, eval_check_chunk_windows, pack_group_chunk,
    GroupChunkWindow,
};

fn taps() -> Vec<EvalCheckTap> {
    vec![
        EvalCheckTap { group: 0, offset: 0, back: 1 },
        EvalCheckTap { group: 1, offset: 0, back: 3 },
        EvalCheckTap { group: 2, offset: 1, back: 2 },
    ]
}

#[test]
fn back_rows_count_only_chunked_groups() {
    assert_eq!(eval_check_chunk_back_rows(&taps(), &[true, false, true], 16), 8);
    assert_eq!(eval_check_chunk_back_rows(&taps(), &[true, false, true], 6), 4);
    assert_eq!(eval_check_chunk_back_rows(&taps(), &[false, true, false], 16), 12);
    assert_eq!(eval_check_chunk_back_rows(&taps(), &[false, false, false], 16), 0);
}

#[test]
fn dispatch_rows_fit_the_widest_group() {
    assert_eq!(eval_check_chunk_dispatch_rows(1000, 8, &[true, false, true], &[10, 5, 20], 1000), Some(42));
    assert_eq!(eval_check_chunk_dispatch_rows(30, 8, &[true, false, true], &[10, 5, 20], 1000), Some(30));
    assert_eq!(eval_check_chunk_dispatch_rows(1000, 8, &[true, false, true], &[10, 5, 20], 160), None);
    assert_eq!(eval_check_chunk_dispatch_rows(1000, 8, &[true, false, true], &[0, 5, 0], 1), Some(1000));
}

#[test]
fn windows_cover_the_domain() {
    let w = eval_check_chunk_windows(10, 2, 4);
    assert_eq!(
        w,
        vec![
            GroupChunkWindow { cycle_base: 0, dispatch_rows: 4, chunk_base: 8, chunk_rows: 6 },
            GroupChunkWindow { cycle_base: 4, dispatch_rows: 4, chunk_base: 2, chunk_rows: 6 },
            GroupChunkWindow { cycle_base: 8, dispatch_rows: 2, chunk_base: 6, chunk_rows: 4 },
        ]
    );
    assert_eq!(eval_check_chunk_windows(8, 0, 4).len(), 2);
}

#[test]
fn pack_wraps_around_the_domain() {
    let source = [0u32, 1, 2, 3, 10, 11, 12, 13];
    assert_eq!(pack_group_chunk(&source, 2, 4, 3, 3), vec![3, 0, 1, 13, 10, 11]);
}

#[test]
fn every_cycle_finds_its_rows_in_its_chunk() {
    let domain = 10usize;
    let back = 3usize;
    let cols = 2usize;
    let source: Vec<u32> = (0..(cols * domain) as u32).collect();
    for w in eval_check_chunk_windows(domain, back, 4) {
        let chunk = pack_group_chunk(&source, cols, domain, w.chunk_base, w.chunk_rows);
        for c in w.cycle_base..w.cycle_base + w.dispatch_rows {
            for b in 0..=back {
                let local = c - w.cycle_base + back - b;
                for col in 0..cols {
                    assert_eq!(chunk[col * w.chunk_rows + local], source[col * domain + (c + domain - b) % domain]);
                }
            }
        }
    }
}
