use unshuffle::{
    build_sequence, build_sequences, diff_limit, diff_rgba3, fill_percents, frame_diff,
    frames_are_uniform, get_biggest_sequence, get_succ, reconstruct, reverse_order, Frame,
    ordinal_digits, ReconstructError, ORDINAL_WIDTH, SENTINEL, THRESHOLD_SCALE,
};

fn frame(pixels: Vec<[u8; 4]>, width: u32, height: u32) -> Frame {
    Frame::new(width, height, pixels).unwrap()
}

fn gray(v: u8, n: usize) -> Vec<[u8; 4]> {
    vec![[v, v, v, 255]; n]
}

/// Matrix of the four-frame scenario: A=0, B=1, C=2, D=3.
fn scenario_matrix() -> Vec<Vec<u128>> {
    let s = SENTINEL;
    vec![
        vec![s, 2, 40, 60],
        vec![2, s, 3, 55],
        vec![40, 3, s, 50],
        vec![60, 55, 50, s],
    ]
}

#[test]
fn pixel_difference_ignores_alpha() {
    assert_eq!(diff_rgba3([10, 20, 30, 255], [0, 25, 30, 0]), 15);
    assert_eq!(diff_rgba3([0, 0, 0, 0], [255, 255, 255, 255]), 765);
    assert_eq!(diff_rgba3([7, 7, 7, 7], [7, 7, 7, 200]), 0);
}

#[test]
fn frame_difference_sums_positions() {
    let a = vec![[0, 0, 0, 0], [100, 100, 100, 0]];
    let b = vec![[1, 2, 3, 9], [90, 100, 110, 0]];
    assert_eq!(frame_diff(&a, &b), 6 + 20);
    assert_eq!(frame_diff(&b, &a), 26);
    assert_eq!(frame_diff(&a, &a), 0);
}

#[test]
fn limit_converts_threshold() {
    // 10 percent of the maximal difference of four pixels: 0.1 * 765 * 4.
    assert_eq!(diff_limit(100_000, 4), 306);
    assert_eq!(diff_limit(THRESHOLD_SCALE as u32, 2), 1530);
    assert_eq!(diff_limit(0, 1000), 0);
    // 1 millionth of 765 is rounded down to nothing.
    assert_eq!(diff_limit(1, 1), 0);
}

#[test]
fn frame_new_checks_size() {
    assert!(Frame::new(2, 1, gray(0, 2)).is_ok());
    assert_eq!(Frame::new(2, 2, gray(0, 3)).unwrap_err(), ReconstructError::DimensionMismatch);
}

#[test]
fn frame_from_image_takes_pixels() {
    let raw: Vec<u8> = vec![1, 2, 3, 4, 5, 6, 7, 8];
    let buf = image::RgbaImage::from_raw(2, 1, raw).unwrap();
    let img = image::DynamicImage::ImageRgba8(buf);
    let f = Frame::from_image(&img).unwrap();
    assert_eq!(f.width, 2);
    assert_eq!(f.height, 1);
    assert_eq!(f.pixels, vec![[1, 2, 3, 4], [5, 6, 7, 8]]);
}

#[test]
fn frame_from_empty_image() {
    let img = image::DynamicImage::new_rgba8(0, 2);
    let f = Frame::from_image(&img).unwrap();
    assert_eq!((f.width, f.height), (0, 2));
    assert!(f.pixels.is_empty());
}

#[test]
fn frame_from_rgb_image_adds_opaque_alpha() {
    let buf = image::RgbImage::from_raw(1, 2, vec![9, 8, 7, 1, 2, 3]).unwrap();
    let img = image::DynamicImage::ImageRgb8(buf);
    let f = Frame::from_image(&img).unwrap();
    assert_eq!(f.pixels, vec![[9, 8, 7, 255], [1, 2, 3, 255]]);
}

#[test]
fn matrix_is_symmetric_with_sentinel_diagonal() {
    let frames = vec![
        frame(gray(0, 2), 2, 1),
        frame(gray(10, 2), 2, 1),
        frame(vec![[0, 0, 0, 0], [255, 255, 255, 0]], 2, 1),
    ];
    let m = fill_percents(&frames);
    assert_eq!(m.len(), 3);
    for i in 0..3 {
        assert_eq!(m[i].len(), 3);
        assert_eq!(m[i][i], SENTINEL);
        for j in 0..3 {
            assert_eq!(m[i][j], m[j][i]);
        }
    }
    assert_eq!(m[0][1], 60);
    assert_eq!(m[0][2], 765);
    assert_eq!(m[1][2], 30 + 735);
}

#[test]
fn successor_is_lowest_nearest_unused() {
    let s = SENTINEL;
    let m = vec![
        vec![s, 5, 3, 3],
        vec![5, s, 1, 1],
        vec![3, 1, s, 9],
        vec![3, 1, 9, s],
    ];
    assert_eq!(get_succ(0, &m, &vec![false; 4]), Some((2, 3)));
    assert_eq!(get_succ(0, &m, &vec![true, false, true, false]), Some((3, 3)));
    assert_eq!(get_succ(1, &m, &vec![false; 4]), Some((2, 1)));
    assert_eq!(get_succ(0, &m, &vec![false, true, true, true]), None);
}

#[test]
fn scenario_chain_from_a() {
    let m = scenario_matrix();
    let mut used = vec![false; 4];
    let chain = build_sequence(0, &mut used, &m, 10);
    assert_eq!(chain, vec![0, 1, 2]);
    assert_eq!(used, vec![true, true, true, false]);
}

#[test]
fn scenario_partition_and_selection() {
    let m = scenario_matrix();
    let chains = build_sequences(&m, 10);
    assert_eq!(chains, vec![vec![0, 1, 2], vec![3]]);
    assert_eq!(get_biggest_sequence(&chains), vec![0, 1, 2]);
    assert_eq!(reverse_order(&get_biggest_sequence(&chains)), vec![2, 1, 0]);
}

#[test]
fn backward_growth_prepends() {
    let s = SENTINEL;
    // Seed 1: forward growth takes 2, then stalls; backward growth from 1
    // reaches 0.
    let m = vec![vec![s, 4, 90], vec![4, s, 1], vec![90, 1, s]];
    let mut used = vec![false; 3];
    let chain = build_sequence(1, &mut used, &m, 5);
    assert_eq!(chain, vec![0, 1, 2]);
    let m2 = vec![vec![s, 1, 90], vec![1, s, 4], vec![90, 4, s]];
    let mut used2 = vec![false; 3];
    assert_eq!(build_sequence(2, &mut used2, &m2, 5), vec![2, 1, 0]);
    assert_eq!(used2, vec![true; 3]);
}

#[test]
fn threshold_is_inclusive() {
    let s = SENTINEL;
    let m = vec![vec![s, 10], vec![10, s]];
    assert_eq!(build_sequences(&m, 10), vec![vec![0, 1]]);
    assert_eq!(build_sequences(&m, 9), vec![vec![0], vec![1]]);
}

#[test]
fn partition_covers_every_frame_once() {
    let s = SENTINEL;
    let m = vec![
        vec![s, 50, 1, 70, 80],
        vec![50, s, 60, 2, 90],
        vec![1, 60, s, 75, 85],
        vec![70, 2, 75, s, 95],
        vec![80, 90, 85, 95, s],
    ];
    let chains = build_sequences(&m, 5);
    assert_eq!(chains, vec![vec![0, 2], vec![1, 3], vec![4]]);
    let mut all: Vec<usize> = chains.concat();
    all.sort();
    assert_eq!(all, vec![0, 1, 2, 3, 4]);
    for c in &chains {
        for w in c.windows(2) {
            assert!(m[w[0]][w[1]] <= 5);
        }
    }
}

#[test]
fn selection_prefers_first_of_equal_length() {
    let chains = vec![vec![4], vec![0, 2], vec![1, 3], vec![5]];
    assert_eq!(get_biggest_sequence(&chains), vec![0, 2]);
    let chains = vec![vec![], vec![]];
    assert_eq!(get_biggest_sequence(&chains), Vec::<usize>::new());
    let chains = vec![vec![1], vec![0, 2, 3]];
    assert_eq!(get_biggest_sequence(&chains), vec![0, 2, 3]);
}

#[test]
fn reverse_twice_is_identity() {
    let x = vec![3, 1, 4, 1, 5];
    assert_eq!(reverse_order(&x), vec![5, 1, 4, 1, 3]);
    assert_eq!(reverse_order(&reverse_order(&x)), x);
    assert_eq!(reverse_order(&Vec::new()), Vec::<usize>::new());
}

#[test]
fn single_frame_is_returned_alone() {
    let frames = vec![frame(gray(9, 4), 2, 2)];
    assert_eq!(reconstruct(&frames, 100_000, false).unwrap(), vec![0]);
    assert_eq!(reconstruct(&frames, 100_000, true).unwrap(), vec![0]);
}

#[test]
fn empty_input_is_an_error() {
    assert_eq!(reconstruct(&Vec::new(), 100_000, false), Err(ReconstructError::EmptyInput));
}

#[test]
fn mismatched_sizes_are_an_error() {
    let frames = vec![frame(gray(0, 4), 2, 2), frame(gray(0, 4), 4, 1)];
    assert!(!frames_are_uniform(&frames));
    assert_eq!(reconstruct(&frames, 100_000, false), Err(ReconstructError::DimensionMismatch));
    let bad = Frame { width: 2, height: 2, pixels: gray(0, 3) };
    assert_eq!(reconstruct(&vec![bad], 100_000, false), Err(ReconstructError::DimensionMismatch));
}

#[test]
fn identical_frames_form_one_chain() {
    let frames: Vec<Frame> = (0..5).map(|_| frame(gray(42, 6), 3, 2)).collect();
    assert!(frames_are_uniform(&frames));
    assert!(frames_are_uniform(&Vec::new()));
    assert_eq!(reconstruct(&frames, 0, false).unwrap(), vec![0, 1, 2, 3, 4]);
    assert_eq!(reconstruct(&frames, 100_000, true).unwrap(), vec![4, 3, 2, 1, 0]);
}

#[test]
fn reconstruct_orders_frames_and_drops_outlier() {
    // One-pixel frames; each channel step of 3 is 9 units, 9/765 of the
    // maximum, about 1.18 percent. The outlier is far from all of them.
    let frames = vec![
        frame(gray(6, 1), 1, 1),
        frame(gray(250, 1), 1, 1),
        frame(gray(0, 1), 1, 1),
        frame(gray(3, 1), 1, 1),
    ];
    // 2 percent lets neighbours 3 apart link.
    let order = reconstruct(&frames, 20_000, false).unwrap();
    assert_eq!(order, vec![0, 3, 2]);
    let rev = reconstruct(&frames, 20_000, true).unwrap();
    assert_eq!(rev, vec![2, 3, 0]);
    // 1 percent links nothing: the first frame alone wins.
    assert_eq!(reconstruct(&frames, 10_000, false).unwrap(), vec![0]);
}

#[test]
fn ordinals_are_zero_padded() {
    assert_eq!(ordinal_digits(0), b"000000000".to_vec());
    assert_eq!(ordinal_digits(42), b"000000042".to_vec());
    assert_eq!(ordinal_digits(123456789), b"123456789".to_vec());
    assert_eq!(ordinal_digits(1234567890), b"1234567890".to_vec());
    assert_eq!(ordinal_digits(u64::MAX), b"18446744073709551615".to_vec());
    assert_eq!(ORDINAL_WIDTH, 9);
}
