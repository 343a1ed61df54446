use parrot::pipeline::extract_palette;
use parrot::pixel::Px;

fn buf_of(colors: &[[u8; 3]]) -> Vec<u8> {
    let mut buf: Vec<u8> = Vec::new();
    for c in colors {
        buf.push(c[0]);
        buf.push(c[1]);
        buf.push(c[2]);
    }
    buf
}

fn px(r: u8, g: u8, b: u8) -> Px {
    Px { r, g, b }
}

#[test]
fn two_colors_half_and_half() {
    // red and blue, half the pixels each, two bins
    let buf = buf_of(&[[255, 0, 0], [0, 0, 255], [255, 0, 0], [0, 0, 255]]);
    let (palette, converged) = extract_palette(&buf, 2, false, false, 1_000_000);
    assert!(converged);
    assert_eq!(palette, vec![px(0, 0, 255), px(255, 0, 0)]);
}

#[test]
fn monochrome_image_fills_populated_bin() {
    let buf = buf_of(&[[100, 150, 200]; 4]);
    let (palette, converged) = extract_palette(&buf, 3, false, false, 1_000_000);
    assert!(converged);
    assert_eq!(palette, vec![px(0, 0, 0), px(0, 0, 0), px(100, 150, 200)]);
}

#[test]
fn more_bins_than_colors_reports_black() {
    let buf = buf_of(&[[10, 20, 30], [40, 50, 60], [10, 20, 30], [40, 50, 60]]);
    let (palette, converged) = extract_palette(&buf, 4, false, false, 1_000_000);
    assert!(converged);
    assert_eq!(
        palette,
        vec![px(0, 0, 0), px(0, 0, 0), px(10, 20, 30), px(40, 50, 60)]
    );
    // approximate mode has no candidate to snap an empty bin to either
    let (palette_a, _) = extract_palette(&buf, 4, false, true, 1_000_000);
    assert_eq!(palette, palette_a);
}

#[test]
fn palette_always_has_k_entries() {
    let buf = buf_of(&[[1, 2, 3], [200, 100, 0], [9, 9, 9], [1, 2, 3]]);
    for k in 1..8usize {
        let (palette, _) = extract_palette(&buf, k, false, false, 1_000_000);
        assert_eq!(palette.len(), k);
        let (palette_u, _) = extract_palette(&buf, k, true, true, 1_000_000);
        assert_eq!(palette_u.len(), k);
    }
}

#[test]
fn rerun_is_deterministic() {
    let buf = buf_of(&[[3, 1, 4], [1, 5, 9], [2, 6, 5], [3, 5, 8], [9, 7, 9], [3, 1, 4]]);
    let first = extract_palette(&buf, 3, false, true, 1_000_000);
    let second = extract_palette(&buf, 3, false, true, 1_000_000);
    assert_eq!(first, second);
}

#[test]
fn unweighted_ignores_repetition() {
    let once = buf_of(&[[10, 20, 30], [200, 210, 220]]);
    let skewed = buf_of(&[
        [200, 210, 220],
        [10, 20, 30],
        [10, 20, 30],
        [10, 20, 30],
        [10, 20, 30],
        [200, 210, 220],
        [10, 20, 30],
    ]);
    let (p1, _) = extract_palette(&once, 2, true, false, 1_000_000);
    let (p2, _) = extract_palette(&skewed, 2, true, false, 1_000_000);
    assert_eq!(p1, p2);
}

#[test]
fn approximate_palette_colors_occur_in_image() {
    let colors = [[10, 10, 10], [10, 10, 10], [10, 10, 10], [200, 200, 200]];
    let buf = buf_of(&colors);
    let (palette, _) = extract_palette(&buf, 2, false, true, 1_000_000);
    for c in &palette {
        let in_image = colors.iter().any(|t| px(t[0], t[1], t[2]) == *c);
        assert!(in_image || *c == px(0, 0, 0));
    }
}

#[test]
fn mean_is_truncated_and_snap_prefers_first() {
    // one bin over black and (10,0,0): the mean is (5,0,0); the snap
    // pass ties at distance 5 and keeps the first color scanned
    let buf = buf_of(&[[0, 0, 0], [10, 0, 0]]);
    let (plain, _) = extract_palette(&buf, 1, false, false, 1_000_000);
    assert_eq!(plain, vec![px(5, 0, 0)]);
    let (snapped, _) = extract_palette(&buf, 1, false, true, 1_000_000);
    assert_eq!(snapped, vec![px(0, 0, 0)]);
}

#[test]
fn empty_buffer_yields_black_palette() {
    let buf: Vec<u8> = Vec::new();
    let (palette, converged) = extract_palette(&buf, 2, false, false, 1_000_000);
    assert!(converged);
    assert_eq!(palette, vec![px(0, 0, 0), px(0, 0, 0)]);
}

#[test]
fn trailing_bytes_are_ignored() {
    let mut buf = buf_of(&[[7, 8, 9]]);
    buf.push(42);
    buf.push(43);
    let (palette, _) = extract_palette(&buf, 1, false, false, 1_000_000);
    assert_eq!(palette, vec![px(7, 8, 9)]);
}

#[test]
fn zero_iteration_cap_reports_not_converged() {
    let buf = buf_of(&[[100, 150, 200]; 2]);
    let (palette, converged) = extract_palette(&buf, 1, false, false, 0);
    assert!(!converged);
    // with one bin the greedy seeder never places a color, so the
    // uniterated palette is still the all-zero seed
    assert_eq!(palette, vec![px(0, 0, 0)]);
}
