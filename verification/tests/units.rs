use parrot::engine::{approximate, assign_bin, bin_mean, cluster, make_bins, px_vec_eq, refine};
use parrot::pixel::{clone_array, color_dist, px_dist, px_le, Px};
use parrot::render::rgb_string;
use parrot::seed::seed_centroids;
use parrot::store::{dedup_pixels, pixels_from_buffer, sort_pixels};

fn px(r: u8, g: u8, b: u8) -> Px {
    Px { r, g, b }
}

#[test]
fn color_dist_is_manhattan() {
    assert_eq!(color_dist(&[255, 0, 0], &[0, 0, 255]), 510);
    assert_eq!(color_dist(&[0, 0, 0], &[0, 0, 0]), 0);
    assert_eq!(color_dist(&[10, 20, 30], &[13, 18, 30]), 5);
    assert_eq!(color_dist(&[1, 2, 3], &[3, 2, 1]), color_dist(&[3, 2, 1], &[1, 2, 3]));
    assert_eq!(color_dist(&[255, 255, 255], &[0, 0, 0]), 765);
    assert_eq!(px_dist(px(9, 0, 0), px(0, 9, 0)), 18);
}

#[test]
fn clone_array_takes_first_three() {
    assert_eq!(clone_array(&[1u8, 2, 3, 4, 5]), [1, 2, 3]);
    assert_eq!(clone_array(&[7i32, 8, 9]), [7, 8, 9]);
}

#[test]
fn lexicographic_order_on_triples() {
    assert!(px_le(px(0, 200, 200), px(1, 0, 0)));
    assert!(px_le(px(5, 1, 9), px(5, 2, 0)));
    assert!(px_le(px(5, 5, 5), px(5, 5, 5)));
    assert!(!px_le(px(5, 5, 6), px(5, 5, 5)));
}

#[test]
fn store_is_sorted_ascending() {
    let buf: Vec<u8> = vec![9, 9, 9, 0, 0, 1, 0, 0, 0, 9, 9, 9, 0, 0, 1];
    let mut pixels = pixels_from_buffer(&buf);
    assert_eq!(pixels.len(), 5);
    sort_pixels(&mut pixels);
    for w in pixels.windows(2) {
        assert!(px_le(w[0], w[1]));
    }
    assert_eq!(
        pixels,
        vec![px(0, 0, 0), px(0, 0, 1), px(0, 0, 1), px(9, 9, 9), px(9, 9, 9)]
    );
}

#[test]
fn dedup_collapses_adjacent_runs() {
    let v = vec![px(1, 1, 1), px(1, 1, 1), px(2, 2, 2), px(2, 2, 2), px(2, 2, 2), px(3, 3, 3)];
    assert_eq!(dedup_pixels(&v), vec![px(1, 1, 1), px(2, 2, 2), px(3, 3, 3)]);
    let empty: Vec<Px> = Vec::new();
    assert_eq!(dedup_pixels(&empty), empty);
}

#[test]
fn assignment_ties_go_to_the_last_centroid() {
    // (10,0,0) sits 10 away from both centroids: the later one wins
    let cents = vec![px(0, 0, 0), px(20, 0, 0)];
    assert_eq!(assign_bin(px(10, 0, 0), &cents), 1);
    // a strictly closer earlier centroid still wins
    let cents2 = vec![px(10, 0, 0), px(0, 0, 0)];
    assert_eq!(assign_bin(px(10, 0, 0), &cents2), 0);
}

#[test]
fn binning_groups_by_nearest_centroid() {
    let cents = vec![px(0, 0, 0), px(100, 100, 100)];
    let pixels = vec![px(1, 0, 0), px(1, 0, 0), px(99, 99, 99)];
    let bins = make_bins(&cents, &pixels);
    assert_eq!(bins.len(), 2);
    assert_eq!(bins[0], vec![px(1, 0, 0), px(1, 0, 0)]);
    assert_eq!(bins[1], vec![px(99, 99, 99)]);
}

#[test]
fn empty_bin_averages_to_black() {
    let empty: Vec<Px> = Vec::new();
    assert_eq!(bin_mean(&empty), px(0, 0, 0));
    let bin = vec![px(10, 0, 255), px(11, 0, 0)];
    assert_eq!(bin_mean(&bin), px(10, 0, 127));
}

#[test]
fn refine_replaces_each_centroid_with_its_bin_mean() {
    let cents = vec![px(0, 0, 0), px(100, 100, 100)];
    let pixels = vec![px(2, 0, 0), px(4, 0, 0), px(98, 98, 98)];
    let next = refine(&cents, &pixels);
    assert_eq!(next, vec![px(3, 0, 0), px(98, 98, 98)]);
}

#[test]
fn palette_equality_is_entrywise() {
    let a = vec![px(1, 2, 3), px(4, 5, 6)];
    let b = vec![px(1, 2, 3), px(4, 5, 6)];
    let c = vec![px(1, 2, 3), px(4, 5, 7)];
    assert!(px_vec_eq(&a, &b));
    assert!(!px_vec_eq(&a, &c));
    assert!(!px_vec_eq(&a, &vec![px(1, 2, 3)]));
}

#[test]
fn greedy_seeder_places_far_apart_colors() {
    let unique = vec![px(0, 0, 255), px(255, 0, 0)];
    let seeded = seed_centroids(&unique, 2);
    assert_eq!(seeded, vec![px(255, 0, 0), px(0, 0, 255)]);
}

#[test]
fn seeder_with_one_bin_keeps_black() {
    // with a single slot there is no other centroid to be far from,
    // so no color ever beats the zero record
    let unique = vec![px(50, 60, 70)];
    assert_eq!(seed_centroids(&unique, 1), vec![px(0, 0, 0)]);
}

#[test]
fn converged_palette_is_reproduced_by_refine() {
    let pixels = vec![px(0, 0, 255), px(0, 0, 255), px(255, 0, 0), px(255, 0, 0)];
    let init = vec![px(255, 0, 0), px(0, 0, 255)];
    let (palette, converged) = cluster(init, &pixels, 1_000_000);
    assert!(converged);
    let again = refine(&palette, &pixels);
    assert_eq!(again, palette);
}

#[test]
fn approximate_snaps_to_bin_colors() {
    let pixels = vec![px(0, 0, 0), px(10, 0, 0)];
    let cents = vec![px(5, 0, 0)];
    assert_eq!(approximate(&cents, &pixels), vec![px(0, 0, 0)]);
}

#[test]
fn hex_rendering() {
    assert_eq!(rgb_string(&[255, 0, 10], false), "#ff000a");
    assert_eq!(rgb_string(&[0, 0, 0], false), "#000000");
    assert_eq!(rgb_string(&[171, 205, 239], false), "#abcdef");
}

#[test]
fn true_color_rendering_appends_a_swatch() {
    assert_eq!(
        rgb_string(&[255, 0, 10], true),
        "#ff000a \x1b[48;2;255;0;10m       \x1b[0m"
    );
    assert_eq!(rgb_string(&[0, 99, 7], true), "#006307 \x1b[48;2;0;99;7m       \x1b[0m");
}
