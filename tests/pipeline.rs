use brush_render::bins::{sort_by_tile, tile_bin_edges};
use brush_render::emit::{count_tiles_hit, emit_intersections, isect_range};
use brush_render::offsets::{gather_by, inclusive_prefix_sum};
use brush_render::order::{compact_visible, depth_argsort};
use brush_render::plan::plan_intersections;
use brush_render::tiles::TileRect;

fn rect(min_x: u32, min_y: u32, max_x: u32, max_y: u32) -> TileRect {
    TileRect { min_x, min_y, max_x, max_y }
}

#[test]
fn compaction_keeps_visible_in_order() {
    assert_eq!(compact_visible(&vec![true, false, true, true]), vec![0, 2, 3]);
    assert_eq!(compact_visible(&vec![false, false]), Vec::<u32>::new());
    assert_eq!(compact_visible(&vec![]), Vec::<u32>::new());
}

#[test]
fn depth_argsort_orders_by_key() {
    assert_eq!(depth_argsort(&vec![5, 1, 3], 3), vec![1, 2, 0]);
    assert_eq!(depth_argsort(&vec![5, 1, 3], 2), vec![1, 0]);
    assert_eq!(depth_argsort(&vec![5, 1, 3], 0), Vec::<u32>::new());
}

#[test]
fn depth_keys_of_positive_floats_sort_like_depths() {
    let depths = [3.5f32, 0.02, 1.0e6, 0.5, 2.0];
    let keys: Vec<u32> = depths.iter().map(|d| d.to_bits()).collect();
    let order = depth_argsort(&keys, depths.len());
    assert_eq!(order, vec![1, 3, 4, 0, 2]);
    for w in order.windows(2) {
        assert!(depths[w[0] as usize] <= depths[w[1] as usize]);
    }
}

#[test]
fn prefix_sum_is_inclusive() {
    assert_eq!(inclusive_prefix_sum(&vec![2, 0, 3]), vec![2, 2, 5]);
    assert_eq!(inclusive_prefix_sum(&vec![]), Vec::<u64>::new());
    assert_eq!(
        inclusive_prefix_sum(&vec![u32::MAX, u32::MAX]),
        vec![u32::MAX as u64, 2 * u32::MAX as u64]
    );
}

#[test]
fn permuted_counts_keep_their_total() {
    let hits = vec![4, 1, 7, 2];
    let order = depth_argsort(&vec![9, 3, 5, 1], 4);
    let gathered = gather_by(&hits, &order);
    assert_eq!(gathered, vec![2, 1, 7, 4]);
    let cum = inclusive_prefix_sum(&gathered);
    assert_eq!(*cum.last().unwrap(), hits.iter().map(|&h| h as u64).sum::<u64>());
}

#[test]
fn emission_lists_tiles_row_by_row() {
    let rects = vec![rect(0, 0, 2, 1), rect(1, 1, 3, 3)];
    assert_eq!(count_tiles_hit(&rects, 4, 4), vec![2, 4]);
    let out = emit_intersections(&rects, &vec![1, 0], 4, 4, 100);
    assert_eq!(out, vec![(5, 0), (6, 0), (9, 0), (10, 0), (0, 1), (1, 1)]);
}

#[test]
fn emission_drops_records_past_cap() {
    let rects = vec![rect(0, 0, 2, 1), rect(1, 1, 3, 3)];
    let out = emit_intersections(&rects, &vec![1, 0], 4, 4, 5);
    assert_eq!(out, vec![(5, 0), (6, 0), (9, 0), (10, 0), (0, 1)]);
    assert_eq!(emit_intersections(&rects, &vec![1, 0], 4, 4, 0), vec![]);
}

#[test]
fn tile_sort_orders_by_tile_then_depth() {
    let sorted = sort_by_tile(vec![(5, 0), (1, 2), (0, 1), (5, 3), (1, 0), (5, 1)]);
    assert_eq!(sorted, vec![(0, 1), (1, 0), (1, 2), (5, 0), (5, 1), (5, 3)]);
    assert_eq!(sort_by_tile(vec![]), vec![]);
}

#[test]
fn bin_edges_bound_each_run() {
    let isects = vec![(0, 1), (1, 0), (1, 2), (5, 0), (5, 1), (5, 3)];
    let bins = tile_bin_edges(&isects, 7);
    assert_eq!(bins, vec![(0, 1), (1, 3), (0, 0), (0, 0), (0, 0), (3, 6), (0, 0)]);
    for (t, &(start, end)) in bins.iter().enumerate() {
        assert!(start <= end);
        for i in start..end {
            assert_eq!(isects[i as usize].0, t as u32);
        }
    }
}

#[test]
fn bin_edges_of_empty_stream_are_empty() {
    assert_eq!(tile_bin_edges(&vec![], 3), vec![(0, 0), (0, 0), (0, 0)]);
}

#[test]
fn plan_of_small_frame() {
    // 32 × 20 pixels: a 2 × 2 tile grid.
    let visible = vec![true, false, true];
    let depth_keys = vec![2.0f32.to_bits(), 0.5f32.to_bits(), 1.0f32.to_bits()];
    let rects = vec![rect(0, 0, 2, 1), rect(0, 0, 2, 2), rect(1, 0, 2, 2)];
    let plan = plan_intersections(&visible, &depth_keys, &rects, 32, 20);
    assert_eq!(plan.tile_bounds, (2, 2));
    assert_eq!(plan.global_from_compact_gid, vec![0, 2]);
    assert_eq!(plan.compact_from_depthsort_gid, vec![1, 0]);
    assert_eq!(plan.num_tiles_hit, vec![2, 2]);
    assert_eq!(plan.cum_tiles_hit, vec![2, 4]);
    assert_eq!(plan.isects, vec![(0, 1), (1, 0), (1, 1), (3, 0)]);
    assert_eq!(plan.tile_bins, vec![(0, 1), (1, 3), (0, 0), (3, 4)]);
}

#[test]
fn plan_with_nothing_visible_is_empty() {
    let visible = vec![false];
    let depth_keys = vec![1.0f32.to_bits()];
    let rects = vec![rect(0, 0, 0, 0)];
    let plan = plan_intersections(&visible, &depth_keys, &rects, 32, 32);
    assert_eq!(plan.global_from_compact_gid.len(), 0);
    assert_eq!(plan.cum_tiles_hit, Vec::<u64>::new());
    assert_eq!(plan.isects, vec![]);
    assert_eq!(plan.tile_bins, vec![(0, 0); 4]);
}

#[test]
fn nearer_primitive_comes_first_in_shared_tile() {
    let visible = vec![true, true];
    let rects = vec![rect(0, 0, 1, 1), rect(0, 0, 1, 1)];
    let near_first = plan_intersections(
        &visible,
        &vec![1.0f32.to_bits(), 3.0f32.to_bits()],
        &rects,
        16,
        16,
    );
    assert_eq!(near_first.compact_from_depthsort_gid, vec![0, 1]);
    let swapped = plan_intersections(
        &visible,
        &vec![3.0f32.to_bits(), 1.0f32.to_bits()],
        &rects,
        16,
        16,
    );
    assert_eq!(swapped.compact_from_depthsort_gid, vec![1, 0]);
    assert_eq!(swapped.tile_bins, vec![(0, 2)]);
}

#[test]
fn plan_of_single_tile_frame() {
    let plan = plan_intersections(&vec![true], &vec![7], &vec![rect(0, 0, 1, 1)], 10, 10);
    assert_eq!(plan.isects, vec![(0, 0)]);
    assert_eq!(plan.tile_bins, vec![(0, 1)]);
}

#[test]
fn isect_ranges_locate_each_primitive() {
    let rects = vec![rect(0, 0, 2, 1), rect(1, 1, 3, 3), rect(3, 3, 3, 3)];
    let order = vec![1, 2, 0];
    let hits = gather_by(&count_tiles_hit(&rects, 4, 4), &order);
    assert_eq!(hits, vec![4, 0, 2]);
    let cum = inclusive_prefix_sum(&hits);
    assert_eq!(isect_range(&cum, &hits, 0), (0, 4));
    assert_eq!(isect_range(&cum, &hits, 1), (4, 4));
    assert_eq!(isect_range(&cum, &hits, 2), (4, 6));
    let out = emit_intersections(&rects, &order, 4, 4, 100);
    for d in 0..3 {
        let (start, end) = isect_range(&cum, &hits, d);
        for i in start..end {
            assert_eq!(out[i as usize].1, d as u32);
        }
    }
}

#[test]
fn records_name_only_visible_primitives() {
    let visible = vec![false, true, false, true, true];
    let depth_keys = vec![5, 4, 3, 2, 1];
    let rects = vec![rect(0, 0, 2, 2); 5];
    let plan = plan_intersections(&visible, &depth_keys, &rects, 32, 32);
    assert_eq!(plan.global_from_compact_gid, vec![1, 3, 4]);
    assert_eq!(plan.compact_from_depthsort_gid, vec![2, 1, 0]);
    assert_eq!(plan.isects.len(), 12);
    for &(tile, d) in &plan.isects {
        assert!(tile < 4);
        let g = plan.global_from_compact_gid[plan.compact_from_depthsort_gid[d as usize] as usize];
        assert!(visible[g as usize]);
    }
    assert_eq!(plan.tile_bins, vec![(0, 3), (3, 6), (6, 9), (9, 12)]);
}

fn tile_contents(
    visible: &Vec<bool>,
    keys: &Vec<u32>,
    rects: &Vec<TileRect>,
    global_name: &dyn Fn(u32) -> u32,
) -> Vec<Vec<u32>> {
    let plan = plan_intersections(visible, keys, rects, 48, 32);
    plan.tile_bins
        .iter()
        .map(|&(start, end)| {
            (start..end)
                .map(|i| {
                    let d = plan.isects[i as usize].1 as usize;
                    let g = plan.global_from_compact_gid
                        [plan.compact_from_depthsort_gid[d] as usize];
                    global_name(g)
                })
                .collect()
        })
        .collect()
}

#[test]
fn shuffled_inputs_give_same_tile_order() {
    let visible = vec![true, true, false, true];
    let keys = vec![40, 10, 5, 30];
    let rects = vec![rect(0, 0, 3, 2), rect(1, 0, 2, 2), rect(0, 0, 3, 2), rect(0, 1, 2, 2)];
    let base = tile_contents(&visible, &keys, &rects, &|g| g);

    // Input slot `s` of the shuffled frame holds primitive `perm[s]`.
    let perm = [3u32, 0, 2, 1];
    let shuffled_visible = perm.iter().map(|&g| visible[g as usize]).collect();
    let shuffled_keys = perm.iter().map(|&g| keys[g as usize]).collect();
    let shuffled_rects = perm.iter().map(|&g| rects[g as usize]).collect();
    let shuffled = tile_contents(&shuffled_visible, &shuffled_keys, &shuffled_rects, &|s| {
        perm[s as usize]
    });
    assert_eq!(base, shuffled);
    assert_eq!(base[1], vec![1, 0]);
    assert_eq!(base[3], vec![3, 0]);
    assert_eq!(base[4], vec![1, 3, 0]);
}
