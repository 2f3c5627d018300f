use voxel_ray_traversal::grids::{apply_future_resolutions, compact_palette_slices};

#[test]
fn requested_resolutions_round_up_to_multiples_of_eight() {
    let mut current = vec![16, 32, 64];
    let max = apply_future_resolutions(&mut current, &vec![20, 33, 8], &vec![false, false, false]);
    assert_eq!(current, vec![24, 40, 8]);
    assert_eq!(max, Some(40));
}

#[test]
fn vox_grids_keep_their_resolution() {
    let mut current = vec![16, 32];
    let max = apply_future_resolutions(&mut current, &vec![100, 100], &vec![true, false]);
    assert_eq!(current, vec![16, 104]);
    assert_eq!(max, Some(104));
}

#[test]
fn grids_without_request_keep_their_resolution() {
    let mut current = vec![16, 32, 48];
    let max = apply_future_resolutions(&mut current, &vec![1], &vec![]);
    assert_eq!(current, vec![8, 32, 48]);
    assert_eq!(max, Some(48));
}

#[test]
fn no_grids_no_maximum() {
    let mut current: Vec<u32> = vec![];
    assert_eq!(apply_future_resolutions(&mut current, &vec![8, 16], &vec![]), None);
    assert!(current.is_empty());
}

#[test]
fn palettes_are_packed_in_grid_order() {
    let slices = vec![Some(vec![1u8, 2]), None, Some(vec![3u8]), Some(vec![])];
    let (packed, bases, lens) = compact_palette_slices(&slices, 9u8);
    assert_eq!(packed, vec![1, 2, 3]);
    assert_eq!(bases, vec![0, 0, 2, 3]);
    assert_eq!(lens, vec![2, 0, 1, 0]);
    // Each slice is found at its base.
    assert_eq!(packed[bases[2] as usize], 3);
}

#[test]
fn empty_palettes_pack_to_the_fallback() {
    let slices: Vec<Option<Vec<u8>>> = vec![None, Some(vec![])];
    let (packed, bases, lens) = compact_palette_slices(&slices, 9u8);
    assert_eq!(packed, vec![9]);
    assert_eq!(bases, vec![0, 0]);
    assert_eq!(lens, vec![0, 0]);
}
