use voxel_ray_traversal::packing::pack_cubic_voxel;

#[test]
fn packs_voxels_in_the_cubic_layout() {
    let resolution = 8usize;
    let mut voxels = vec![0u128; resolution * resolution * resolution / 128];
    assert_eq!(voxels.len(), 4);
    assert!(pack_cubic_voxel(&mut voxels, resolution, 0, 0, 0));
    assert_eq!(voxels[0], 1);
    // x = 5: texel 1, lane 1.
    assert!(pack_cubic_voxel(&mut voxels, resolution, 5, 0, 0));
    assert_eq!(voxels[1], 1u128 << 32);
    // y = 6, z = 3: texel (0 + (6 / 4) * 8) / 4 = 2, bit 2 + 12.
    assert!(pack_cubic_voxel(&mut voxels, resolution, 0, 6, 3));
    assert_eq!(voxels[2], 1u128 << 14);
    assert_eq!(voxels[3], 0);
}

#[test]
fn packing_twice_sets_one_bit() {
    let mut voxels = vec![0u128; 4];
    assert!(pack_cubic_voxel(&mut voxels, 8, 3, 2, 7));
    let once = voxels.clone();
    assert!(pack_cubic_voxel(&mut voxels, 8, 3, 2, 7));
    assert_eq!(voxels, once);
    assert_eq!(voxels[0], 1u128 << (3 * 32 + 2 + 7 * 4));
}

#[test]
fn voxel_outside_the_grid_is_refused() {
    let mut voxels = vec![0u128; 4];
    assert!(!pack_cubic_voxel(&mut voxels, 8, 0, 0, 8));
    assert!(!pack_cubic_voxel(&mut voxels, 8, usize::MAX, 0, 0));
    assert_eq!(voxels, vec![0u128; 4]);
}
