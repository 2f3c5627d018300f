use voxel_ray_traversal::zoom::{clamp_block_origin, depth_sample_indices, plan_depth_sample, DepthSamplePlan};

#[test]
fn block_is_centred_where_it_fits() {
    assert_eq!(clamp_block_origin(50, 100, 9), 46);
}

#[test]
fn block_is_pushed_inside_near_the_edges() {
    assert_eq!(clamp_block_origin(2, 100, 9), 0);
    assert_eq!(clamp_block_origin(99, 100, 9), 91);
    assert_eq!(clamp_block_origin(5, 4, 9), 0);
    assert_eq!(clamp_block_origin(0, 9, 9), 0);
}

#[test]
fn no_plan_for_an_empty_image() {
    assert_eq!(plan_depth_sample([0, 10], [0, 0]), None);
    assert_eq!(plan_depth_sample([10, 0], [0, 0]), None);
}

#[test]
fn plan_centres_on_the_focus() {
    let plan = plan_depth_sample([100, 50], [40, 20]).unwrap();
    assert_eq!(
        plan,
        DepthSamplePlan { base_x: 36, base_y: 16, block_w: 9, block_h: 9, center_x: 4, center_y: 4 }
    );
    let idx = depth_sample_indices(&plan);
    assert_eq!(idx.len(), 13);
    // The focus pixel comes first, then its right and left neighbours.
    assert_eq!(idx[0], 4 * 9 + 4);
    assert_eq!(idx[1], 4 * 9 + 5);
    assert_eq!(idx[2], 4 * 9 + 3);
}

#[test]
fn focus_outside_the_image_is_clamped() {
    let plan = plan_depth_sample([5, 3], [10, 10]).unwrap();
    assert_eq!(
        plan,
        DepthSamplePlan { base_x: 0, base_y: 0, block_w: 5, block_h: 3, center_x: 4, center_y: 2 }
    );
    let idx = depth_sample_indices(&plan);
    // Offsets leaving the block are skipped: (0,0), (-1,0), (0,-1), (-1,-1), (-2,0), (0,-2).
    assert_eq!(idx, vec![14, 13, 9, 8, 12, 4]);
}
