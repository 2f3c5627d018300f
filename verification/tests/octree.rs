use voxel_ray_traversal::octree::{build_octree, OctNode, OctreeGridInfo};

fn dense(dims: (u32, u32, u32), solid: &[(u32, u32, u32)]) -> Vec<bool> {
    let mut occ = vec![false; (dims.0 * dims.1 * dims.2) as usize];
    for &(x, y, z) in solid {
        occ[(x + dims.0 * (y + dims.1 * z)) as usize] = true;
    }
    occ
}

#[test]
fn empty_grid_is_one_empty_leaf() {
    let (nodes, depth) = build_octree((0, 0, 0), &[], None);
    assert_eq!(nodes.len(), 1);
    assert_eq!(nodes[0].first_child, u32::MAX);
    assert_eq!(nodes[0].mask, 0);
    assert_eq!(depth, 0);
}

#[test]
fn full_grid_is_one_full_leaf() {
    let occ = vec![true; 8];
    let (nodes, depth) = build_octree((2, 2, 2), &occ, None);
    assert_eq!(nodes.len(), 1);
    assert_eq!(nodes[0].first_child, u32::MAX);
    assert_eq!(nodes[0].mask, 0xFF);
    assert_eq!(depth, 0);
}

#[test]
fn empty_region_of_a_grid_is_an_empty_leaf() {
    let occ = vec![false; 64];
    let (nodes, depth) = build_octree((4, 4, 4), &occ, None);
    assert_eq!(nodes.len(), 1);
    assert_eq!(nodes[0].first_child, u32::MAX);
    assert_eq!(nodes[0].mask, 0);
    assert_eq!(depth, 0);
}

#[test]
fn single_voxel_splits_root_into_eight_leaves() {
    let occ = dense((2, 2, 2), &[(0, 0, 0)]);
    let (nodes, depth) = build_octree((2, 2, 2), &occ, None);
    assert_eq!(nodes.len(), 9);
    assert_eq!(nodes[0].first_child, 1);
    for (i, node) in nodes.iter().enumerate().skip(1) {
        assert_eq!(node.first_child, u32::MAX);
        assert_eq!(node.mask, if i == 1 { 1 } else { 0 });
    }
    assert_eq!(depth, 1);
}

#[test]
fn depth_limit_shrinks_the_covered_region() {
    let occ = dense((4, 4, 4), &[(0, 0, 0), (1, 1, 1), (3, 3, 3)]);
    // Depth 0: the root is a single voxel at the origin.
    let (nodes, depth) = build_octree((4, 4, 4), &occ, Some(0));
    assert_eq!(nodes.len(), 1);
    assert_eq!(nodes[0].first_child, u32::MAX);
    assert_eq!(nodes[0].mask, 1);
    assert_eq!(depth, 0);
    // Depth 1: the root covers the 2x2x2 corner and splits into voxels.
    let (nodes, depth) = build_octree((4, 4, 4), &occ, Some(1));
    assert_eq!(nodes.len(), 9);
    assert_eq!(nodes[0].first_child, 1);
    let masks: Vec<u8> = nodes[1..].iter().map(|n| n.mask).collect();
    assert_eq!(masks, vec![1, 0, 0, 0, 0, 0, 0, 1]);
    assert_eq!(depth, 1);
}

#[test]
fn later_children_are_expanded_first() {
    let occ = vec![true; 3];
    let (nodes, depth) = build_octree((3, 1, 1), &occ, None);
    assert_eq!(nodes.len(), 25);
    assert_eq!(depth, 2);
    assert_eq!(nodes[0].first_child, 1);
    // Child 1 of the root (origin (2, 0, 0)) is split before child 0.
    assert_eq!(nodes[2].first_child, 9);
    assert_eq!(nodes[1].first_child, 17);
    for i in 3..9 {
        assert_eq!(nodes[i].first_child, u32::MAX);
        assert_eq!(nodes[i].mask, 0);
    }
    assert_eq!(nodes[9].mask, 1);
    for i in 10..17 {
        assert_eq!(nodes[i].mask, 0);
    }
    assert_eq!(nodes[17].mask, 1);
    assert_eq!(nodes[18].mask, 1);
    for i in 19..25 {
        assert_eq!(nodes[i].mask, 0);
    }
    for i in 9..25 {
        assert_eq!(nodes[i].first_child, u32::MAX);
    }
}

#[test]
fn every_internal_node_points_at_eight_children_in_range() {
    let occ = dense((5, 3, 6), &[(0, 0, 0), (4, 2, 5), (2, 1, 3), (3, 0, 1)]);
    let (nodes, _depth) = build_octree((5, 3, 6), &occ, None);
    for node in &nodes {
        if node.first_child != u32::MAX {
            assert!(node.first_child as usize + 8 <= nodes.len());
            assert!(node.first_child > 0);
        }
    }
}

#[test]
fn grid_info_defaults_to_zero() {
    let info = OctreeGridInfo::default();
    assert_eq!((info.node_offset, info.node_count, info.max_depth, info.flags), (0, 0, 0, 0));
    let node = OctNode::default();
    assert_eq!(node.first_child, 0);
    assert_eq!(node.mask, 0);
}

fn assert_linear_layout(nodes: &[OctNode]) {
    assert_eq!(nodes.len() % 8, 1);
    let mut owner = vec![None; nodes.len()];
    for (i, node) in nodes.iter().enumerate() {
        assert_eq!(node._pad, [0, 0, 0]);
        if node.first_child != u32::MAX {
            let fc = node.first_child as usize;
            assert!(i < fc && fc + 8 <= nodes.len());
            assert_eq!(node.mask, 0);
            for j in fc..fc + 8 {
                assert!(owner[j].is_none());
                owner[j] = Some(i);
            }
        }
    }
    assert!(owner.iter().skip(1).all(|o| o.is_some()));
}

#[test]
fn nodes_have_zero_padding_and_a_linear_layout() {
    let full = build_octree((2, 2, 2), &vec![true; 8], None).0;
    assert_eq!(full[0]._pad, [0, 0, 0]);
    assert_linear_layout(&full);
    let empty = build_octree((4, 4, 4), &vec![false; 64], None).0;
    assert_eq!(empty[0]._pad, [0, 0, 0]);
    let occ = dense((5, 3, 6), &[(0, 0, 0), (4, 2, 5), (2, 1, 3), (3, 0, 1)]);
    assert_linear_layout(&build_octree((5, 3, 6), &occ, None).0);
    assert_linear_layout(&build_octree((3, 1, 1), &[true; 3], None).0);
}
