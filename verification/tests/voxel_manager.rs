use voxel_ray_traversal::model::DiscoveredModel;
use voxel_ray_traversal::voxel_manager::{default_storage, VoxelManager};

fn model(name: &str, ext: &str) -> DiscoveredModel {
    DiscoveredModel {
        path: format!("models/{name}.{ext}"),
        name: name.to_string(),
        extension: ext.to_string(),
    }
}

type Manager = VoxelManager<&'static str, u8, u8>;

fn manager() -> Manager {
    VoxelManager::new(64, vec![model("a", "ply"), model("b", "vox"), model("c", "ply")], 0)
}

#[test]
fn new_manager_has_one_pending_grid_per_model() {
    let m = manager();
    assert_eq!(m.grid_resolutions, vec![64, 64, 64]);
    assert_eq!(m.grid_dims, vec![(64, 64, 64); 3]);
    assert_eq!(m.grid_storage, vec![(16, 16, 8); 3]);
    assert_eq!(m.future_grid_resolutions, vec![64, 64, 64]);
    assert_eq!(m.voxel_pending, vec![true; 3]);
    assert_eq!(m.voxel_progress, vec![(0, 0); 3]);
    assert!(m.voxel_views.iter().all(|v| v.is_none()));
    assert_eq!(m.active_voxel_grids, 3);
    assert_eq!(m.voxel_generation, 1);
    assert!(!m.cancel_requested);
}

#[test]
fn manager_without_models_keeps_one_slot() {
    let m: Manager = VoxelManager::new(32, vec![], 0);
    assert_eq!(m.grid_resolutions, vec![32]);
    assert_eq!(m.active_voxel_grids, 1);
    assert_eq!(default_storage(32), (8, 8, 4));
}

#[test]
fn stale_messages_change_nothing() {
    let mut m = manager();
    m.record_progress(7, 0, 5, 10);
    assert_eq!(m.voxel_progress[0], (0, 0));
    assert!(!m.accepts_result(7, 0));
    assert!(!m.record_palette_slice(7, 0, vec![1, 2]));
    assert!(m.palette_slices[0].is_none());
    assert!(!m.record_cancelled(7));
}

#[test]
fn current_results_fill_their_slot() {
    let mut m = manager();
    m.record_progress(1, 1, 5, 10);
    assert_eq!(m.voxel_progress[1], (5, 10));
    assert!(m.accepts_result(1, 1));
    assert!(!m.accepts_result(1, 3));
    m.store_result(1, "voxels", "colors", 24, (20, 21, 22), (5, 6, 3));
    assert_eq!(m.voxel_views[1], Some("voxels"));
    assert_eq!(m.color_index_views[1], Some("colors"));
    assert_eq!(m.voxel_pending, vec![true, false, true]);
    assert_eq!(m.grid_resolutions[1], 24);
    assert_eq!(m.grid_dims[1], (20, 21, 22));
    assert_eq!(m.grid_storage[1], (5, 6, 3));
    assert!(m.record_palette_slice(1, 1, vec![4, 5]));
    assert_eq!(m.palette_slices[1], Some(vec![4, 5]));
    let ready = m.refresh_active_grids();
    assert_eq!(ready, vec![1]);
    assert_eq!(m.active_voxel_grids, 1);
}

#[test]
fn cancel_refuses_results_and_clears_pending() {
    let mut m = manager();
    m.cancel();
    assert!(!m.accepts_result(1, 0));
    assert!(!m.record_palette_slice(1, 0, vec![1]));
    assert!(m.record_cancelled(1));
    assert_eq!(m.voxel_pending, vec![false; 3]);
}

#[test]
fn new_generation_makes_old_results_stale() {
    let mut m = manager();
    m.store_result(0, "v", "c", 64, (1, 1, 1), (1, 1, 1));
    m.cancel();
    let g = m.begin_generation();
    assert_eq!(g, 2);
    assert_eq!(m.voxel_generation, 2);
    assert!(!m.cancel_requested);
    assert_eq!(m.voxel_pending, vec![true; 3]);
    assert!(m.voxel_views.iter().all(|v| v.is_none()));
    assert_eq!(m.active_voxel_grids, 0);
    assert!(!m.accepts_result(1, 0));
    assert!(m.accepts_result(2, 0));
    m.voxel_generation = u64::MAX;
    assert_eq!(m.begin_generation(), 0);
}

#[test]
fn palette_is_packed_once_everything_is_ready() {
    let mut m = manager();
    assert_eq!(m.compact_palette(9), None);
    for (i, colors) in [vec![1u8, 2], vec![3u8], vec![4u8, 5, 6]].into_iter().enumerate() {
        m.store_result(i, "v", "c", 64, (64, 64, 64), (16, 16, 8));
        assert!(m.record_palette_slice(1, i, colors));
    }
    assert!(m.all_ready());
    assert_eq!(m.compact_palette(9), Some(vec![1, 2, 3, 4, 5, 6]));
    assert_eq!(m.palette_bases, vec![0, 2, 3]);
    assert_eq!(m.palette_lens, vec![2, 1, 3]);
    assert_eq!(m.palette_ranges(&vec![2, 0, 7]), vec![(3, 3), (0, 2), (0, 0)]);
}

#[test]
fn regeneration_rounds_requests_except_vox() {
    let mut m = manager();
    m.future_grid_resolutions = vec![20, 100, 33];
    m.regenerate_resolutions();
    assert_eq!(m.grid_resolutions, vec![24, 64, 40]);
    assert_eq!(m.voxel_resolution, 64);
}

#[test]
fn transforms_grow_to_one_per_model() {
    let mut m = manager();
    m.grid_user_transforms = vec![];
    assert!(m.set_user_transform(1, 7, 0));
    assert_eq!(m.grid_user_transforms, vec![0, 7, 0]);
    assert!(!m.set_user_transform(3, 7, 0));
    assert_eq!(m.grid_user_transforms, vec![0, 7, 0]);
}

#[test]
fn finished_grids_are_counted() {
    let mut m = manager();
    assert_eq!(m.finished_grid_count(), 0);
    m.store_result(2, "v", "c", 64, (1, 1, 1), (1, 1, 1));
    assert_eq!(m.finished_grid_count(), 1);
}

#[test]
fn resolution_requests_round_up() {
    let mut m = manager();
    assert_eq!(m.request_resolution(1, 100), 104);
    assert_eq!(m.future_grid_resolutions, vec![64, 104, 64]);
    assert_eq!(m.requested_resolution(1), 104);
    assert_eq!(m.request_resolution(9, 9), 16);
    assert_eq!(m.future_grid_resolutions, vec![64, 104, 64]);
    m.future_grid_resolutions = vec![];
    assert_eq!(m.requested_resolution(1), 64);
    m.grid_resolutions = vec![];
    assert_eq!(m.requested_resolution(1), 64);
}

#[test]
fn model_change_resets_requests_and_clamps_active_grids() {
    let mut m = manager();
    m.future_grid_resolutions = vec![8, 8, 8];
    m.grid_resolutions = vec![16, 24, 32];
    m.active_voxel_grids = 10;
    let r = m.reset_requests();
    assert_eq!(r, vec![16, 24, 32]);
    assert_eq!(m.future_grid_resolutions, vec![16, 24, 32]);
    assert_eq!(m.active_voxel_grids, 4);
    m.active_voxel_grids = 0;
    m.reset_requests();
    assert_eq!(m.active_voxel_grids, 1);
}

#[test]
fn tables_stay_aligned_until_one_is_cut() {
    let mut m = manager();
    assert!(m.tables_aligned());
    m.begin_generation();
    assert!(m.tables_aligned());
    m.palette_lens.pop();
    assert!(!m.tables_aligned());
}
