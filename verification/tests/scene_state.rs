use voxel_ray_traversal::model::DiscoveredModel;
use voxel_ray_traversal::render_types::{RenderSnapshotOptions, SnapshotModelSelection};
use voxel_ray_traversal::scene_state::{
    clamp_active_grids, model_key, models_from_keys, select_snapshot_models,
    snap_persisted_resolutions, sorted_unique_indices,
};

fn model(name: &str, ext: &str) -> DiscoveredModel {
    DiscoveredModel {
        path: format!("models/{name}.{ext}"),
        name: name.to_string(),
        extension: ext.to_string(),
    }
}

fn names(models: &[DiscoveredModel]) -> Vec<String> {
    models.iter().map(|m| m.name.clone()).collect()
}

#[test]
fn key_joins_name_and_extension() {
    assert_eq!(model_key(&model("bunny", "ply")), "bunny.ply");
}

#[test]
fn persisted_keys_select_available_models_in_key_order() {
    let available = vec![model("a", "ply"), model("b", "vox"), model("c", "ply")];
    let keys = vec!["c.ply".to_string(), "gone.ply".to_string(), "a.ply".to_string(), "b.ply".to_string()];
    let chosen = models_from_keys(&available, &keys);
    assert_eq!(names(&chosen), vec!["c", "a"]);
}

#[test]
fn persisted_resolutions_are_snapped() {
    let current = vec![16, 16, 16, 16];
    let saved = vec![3, 8, 13];
    assert_eq!(snap_persisted_resolutions(&current, &saved), vec![8, 8, 16, 16]);
    assert_eq!(snap_persisted_resolutions(&vec![32], &vec![]), vec![32]);
    assert_eq!(snap_persisted_resolutions(&vec![32], &vec![100, 200]), vec![104]);
}

#[test]
fn active_grids_are_clamped() {
    assert_eq!(clamp_active_grids(0, 3), 1);
    assert_eq!(clamp_active_grids(2, 3), 2);
    assert_eq!(clamp_active_grids(9, 3), 4);
    assert_eq!(clamp_active_grids(5, 0), 1);
}

#[test]
fn snapshot_selects_all_or_named_models() {
    let available = vec![model("Teapot", "ply"), model("chr_cat", "vox"), model("bunny", "ply")];
    assert!(select_snapshot_models(&available, SnapshotModelSelection::All).is_none());
    let wanted = ["teapot", "CHR_CAT.VOX", "dragon"];
    let chosen = select_snapshot_models(&available, SnapshotModelSelection::Named(&wanted)).unwrap();
    assert_eq!(names(&chosen), vec!["Teapot", "chr_cat"]);
    let none: [&str; 0] = [];
    let chosen = select_snapshot_models(&available, SnapshotModelSelection::Named(&none)).unwrap();
    assert!(chosen.is_empty());
}

#[test]
fn default_selection_is_all() {
    assert!(matches!(SnapshotModelSelection::default(), SnapshotModelSelection::All));
}

#[test]
fn indices_are_sorted_and_deduplicated() {
    assert_eq!(sorted_unique_indices(&vec![3, 1, 3, 0, 1]), vec![0, 1, 3]);
    assert_eq!(sorted_unique_indices(&vec![]), Vec::<usize>::new());
    assert_eq!(sorted_unique_indices(&vec![5]), vec![5]);
}

#[test]
fn snapshot_options_default_to_all_models_and_no_camera() {
    let o: RenderSnapshotOptions<'_, u8> = RenderSnapshotOptions::default();
    assert!(matches!(o.model_selection, SnapshotModelSelection::All));
    assert!(o.camera.is_none());
}

#[test]
fn saved_keys_restore_the_loaded_models() {
    let available = vec![model("a", "ply"), model("a", "vox"), model("b", "ply"), model("c", "vox")];
    let loaded = vec![model("c", "vox"), model("a", "vox"), model("b", "ply")];
    let keys: Vec<String> = loaded.iter().map(model_key).collect();
    let restored = models_from_keys(&available, &keys);
    let got: Vec<String> = restored.iter().map(model_key).collect();
    assert_eq!(got, keys);
}

#[test]
fn snapping_twice_changes_nothing() {
    let current = vec![16, 16, 16];
    let saved = vec![3, 13, 4096];
    let once = snap_persisted_resolutions(&current, &saved);
    let twice = snap_persisted_resolutions(&current, &once);
    assert_eq!(once, vec![8, 16, 4096]);
    assert_eq!(twice, once);
}
