use voxel_ray_traversal::model::{DiscoveredModel, Model, RenderMode};

#[test]
fn model_paths_name_the_bundled_meshes() {
    assert_eq!(Model::Bunny.path("/home/me/proj"), "/home/me/proj/models/bunny_remeshed.ply");
    assert_eq!(Model::Dragon.path("/home/me/proj/"), "/home/me/proj/models/dragon.ply");
    assert_eq!(Model::Armadillo.path(""), "models/armadillo.ply");
}

#[test]
fn discovered_model_clones_field_for_field() {
    let m = DiscoveredModel { path: "models/x.vox".into(), name: "x".into(), extension: "vox".into() };
    let c = m.clone();
    assert_eq!((c.path, c.name, c.extension), (m.path, m.name, m.extension));
}

#[test]
fn render_modes_compare() {
    assert_eq!(RenderMode::Depth, RenderMode::Depth);
    assert_ne!(RenderMode::Coord, RenderMode::Normal);
}
