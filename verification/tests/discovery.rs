use voxel_ray_traversal::discovery::{accept_model_files, discover_models, sort_models_by_name, ModelFile};

fn file(stem: &str, ext: &str) -> ModelFile {
    ModelFile { path: format!("models/{stem}.{ext}"), stem: stem.to_string(), extension: ext.to_string() }
}

#[test]
fn only_ply_and_vox_files_are_models() {
    let files = vec![file("a", "PLY"), file("b", "txt"), file("c", "Vox"), file("d", "")];
    let models = accept_model_files(&files);
    let got: Vec<(String, String)> = models.iter().map(|m| (m.name.clone(), m.extension.clone())).collect();
    assert_eq!(got, vec![("a".to_string(), "ply".to_string()), ("c".to_string(), "vox".to_string())]);
    assert_eq!(models[0].path, "models/a.PLY");
}

#[test]
fn models_are_listed_by_stem() {
    let files = vec![file("dragon", "ply"), file("Teapot", "vox"), file("bunny", "ply"), file("chr_cat", "vox")];
    let names: Vec<String> = discover_models(&files).into_iter().map(|m| m.name).collect();
    // Byte order: upper case sorts before lower case.
    assert_eq!(names, vec!["Teapot", "bunny", "chr_cat", "dragon"]);
}

#[test]
fn equal_stems_keep_their_order() {
    let files = vec![file("x", "vox"), file("a", "ply"), file("x", "ply")];
    let models = sort_models_by_name(accept_model_files(&files));
    let got: Vec<String> = models.iter().map(|m| format!("{}.{}", m.name, m.extension)).collect();
    assert_eq!(got, vec!["a.ply", "x.vox", "x.ply"]);
}

#[test]
fn prefix_sorts_first() {
    let files = vec![file("abc", "ply"), file("ab", "ply"), file("b", "ply")];
    let names: Vec<String> = discover_models(&files).into_iter().map(|m| m.name).collect();
    assert_eq!(names, vec!["ab", "abc", "b"]);
}

#[test]
fn no_files_no_models() {
    assert!(discover_models(&vec![]).is_empty());
}

#[test]
fn discovered_models_with_equal_stems_keep_file_order() {
    let files = vec![file("x", "VOX"), file("b", "ply"), file("x", "ply"), file("a", "txt")];
    let got: Vec<String> = discover_models(&files).iter().map(|m| format!("{}.{}", m.name, m.extension)).collect();
    assert_eq!(got, vec!["b.ply", "x.vox", "x.ply"]);
}
