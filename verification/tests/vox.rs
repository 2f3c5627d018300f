use voxel_ray_traversal::vox::{vox_scene_to_voxels, vox_to_voxels, VoxColor, VoxModel, VoxScene, VoxVoxel};

fn palette() -> Vec<VoxColor> {
    let mut p = vec![VoxColor { r: 0, g: 0, b: 0, a: 255 }; 256];
    p[5] = VoxColor { r: 255, g: 0, b: 0, a: 255 };
    p[7] = VoxColor { r: 0, g: 255, b: 0, a: 255 };
    p
}

fn scene() -> VoxScene {
    VoxScene {
        models: vec![VoxModel {
            size_x: 2,
            size_y: 2,
            size_z: 2,
            voxels: vec![
                VoxVoxel { x: 0, y: 0, z: 0, i: 5 },
                VoxVoxel { x: 1, y: 0, z: 0, i: 7 },
                VoxVoxel { x: 0, y: 1, z: 0, i: 5 },
                VoxVoxel { x: 1, y: 1, z: 1, i: 0 },
            ],
        }],
        palette: palette(),
    }
}

#[test]
fn converts_first_model() {
    let r = vox_scene_to_voxels(&scene(), None, 255).unwrap();
    assert_eq!((r.dim_x, r.dim_y, r.dim_z), (2, 2, 2));
    assert_eq!((r.storage_w, r.storage_h, r.storage_d), (1, 1, 1));
    assert_eq!(r.used_resolution, 8);
    assert_eq!(r.voxels, vec![1u128 | (1u128 << 32) | (1u128 << 1) | (1u128 << 37)]);
    assert_eq!(r.colors, vec![0, 1, 0, 0, 0, 0, 0, 0]);
    assert_eq!(
        r.palette,
        vec![VoxColor { r: 255, g: 0, b: 0, a: 255 }, VoxColor { r: 0, g: 255, b: 0, a: 255 }]
    );
}

#[test]
fn palette_span_caps_the_local_palette() {
    let r = vox_scene_to_voxels(&scene(), None, 1).unwrap();
    assert_eq!(r.palette, vec![VoxColor { r: 255, g: 0, b: 0, a: 255 }]);
    assert_eq!(r.colors[1], 0);
}

#[test]
fn target_resolution_raises_the_cubic_resolution() {
    let r = vox_scene_to_voxels(&scene(), Some(20), 0).unwrap();
    assert_eq!(r.used_resolution, 24);
    let r = vox_scene_to_voxels(&scene(), Some(1), 0).unwrap();
    assert_eq!(r.used_resolution, 8);
}

#[test]
fn empty_scene_or_zero_size_gives_none() {
    let empty = VoxScene { models: vec![], palette: palette() };
    assert!(vox_scene_to_voxels(&empty, None, 0).is_none());
    let flat = VoxScene {
        models: vec![VoxModel { size_x: 3, size_y: 0, size_z: 1, voxels: vec![] }],
        palette: palette(),
    };
    assert!(vox_scene_to_voxels(&flat, None, 0).is_none());
}

#[test]
fn storage_rounds_up_to_texels() {
    let s = VoxScene {
        models: vec![VoxModel {
            size_x: 5,
            size_y: 4,
            size_z: 9,
            voxels: vec![VoxVoxel { x: 4, y: 3, z: 8, i: 0 }],
        }],
        palette: palette(),
    };
    let r = vox_scene_to_voxels(&s, None, 0).unwrap();
    assert_eq!((r.storage_w, r.storage_h, r.storage_d), (2, 1, 2));
    assert_eq!(r.voxels.len(), 4);
    // Texel (1, 0, 1) = 1 + (0 + 1 * 1) * 2 = 3; bit 0 * 32 + 3 + 0 * 4.
    assert_eq!(r.voxels[3], 1u128 << 3);
    assert_eq!(r.used_resolution, 16);
}

fn chunk(id: &[u8], content: &[u8], children: &[u8]) -> Vec<u8> {
    let mut out = id.to_vec();
    out.extend_from_slice(&(content.len() as u32).to_le_bytes());
    out.extend_from_slice(&(children.len() as u32).to_le_bytes());
    out.extend_from_slice(content);
    out.extend_from_slice(children);
    out
}

fn vox_file(size: (u32, u32, u32), voxels: &[[u8; 4]]) -> Vec<u8> {
    let mut size_content = Vec::new();
    size_content.extend_from_slice(&size.0.to_le_bytes());
    size_content.extend_from_slice(&size.1.to_le_bytes());
    size_content.extend_from_slice(&size.2.to_le_bytes());
    let mut xyzi = (voxels.len() as u32).to_le_bytes().to_vec();
    for v in voxels {
        xyzi.extend_from_slice(v);
    }
    let mut children = chunk(b"SIZE", &size_content, &[]);
    children.extend(chunk(b"XYZI", &xyzi, &[]));
    let mut out = b"VOX ".to_vec();
    out.extend_from_slice(&150u32.to_le_bytes());
    out.extend(chunk(b"MAIN", &[], &children));
    out
}

#[test]
fn loads_vox_bytes() {
    let bytes = vox_file((2, 1, 1), &[[0, 0, 0, 3], [1, 0, 0, 3]]);
    let r = vox_to_voxels(&bytes, None, 0).unwrap();
    assert_eq!((r.dim_x, r.dim_y, r.dim_z), (2, 1, 1));
    assert_eq!(r.voxels, vec![1u128 | (1u128 << 32)]);
    assert_eq!(r.colors, vec![0, 0]);
    assert_eq!(r.palette.len(), 1);
}

#[test]
fn rejects_bytes_that_are_not_vox() {
    assert!(vox_to_voxels(b"not a vox file", None, 0).is_none());
    assert!(vox_to_voxels(&[], None, 0).is_none());
}

#[test]
fn rejects_vox_without_models() {
    let mut bytes = b"VOX ".to_vec();
    bytes.extend_from_slice(&150u32.to_le_bytes());
    bytes.extend(chunk(b"MAIN", &[], &[]));
    assert!(vox_to_voxels(&bytes, None, 0).is_none());
}

#[test]
fn local_colours_name_palette_entries() {
    let r = vox_scene_to_voxels(&scene(), None, 0).unwrap();
    assert!(r.colors.iter().all(|&c| (c as usize) < r.palette.len()));
}

#[test]
fn mesh_and_vox_layouts_agree_on_cubic_grids() {
    let s = VoxScene {
        models: vec![VoxModel { size_x: 8, size_y: 8, size_z: 8, voxels: vec![VoxVoxel { x: 5, y: 6, z: 3, i: 0 }] }],
        palette: palette(),
    };
    let r = vox_scene_to_voxels(&s, None, 0).unwrap();
    let mut cubic = vec![0u128; 4];
    assert!(voxel_ray_traversal::packing::pack_cubic_voxel(&mut cubic, 8, 5, 6, 3));
    assert_eq!(r.voxels, cubic);
    assert_eq!(cubic[3], 1u128 << 46);
}

#[test]
fn unread_palette_indices_may_lie_outside_the_palette() {
    // Index 0 is never looked up, so an empty palette is enough.
    let s = VoxScene {
        models: vec![VoxModel { size_x: 1, size_y: 1, size_z: 1, voxels: vec![VoxVoxel { x: 0, y: 0, z: 0, i: 0 }] }],
        palette: vec![],
    };
    let r = vox_scene_to_voxels(&s, None, 0).unwrap();
    assert!(r.palette.is_empty());
    assert_eq!(r.voxels, vec![1u128]);
    // With a cap of one colour, the second index is never looked up either.
    let s = VoxScene {
        models: vec![VoxModel {
            size_x: 2,
            size_y: 1,
            size_z: 1,
            voxels: vec![VoxVoxel { x: 0, y: 0, z: 0, i: 1 }, VoxVoxel { x: 1, y: 0, z: 0, i: 200 }],
        }],
        palette: vec![VoxColor { r: 1, g: 2, b: 3, a: 4 }; 2],
    };
    let r = vox_scene_to_voxels(&s, None, 1).unwrap();
    assert_eq!(r.palette, vec![VoxColor { r: 1, g: 2, b: 3, a: 4 }]);
    assert_eq!(r.colors, vec![0, 0]);
}
