use voxel_ray_traversal::tile_compression::{
    classify_tiles, valid_mask_for_tile, TilePayload, TILE_EMPTY_BIT, TILE_PAYLOAD_INDEX_MASK,
    TILE_UNIFORM_BIT, TILE_UNIFORM_VALUE_BIT,
};

#[test]
fn payload_lanes_split_low_to_high() {
    let bits: u128 = 0x0403_0201_0000_0003_0000_0002_0000_0001u128 | (7u128 << 96);
    let p = TilePayload::from_u128(bits);
    assert_eq!(p.occupancy[0], 1);
    assert_eq!(p.occupancy[1], 2);
    assert_eq!(p.occupancy[2], 3);
    assert_eq!(p.occupancy[3], 0x0403_0207);
    // Joining the lanes back gives the bits again.
    let joined = (p.occupancy[0] as u128)
        | ((p.occupancy[1] as u128) << 32)
        | ((p.occupancy[2] as u128) << 64)
        | ((p.occupancy[3] as u128) << 96);
    assert_eq!(joined, bits);
}

#[test]
fn inner_tile_mask_is_full() {
    assert_eq!(valid_mask_for_tile((0, 0, 0), (4, 4, 8)), u128::MAX);
    assert_eq!(valid_mask_for_tile((1, 1, 1), (8, 8, 16)), u128::MAX);
}

#[test]
fn tile_outside_dims_has_no_valid_voxel() {
    assert_eq!(valid_mask_for_tile((1, 0, 0), (4, 4, 8)), 0);
    assert_eq!(valid_mask_for_tile((0, 0, 0), (0, 4, 8)), 0);
}

#[test]
fn edge_tile_mask_keeps_voxels_inside_dims() {
    // One voxel column in x, one row in y, two layers in z: bits 0 and 4.
    assert_eq!(valid_mask_for_tile((0, 0, 0), (1, 1, 2)), 0b1_0001);
    // x = 1 starts at bit 32.
    assert_eq!(valid_mask_for_tile((0, 0, 0), (2, 1, 1)), 1 | (1u128 << 32));
}

#[test]
fn counts_cover_every_tile_and_payloads_match_dense_tiles() {
    let dims = (8, 4, 8);
    let storage = (2, 1, 1);
    let dense = 0b1011u128;
    let result = classify_tiles(&[dense, 0], dims, storage);
    let stats = result.stats;
    assert_eq!(stats.empty_tiles + stats.uniform_tiles + stats.dense_tiles, 2);
    assert_eq!(result.payloads.len(), stats.dense_tiles);
    assert_eq!(result.mask_entries, vec![0, TILE_EMPTY_BIT]);
    assert_eq!(result.payloads[0], TilePayload::from_u128(dense));
}

#[test]
fn dense_entries_index_payloads_in_order() {
    let dims = (12, 4, 8);
    let storage = (3, 1, 1);
    let result = classify_tiles(&[1, u128::MAX, 2], dims, storage);
    assert_eq!(result.mask_entries[0] & TILE_PAYLOAD_INDEX_MASK, 0);
    assert_eq!(result.mask_entries[1], TILE_UNIFORM_BIT | TILE_UNIFORM_VALUE_BIT);
    assert_eq!(result.mask_entries[2], 1);
    assert_eq!(result.payloads, vec![TilePayload::from_u128(1), TilePayload::from_u128(2)]);
}

fn decoded(entry: u32, payloads: &[TilePayload], b: u32) -> bool {
    if entry & TILE_EMPTY_BIT != 0 {
        false
    } else if entry & TILE_UNIFORM_BIT != 0 {
        entry & TILE_UNIFORM_VALUE_BIT != 0
    } else {
        let lanes = payloads[(entry & TILE_PAYLOAD_INDEX_MASK) as usize].occupancy;
        (lanes[(b / 32) as usize] >> (b % 32)) & 1 == 1
    }
}

#[test]
fn mask_and_payloads_give_back_every_voxel_inside_the_grid() {
    let dims = (7, 5, 9);
    let storage = (2, 2, 2);
    let blocks: Vec<u128> = vec![
        0,
        u128::MAX,
        0x0123_4567_89AB_CDEF_FEDC_BA98_7654_3210,
        1 << 100,
        u128::MAX,
        0xFFFF,
        7,
        u128::MAX - 1,
    ];
    let result = classify_tiles(&blocks, dims, storage);
    for (i, &raw) in blocks.iter().enumerate() {
        let i = i as u32;
        let tile = (i % 2, (i / 2) % 2, i / 4);
        let valid = valid_mask_for_tile(tile, dims);
        for b in 0..128u32 {
            if (valid >> b) & 1 == 1 {
                assert_eq!(decoded(result.mask_entries[i as usize], &result.payloads, b), (raw >> b) & 1 == 1);
            }
        }
    }
}

#[test]
fn each_tile_reads_back_as_its_block_inside_the_grid() {
    let dims = (6, 4, 8);
    let storage = (2, 1, 1);
    let blocks = vec![0xF0F0u128, u128::MAX];
    let result = classify_tiles(&blocks, dims, storage);
    for (i, &raw) in blocks.iter().enumerate() {
        let valid = valid_mask_for_tile((i as u32, 0, 0), dims);
        let e = result.mask_entries[i];
        let word = if e & TILE_EMPTY_BIT != 0 {
            0
        } else if e & TILE_UNIFORM_BIT != 0 {
            valid
        } else {
            let lanes = result.payloads[(e & TILE_PAYLOAD_INDEX_MASK) as usize].occupancy;
            (0..4).fold(0u128, |w, k| w | ((lanes[k] as u128) << (32 * k)))
        };
        assert_eq!(word, raw & valid);
    }
}
