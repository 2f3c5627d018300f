use voxel_ray_traversal::tile_compression::{
    classify_tiles, valid_mask_for_tile, TilePayload, TILE_EMPTY_BIT, TILE_PAYLOAD_INDEX_MASK,
    TILE_UNIFORM_BIT, TILE_UNIFORM_VALUE_BIT,
};

#[test]
fn classify_empty_tile() {
    let dims = (4, 4, 8);
    let storage = (1, 1, 1);
    let result = classify_tiles(&[0u128], dims, storage);
    assert_eq!(result.mask_entries, vec![TILE_EMPTY_BIT]);
    assert!(result.payloads.is_empty());
    assert_eq!(result.stats.empty_tiles, 1);
    assert_eq!(result.stats.uniform_tiles, 0);
    assert_eq!(result.stats.dense_tiles, 0);
}

#[test]
fn classify_uniform_tile() {
    let dims = (4, 4, 8);
    let storage = (1, 1, 1);
    let full = u128::MAX;
    let result = classify_tiles(&[full], dims, storage);
    assert_eq!(result.mask_entries, vec![TILE_UNIFORM_BIT | TILE_UNIFORM_VALUE_BIT]);
    assert!(result.payloads.is_empty());
    assert_eq!(result.stats.empty_tiles, 0);
    assert_eq!(result.stats.uniform_tiles, 1);
    assert_eq!(result.stats.dense_tiles, 0);
}

#[test]
fn classify_partial_tile() {
    let dims = (3, 3, 3);
    let storage = (1, 1, 1);
    let valid_mask = valid_mask_for_tile((0, 0, 0), dims);
    let result = classify_tiles(&[valid_mask], dims, storage);
    assert_eq!(result.mask_entries, vec![TILE_UNIFORM_BIT | TILE_UNIFORM_VALUE_BIT]);
    assert!(result.payloads.is_empty());
    assert_eq!(result.stats.uniform_tiles, 1);
}

#[test]
fn classify_dense_tile() {
    let dims = (4, 4, 8);
    let storage = (1, 1, 1);
    let mut bits = 0u128;
    bits |= 1u128 << 0; // (0,0,0)
    bits |= 1u128 << 63; // arbitrary interior bit
    let result = classify_tiles(&[bits], dims, storage);
    assert_eq!(result.mask_entries.len(), 1);
    assert_eq!(result.mask_entries[0] & TILE_PAYLOAD_INDEX_MASK, 0);
    assert_eq!(result.payloads.len(), 1);
    assert_eq!(result.payloads[0], TilePayload::from_u128(bits));
    assert_eq!(result.stats.dense_tiles, 1);
}

#[test]
fn classify_multiple_tiles() {
    let dims = (8, 4, 8);
    let storage = (2, 1, 1);
    let blocks = [0u128, u128::MAX];
    let result = classify_tiles(&blocks, dims, storage);
    assert_eq!(result.mask_entries.len(), 2);
    assert_eq!(result.mask_entries[0], TILE_EMPTY_BIT);
    assert_eq!(result.mask_entries[1], TILE_UNIFORM_BIT | TILE_UNIFORM_VALUE_BIT);
    assert!(result.payloads.is_empty());
}

#[test]
fn dense_tile_strips_invalid_bits() {
    let dims = (5, 4, 8);
    let storage = (2, 1, 1);
    let mut raw = u128::MAX;
    raw &= !(1u128 << 0); // clear one valid bit to avoid uniform classification
    // second tile partially exceeds dims along X; ensure invalid bits are dropped
    let result = classify_tiles(&[0u128, raw], dims, storage);
    assert_eq!(result.payloads.len(), 1);
    let payload_bits = &result.payloads[0].occupancy;
    // Reconstruct u128 and validate only in-range bits kept
    let sanitized = (payload_bits[0] as u128)
        | ((payload_bits[1] as u128) << 32)
        | ((payload_bits[2] as u128) << 64)
        | ((payload_bits[3] as u128) << 96);
    let valid_mask = valid_mask_for_tile((1, 0, 0), dims);
    assert_ne!(raw & !valid_mask, 0); // raw contained out-of-range bits
    assert_eq!(sanitized & !valid_mask, 0);
    assert_eq!(sanitized, valid_mask & raw);
}
