//! Classification of packed 4×4×8 occupancy tiles into empty, uniform and
//! dense tiles, producing one mask word per tile and a dense payload array.
//!
//! Packed layout of one tile (one `u128`): the voxel at local coordinates
//! `(lx, ly, lz)` with `lx < 4`, `ly < 4`, `lz < 8` lives at bit
//! `lx * 32 + lz * 4 + ly`.
use vstd::prelude::*;

verus! {

/// Bit flag marking a tile entry as empty.
pub const TILE_EMPTY_BIT: u32 = 0x8000_0000;

/// Bit flag marking a tile entry as uniform (single occupancy value encoded in the low bits).
pub const TILE_UNIFORM_BIT: u32 = 0x4000_0000;

/// When `TILE_UNIFORM_BIT` is set, this bit encodes the occupancy value (0 or 1).
pub const TILE_UNIFORM_VALUE_BIT: u32 = 1;

/// Mask selecting the payload index bits for non-uniform tiles (bits 0-29).
pub const TILE_PAYLOAD_INDEX_MASK: u32 = 0x3FFF_FFFF;

/// Four 32-bit words matching the RGBA lanes of a packed 4×4×8 occupancy texel.
#[derive(Clone, Debug, Default, PartialEq, Eq)]
pub struct TilePayload {
    pub occupancy: [u32; 4],
}

/// Summary of how tiles were classified for compression statistics and debugging.
#[derive(Clone, Copy, Debug, Default, PartialEq, Eq)]
pub struct TileCompressionStats {
    pub empty_tiles: usize,
    pub uniform_tiles: usize,
    pub dense_tiles: usize,
}

/// Result of classifying a voxel grid into sparse tiles.
#[derive(Clone, Debug, Default, PartialEq, Eq)]
pub struct TileCompressionResult {
    pub mask_entries: Vec<u32>,
    pub payloads: Vec<TilePayload>,
    pub stats: TileCompressionStats,
}

// ---------------------------------------------------------------------------
// Bits and lanes
// ---------------------------------------------------------------------------
/// Bit `b` of a packed occupancy word.
pub open spec fn bit_is_set(m: u128, b: int) -> bool {
    (m >> (b as u128)) & 1u128 == 1u128
}

/// The four 32-bit lanes of a packed word, lowest lane first.
pub open spec fn payload_lanes(bits: u128) -> Seq<u32> {
    seq![
        (bits & 0xFFFF_FFFFu128) as u32,
        ((bits >> 32u128) & 0xFFFF_FFFFu128) as u32,
        ((bits >> 64u128) & 0xFFFF_FFFFu128) as u32,
        ((bits >> 96u128) & 0xFFFF_FFFFu128) as u32,
    ]
}

/// The packed word that four lanes stand for.
pub open spec fn lanes_to_bits(lanes: Seq<u32>) -> u128 {
    (lanes[0] as u128) | ((lanes[1] as u128) << 32u128) | ((lanes[2] as u128) << 64u128) | ((
    lanes[3] as u128) << 96u128)
}

/// Splitting a packed word into lanes and joining the lanes again gives the word back.
pub proof fn lemma_payload_lanes_round_trip(bits: u128)
    ensures
        lanes_to_bits(payload_lanes(bits)) == bits,
{
    assert(((bits & 0xFFFF_FFFFu128) as u32 as u128) | ((((bits >> 32u128) & 0xFFFF_FFFFu128) as u32
        as u128) << 32u128) | ((((bits >> 64u128) & 0xFFFF_FFFFu128) as u32 as u128) << 64u128) | ((((
    bits >> 96u128) & 0xFFFF_FFFFu128) as u32 as u128) << 96u128) == bits) by (bit_vector);
}

impl TilePayload {
    /// Split a packed 128-bit occupancy texel into its four 32-bit lanes.
    pub fn from_u128(bits: u128) -> (r: Self)
        ensures
            r.occupancy@ == payload_lanes(bits),
    {
        let r = Self {
            occupancy: [
                (bits & 0xFFFF_FFFFu128) as u32,
                ((bits >> 32u128) & 0xFFFF_FFFFu128) as u32,
                ((bits >> 64u128) & 0xFFFF_FFFFu128) as u32,
                ((bits >> 96u128) & 0xFFFF_FFFFu128) as u32,
            ],
        };
        assert(r.occupancy@ =~= payload_lanes(bits));
        r
    }
}

// ---------------------------------------------------------------------------
// Tile coordinates
// ---------------------------------------------------------------------------
/// Tile coordinate `(x, y, z)` of tile number `index` in an x-major grid of
/// `storage.0 × storage.1 × storage.2` tiles.
pub open spec fn tile_coord_of(index: int, storage: (u32, u32, u32)) -> (int, int, int) {
    let tiles_per_layer = storage.0 * storage.1;
    let rem = index % tiles_per_layer;
    (rem % (storage.0 as int), rem / (storage.0 as int), index / tiles_per_layer)
}

/// Tile coordinate of tile number `index` when the number is first taken as a `u32`.
pub open spec fn tile_index_coord(index: int, storage: (u32, u32, u32)) -> (int, int, int) {
    tile_coord_of(index % 0x1_0000_0000, storage)
}

/// Tile numbers are x-major: the coordinate of tile number `index` lies
/// inside the layer, and `index == x + w * (y + h * z)`.
pub proof fn lemma_tile_coord_layout(index: int, storage: (u32, u32, u32))
    requires
        storage.0 > 0,
        storage.1 > 0,
        index >= 0,
    ensures
        ({
            let (x, y, z) = tile_coord_of(index, storage);
            &&& 0 <= x < storage.0
            &&& 0 <= y < storage.1
            &&& 0 <= z
            &&& index == x + storage.0 * (y + storage.1 * z)
        }),
{
    let w = storage.0 as int;
    let h = storage.1 as int;
    let t = w * h;
    assert(t > 0) by (nonlinear_arith)
        requires
            w > 0,
            h > 0,
            t == w * h,
    ;
    let z = index / t;
    let rem = index % t;
    let y = rem / w;
    let x = rem % w;
    vstd::arithmetic::div_mod::lemma_fundamental_div_mod(index, t);
    vstd::arithmetic::div_mod::lemma_fundamental_div_mod(rem, w);
    assert(0 <= rem < t);
    assert(0 <= x < w);
    assert(0 <= y < h) by (nonlinear_arith)
        requires
            rem == w * y + x,
            0 <= x < w,
            0 <= rem < t,
            t == w * h,
            w > 0,
    ;
    assert(z >= 0) by (nonlinear_arith)
        requires
            index >= 0,
            t > 0,
            z == index / t,
    ;
    assert(index == x + w * (y + h * z)) by (nonlinear_arith)
        requires
            index == t * z + rem,
            rem == w * y + x,
            t == w * h,
    ;
}

fn index_to_tile_coord(index: u32, storage: (u32, u32, u32)) -> (r: (u32, u32, u32))
    requires
        storage.0 > 0,
        storage.1 > 0,
        storage.0 * storage.1 <= u32::MAX,
    ensures
        (r.0 as int, r.1 as int, r.2 as int) == tile_coord_of(index as int, storage),
        r.0 < storage.0,
        r.1 < storage.1,
        index == r.0 + storage.0 * (r.1 + storage.1 * r.2),
{
    proof {
        lemma_tile_coord_layout(index as int, storage);
    }
    let (storage_w, storage_h, _storage_d) = storage;
    let tiles_per_layer = storage_w * storage_h;
    assert(tiles_per_layer > 0) by (nonlinear_arith)
        requires
            tiles_per_layer == storage_w * storage_h,
            storage_w > 0,
            storage_h > 0,
    ;
    let z = index / tiles_per_layer;
    let rem = index % tiles_per_layer;
    let y = rem / storage_w;
    let x = rem % storage_w;
    (x, y, z)
}

// ---------------------------------------------------------------------------
// Valid-voxel mask of a tile
// ---------------------------------------------------------------------------
/// The voxel at local offset `(lx, ly, lz)` of tile `tile` lies inside `dims`.
pub open spec fn voxel_in_tile_bounds(
    tile: (int, int, int),
    dims: (u32, u32, u32),
    lx: int,
    ly: int,
    lz: int,
) -> bool {
    &&& tile.0 * 4 + lx < dims.0
    &&& tile.1 * 4 + ly < dims.1
    &&& tile.2 * 8 + lz < dims.2
}

/// Bit `b` of tile `tile` stands for a voxel inside `dims`.
pub open spec fn tile_bit_in_bounds(tile: (int, int, int), dims: (u32, u32, u32), b: int) -> bool {
    voxel_in_tile_bounds(tile, dims, b / 32, b % 4, (b % 32) / 4)
}

/// The union of the bits `0..n` of tile `tile` whose voxels lie inside `dims`.
pub open spec fn valid_mask_prefix(tile: (int, int, int), dims: (u32, u32, u32), n: nat) -> u128
    decreases n,
{
    if n == 0 {
        0u128
    } else {
        let prev = valid_mask_prefix(tile, dims, (n - 1) as nat);
        if tile_bit_in_bounds(tile, dims, n - 1) {
            prev | (1u128 << ((n - 1) as u128))
        } else {
            prev
        }
    }
}

/// The mask of all bits of tile `tile` whose voxels lie inside `dims`.
pub open spec fn tile_valid_mask(tile: (int, int, int), dims: (u32, u32, u32)) -> u128 {
    valid_mask_prefix(tile, dims, 128)
}

/// The first voxel coordinates of tile `tile` fit in a `u32`.
pub open spec fn tile_origin_fits(tile: (int, int, int)) -> bool {
    &&& tile.0 * 4 <= u32::MAX
    &&& tile.1 * 4 <= u32::MAX
    &&& tile.2 * 8 <= u32::MAX
}

pub(crate) proof fn lemma_bit_decomposition(lx: int, ly: int, lz: int)
    by (nonlinear_arith)
    requires
        0 <= lx < 4,
        0 <= ly < 4,
        0 <= lz < 8,
    ensures
        (lx * 32 + lz * 4 + ly) / 32 == lx,
        (lx * 32 + lz * 4 + ly) % 4 == ly,
        ((lx * 32 + lz * 4 + ly) % 32) / 4 == lz,
{
}

proof fn lemma_bit_split(b: int)
    by (nonlinear_arith)
    requires
        0 <= b < 128,
    ensures
        b == (b / 32) * 32 + ((b % 32) / 4) * 4 + b % 4,
        0 <= b / 32 < 4,
        0 <= (b % 32) / 4 < 8,
        0 <= b % 4 < 4,
{
}

proof fn lemma_prefix_skip(tile: (int, int, int), dims: (u32, u32, u32), from: nat, to: nat)
    requires
        from <= to,
        forall|b: int| from <= b < to ==> !tile_bit_in_bounds(tile, dims, b),
    ensures
        valid_mask_prefix(tile, dims, to) == valid_mask_prefix(tile, dims, from),
    decreases to - from,
{
    if to > from {
        lemma_prefix_skip(tile, dims, from, (to - 1) as nat);
    }
}

/// Bit `b` of the valid mask of a tile is set exactly when bit `b` stands
/// for a voxel inside `dims`.
pub proof fn lemma_tile_valid_mask_bits(tile: (int, int, int), dims: (u32, u32, u32), b: int)
    requires
        0 <= b < 128,
    ensures
        bit_is_set(tile_valid_mask(tile, dims), b) <==> tile_bit_in_bounds(tile, dims, b),
{
    lemma_prefix_bits(tile, dims, 128, b);
}

proof fn lemma_prefix_bits(tile: (int, int, int), dims: (u32, u32, u32), n: nat, b: int)
    requires
        n <= 128,
        0 <= b < 128,
    ensures
        bit_is_set(valid_mask_prefix(tile, dims, n), b) <==> (b < n && tile_bit_in_bounds(
            tile,
            dims,
            b,
        )),
    decreases n,
{
    if n == 0 {
        let bb = b as u128;
        assert((0u128 >> bb) & 1u128 == 0u128) by (bit_vector);
    } else {
        lemma_prefix_bits(tile, dims, (n - 1) as nat, b);
        let prev = valid_mask_prefix(tile, dims, (n - 1) as nat);
        if tile_bit_in_bounds(tile, dims, n - 1) {
            lemma_or_single_bit(prev, (n - 1) as u128, b as u128);
        }
    }
}

pub(crate) proof fn lemma_or_single_bit(m: u128, k: u128, b: u128)
    by (bit_vector)
    requires
        k < 128,
        b < 128,
    ensures
        ((m | (1u128 << k)) >> b) & 1u128 == 1u128 <==> (((m >> b) & 1u128 == 1u128) || b == k),
{
}

/// Mask of the bits of tile `tile_coord` whose voxels lie inside `dims`
/// (bit `lx * 32 + lz * 4 + ly` for local offsets `(lx, ly, lz)`).
pub fn valid_mask_for_tile(tile_coord: (u32, u32, u32), dims: (u32, u32, u32)) -> (mask: u128)
    requires
        tile_origin_fits((tile_coord.0 as int, tile_coord.1 as int, tile_coord.2 as int)),
    ensures
        mask == tile_valid_mask((tile_coord.0 as int, tile_coord.1 as int, tile_coord.2 as int), dims),
{
    let (tile_x, tile_y, tile_z) = tile_coord;
    let (dim_x, dim_y, dim_z) = dims;
    let ghost t = (tile_x as int, tile_y as int, tile_z as int);
    let start_x = tile_x * 4;
    let start_y = tile_y * 4;
    let start_z = tile_z * 8;
    let mut mask = 0u128;

    let mut local_x: u32 = 0;
    while local_x < 4
        invariant_except_break
            0 <= local_x <= 4,
            local_x == 0 || start_x + local_x <= dim_x,
            mask == valid_mask_prefix(t, dims, (local_x * 32) as nat),
        invariant
            t == (tile_x as int, tile_y as int, tile_z as int),
            dims == (dim_x, dim_y, dim_z),
            start_x == tile_x * 4,
            start_y == tile_y * 4,
            start_z == tile_z * 8,
        ensures
            mask == valid_mask_prefix(t, dims, 128),
        decreases 4 - local_x,
    {
        let gx = start_x + local_x;
        if gx >= dim_x {
            proof {
                assert forall|b: int| local_x * 32 <= b < 128 implies !tile_bit_in_bounds(
                    t,
                    dims,
                    b,
                ) by {
                    lemma_bit_split(b);
                }
                lemma_prefix_skip(t, dims, (local_x * 32) as nat, 128);
            }
            break;
        }
        let mut local_z: u32 = 0;
        while local_z < 8
            invariant_except_break
                0 <= local_z <= 8,
                local_z == 0 || start_z + local_z <= dim_z,
                mask == valid_mask_prefix(t, dims, (local_x * 32 + local_z * 4) as nat),
            invariant
                t == (tile_x as int, tile_y as int, tile_z as int),
                dims == (dim_x, dim_y, dim_z),
                start_x == tile_x * 4,
                start_y == tile_y * 4,
                start_z == tile_z * 8,
                local_x < 4,
                gx == start_x + local_x,
                gx < dim_x,
            ensures
                mask == valid_mask_prefix(t, dims, (local_x * 32 + 32) as nat),
            decreases 8 - local_z,
        {
            let gz = start_z + local_z;
            if gz >= dim_z {
                proof {
                    assert forall|b: int|
                        local_x * 32 + local_z * 4 <= b < local_x * 32 + 32 implies !tile_bit_in_bounds(
                        t,
                        dims,
                        b,
                    ) by {
                        lemma_bit_split(b);
                    }
                    lemma_prefix_skip(
                        t,
                        dims,
                        (local_x * 32 + local_z * 4) as nat,
                        (local_x * 32 + 32) as nat,
                    );
                }
                break;
            }
            let z_stride = local_z * 4;
            let mut local_y: u32 = 0;
            while local_y < 4
                invariant_except_break
                    0 <= local_y <= 4,
                    local_y == 0 || start_y + local_y <= dim_y,
                    mask == valid_mask_prefix(
                        t,
                        dims,
                        (local_x * 32 + local_z * 4 + local_y) as nat,
                    ),
                invariant
                    t == (tile_x as int, tile_y as int, tile_z as int),
                    dims == (dim_x, dim_y, dim_z),
                    start_x == tile_x * 4,
                    start_y == tile_y * 4,
                    start_z == tile_z * 8,
                    local_x < 4,
                    local_z < 8,
                    z_stride == local_z * 4,
                    gx == start_x + local_x,
                    gx < dim_x,
                    gz == start_z + local_z,
                    gz < dim_z,
                ensures
                    mask == valid_mask_prefix(t, dims, (local_x * 32 + local_z * 4 + 4) as nat),
                decreases 4 - local_y,
            {
                let gy = start_y + local_y;
                if gy >= dim_y {
                    proof {
                        assert forall|b: int|
                            local_x * 32 + local_z * 4 + local_y <= b < local_x * 32 + local_z * 4
                                + 4 implies !tile_bit_in_bounds(t, dims, b) by {
                            lemma_bit_split(b);
                        }
                        lemma_prefix_skip(
                            t,
                            dims,
                            (local_x * 32 + local_z * 4 + local_y) as nat,
                            (local_x * 32 + local_z * 4 + 4) as nat,
                        );
                    }
                    break;
                }
                let bit_index = local_x * 32 + z_stride + local_y;
                proof {
                    lemma_bit_decomposition(local_x as int, local_y as int, local_z as int);
                    assert(tile_bit_in_bounds(t, dims, bit_index as int));
                }
                mask = mask | (1u128 << (bit_index as u128));
                local_y = local_y + 1;
            }
            local_z = local_z + 1;
        }
        local_x = local_x + 1;
    }
    mask
}

// ---------------------------------------------------------------------------
// Classification
// ---------------------------------------------------------------------------
/// The valid mask of tile number `i` of a grid.
pub open spec fn block_valid_mask(i: int, dims: (u32, u32, u32), storage: (u32, u32, u32)) -> u128 {
    tile_valid_mask(tile_index_coord(i, storage), dims)
}

/// The occupancy bits of tile number `i` that lie inside `dims`.
pub open spec fn block_sanitized_bits(
    blocks: Seq<u128>,
    i: int,
    dims: (u32, u32, u32),
    storage: (u32, u32, u32),
) -> u128 {
    blocks[i] & block_valid_mask(i, dims, storage)
}

/// Tile number `i` holds no occupied voxel inside `dims`.
pub open spec fn is_empty_tile(
    blocks: Seq<u128>,
    i: int,
    dims: (u32, u32, u32),
    storage: (u32, u32, u32),
) -> bool {
    block_valid_mask(i, dims, storage) == 0 || block_sanitized_bits(blocks, i, dims, storage) == 0
}

/// Every voxel of tile number `i` that lies inside `dims` is occupied (and at least one does).
pub open spec fn is_uniform_tile(
    blocks: Seq<u128>,
    i: int,
    dims: (u32, u32, u32),
    storage: (u32, u32, u32),
) -> bool {
    !is_empty_tile(blocks, i, dims, storage) && block_sanitized_bits(blocks, i, dims, storage)
        == block_valid_mask(i, dims, storage)
}

/// Tile number `i` is neither empty nor uniform.
pub open spec fn is_dense_tile(
    blocks: Seq<u128>,
    i: int,
    dims: (u32, u32, u32),
    storage: (u32, u32, u32),
) -> bool {
    !is_empty_tile(blocks, i, dims, storage) && !is_uniform_tile(blocks, i, dims, storage)
}

/// The sanitized bits of the dense tiles among the first `n` tiles, in tile order.
pub open spec fn dense_payload_bits(
    blocks: Seq<u128>,
    n: int,
    dims: (u32, u32, u32),
    storage: (u32, u32, u32),
) -> Seq<u128>
    decreases n,
{
    if n <= 0 {
        Seq::empty()
    } else {
        let prev = dense_payload_bits(blocks, n - 1, dims, storage);
        if is_dense_tile(blocks, n - 1, dims, storage) {
            prev.push(block_sanitized_bits(blocks, n - 1, dims, storage))
        } else {
            prev
        }
    }
}

/// Number of empty tiles among the first `n` tiles.
pub open spec fn empty_tile_count(
    blocks: Seq<u128>,
    n: int,
    dims: (u32, u32, u32),
    storage: (u32, u32, u32),
) -> nat
    decreases n,
{
    if n <= 0 {
        0
    } else {
        empty_tile_count(blocks, n - 1, dims, storage) + if is_empty_tile(
            blocks,
            n - 1,
            dims,
            storage,
        ) {
            1nat
        } else {
            0nat
        }
    }
}

/// Number of uniform tiles among the first `n` tiles.
pub open spec fn uniform_tile_count(
    blocks: Seq<u128>,
    n: int,
    dims: (u32, u32, u32),
    storage: (u32, u32, u32),
) -> nat
    decreases n,
{
    if n <= 0 {
        0
    } else {
        uniform_tile_count(blocks, n - 1, dims, storage) + if is_uniform_tile(
            blocks,
            n - 1,
            dims,
            storage,
        ) {
            1nat
        } else {
            0nat
        }
    }
}

/// The mask entry of tile number `i`: the empty flag, the uniform flag with
/// value 1, or the index of the tile's payload among the dense tiles.
pub open spec fn tile_mask_entry(
    blocks: Seq<u128>,
    i: int,
    dims: (u32, u32, u32),
    storage: (u32, u32, u32),
) -> u32 {
    if is_empty_tile(blocks, i, dims, storage) {
        TILE_EMPTY_BIT
    } else if is_uniform_tile(blocks, i, dims, storage) {
        TILE_UNIFORM_BIT | TILE_UNIFORM_VALUE_BIT
    } else {
        dense_payload_bits(blocks, i, dims, storage).len() as u32
    }
}

/// The grid shape and contents are ones `classify_tiles` accepts: one block
/// per tile, tile coordinates and voxel origins that fit in a `u32`, and at
/// most 2^30 dense tiles so that payload indices fit the index bits.
pub open spec fn classify_tiles_accepts(
    blocks: Seq<u128>,
    dims: (u32, u32, u32),
    storage: (u32, u32, u32),
) -> bool {
    &&& blocks.len() == storage.0 * storage.1 * storage.2
    &&& blocks.len() > 0 ==> storage.0 * storage.1 <= u32::MAX
    &&& forall|i: int|
        0 <= i < blocks.len() ==> #[trigger] tile_origin_fits(tile_index_coord(i, storage))
    &&& dense_payload_bits(blocks, blocks.len() as int, dims, storage).len() <= 0x4000_0000
}

proof fn lemma_dense_bits_monotone(
    blocks: Seq<u128>,
    m: int,
    n: int,
    dims: (u32, u32, u32),
    storage: (u32, u32, u32),
)
    requires
        0 <= m <= n,
    ensures
        dense_payload_bits(blocks, m, dims, storage).len() <= dense_payload_bits(
            blocks,
            n,
            dims,
            storage,
        ).len(),
    decreases n - m,
{
    if m < n {
        lemma_dense_bits_monotone(blocks, m, n - 1, dims, storage);
    }
}

proof fn lemma_counts_bounded(
    blocks: Seq<u128>,
    n: int,
    dims: (u32, u32, u32),
    storage: (u32, u32, u32),
)
    requires
        0 <= n,
    ensures
        empty_tile_count(blocks, n, dims, storage) + uniform_tile_count(blocks, n, dims, storage)
            + dense_payload_bits(blocks, n, dims, storage).len() == n,
    decreases n,
{
    if n > 0 {
        lemma_counts_bounded(blocks, n - 1, dims, storage);
    }
}

/// Classify 4×4×8 packed tiles and build mask/payload arrays.
///
/// * `occupancy_blocks` must be ordered in the same layout as the GPU image upload (x-major).
/// * `dims` is the logical voxel dimensions; valid voxels outside these bounds are ignored.
/// * `storage` is the packed tile extents (ceil divisons of dims by 4/4/8).
///
/// The returned mask has one entry per tile. Empty tiles set `TILE_EMPTY_BIT`. Uniform tiles set
/// `TILE_UNIFORM_BIT` and encode the occupancy value in `TILE_UNIFORM_VALUE_BIT`. Non-uniform tiles
/// encode the dense payload index (0-based) in the low bits.
pub fn classify_tiles(
    occupancy_blocks: &[u128],
    dims: (u32, u32, u32),
    storage: (u32, u32, u32),
) -> (result: TileCompressionResult)
    requires
        classify_tiles_accepts(occupancy_blocks@, dims, storage),
    ensures
        result.mask_entries@.len() == occupancy_blocks@.len(),
        forall|i: int|
            0 <= i < occupancy_blocks@.len() ==> #[trigger] result.mask_entries@[i]
                == tile_mask_entry(occupancy_blocks@, i, dims, storage),
        result.payloads@.len() == dense_payload_bits(
            occupancy_blocks@,
            occupancy_blocks@.len() as int,
            dims,
            storage,
        ).len(),
        forall|k: int|
            0 <= k < result.payloads@.len() ==> #[trigger] result.payloads@[k].occupancy@
                == payload_lanes(
                dense_payload_bits(occupancy_blocks@, occupancy_blocks@.len() as int, dims, storage)[k],
            ),
        result.stats.empty_tiles == empty_tile_count(
            occupancy_blocks@,
            occupancy_blocks@.len() as int,
            dims,
            storage,
        ),
        result.stats.uniform_tiles == uniform_tile_count(
            occupancy_blocks@,
            occupancy_blocks@.len() as int,
            dims,
            storage,
        ),
        result.stats.dense_tiles == result.payloads@.len(),
{
    let ghost blocks = occupancy_blocks@;
    let ghost n = blocks.len() as int;
    let mut mask_entries: Vec<u32> = Vec::with_capacity(occupancy_blocks.len());
    let mut payloads: Vec<TilePayload> = Vec::new();
    let mut stats = TileCompressionStats { empty_tiles: 0, uniform_tiles: 0, dense_tiles: 0 };

    let mut tile_index: usize = 0;
    while tile_index < occupancy_blocks.len()
        invariant
            blocks == occupancy_blocks@,
            n == blocks.len(),
            classify_tiles_accepts(blocks, dims, storage),
            0 <= tile_index <= n,
            mask_entries@.len() == tile_index,
            forall|i: int|
                0 <= i < tile_index ==> #[trigger] mask_entries@[i] == tile_mask_entry(
                    blocks,
                    i,
                    dims,
                    storage,
                ),
            payloads@.len() == dense_payload_bits(blocks, tile_index as int, dims, storage).len(),
            forall|k: int|
                0 <= k < payloads@.len() ==> #[trigger] payloads@[k].occupancy@ == payload_lanes(
                    dense_payload_bits(blocks, tile_index as int, dims, storage)[k],
                ),
            stats.empty_tiles == empty_tile_count(blocks, tile_index as int, dims, storage),
            stats.uniform_tiles == uniform_tile_count(blocks, tile_index as int, dims, storage),
            stats.dense_tiles == payloads@.len(),
        decreases n - tile_index,
    {
        let ghost i = tile_index as int;
        proof {
            lemma_counts_bounded(blocks, i, dims, storage);
            lemma_dense_bits_monotone(blocks, i, n, dims, storage);
        }
        let raw_bits = occupancy_blocks[tile_index];
        let t64 = tile_index as u64;
        let index32 = t64 as u32;
        proof {
            assert((t64 as u32) as int == (t64 as int) % 0x1_0000_0000) by (bit_vector);
            let w = storage.0 as int;
            let h = storage.1 as int;
            let d = storage.2 as int;
            assert(w > 0 && h > 0) by (nonlinear_arith)
                requires
                    n == w * h * d,
                    n > 0,
                    w >= 0,
                    h >= 0,
                    d >= 0,
            ;
            assert(tile_origin_fits(tile_index_coord(i, storage)));
        }
        let tile_coord = index_to_tile_coord(index32, storage);
        let valid_mask = valid_mask_for_tile(tile_coord, dims);
        assert(valid_mask == block_valid_mask(i, dims, storage));
        if valid_mask == 0 {
            mask_entries.push(TILE_EMPTY_BIT);
            stats.empty_tiles = stats.empty_tiles + 1;
        } else {
            let sanitized_bits = raw_bits & valid_mask;
            if sanitized_bits == 0 {
                mask_entries.push(TILE_EMPTY_BIT);
                stats.empty_tiles = stats.empty_tiles + 1;
            } else if sanitized_bits == valid_mask {
                mask_entries.push(TILE_UNIFORM_BIT | TILE_UNIFORM_VALUE_BIT);
                stats.uniform_tiles = stats.uniform_tiles + 1;
            } else {
                let payload_index = payloads.len();
                let payload = TilePayload::from_u128(sanitized_bits);
                payloads.push(payload);
                let entry = payload_index as u32 & TILE_PAYLOAD_INDEX_MASK;
                proof {
                    lemma_dense_bits_monotone(blocks, i + 1, n, dims, storage);
                    let p = payload_index as u32;
                    assert(p <= 0x3FFF_FFFF ==> p & 0x3FFF_FFFFu32 == p) by (bit_vector);
                }
                mask_entries.push(entry);
                stats.dense_tiles = stats.dense_tiles + 1;
            }
        }
        proof {
            let ghost bits_next = dense_payload_bits(blocks, i + 1, dims, storage);
            assert forall|k: int| 0 <= k < payloads@.len() implies #[trigger] payloads@[k].occupancy@
                == payload_lanes(bits_next[k]) by {}
        }
        tile_index = tile_index + 1;
    }
    TileCompressionResult { mask_entries, payloads, stats }
}

// ---------------------------------------------------------------------------
// Laws of the classification
// ---------------------------------------------------------------------------
/// Every tile is counted exactly once: empty, uniform and dense counts add
/// up to the number of tiles.
pub proof fn lemma_tile_counts_total(
    blocks: Seq<u128>,
    dims: (u32, u32, u32),
    storage: (u32, u32, u32),
)
    ensures
        empty_tile_count(blocks, blocks.len() as int, dims, storage) + uniform_tile_count(
            blocks,
            blocks.len() as int,
            dims,
            storage,
        ) + dense_payload_bits(blocks, blocks.len() as int, dims, storage).len() == blocks.len(),
{
    lemma_counts_bounded(blocks, blocks.len() as int, dims, storage);
}

proof fn lemma_dense_bits_prefix(
    blocks: Seq<u128>,
    m: int,
    n: int,
    dims: (u32, u32, u32),
    storage: (u32, u32, u32),
)
    requires
        0 <= m <= n,
    ensures
        dense_payload_bits(blocks, m, dims, storage).len() <= dense_payload_bits(
            blocks,
            n,
            dims,
            storage,
        ).len(),
        forall|k: int|
            0 <= k < dense_payload_bits(blocks, m, dims, storage).len() ==> #[trigger] dense_payload_bits(
                blocks,
                n,
                dims,
                storage,
            )[k] == dense_payload_bits(blocks, m, dims, storage)[k],
    decreases n - m,
{
    if m < n {
        lemma_dense_bits_prefix(blocks, m, n - 1, dims, storage);
    }
}

/// The mask entry of a dense tile is the index, among all payloads, of the
/// payload that holds the tile's in-range bits; its flag bits are clear.
pub proof fn lemma_dense_entry_points_to_payload(
    blocks: Seq<u128>,
    dims: (u32, u32, u32),
    storage: (u32, u32, u32),
    i: int,
)
    requires
        classify_tiles_accepts(blocks, dims, storage),
        0 <= i < blocks.len(),
        is_dense_tile(blocks, i, dims, storage),
    ensures
        (tile_mask_entry(blocks, i, dims, storage) as int) < dense_payload_bits(
            blocks,
            blocks.len() as int,
            dims,
            storage,
        ).len(),
        dense_payload_bits(blocks, blocks.len() as int, dims, storage)[tile_mask_entry(
            blocks,
            i,
            dims,
            storage,
        ) as int] == block_sanitized_bits(blocks, i, dims, storage),
        tile_mask_entry(blocks, i, dims, storage) & TILE_PAYLOAD_INDEX_MASK == tile_mask_entry(
            blocks,
            i,
            dims,
            storage,
        ),
        tile_mask_entry(blocks, i, dims, storage) & (TILE_EMPTY_BIT | TILE_UNIFORM_BIT) == 0,
{
    let n = blocks.len() as int;
    lemma_dense_bits_prefix(blocks, i + 1, n, dims, storage);
    let k = dense_payload_bits(blocks, i, dims, storage).len();
    assert(dense_payload_bits(blocks, i + 1, dims, storage)[k as int] == block_sanitized_bits(
        blocks,
        i,
        dims,
        storage,
    ));
    assert(k < 0x4000_0000);
    let e = k as u32;
    assert(e == tile_mask_entry(blocks, i, dims, storage));
    assert(e < 0x4000_0000 ==> e & 0x3FFF_FFFFu32 == e && e & (0x8000_0000u32 | 0x4000_0000u32) == 0)
        by (bit_vector);
}

/// The payload of a dense tile keeps only bits inside the grid, keeps at
/// least one, and misses at least one in-range bit.
pub proof fn lemma_dense_payload_within_valid_mask(
    blocks: Seq<u128>,
    dims: (u32, u32, u32),
    storage: (u32, u32, u32),
    i: int,
)
    requires
        0 <= i < blocks.len(),
        is_dense_tile(blocks, i, dims, storage),
    ensures
        block_sanitized_bits(blocks, i, dims, storage) & !block_valid_mask(i, dims, storage) == 0,
        block_sanitized_bits(blocks, i, dims, storage) != 0,
        block_sanitized_bits(blocks, i, dims, storage) != block_valid_mask(i, dims, storage),
{
    let raw = blocks[i];
    let valid = block_valid_mask(i, dims, storage);
    assert((raw & valid) & !valid == 0u128) by (bit_vector);
}

/// Mask of the bits `0..n`.
pub open spec fn low_bits(n: nat) -> u128 {
    if n >= 128 {
        u128::MAX
    } else {
        ((1u128 << (n as u128)) - 1) as u128
    }
}

proof fn lemma_low_bits_step(n: u128)
    by (bit_vector)
    requires
        n < 128,
    ensures
        n + 1 < 128 ==> (((1u128 << n) - 1) as u128) | (1u128 << n) == (((1u128 << (n + 1)) - 1) as u128),
        n + 1 == 128 ==> (((1u128 << n) - 1) as u128) | (1u128 << n) == 0xFFFF_FFFF_FFFF_FFFF_FFFF_FFFF_FFFF_FFFFu128,
        (1u128 << 0u128) - 1 == 0,
{
}

proof fn lemma_full_prefix(tile: (int, int, int), dims: (u32, u32, u32), n: nat)
    requires
        n <= 128,
        forall|b: int| 0 <= b < 128 ==> tile_bit_in_bounds(tile, dims, b),
    ensures
        valid_mask_prefix(tile, dims, n) == low_bits(n),
    decreases n,
{
    if n == 0 {
        lemma_low_bits_step(0);
    } else {
        lemma_full_prefix(tile, dims, (n - 1) as nat);
        assert(tile_bit_in_bounds(tile, dims, n - 1));
        lemma_low_bits_step((n - 1) as u128);
    }
}

/// A tile lying entirely inside the grid has every bit valid.
pub proof fn lemma_inner_tile_mask_full(tile: (int, int, int), dims: (u32, u32, u32))
    requires
        0 <= tile.0,
        0 <= tile.1,
        0 <= tile.2,
        tile.0 * 4 + 4 <= dims.0,
        tile.1 * 4 + 4 <= dims.1,
        tile.2 * 8 + 8 <= dims.2,
    ensures
        tile_valid_mask(tile, dims) == u128::MAX,
{
    assert forall|b: int| 0 <= b < 128 implies tile_bit_in_bounds(tile, dims, b) by {
        lemma_bit_split(b);
    }
    lemma_full_prefix(tile, dims, 128);
}

/// A fully occupied block whose tile lies entirely inside the grid is
/// classified uniform.
pub proof fn lemma_full_inner_tile_is_uniform(
    blocks: Seq<u128>,
    dims: (u32, u32, u32),
    storage: (u32, u32, u32),
    i: int,
)
    requires
        0 <= i < blocks.len(),
        blocks[i] == u128::MAX,
        tile_index_coord(i, storage).0 >= 0,
        tile_index_coord(i, storage).1 >= 0,
        tile_index_coord(i, storage).2 >= 0,
        tile_index_coord(i, storage).0 * 4 + 4 <= dims.0,
        tile_index_coord(i, storage).1 * 4 + 4 <= dims.1,
        tile_index_coord(i, storage).2 * 8 + 8 <= dims.2,
    ensures
        is_uniform_tile(blocks, i, dims, storage),
        tile_mask_entry(blocks, i, dims, storage) == TILE_UNIFORM_BIT | TILE_UNIFORM_VALUE_BIT,
{
    lemma_inner_tile_mask_full(tile_index_coord(i, storage), dims);
    assert(0xFFFF_FFFF_FFFF_FFFF_FFFF_FFFF_FFFF_FFFFu128 & 0xFFFF_FFFF_FFFF_FFFF_FFFF_FFFF_FFFF_FFFFu128
        == 0xFFFF_FFFF_FFFF_FFFF_FFFF_FFFF_FFFF_FFFFu128) by (bit_vector);
}

/// Bit `b` of a tile read back through its mask entry: clear for an empty
/// tile, the stored value for a uniform tile, and the bit of the payload the
/// entry indexes for a dense tile.
pub open spec fn decoded_bit(entry: u32, payloads: Seq<u128>, b: int) -> bool {
    if entry & TILE_EMPTY_BIT != 0 {
        false
    } else if entry & TILE_UNIFORM_BIT != 0 {
        entry & TILE_UNIFORM_VALUE_BIT != 0
    } else {
        bit_is_set(payloads[(entry & TILE_PAYLOAD_INDEX_MASK) as int], b)
    }
}

proof fn lemma_and_keeps_bit(x: u128, v: u128, b: u128)
    by (bit_vector)
    requires
        b < 128,
        (v >> b) & 1u128 == 1u128,
    ensures
        ((x & v) >> b) & 1u128 == (x >> b) & 1u128,
        (x & v) == 0u128 ==> (x >> b) & 1u128 == 0u128,
        (x & v) == v ==> (x >> b) & 1u128 == 1u128,
        v != 0u128,
{
}

/// Nothing inside the grid is lost: every voxel of a tile that lies inside
/// `dims`, read back through the tile's mask entry and the payloads,
/// has the occupancy it has in the packed blocks.
pub proof fn lemma_mask_decodes_to_blocks(
    blocks: Seq<u128>,
    dims: (u32, u32, u32),
    storage: (u32, u32, u32),
    i: int,
    b: int,
)
    requires
        classify_tiles_accepts(blocks, dims, storage),
        0 <= i < blocks.len(),
        0 <= b < 128,
        bit_is_set(block_valid_mask(i, dims, storage), b),
    ensures
        decoded_bit(
            tile_mask_entry(blocks, i, dims, storage),
            dense_payload_bits(blocks, blocks.len() as int, dims, storage),
            b,
        ) == bit_is_set(blocks[i], b),
{
    let raw = blocks[i];
    let valid = block_valid_mask(i, dims, storage);
    lemma_and_keeps_bit(raw, valid, b as u128);
    if is_empty_tile(blocks, i, dims, storage) {
        assert(0x8000_0000u32 & 0x8000_0000u32 != 0) by (bit_vector);
        assert(tile_mask_entry(blocks, i, dims, storage) == TILE_EMPTY_BIT);
        assert(!bit_is_set(raw, b));
    } else if is_uniform_tile(blocks, i, dims, storage) {
        assert((0x4000_0000u32 | 1u32) & 0x8000_0000u32 == 0 && (0x4000_0000u32 | 1u32) & 0x4000_0000u32
            != 0 && (0x4000_0000u32 | 1u32) & 1u32 != 0) by (bit_vector);
    } else {
        lemma_dense_entry_points_to_payload(blocks, dims, storage, i);
        let e = tile_mask_entry(blocks, i, dims, storage);
        assert(e & (TILE_EMPTY_BIT | TILE_UNIFORM_BIT) == 0 ==> e & TILE_EMPTY_BIT == 0 && e
            & TILE_UNIFORM_BIT == 0) by (bit_vector);
    }
}

/// A tile's occupancy word read back through its mask entry: nothing for an
/// empty tile, every in-grid voxel (`valid`) for a uniform tile, and the
/// payload the entry indexes for a dense tile.
pub open spec fn decoded_word(entry: u32, payloads: Seq<u128>, valid: u128) -> u128 {
    if entry & TILE_EMPTY_BIT != 0 {
        0
    } else if entry & TILE_UNIFORM_BIT != 0 {
        valid
    } else {
        payloads[(entry & TILE_PAYLOAD_INDEX_MASK) as int]
    }
}

/// Each tile, read back through its mask entry and the payloads, gives
/// exactly its packed block restricted to the voxels inside the grid. The
/// payload's lanes (`TilePayload::occupancy`) are that word split in four
/// (`lemma_payload_lanes_round_trip`).
pub proof fn lemma_mask_decodes_to_words(
    blocks: Seq<u128>,
    dims: (u32, u32, u32),
    storage: (u32, u32, u32),
    i: int,
)
    requires
        classify_tiles_accepts(blocks, dims, storage),
        0 <= i < blocks.len(),
    ensures
        decoded_word(
            tile_mask_entry(blocks, i, dims, storage),
            dense_payload_bits(blocks, blocks.len() as int, dims, storage),
            block_valid_mask(i, dims, storage),
        ) == blocks[i] & block_valid_mask(i, dims, storage),
{
    let raw = blocks[i];
    let valid = block_valid_mask(i, dims, storage);
    if is_empty_tile(blocks, i, dims, storage) {
        assert(0x8000_0000u32 & 0x8000_0000u32 != 0) by (bit_vector);
        assert(valid == 0 ==> raw & valid == 0) by (bit_vector);
    } else if is_uniform_tile(blocks, i, dims, storage) {
        assert((0x4000_0000u32 | 1u32) & 0x8000_0000u32 == 0 && (0x4000_0000u32 | 1u32) & 0x4000_0000u32
            != 0) by (bit_vector);
    } else {
        lemma_dense_entry_points_to_payload(blocks, dims, storage, i);
        let e = tile_mask_entry(blocks, i, dims, storage);
        assert(e & (TILE_EMPTY_BIT | TILE_UNIFORM_BIT) == 0 ==> e & TILE_EMPTY_BIT == 0 && e
            & TILE_UNIFORM_BIT == 0) by (bit_vector);
    }
}

} // verus!
