//! Packed occupancy layout shared by the voxelizers and the tile classifier.
//!
//! Each `u128` texel holds a 4×4×8 block of voxels; the voxel `(x, y, z)` of a
//! grid whose storage is `sw × sh × _` texels lives in texel
//! `x/4 + (y/4 + (z/8) * sh) * sw` at bit `(x%4)*32 + y%4 + (z%8)*4`.
use crate::tile_compression::{
    bit_is_set,
    block_valid_mask,
    lemma_bit_decomposition,
    lemma_or_single_bit,
    lemma_tile_valid_mask_bits,
    tile_bit_in_bounds,
    tile_coord_of,
    tile_index_coord,
};
use vstd::arithmetic::div_mod::{lemma_fundamental_div_mod, lemma_fundamental_div_mod_converse};
use vstd::prelude::*;

verus! {

/// Texel of voxel `(x, y, z)` in storage `sw` texels wide and `sh` texels high.
pub open spec fn packed_texel(x: int, y: int, z: int, sw: int, sh: int) -> int {
    x / 4 + (y / 4 + (z / 8) * sh) * sw
}

/// Bit of voxel `(x, y, z)` inside its texel.
pub open spec fn packed_bit(x: int, y: int, z: int) -> int {
    (x % 4) * 32 + y % 4 + (z % 8) * 4
}

/// Texel of voxel `(x, y, z)` in the cubic layout of edge `r`, as the mesh
/// voxelizer computes it.
pub open spec fn cubic_texel(x: int, y: int, z: int, r: int) -> int {
    (x + ((y + (z / 8) * r) / 4) * r) / 4
}

/// Every partial result of the cubic texel computation fits a `usize`.
pub open spec fn cubic_texel_fits(x: int, y: int, z: int, r: int) -> bool {
    &&& (z / 8) * r <= usize::MAX
    &&& y + (z / 8) * r <= usize::MAX
    &&& ((y + (z / 8) * r) / 4) * r <= usize::MAX
    &&& x + ((y + (z / 8) * r) / 4) * r <= usize::MAX
}

/// Mark voxel `(x, y, z)` as occupied in a grid packed in the cubic layout of
/// edge `resolution`. Returns `false`, leaving the grid unchanged, when the
/// voxel's texel lies outside the grid or a step of its index computation
/// does not fit a `usize`.
pub fn pack_cubic_voxel(voxels: &mut Vec<u128>, resolution: usize, x: usize, y: usize, z: usize) -> (placed: bool)
    ensures
        placed == (cubic_texel_fits(x as int, y as int, z as int, resolution as int)
            && cubic_texel(x as int, y as int, z as int, resolution as int)
            < old(voxels)@.len()),
        placed ==> final(voxels)@ == old(voxels)@.update(
            cubic_texel(x as int, y as int, z as int, resolution as int),
            old(voxels)@[cubic_texel(x as int, y as int, z as int, resolution as int)] | (1u128
                << (packed_bit(x as int, y as int, z as int) as u128)),
        ),
        !placed ==> final(voxels)@ == old(voxels)@,
{
    let zr = match (z / 8).checked_mul(resolution) {
        Some(v) => v,
        None => {
            return false;
        },
    };
    let a = match y.checked_add(zr) {
        Some(v) => v,
        None => {
            return false;
        },
    };
    let b = match (a / 4).checked_mul(resolution) {
        Some(v) => v,
        None => {
            return false;
        },
    };
    let c = match x.checked_add(b) {
        Some(v) => v,
        None => {
            return false;
        },
    };
    let texel = c / 4;
    if texel >= voxels.len() {
        return false;
    }
    let bit = (x % 4) * 32 + (y % 4) + (z % 8) * 4;
    let word = voxels[texel];
    voxels.set(texel, word | (1u128 << (bit as u128)));
    true
}

// ---------------------------------------------------------------------------
// Laws of the layout
// ---------------------------------------------------------------------------
/// With an edge that is a multiple of 8, the cubic layout of the mesh
/// voxelizer is the storage layout with `r/4 × r/4` texels per layer.
pub proof fn lemma_cubic_layout_is_storage_layout(x: int, y: int, z: int, r: int)
    requires
        0 <= x,
        0 <= y,
        0 <= z,
        r > 0,
        r % 8 == 0,
    ensures
        cubic_texel(x, y, z, r) == packed_texel(x, y, z, r / 4, r / 4),
{
    let q = r / 8;
    lemma_fundamental_div_mod(r, 8);
    lemma_fundamental_div_mod(y, 4);
    lemma_fundamental_div_mod(x, 4);
    let zq = z / 8;
    let a = y + zq * r;
    let a4 = y / 4 + 2 * q * zq;
    assert(a == a4 * 4 + y % 4) by (nonlinear_arith)
        requires
            a == y + zq * r,
            a4 == y / 4 + 2 * q * zq,
            r == 8 * q,
            y == 4 * (y / 4) + y % 4,
    ;
    lemma_fundamental_div_mod_converse(a, 4, a4, y % 4);
    let bb = x + a4 * r;
    let b4 = x / 4 + a4 * (2 * q);
    assert(bb == b4 * 4 + x % 4) by (nonlinear_arith)
        requires
            bb == x + a4 * r,
            b4 == x / 4 + a4 * (2 * q),
            r == 8 * q,
            x == 4 * (x / 4) + x % 4,
    ;
    lemma_fundamental_div_mod_converse(bb, 4, b4, x % 4);
    assert(r / 4 == 2 * q);
    assert(b4 == x / 4 + (y / 4 + zq * (r / 4)) * (r / 4)) by (nonlinear_arith)
        requires
            b4 == x / 4 + a4 * (2 * q),
            a4 == y / 4 + 2 * q * zq,
            r / 4 == 2 * q,
    ;
}

proof fn lemma_bit_parts(x: int, y: int, z: int)
    requires
        0 <= x,
        0 <= y,
        0 <= z,
    ensures
        packed_bit(x, y, z) / 32 == x % 4,
        packed_bit(x, y, z) % 4 == y % 4,
        (packed_bit(x, y, z) % 32) / 4 == z % 8,
        0 <= packed_bit(x, y, z) < 128,
{
    lemma_bit_decomposition(x % 4, y % 4, z % 8);
}

proof fn lemma_texel_parts(x: int, y: int, z: int, sw: int, sh: int)
    requires
        0 <= x,
        0 <= y,
        0 <= z,
        0 <= x / 4 < sw,
        0 <= y / 4 < sh,
    ensures
        packed_texel(x, y, z, sw, sh) % sw == x / 4,
        packed_texel(x, y, z, sw, sh) / sw == y / 4 + (z / 8) * sh,
        (y / 4 + (z / 8) * sh) % sh == y / 4,
        (y / 4 + (z / 8) * sh) / sh == z / 8,
{
    let t = packed_texel(x, y, z, sw, sh);
    let row = y / 4 + (z / 8) * sh;
    assert(t == row * sw + x / 4);
    lemma_fundamental_div_mod_converse(t, sw, row, x / 4);
    assert(row == (z / 8) * sh + y / 4);
    lemma_fundamental_div_mod_converse(row, sh, z / 8, y / 4);
}

/// Two voxels inside the storage extents that share a texel and a bit are
/// the same voxel: every voxel has a bit of its own.
pub proof fn lemma_packed_layout_injective(
    a: (int, int, int),
    b: (int, int, int),
    sw: int,
    sh: int,
)
    requires
        0 <= a.0,
        0 <= a.1,
        0 <= a.2,
        0 <= b.0,
        0 <= b.1,
        0 <= b.2,
        a.0 / 4 < sw,
        a.1 / 4 < sh,
        b.0 / 4 < sw,
        b.1 / 4 < sh,
        packed_texel(a.0, a.1, a.2, sw, sh) == packed_texel(b.0, b.1, b.2, sw, sh),
        packed_bit(a.0, a.1, a.2) == packed_bit(b.0, b.1, b.2),
    ensures
        a == b,
{
    lemma_bit_parts(a.0, a.1, a.2);
    lemma_bit_parts(b.0, b.1, b.2);
    lemma_texel_parts(a.0, a.1, a.2, sw, sh);
    lemma_texel_parts(b.0, b.1, b.2, sw, sh);
    lemma_fundamental_div_mod(a.0, 4);
    lemma_fundamental_div_mod(b.0, 4);
    lemma_fundamental_div_mod(a.1, 4);
    lemma_fundamental_div_mod(b.1, 4);
    lemma_fundamental_div_mod(a.2, 8);
    lemma_fundamental_div_mod(b.2, 8);
}

/// The texel of a voxel inside the storage extents is the tile whose
/// coordinates are the voxel's coordinates divided by the tile size
/// (4, 4, 8), numbered as the tile classifier numbers tiles.
pub proof fn lemma_packed_texel_tile_coord(x: int, y: int, z: int, storage: (u32, u32, u32))
    requires
        0 <= x,
        0 <= y,
        0 <= z,
        x / 4 < storage.0,
        y / 4 < storage.1,
        z / 8 < storage.2,
    ensures
        tile_coord_of(packed_texel(x, y, z, storage.0 as int, storage.1 as int), storage) == (
            x / 4,
            y / 4,
            z / 8,
        ),
{
    let sw = storage.0 as int;
    let sh = storage.1 as int;
    let t = packed_texel(x, y, z, sw, sh);
    let in_layer = x / 4 + (y / 4) * sw;
    assert(t == (z / 8) * (sw * sh) + in_layer) by (nonlinear_arith)
        requires
            t == x / 4 + (y / 4 + (z / 8) * sh) * sw,
            in_layer == x / 4 + (y / 4) * sw,
    ;
    assert(0 <= in_layer < sw * sh) by (nonlinear_arith)
        requires
            in_layer == x / 4 + (y / 4) * sw,
            0 <= x / 4 < sw,
            0 <= y / 4 < sh,
    ;
    lemma_fundamental_div_mod_converse(t, sw * sh, z / 8, in_layer);
    lemma_fundamental_div_mod_converse(in_layer, sw, y / 4, x / 4);
}

/// An occupied voxel inside a grid's dimensions is never cut by tile
/// classification: the valid mask of the tile holding its texel has the
/// voxel's bit set.
pub proof fn lemma_voxel_inside_dims_is_valid(
    x: int,
    y: int,
    z: int,
    dims: (u32, u32, u32),
    storage: (u32, u32, u32),
)
    requires
        0 <= x < dims.0,
        0 <= y < dims.1,
        0 <= z < dims.2,
        x / 4 < storage.0,
        y / 4 < storage.1,
        z / 8 < storage.2,
        storage.0 * storage.1 * storage.2 <= 0x1_0000_0000,
    ensures
        bit_is_set(
            block_valid_mask(packed_texel(x, y, z, storage.0 as int, storage.1 as int), dims, storage),
            packed_bit(x, y, z),
        ),
{
    let t = packed_texel(x, y, z, storage.0 as int, storage.1 as int);
    lemma_packed_texel_tile_coord(x, y, z, storage);
    assert(0 <= t < 0x1_0000_0000) by (nonlinear_arith)
        requires
            t == x / 4 + (y / 4 + (z / 8) * storage.1) * storage.0,
            0 <= x / 4 < storage.0,
            0 <= y / 4 < storage.1,
            0 <= z / 8 < storage.2,
            storage.0 * storage.1 * storage.2 <= 0x1_0000_0000,
    ;
    assert(tile_index_coord(t, storage) == (x / 4, y / 4, z / 8));
    let b = packed_bit(x, y, z);
    lemma_bit_parts(x, y, z);
    lemma_fundamental_div_mod(x, 4);
    lemma_fundamental_div_mod(y, 4);
    lemma_fundamental_div_mod(z, 8);
    assert(tile_bit_in_bounds((x / 4, y / 4, z / 8), dims, b));
    lemma_tile_valid_mask_bits((x / 4, y / 4, z / 8), dims, b);
}

/// After a voxel is placed, its bit is set in its texel; every other bit of
/// the grid is as before.
pub proof fn lemma_pack_sets_only_its_bit(
    before: Seq<u128>,
    after: Seq<u128>,
    t: int,
    bit: int,
    t2: int,
    b2: int,
)
    requires
        0 <= t < before.len(),
        0 <= bit < 128,
        after == before.update(t, before[t] | (1u128 << (bit as u128))),
        0 <= t2 < before.len(),
        0 <= b2 < 128,
    ensures
        bit_is_set(after[t], bit),
        (t2, b2) != (t, bit) ==> (bit_is_set(after[t2], b2) <==> bit_is_set(before[t2], b2)),
{
    lemma_or_single_bit(before[t], bit as u128, bit as u128);
    if t2 == t {
        lemma_or_single_bit(before[t], bit as u128, b2 as u128);
    }
}

} // verus!
