//! Conversion of a MagicaVoxel `.vox` model into the packed occupancy
//! layout (4×4×8 voxels per `u128` texel) and per-voxel local palette indices.
use crate::packing::{packed_bit, packed_texel};
use crate::tile_compression::{bit_is_set, lemma_or_single_bit};
use vstd::prelude::*;

verus! {

/// One voxel of a `.vox` model: coordinates and palette index.
#[derive(Clone, Copy, Debug, PartialEq, Eq)]
pub struct VoxVoxel {
    pub x: u8,
    pub y: u8,
    pub z: u8,
    pub i: u8,
}

/// One RGBA palette entry of a `.vox` file.
#[derive(Clone, Copy, Debug, PartialEq, Eq)]
pub struct VoxColor {
    pub r: u8,
    pub g: u8,
    pub b: u8,
    pub a: u8,
}

/// One model of a `.vox` file: its size and its voxels.
#[derive(Clone, Debug)]
pub struct VoxModel {
    pub size_x: u32,
    pub size_y: u32,
    pub size_z: u32,
    pub voxels: Vec<VoxVoxel>,
}

/// The contents of a `.vox` file that the conversion reads.
#[derive(Clone, Debug)]
pub struct VoxScene {
    pub models: Vec<VoxModel>,
    pub palette: Vec<VoxColor>,
}

impl View for VoxModel {
    type V = (u32, u32, u32, Seq<VoxVoxel>);

    open spec fn view(&self) -> Self::V {
        (self.size_x, self.size_y, self.size_z, self.voxels@)
    }
}

impl View for VoxScene {
    type V = (Seq<(u32, u32, u32, Seq<VoxVoxel>)>, Seq<VoxColor>);

    open spec fn view(&self) -> Self::V {
        (self.models@.map_values(|m: VoxModel| m@), self.palette@)
    }
}

/// Packed voxel bitfield and palette indices of a converted model.
#[derive(Clone, Debug)]
pub struct VoxLoadResult {
    /// Packed occupancy, one `u128` per 4×4×8 texel, x-major over the storage extents.
    pub voxels: Vec<u128>,
    /// Local palette index of each voxel, x-major over the logical dimensions.
    pub colors: Vec<u8>,
    /// The palette entries used by the model, in local-index order.
    pub palette: Vec<VoxColor>,
    /// Legacy cubic resolution (kept for compatibility).
    pub used_resolution: u32,
    /// Logical X dimension.
    pub dim_x: u32,
    /// Logical Y dimension.
    pub dim_y: u32,
    /// Logical Z dimension.
    pub dim_z: u32,
    /// Packed texel width (ceil(dim_x/4)).
    pub storage_w: u32,
    /// Packed texel height (ceil(dim_y/4)).
    pub storage_h: u32,
    /// Packed texel depth (ceil(dim_z/8)).
    pub storage_d: u32,
}

// ---------------------------------------------------------------------------
// Layout
// ---------------------------------------------------------------------------
/// Packed texel of voxel `v` in storage of width `sw` and height `sh` texels.
pub open spec fn vox_texel(v: VoxVoxel, sw: int, sh: int) -> int {
    packed_texel(v.x as int, v.y as int, v.z as int, sw, sh)
}

/// Bit of voxel `v` inside its packed texel.
pub open spec fn vox_bit(v: VoxVoxel) -> int {
    packed_bit(v.x as int, v.y as int, v.z as int)
}

/// Index of voxel `v` in the x-major color array of a model of size `sx × sy × _`.
pub open spec fn vox_color_slot(v: VoxVoxel, sx: int, sy: int) -> int {
    (v.z * sy + v.y) * sx + v.x
}

/// `d` rounded up to whole units of `unit` voxels, counted in units.
pub open spec fn units_covering(d: int, unit: int) -> int {
    (d + unit - 1) / unit
}

/// `r` rounded up to a multiple of 8.
pub open spec fn round_up_to_8(r: int) -> int {
    if r % 8 == 0 {
        r
    } else {
        r + 8 - r % 8
    }
}

/// Largest of a model's three sizes.
pub open spec fn native_resolution(m: (u32, u32, u32, Seq<VoxVoxel>)) -> int {
    let a = if m.0 >= m.1 {
        m.0
    } else {
        m.1
    };
    if a >= m.2 {
        a as int
    } else {
        m.2 as int
    }
}

/// Requested cubic resolution: the target, but never below the native size.
pub open spec fn requested_resolution(m: (u32, u32, u32, Seq<VoxVoxel>), target: Option<u32>) -> int {
    match target {
        Some(t) => if t >= native_resolution(m) {
            t as int
        } else {
            native_resolution(m)
        },
        None => native_resolution(m),
    }
}

/// Maximum number of palette entries kept for a model.
pub open spec fn palette_limit(span: u8) -> int {
    if span == 0 {
        255
    } else {
        span as int
    }
}

// ---------------------------------------------------------------------------
// Palette compaction
// ---------------------------------------------------------------------------
/// The distinct nonzero palette indices of the first `n` voxels, in order of
/// first appearance, stopping once `limit` indices are collected.
pub open spec fn first_seen_colors(vs: Seq<VoxVoxel>, n: int, limit: int) -> Seq<u8>
    decreases n,
{
    if n <= 0 {
        Seq::empty()
    } else {
        let prev = first_seen_colors(vs, n - 1, limit);
        let o = vs[n - 1].i;
        if o != 0 && !prev.contains(o) && prev.len() < limit {
            prev.push(o)
        } else {
            prev
        }
    }
}

/// Local palette index given to voxel `k`: the position of its palette index
/// among the collected indices, or 0 for index 0 and for indices not collected.
pub open spec fn local_color(vs: Seq<VoxVoxel>, k: int, limit: int) -> u8 {
    let used = first_seen_colors(vs, k + 1, limit);
    let o = vs[k].i;
    if o != 0 && used.contains(o) {
        used.index_of(o) as u8
    } else {
        0u8
    }
}

/// Local palette index stored at color slot `p` after the first `n` voxels:
/// that of the last of them written to `p`, or 0.
pub open spec fn color_at(vs: Seq<VoxVoxel>, n: int, p: int, sx: int, sy: int, limit: int) -> u8
    decreases n,
{
    if n <= 0 {
        0u8
    } else if vox_color_slot(vs[n - 1], sx, sy) == p {
        local_color(vs, n - 1, limit)
    } else {
        color_at(vs, n - 1, p, sx, sy, limit)
    }
}

/// Voxel `j` of `vs` sets bit `b` of texel `t`.
pub open spec fn voxel_sets(vs: Seq<VoxVoxel>, j: int, t: int, b: int, sw: int, sh: int) -> bool {
    vox_texel(vs[j], sw, sh) == t && vox_bit(vs[j]) == b
}

// ---------------------------------------------------------------------------
// Contract of the conversion
// ---------------------------------------------------------------------------
/// The model's sizes and voxels fit the conversion: storage extents, texel
/// count and voxel count fit, the cubic resolution rounds up within `u32`,
/// and every voxel lies inside the packed storage and the color array.
pub open spec fn vox_geometry_ok(m: (u32, u32, u32, Seq<VoxVoxel>), target: Option<u32>) -> bool {
    let (sx, sy, sz, vs) = m;
    let sw = units_covering(sx as int, 4);
    let sh = units_covering(sy as int, 4);
    let sd = units_covering(sz as int, 8);
    &&& sx + 3 <= u32::MAX
    &&& sy + 3 <= u32::MAX
    &&& sz + 7 <= u32::MAX
    &&& sw * sh * sd <= u32::MAX
    &&& sx * sy * sz <= usize::MAX
    &&& round_up_to_8(requested_resolution(m, target)) <= u32::MAX
    &&& forall|k: int| 0 <= k < vs.len() ==> #[trigger] vox_texel(vs[k], sw, sh) < sw * sh * sd
    &&& forall|k: int|
        0 <= k < vs.len() ==> #[trigger] vox_color_slot(vs[k], sx as int, sy as int) < sx * sy * sz
}

/// Every palette index the conversion collects (the first `limit`
/// distinct nonzero indices) lies inside the palette.
pub open spec fn collected_colors_in_palette(vs: Seq<VoxVoxel>, palette_len: int, limit: int) -> bool {
    forall|j: int|
        0 <= j < first_seen_colors(vs, vs.len() as int, limit).len() ==> (
        #[trigger] first_seen_colors(vs, vs.len() as int, limit)[j] as int) < palette_len
}

/// The model is one the conversion handles without overflow or out-of-range
/// writes or reads: its geometry fits, and every palette index it collects
/// lies inside the palette. Index 0 and indices past the colour cap are
/// never looked up, so they may lie anywhere.
pub open spec fn vox_model_accepts(
    m: (u32, u32, u32, Seq<VoxVoxel>),
    palette: Seq<VoxColor>,
    target: Option<u32>,
    span: u8,
) -> bool {
    &&& vox_geometry_ok(m, target)
    &&& collected_colors_in_palette(m.3, palette.len() as int, palette_limit(span))
}

/// `r` is the conversion of model `m`: its sizes, storage extents and
/// rounded cubic resolution; a texel bit set exactly where some voxel lies;
/// each color slot holding the local index of the last voxel written there;
/// and the palette entries of the collected indices.
pub open spec fn vox_result_of(
    m: (u32, u32, u32, Seq<VoxVoxel>),
    palette: Seq<VoxColor>,
    target: Option<u32>,
    span: u8,
    r: VoxLoadResult,
) -> bool {
    let (sx, sy, sz, vs) = m;
    let sw = units_covering(sx as int, 4);
    let sh = units_covering(sy as int, 4);
    let sd = units_covering(sz as int, 8);
    let limit = palette_limit(span);
    let used = first_seen_colors(vs, vs.len() as int, limit);
    &&& r.dim_x == sx
    &&& r.dim_y == sy
    &&& r.dim_z == sz
    &&& r.storage_w == sw
    &&& r.storage_h == sh
    &&& r.storage_d == sd
    &&& r.used_resolution == round_up_to_8(requested_resolution(m, target))
    &&& r.voxels@.len() == sw * sh * sd
    &&& forall|t: int, b: int|
        0 <= t < r.voxels@.len() && 0 <= b < 128 ==> (bit_is_set(r.voxels@[t], b) <==> exists|
            j: int,
        | 0 <= j < vs.len() && #[trigger] voxel_sets(vs, j, t, b, sw, sh))
    &&& r.colors@.len() == sx * sy * sz
    &&& forall|p: int|
        0 <= p < r.colors@.len() ==> #[trigger] r.colors@[p] == color_at(
            vs,
            vs.len() as int,
            p,
            sx as int,
            sy as int,
            limit,
        )
    &&& r.palette@.len() == used.len()
    &&& forall|j: int| 0 <= j < used.len() ==> #[trigger] r.palette@[j] == palette[used[j] as int]
}

// ---------------------------------------------------------------------------
// Lemmas
// ---------------------------------------------------------------------------
proof fn lemma_first_seen_prefix(vs: Seq<VoxVoxel>, m: int, n: int, limit: int)
    requires
        0 <= m <= n,
    ensures
        first_seen_colors(vs, m, limit).len() <= first_seen_colors(vs, n, limit).len(),
        forall|j: int|
            0 <= j < first_seen_colors(vs, m, limit).len() ==> #[trigger] first_seen_colors(
                vs,
                n,
                limit,
            )[j] == first_seen_colors(vs, m, limit)[j],
    decreases n - m,
{
    if m < n {
        lemma_first_seen_prefix(vs, m, n - 1, limit);
    }
}

proof fn lemma_first_seen_shape(vs: Seq<VoxVoxel>, n: int, limit: int)
    requires
        0 <= limit,
    ensures
        first_seen_colors(vs, n, limit).no_duplicates(),
        first_seen_colors(vs, n, limit).len() <= limit,
        forall|j: int|
            0 <= j < first_seen_colors(vs, n, limit).len() ==> #[trigger] first_seen_colors(
                vs,
                n,
                limit,
            )[j] != 0,
    decreases n,
{
    if n > 0 {
        lemma_first_seen_shape(vs, n - 1, limit);
    }
}

proof fn lemma_first_seen_full_stays(vs: Seq<VoxVoxel>, m: int, n: int, limit: int)
    requires
        0 <= m <= n,
        first_seen_colors(vs, m, limit).len() >= limit,
    ensures
        first_seen_colors(vs, n, limit) == first_seen_colors(vs, m, limit),
    decreases n - m,
{
    if m < n {
        lemma_first_seen_full_stays(vs, m, n - 1, limit);
    }
}

proof fn lemma_accepts_voxel(
    m: (u32, u32, u32, Seq<VoxVoxel>),
    palette: Seq<VoxColor>,
    target: Option<u32>,
    span: u8,
    k: int,
)
    requires
        vox_model_accepts(m, palette, target, span),
        0 <= k < m.3.len(),
    ensures
        vox_texel(m.3[k], units_covering(m.0 as int, 4), units_covering(m.1 as int, 4))
            < units_covering(m.0 as int, 4) * units_covering(m.1 as int, 4) * units_covering(
            m.2 as int,
            8,
        ),
        vox_color_slot(m.3[k], m.0 as int, m.1 as int) < m.0 * m.1 * m.2,
{
}

proof fn lemma_accepts_palette(
    m: (u32, u32, u32, Seq<VoxVoxel>),
    palette: Seq<VoxColor>,
    target: Option<u32>,
    span: u8,
    j: int,
)
    requires
        vox_model_accepts(m, palette, target, span),
        0 <= j < first_seen_colors(m.3, m.3.len() as int, palette_limit(span)).len(),
    ensures
        (first_seen_colors(m.3, m.3.len() as int, palette_limit(span))[j] as int) < palette.len(),
{
}

proof fn lemma_index_of_unique(s: Seq<u8>, i: int, o: u8)
    requires
        s.no_duplicates(),
        0 <= i < s.len(),
        s[i] == o,
    ensures
        s.contains(o),
        s.index_of(o) == i,
{
    assert(s.contains(o));
    let j = s.index_of(o);
    assert(s[j] == o);
}

proof fn lemma_nonneg_mul_le(a: int, b: int)
    by (nonlinear_arith)
    requires
        0 <= a,
        1 <= b,
    ensures
        a <= a * b,
{
}

proof fn lemma_units_positive(d: int, unit: int)
    by (nonlinear_arith)
    requires
        1 <= d,
        1 <= unit,
    ensures
        1 <= (d + unit - 1) / unit,
{
}

// ---------------------------------------------------------------------------
// Conversion
// ---------------------------------------------------------------------------
/// Convert the first model of a `.vox` scene into packed occupancy and local
/// palette indices. Returns `None` when the scene has no model or the first
/// model has a zero size.
pub fn vox_scene_to_voxels(
    scene: &VoxScene,
    target_resolution: Option<u32>,
    palette_span: u8,
) -> (r: Option<VoxLoadResult>)
    requires
        scene@.0.len() > 0 && scene@.0[0].0 > 0 && scene@.0[0].1 > 0 && scene@.0[0].2 > 0
            ==> vox_model_accepts(scene@.0[0], scene@.1, target_resolution, palette_span),
    ensures
        r.is_none() <==> (scene@.0.len() == 0 || scene@.0[0].0 == 0 || scene@.0[0].1 == 0
            || scene@.0[0].2 == 0),
        r matches Some(res) ==> vox_result_of(
            scene@.0[0],
            scene@.1,
            target_resolution,
            palette_span,
            res,
        ),
{
    if scene.models.len() == 0 {
        return None;
    }
    let model = &scene.models[0];
    assert(model@ == scene@.0[0]);
    let sx = model.size_x;
    let sy = model.size_y;
    let sz = model.size_z;
    if sx == 0 || sy == 0 || sz == 0 {
        return None;
    }
    let ghost m = scene@.0[0];
    let ghost vs = model.voxels@;
    let ghost pal = scene@.1;
    let ghost limit = palette_limit(palette_span);
    let ab = if sx >= sy {
        sx
    } else {
        sy
    };
    let native_max = if ab >= sz {
        ab
    } else {
        sz
    };
    let requested = match target_resolution {
        Some(t) => if t >= native_max {
            t
        } else {
            native_max
        },
        None => native_max,
    };
    // Keep the legacy cubic resolution, padded to a multiple of 8.
    let mut cubic = requested;
    if cubic % 8 != 0 {
        cubic = cubic + (8 - (cubic % 8));
    }
    let used_resolution = cubic;
    // Non-cubic packed storage extents (texel units are 4x4x8 voxels)
    let storage_w = (sx + 3) / 4;
    let storage_h = (sy + 3) / 4;
    let storage_d = (sz + 7) / 8;
    let ghost sw = storage_w as int;
    let ghost sh = storage_h as int;
    let ghost sd = storage_d as int;
    proof {
        lemma_units_positive(sx as int, 4);
        lemma_units_positive(sy as int, 4);
        lemma_units_positive(sz as int, 8);
        lemma_nonneg_mul_le(sw, sh);
        lemma_nonneg_mul_le(sw * sh, sd);
        lemma_nonneg_mul_le(sx as int, sy as int);
        lemma_nonneg_mul_le(sx * sy, sz as int);
    }
    let packed_texel_count = (storage_w * storage_h * storage_d) as usize;
    let mut voxels: Vec<u128> = vec![0u128; packed_texel_count];
    let color_count = sx as usize * sy as usize * sz as usize;
    let mut colors: Vec<u8> = vec![0u8; color_count];

    // Remap table from palette index to local palette index.
    let mut remap: Vec<u8> = vec![0u8; 256];
    let mut remap_assigned: Vec<bool> = vec![false; 256];
    let mut used_colors: Vec<VoxColor> = Vec::new();
    let max_colors: usize = if palette_span == 0 {
        255
    } else {
        palette_span as usize
    };
    let palette_rgba = &scene.palette;
    proof {
        lemma_first_seen_shape(vs, vs.len() as int, limit);
        assert forall|t: int, b: int| 0 <= t < voxels@.len() && 0 <= b < 128 implies !bit_is_set(
            voxels@[t],
            b,
        ) by {
            let bb = b as u128;
            assert((0u128 >> bb) & 1u128 == 0u128) by (bit_vector);
        }
    }

    let mut k: usize = 0;
    while k < model.voxels.len()
        invariant
            m == scene@.0[0],
            m == (sx, sy, sz, vs),
            vs == model.voxels@,
            pal == scene@.1,
            palette_rgba@ == pal,
            limit == palette_limit(palette_span),
            max_colors as int == limit,
            vox_model_accepts(m, pal, target_resolution, palette_span),
            sw == units_covering(sx as int, 4),
            sh == units_covering(sy as int, 4),
            sd == units_covering(sz as int, 8),
            sw == storage_w as int,
            sh == storage_h as int,
            sx >= 1,
            sy >= 1,
            sw >= 1,
            sh >= 1,
            0 <= k <= vs.len(),
            voxels@.len() == sw * sh * sd,
            forall|t: int, b: int|
                0 <= t < voxels@.len() && 0 <= b < 128 ==> (bit_is_set(voxels@[t], b) <==> exists|
                    j: int,
                | 0 <= j < k && #[trigger] voxel_sets(vs, j, t, b, sw, sh)),
            colors@.len() == sx * sy * sz,
            forall|p: int|
                0 <= p < colors@.len() ==> #[trigger] colors@[p] == color_at(
                    vs,
                    k as int,
                    p,
                    sx as int,
                    sy as int,
                    limit,
                ),
            remap@.len() == 256,
            remap_assigned@.len() == 256,
            used_colors@.len() == first_seen_colors(vs, k as int, limit).len(),
            forall|j: int|
                0 <= j < used_colors@.len() ==> #[trigger] used_colors@[j] == pal[first_seen_colors(
                    vs,
                    k as int,
                    limit,
                )[j] as int],
            forall|o: int|
                1 <= o < 256 && #[trigger] first_seen_colors(vs, k as int, limit).contains(o as u8)
                    ==> remap_assigned@[o] && (remap@[o] as int) < used_colors@.len()
                    && first_seen_colors(vs, k as int, limit)[remap@[o] as int] == o as u8,
            forall|o: int|
                1 <= o < 256 && #[trigger] remap_assigned@[o] && !first_seen_colors(
                    vs,
                    k as int,
                    limit,
                ).contains(o as u8) ==> remap@[o] == 0 && used_colors@.len() >= limit,
        decreases vs.len() - k,
    {
        let ghost used = first_seen_colors(vs, k as int, limit);
        let ghost kk = k as int;
        proof {
            lemma_first_seen_shape(vs, kk, limit);
            lemma_first_seen_shape(vs, kk + 1, limit);
            lemma_first_seen_prefix(vs, kk + 1, vs.len() as int, limit);
            lemma_first_seen_prefix(vs, kk, kk + 1, limit);
        }
        let v = model.voxels[k];
        let x = v.x as usize;
        let y = v.y as usize;
        let z = v.z as usize;
        // Place the voxel into the packed storage
        let tx = x / 4;
        let ty = y / 4;
        let tz = z / 8;
        proof {
            assert(v == vs[kk]);
            lemma_accepts_voxel(m, pal, target_resolution, palette_span, kk);
            lemma_nonneg_mul_le(tz as int, sh);
            lemma_nonneg_mul_le(ty + tz * sh, sw);
        }
        let texel = tx + (ty + tz * storage_h as usize) * storage_w as usize;
        let bit = (x % 4) * 32 + (y % 4) + (z % 8) * 4;
        assert(texel as int == vox_texel(v, sw, sh));
        assert(bit as int == vox_bit(v));
        let old_word = voxels[texel];
        let ghost old_voxels = voxels@;
        voxels.set(texel, old_word | (1u128 << (bit as u128)));
        proof {
            assert forall|t: int, b: int|
                0 <= t < voxels@.len() && 0 <= b < 128 implies (bit_is_set(voxels@[t], b)
                <==> exists|j: int| 0 <= j < kk + 1 && #[trigger] voxel_sets(vs, j, t, b, sw, sh)) by {
                let old_set = bit_is_set(old_voxels[t], b);
                assert(old_set <==> exists|j: int|
                    0 <= j < kk && #[trigger] voxel_sets(vs, j, t, b, sw, sh));
                let here = voxel_sets(vs, kk, t, b, sw, sh);
                assert(here <==> (t == texel as int && b == bit as int));
                if t == texel as int {
                    lemma_or_single_bit(old_word, bit as u128, b as u128);
                    assert(bit_is_set(voxels@[t], b) <==> (old_set || b == bit as int));
                } else {
                    assert(voxels@[t] == old_voxels[t]);
                }
                if exists|j: int| 0 <= j < kk + 1 && #[trigger] voxel_sets(vs, j, t, b, sw, sh) {
                    let j = choose|j: int| 0 <= j < kk + 1 && #[trigger] voxel_sets(vs, j, t, b, sw, sh);
                    if j < kk {
                        assert(old_set);
                    } else {
                        assert(here);
                    }
                }
                if here {
                    assert(voxel_sets(vs, kk, t, b, sw, sh));
                }
                if old_set {
                    let j = choose|j: int| 0 <= j < kk && #[trigger] voxel_sets(vs, j, t, b, sw, sh);
                    assert(voxel_sets(vs, j, t, b, sw, sh));
                }
            }
        }
        // Remap the palette index to a local one
        let orig = v.i as usize;
        let mapped_local: u8 = if orig == 0 {
            0
        } else if remap_assigned[orig] {
            proof {
                assert(v.i == vs[kk].i);
                assert((orig as int) as u8 == v.i);
                if used.contains(v.i) {
                    assert(first_seen_colors(vs, kk + 1, limit) == used);
                    let idx = remap@[orig as int] as int;
                    lemma_index_of_unique(used, idx, v.i);
                } else {
                    lemma_first_seen_full_stays(vs, kk, kk + 1, limit);
                }
            }
            remap[orig]
        } else if used_colors.len() < max_colors {
            proof {
                assert(v.i == vs[kk].i);
                assert((orig as int) as u8 == v.i);
                if used.contains((orig as int) as u8) {
                    assert(remap_assigned@[orig as int]);
                }
                assert(!used.contains(v.i));
                assert(first_seen_colors(vs, kk + 1, limit) == used.push(v.i));
                assert(first_seen_colors(vs, vs.len() as int, limit)[used.len() as int] == v.i);
                lemma_accepts_palette(m, pal, target_resolution, palette_span, used.len() as int);
            }
            let pal_entry = palette_rgba[orig];
            let local_index = used_colors.len() as u8;
            used_colors.push(pal_entry);
            remap.set(orig, local_index);
            remap_assigned.set(orig, true);
            proof {
                lemma_index_of_unique(used.push(v.i), used.len() as int, v.i);
            }
            local_index
        } else {
            // Fallback: reuse the first color if available, otherwise zero.
            proof {
                assert(v.i == vs[kk].i);
                assert((orig as int) as u8 == v.i);
                if used.contains((orig as int) as u8) {
                    assert(remap_assigned@[orig as int]);
                }
                lemma_first_seen_full_stays(vs, kk, kk + 1, limit);
            }
            remap.set(orig, 0);
            remap_assigned.set(orig, true);
            0
        };
        proof {
            assert(mapped_local == local_color(vs, kk, limit));
        }
        proof {
            lemma_accepts_voxel(m, pal, target_resolution, palette_span, kk);
            lemma_nonneg_mul_le(z as int, sy as int);
            lemma_nonneg_mul_le(z * sy + y, sx as int);
        }
        let slot = (z * sy as usize + y) * sx as usize + x;
        assert(slot as int == vox_color_slot(v, sx as int, sy as int));
        colors.set(slot, mapped_local);
        proof {
            let used2 = first_seen_colors(vs, kk + 1, limit);
            assert forall|j: int| 0 <= j < used_colors@.len() implies #[trigger] used_colors@[j]
                == pal[used2[j] as int] by {}
            assert forall|o: int|
                1 <= o < 256 && #[trigger] used2.contains(o as u8) implies remap_assigned@[o]
                && (remap@[o] as int) < used_colors@.len() && used2[remap@[o] as int] == o as u8 by {
                if o != orig as int {
                    if !used.contains(o as u8) {
                        let w = choose|w: int| 0 <= w < used2.len() && used2[w] == o as u8;
                        assert(w == used.len());
                    }
                }
            }
            assert forall|o: int|
                1 <= o < 256 && #[trigger] remap_assigned@[o] && !used2.contains(o as u8)
                implies remap@[o] == 0 && used_colors@.len() >= limit by {
                if o != orig as int {
                    if used.contains(o as u8) {
                        let w = choose|w: int| 0 <= w < used.len() && used[w] == o as u8;
                        assert(used2[w] == o as u8);
                    }
                }
            }
        }
        k = k + 1;
    }
    Some(
        VoxLoadResult {
            voxels,
            colors,
            palette: used_colors,
            used_resolution,
            dim_x: sx,
            dim_y: sy,
            dim_z: sz,
            storage_w,
            storage_h,
            storage_d,
        },
    )
}

// ---------------------------------------------------------------------------
// Parsing `.vox` bytes
// ---------------------------------------------------------------------------
/// The scene that `dot_vox::load_bytes` reads from `bytes` (its models, each
/// with size and voxels, and its palette), or `None` where it reports an error.
pub uninterp spec fn dot_vox_parse(bytes: Seq<u8>) -> Option<
    (Seq<(u32, u32, u32, Seq<VoxVoxel>)>, Seq<VoxColor>),
>;

/// Parses `.vox` file contents with `dot_vox::load_bytes` and keeps the
/// models (size and voxels) and the palette. The contract claims only that
/// the result is a function of the bytes, named `dot_vox_parse`; what that
/// function is (the `.vox` format) is not stated.
#[verifier::external_body]
fn parse_vox_bytes(bytes: &[u8]) -> (r: Option<VoxScene>)
    ensures
        r.is_some() == dot_vox_parse(bytes@).is_some(),
        r matches Some(scene) ==> scene@ == dot_vox_parse(bytes@).unwrap(),
{
    match dot_vox::load_bytes(bytes) {
        Ok(data) => Some(VoxScene {
            models: data.models.iter().map(|m| VoxModel {
                size_x: m.size.x,
                size_y: m.size.y,
                size_z: m.size.z,
                voxels: m.voxels.iter().map(|v| VoxVoxel { x: v.x, y: v.y, z: v.z, i: v.i }).collect(),
            }).collect(),
            palette: data.palette.iter().map(|c| VoxColor { r: c.r, g: c.g, b: c.b, a: c.a }).collect(),
        }),
        Err(_) => None,
    }
}

proof fn lemma_geometry_voxel(m: (u32, u32, u32, Seq<VoxVoxel>), target: Option<u32>, k: int)
    requires
        vox_geometry_ok(m, target),
        0 <= k < m.3.len(),
    ensures
        vox_texel(m.3[k], units_covering(m.0 as int, 4), units_covering(m.1 as int, 4))
            < units_covering(m.0 as int, 4) * units_covering(m.1 as int, 4) * units_covering(
            m.2 as int,
            8,
        ),
        vox_color_slot(m.3[k], m.0 as int, m.1 as int) < m.0 * m.1 * m.2,
{
}

proof fn lemma_mul_mono(a: int, b: int, c: int, d: int)
    by (nonlinear_arith)
    requires
        0 <= a <= c,
        0 <= b <= d,
    ensures
        a * b <= c * d,
{
}

fn check_vox_geometry(model: &VoxModel, target_resolution: Option<u32>) -> (ok: bool)
    requires
        model.size_x > 0,
        model.size_y > 0,
        model.size_z > 0,
    ensures
        ok == vox_geometry_ok(model@, target_resolution),
{
    let sx = model.size_x;
    let sy = model.size_y;
    let sz = model.size_z;
    if sx > u32::MAX - 3 || sy > u32::MAX - 3 || sz > u32::MAX - 7 {
        return false;
    }
    let sw = ((sx + 3) / 4) as u128;
    let sh = ((sy + 3) / 4) as u128;
    let sd = ((sz + 7) / 8) as u128;
    proof {
        lemma_mul_mono(sw as int, sh as int, 0x4000_0000, 0x4000_0000);
        lemma_mul_mono(sw * sh, sd as int, 0x1000_0000_0000_0000int, 0x4000_0000);
    }
    let texels = sw * sh * sd;
    if texels > u32::MAX as u128 {
        return false;
    }
    let sx128 = sx as u128;
    let sy128 = sy as u128;
    let sz128 = sz as u128;
    proof {
        lemma_mul_mono(sx as int, sy as int, 0x1_0000_0000, 0x1_0000_0000);
        lemma_mul_mono(sx * sy, sz as int, 0x1_0000_0000_0000_0000int, 0x1_0000_0000);
    }
    let slots = sx128 * sy128 * sz128;
    if slots > usize::MAX as u128 {
        return false;
    }
    let ab = if sx >= sy {
        sx
    } else {
        sy
    };
    let native_max = if ab >= sz {
        ab
    } else {
        sz
    };
    let requested = match target_resolution {
        Some(t) => if t >= native_max {
            t
        } else {
            native_max
        },
        None => native_max,
    };
    if requested % 8 != 0 && requested > u32::MAX - 7 {
        return false;
    }
    let ghost vs = model.voxels@;
    let mut k: usize = 0;
    while k < model.voxels.len()
        invariant
            vs == model.voxels@,
            0 <= k <= vs.len(),
            sw == units_covering(sx as int, 4),
            sh == units_covering(sy as int, 4),
            sd == units_covering(sz as int, 8),
            sw <= 0x4000_0000,
            sh <= 0x4000_0000,
            texels == sw * sh * sd,
            slots == sx * sy * sz,
            sx128 == sx,
            sy128 == sy,
            model.size_x == sx,
            model.size_y == sy,
            model.size_z == sz,
            sx <= u32::MAX,
            sy <= u32::MAX,
            forall|j: int| 0 <= j < k ==> #[trigger] vox_texel(vs[j], sw as int, sh as int) < texels,
            forall|j: int| 0 <= j < k ==> #[trigger] vox_color_slot(vs[j], sx as int, sy as int) < slots,
        decreases vs.len() - k,
    {
        let v = model.voxels[k];
        let x = v.x as u128;
        let y = v.y as u128;
        let z = v.z as u128;
        proof {
            lemma_mul_mono(z as int / 8, sh as int, 32, 0x4000_0000);
            lemma_mul_mono(y as int / 4 + (z as int / 8) * sh, sw as int, 0x10_0000_0000, 0x4000_0000);
            lemma_mul_mono(z as int, sy as int, 256, 0x1_0000_0000);
            lemma_mul_mono(z * sy + y, sx as int, 0x200_0000_0000, 0x1_0000_0000);
        }
        let texel = x / 4 + (y / 4 + (z / 8) * sh) * sw;
        let slot = (z * sy128 + y) * sx128 + x;
        assert(texel as int == vox_texel(vs[k as int], sw as int, sh as int));
        assert(slot as int == vox_color_slot(vs[k as int], sx as int, sy as int));
        if texel >= texels || slot >= slots {
            proof {
                assert(vs[k as int] == v);
                if vox_geometry_ok(model@, target_resolution) {
                    lemma_geometry_voxel(model@, target_resolution, k as int);
                }
            }
            return false;
        }
        k = k + 1;
    }
    true
}

/// Whether every palette index that the conversion collects from `model`
/// (at most `palette_limit(palette_span)` distinct nonzero indices, in order
/// of first appearance) lies below `palette_len`.
fn check_collected_colors(model: &VoxModel, palette_len: usize, palette_span: u8) -> (ok: bool)
    ensures
        ok == collected_colors_in_palette(model.voxels@, palette_len as int, palette_limit(palette_span)),
{
    let ghost vs = model.voxels@;
    let ghost limit = palette_limit(palette_span);
    let max_colors: usize = if palette_span == 0 {
        255
    } else {
        palette_span as usize
    };
    let mut seen: Vec<bool> = vec![false; 256];
    let mut count: usize = 0;
    let mut k: usize = 0;
    proof {
        lemma_first_seen_shape(vs, vs.len() as int, limit);
    }
    while k < model.voxels.len()
        invariant
            vs == model.voxels@,
            limit == palette_limit(palette_span),
            max_colors as int == limit,
            0 <= k <= vs.len(),
            seen@.len() == 256,
            count as int == first_seen_colors(vs, k as int, limit).len(),
            forall|o: int|
                0 <= o < 256 ==> (#[trigger] seen@[o] <==> first_seen_colors(vs, k as int, limit).contains(
                    o as u8,
                )),
            forall|j: int|
                0 <= j < first_seen_colors(vs, k as int, limit).len() ==> (
                #[trigger] first_seen_colors(vs, k as int, limit)[j] as int) < palette_len,
        decreases vs.len() - k,
    {
        let ghost kk = k as int;
        let ghost used = first_seen_colors(vs, kk, limit);
        proof {
            lemma_first_seen_shape(vs, kk, limit);
            lemma_first_seen_prefix(vs, kk + 1, vs.len() as int, limit);
        }
        let o = model.voxels[k].i;
        assert(o == vs[kk].i);
        let fresh = o != 0 && !seen[o as usize] && count < max_colors;
        proof {
            assert(seen@[o as int] <==> used.contains(o));
        }
        if fresh {
            assert(first_seen_colors(vs, kk + 1, limit) == used.push(o));
            if o as usize >= palette_len {
                assert(first_seen_colors(vs, vs.len() as int, limit)[used.len() as int] == o);
                return false;
            }
            seen.set(o as usize, true);
            count = count + 1;
            proof {
                let used2 = used.push(o);
                assert forall|p: int| 0 <= p < 256 implies (#[trigger] seen@[p] <==> used2.contains(
                    p as u8,
                )) by {
                    if p != o as int {
                        if used2.contains(p as u8) {
                            let w = choose|w: int| 0 <= w < used2.len() && used2[w] == p as u8;
                            assert(w < used.len());
                        }
                        if used.contains(p as u8) {
                            let w = choose|w: int| 0 <= w < used.len() && used[w] == p as u8;
                            assert(used2[w] == p as u8);
                        }
                    } else {
                        assert(used2[used.len() as int] == o);
                    }
                }
            }
        } else {
            assert(first_seen_colors(vs, kk + 1, limit) == used);
        }
        k = k + 1;
    }
    true
}

/// Convert the first model of `.vox` file contents into packed occupancy and
/// local palette indices. Returns `None` when the bytes are not a `.vox`
/// file, when it has no model, when the first model has a zero size, or when
/// the model is not one `vox_model_accepts` (a voxel outside the model, a
/// collected palette index outside the palette, or sizes whose storage does
/// not fit).
pub fn vox_to_voxels(bytes: &[u8], target_resolution: Option<u32>, palette_span: u8) -> (r: Option<
    VoxLoadResult,
>)
    ensures
        r.is_some() <==> (dot_vox_parse(bytes@) matches Some(scene) && scene.0.len() > 0
            && scene.0[0].0 > 0 && scene.0[0].1 > 0 && scene.0[0].2 > 0 && vox_model_accepts(
            scene.0[0],
            scene.1,
            target_resolution,
            palette_span,
        )),
        r matches Some(res) ==> vox_result_of(
            dot_vox_parse(bytes@).unwrap().0[0],
            dot_vox_parse(bytes@).unwrap().1,
            target_resolution,
            palette_span,
            res,
        ),
{
    let scene = match parse_vox_bytes(bytes) {
        Some(scene) => scene,
        None => {
            return None;
        },
    };
    if scene.models.len() == 0 {
        return None;
    }
    let model = &scene.models[0];
    assert(model@ == scene@.0[0]);
    if model.size_x == 0 || model.size_y == 0 || model.size_z == 0 {
        return None;
    }
    let geometry_ok = check_vox_geometry(model, target_resolution);
    if !geometry_ok {
        return None;
    }
    let colors_ok = check_collected_colors(model, scene.palette.len(), palette_span);
    if !colors_ok {
        return None;
    }
    vox_scene_to_voxels(&scene, target_resolution, palette_span)
}

// ---------------------------------------------------------------------------
// Laws of the conversion
// ---------------------------------------------------------------------------
proof fn lemma_color_at_bounded(vs: Seq<VoxVoxel>, n: int, p: int, sx: int, sy: int, limit: int)
    requires
        0 <= n <= vs.len(),
        0 <= limit <= 255,
    ensures
        color_at(vs, n, p, sx, sy, limit) == 0 || (color_at(vs, n, p, sx, sy, limit) as int)
            < first_seen_colors(vs, n, limit).len(),
    decreases n,
{
    if n > 0 {
        lemma_first_seen_prefix(vs, n - 1, n, limit);
        lemma_first_seen_shape(vs, n, limit);
        if vox_color_slot(vs[n - 1], sx, sy) == p {
            let used = first_seen_colors(vs, n, limit);
            let o = vs[n - 1].i;
            if o != 0 && used.contains(o) {
                let j = used.index_of(o);
                assert(0 <= j < used.len());
            }
        } else {
            lemma_color_at_bounded(vs, n - 1, p, sx, sy, limit);
        }
    }
}

/// A converted model keeps at most `palette_span` palette entries (255 when
/// the span is 0), and every color index it stores is 0 or names one of them.
pub proof fn lemma_vox_colors_name_palette_entries(
    m: (u32, u32, u32, Seq<VoxVoxel>),
    palette: Seq<VoxColor>,
    target: Option<u32>,
    span: u8,
    r: VoxLoadResult,
)
    requires
        vox_result_of(m, palette, target, span, r),
    ensures
        r.palette@.len() <= palette_limit(span),
        forall|p: int|
            0 <= p < r.colors@.len() ==> #[trigger] r.colors@[p] == 0 || (r.colors@[p] as int)
                < r.palette@.len(),
{
    let vs = m.3;
    let limit = palette_limit(span);
    lemma_first_seen_shape(vs, vs.len() as int, limit);
    assert forall|p: int| 0 <= p < r.colors@.len() implies #[trigger] r.colors@[p] == 0 || (
    r.colors@[p] as int) < r.palette@.len() by {
        lemma_color_at_bounded(vs, vs.len() as int, p, m.0 as int, m.1 as int, limit);
    }
}

proof fn lemma_nonzero_u8_pigeonhole(s: Seq<u8>, o: u8)
    requires
        s.no_duplicates(),
        forall|j: int| 0 <= j < s.len() ==> s[j] != 0,
        !s.contains(o),
        o != 0,
    ensures
        s.len() <= 254,
{
    let t = s.map_values(|x: u8| x as int);
    assert(t.no_duplicates()) by {
        assert forall|i: int, j: int| 0 <= i < t.len() && 0 <= j < t.len() && i != j implies t[i]
            != t[j] by {
            assert(s[i] != s[j]);
        }
    }
    let range = vstd::set_lib::set_int_range(1, 256).remove(o as int);
    vstd::set_lib::lemma_int_range(1, 256);
    assert(vstd::set_lib::set_int_range(1, 256).contains(o as int));
    assert(range.len() == 254);
    assert(t.to_set().subset_of(range)) by {
        assert forall|x: int| t.to_set().contains(x) implies range.contains(x) by {
            assert(t.contains(x));
            let j = choose|j: int| 0 <= j < t.len() && t[j] == x;
            assert(s[j] != 0 && s[j] != o);
        }
    }
    vstd::set_lib::lemma_len_subset(t.to_set(), range);
    t.unique_seq_to_set();
}

/// With a palette span of 255 colours, the conversion collects every nonzero
/// palette index of the first `n` voxels: a `u8` has only 255 nonzero values,
/// so the cap never turns a colour away.
proof fn lemma_full_span_collects_every_index(vs: Seq<VoxVoxel>, n: int)
    requires
        0 <= n <= vs.len(),
    ensures
        forall|k: int|
            0 <= k < n && vs[k].i != 0 ==> first_seen_colors(vs, n, 255).contains(#[trigger] vs[k].i),
    decreases n,
{
    if n > 0 {
        lemma_full_span_collects_every_index(vs, n - 1);
        let prev = first_seen_colors(vs, n - 1, 255);
        let o = vs[n - 1].i;
        lemma_first_seen_shape(vs, n - 1, 255);
        lemma_first_seen_prefix(vs, n - 1, n, 255);
        if o != 0 && !prev.contains(o) {
            lemma_nonzero_u8_pigeonhole(prev, o);
            assert(first_seen_colors(vs, n, 255) == prev.push(o));
            assert(first_seen_colors(vs, n, 255)[prev.len() as int] == o);
        }
        assert forall|k: int| 0 <= k < n && vs[k].i != 0 implies first_seen_colors(vs, n, 255).contains(
            #[trigger] vs[k].i,
        ) by {
            if k < n - 1 {
                assert(prev.contains(vs[k].i));
                let j = choose|j: int| 0 <= j < prev.len() && prev[j] == vs[k].i;
                assert(first_seen_colors(vs, n, 255)[j] == vs[k].i);
            } else if prev.contains(o) {
                let j = choose|j: int| 0 <= j < prev.len() && prev[j] == o;
                assert(first_seen_colors(vs, n, 255)[j] == o);
            }
        }
    }
}

proof fn lemma_color_at_last_writer(vs: Seq<VoxVoxel>, n: int, k: int, sx: int, sy: int, limit: int)
    requires
        0 <= k < n <= vs.len(),
        forall|k2: int|
            k < k2 < n ==> vox_color_slot(#[trigger] vs[k2], sx, sy) != vox_color_slot(vs[k], sx, sy),
    ensures
        color_at(vs, n, vox_color_slot(vs[k], sx, sy), sx, sy, limit) == local_color(vs, k, limit),
    decreases n,
{
    if n - 1 > k {
        lemma_color_at_last_writer(vs, n - 1, k, sx, sy, limit);
    }
}

/// With palette span 0 (up to 255 colours) nothing is capped: every voxel
/// with a nonzero palette index that is the last one written to its colour
/// slot gets a local index into the kept palette, and that entry is its own
/// colour from the file's palette.
pub proof fn lemma_span_zero_keeps_every_colour(
    m: (u32, u32, u32, Seq<VoxVoxel>),
    palette: Seq<VoxColor>,
    target: Option<u32>,
    r: VoxLoadResult,
    k: int,
)
    requires
        vox_result_of(m, palette, target, 0, r),
        0 <= k < m.3.len(),
        m.3[k].i != 0,
        0 <= vox_color_slot(m.3[k], m.0 as int, m.1 as int) < r.colors@.len(),
        forall|k2: int|
            k < k2 < m.3.len() ==> vox_color_slot(#[trigger] m.3[k2], m.0 as int, m.1 as int)
                != vox_color_slot(m.3[k], m.0 as int, m.1 as int),
    ensures
        (r.colors@[vox_color_slot(m.3[k], m.0 as int, m.1 as int)] as int) < r.palette@.len(),
        r.palette@[r.colors@[vox_color_slot(m.3[k], m.0 as int, m.1 as int)] as int] == palette[m.3[k].i as int],
{
    let vs = m.3;
    let n = vs.len() as int;
    let p = vox_color_slot(vs[k], m.0 as int, m.1 as int);
    assert(palette_limit(0) == 255);
    lemma_color_at_last_writer(vs, n, k, m.0 as int, m.1 as int, 255);
    assert(r.colors@[p] == color_at(vs, n, p, m.0 as int, m.1 as int, 255));
    lemma_full_span_collects_every_index(vs, k + 1);
    let used = first_seen_colors(vs, k + 1, 255);
    let o = vs[k].i;
    assert(used.contains(o));
    lemma_first_seen_shape(vs, k + 1, 255);
    let idx = used.index_of(o);
    assert(used[idx] == o);
    assert(local_color(vs, k, 255) == idx as u8);
    lemma_first_seen_prefix(vs, k + 1, n, 255);
    let all = first_seen_colors(vs, n, 255);
    assert(all[idx] == o);
    assert(r.palette@[idx] == palette[all[idx] as int]);
}

} // verus!
