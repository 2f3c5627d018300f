//! Choosing which depth pixels to read back around a focus point when the
//! camera zooms: a small block of the depth image around the focus, and the
//! order in which pixels of the block are tried.
use vstd::prelude::*;

verus! {

/// Edge of the largest block read back from the depth image.
pub const SAMPLE_EDGE: u32 = 9;

/// Number of candidate offsets tried around the focus pixel.
pub const SAMPLE_OFFSET_COUNT: usize = 13;

/// Candidate offsets from the focus pixel, in the order they are tried.
pub open spec fn sample_offsets() -> Seq<(int, int)> {
    seq![
        (0, 0),
        (1, 0),
        (-1, 0),
        (0, 1),
        (0, -1),
        (1, 1),
        (-1, 1),
        (1, -1),
        (-1, -1),
        (2, 0),
        (-2, 0),
        (0, 2),
        (0, -2),
    ]
}

fn sample_offset(k: usize) -> (r: (i32, i32))
    requires
        k < SAMPLE_OFFSET_COUNT,
    ensures
        (r.0 as int, r.1 as int) == sample_offsets()[k as int],
{
    match k {
        0 => (0, 0),
        1 => (1, 0),
        2 => (-1, 0),
        3 => (0, 1),
        4 => (0, -1),
        5 => (1, 1),
        6 => (-1, 1),
        7 => (1, -1),
        8 => (-1, -1),
        9 => (2, 0),
        10 => (-2, 0),
        11 => (0, 2),
        _ => (0, -2),
    }
}

/// Origin of a block of edge `block` along an axis of length `total`,
/// centred on `coord` where it fits and pushed back inside the axis where not.
pub open spec fn block_origin(coord: int, total: int, block: int) -> int {
    if total <= block {
        0
    } else {
        let centred = if coord >= block / 2 {
            coord - block / 2
        } else {
            0
        };
        if centred <= total - block {
            centred
        } else {
            total - block
        }
    }
}

/// Origin of a block of edge `block` along an axis of length `total`, centred
/// on `coord` where it fits.
pub fn clamp_block_origin(coord: u32, total: u32, block: u32) -> (r: u32)
    ensures
        r == block_origin(coord as int, total as int, block as int),
{
    if total <= block {
        0
    } else {
        let half = block / 2;
        let centred = if coord >= half {
            coord - half
        } else {
            0
        };
        if centred <= total - block {
            centred
        } else {
            total - block
        }
    }
}

/// The block chosen around a coordinate inside the axis contains that
/// coordinate, and lies inside the axis when it is no longer than the axis.
pub proof fn lemma_block_contains_coord(coord: int, total: int, block: int)
    requires
        1 <= block,
        0 <= coord < total,
    ensures
        0 <= block_origin(coord, total, block) <= coord,
        coord < block_origin(coord, total, block) + block,
        block <= total ==> block_origin(coord, total, block) + block <= total,
{
}

/// On an axis longer than the block, the block is centred on the
/// coordinate (which then sits at offset `block / 2`) wherever that fits,
/// and is pushed against the nearer end of the axis where it does not.
pub proof fn lemma_block_centred_where_it_fits(coord: int, total: int, block: int)
    requires
        1 <= block < total,
        0 <= coord,
    ensures
        block / 2 <= coord <= total - block + block / 2 ==> block_origin(coord, total, block) == coord
            - block / 2,
        coord < block / 2 ==> block_origin(coord, total, block) == 0,
        coord > total - block + block / 2 ==> block_origin(coord, total, block) == total - block,
{
}

/// A focus pixel at least `SAMPLE_EDGE / 2` pixels from every edge of an
/// image wider and taller than `SAMPLE_EDGE` sits at the centre of a full
/// `SAMPLE_EDGE × SAMPLE_EDGE` block, so every candidate offset lies in the block.
pub proof fn lemma_plan_centres_focus(render_extent: [u32; 2], focus_px: [u32; 2], p: DepthSamplePlan)
    requires
        depth_plan_of(render_extent, focus_px, p),
        render_extent[0] > SAMPLE_EDGE,
        render_extent[1] > SAMPLE_EDGE,
        SAMPLE_EDGE / 2 <= focus_px[0] < render_extent[0] - SAMPLE_EDGE / 2,
        SAMPLE_EDGE / 2 <= focus_px[1] < render_extent[1] - SAMPLE_EDGE / 2,
    ensures
        p.block_w == SAMPLE_EDGE,
        p.block_h == SAMPLE_EDGE,
        p.base_x == focus_px[0] - SAMPLE_EDGE / 2,
        p.base_y == focus_px[1] - SAMPLE_EDGE / 2,
        p.center_x == SAMPLE_EDGE / 2,
        p.center_y == SAMPLE_EDGE / 2,
        candidate_indices(p, SAMPLE_OFFSET_COUNT as int).len() == SAMPLE_OFFSET_COUNT,
{
    lemma_block_centred_where_it_fits(focus_px[0] as int, render_extent[0] as int, SAMPLE_EDGE as int);
    lemma_block_centred_where_it_fits(focus_px[1] as int, render_extent[1] as int, SAMPLE_EDGE as int);
    lemma_all_candidates_in_block(p, SAMPLE_OFFSET_COUNT as int);
}

/// Where to read the depth image around a focus pixel: a block of at most
/// `SAMPLE_EDGE × SAMPLE_EDGE` pixels at `(base_x, base_y)`, and the focus
/// pixel's position `(center_x, center_y)` inside the block.
#[derive(Clone, Copy, Debug, PartialEq, Eq)]
pub struct DepthSamplePlan {
    pub base_x: u32,
    pub base_y: u32,
    pub block_w: u32,
    pub block_h: u32,
    pub center_x: i32,
    pub center_y: i32,
}

/// Block edge along an axis of length `total` (at least 1).
pub open spec fn block_edge(total: int) -> int {
    let e = if total <= SAMPLE_EDGE {
        total
    } else {
        SAMPLE_EDGE as int
    };
    if e >= 1 {
        e
    } else {
        1
    }
}

/// `coord` clamped to the last pixel of an axis of length `total`.
pub open spec fn clamp_to_axis(coord: int, total: int) -> int {
    if coord <= total - 1 {
        coord
    } else {
        total - 1
    }
}

/// The plan for a render extent and a focus pixel, both axes taken alike.
pub open spec fn depth_plan_of(render_extent: [u32; 2], focus_px: [u32; 2], p: DepthSamplePlan) -> bool {
    let (w, h) = (render_extent[0] as int, render_extent[1] as int);
    let fx = clamp_to_axis(focus_px[0] as int, w);
    let fy = clamp_to_axis(focus_px[1] as int, h);
    &&& p.block_w == block_edge(w)
    &&& p.block_h == block_edge(h)
    &&& p.base_x == block_origin(fx, w, block_edge(w))
    &&& p.base_y == block_origin(fy, h, block_edge(h))
    &&& p.center_x == fx - p.base_x
    &&& p.center_y == fy - p.base_y
}

/// Plan the depth read-back around `focus_px` in an image of `render_extent`.
/// Returns `None` for an empty image.
pub fn plan_depth_sample(render_extent: [u32; 2], focus_px: [u32; 2]) -> (r: Option<DepthSamplePlan>)
    ensures
        r.is_none() <==> (render_extent[0] == 0 || render_extent[1] == 0),
        r matches Some(p) ==> depth_plan_of(render_extent, focus_px, p),
{
    let width = render_extent[0];
    let height = render_extent[1];
    if width == 0 || height == 0 {
        return None;
    }
    let bw = if width <= SAMPLE_EDGE {
        width
    } else {
        SAMPLE_EDGE
    };
    let block_w = if bw >= 1 {
        bw
    } else {
        1
    };
    let bh = if height <= SAMPLE_EDGE {
        height
    } else {
        SAMPLE_EDGE
    };
    let block_h = if bh >= 1 {
        bh
    } else {
        1
    };
    let fx = if focus_px[0] <= width - 1 {
        focus_px[0]
    } else {
        width - 1
    };
    let fy = if focus_px[1] <= height - 1 {
        focus_px[1]
    } else {
        height - 1
    };
    let base_x = clamp_block_origin(fx, width, block_w);
    let base_y = clamp_block_origin(fy, height, block_h);
    proof {
        lemma_block_contains_coord(fx as int, width as int, block_w as int);
        lemma_block_contains_coord(fy as int, height as int, block_h as int);
    }
    let center_x = (fx - base_x) as i32;
    let center_y = (fy - base_y) as i32;
    Some(DepthSamplePlan { base_x, base_y, block_w, block_h, center_x, center_y })
}

/// Index into the block, row-major, of the pixel at offset `off` from the
/// centre, when that pixel lies in the block.
pub open spec fn offset_index(p: DepthSamplePlan, off: (int, int)) -> Option<int> {
    let sx = p.center_x + off.0;
    let sy = p.center_y + off.1;
    if sx < 0 || sy < 0 || sx >= p.block_w || sy >= p.block_h {
        None
    } else {
        Some(sy * p.block_w + sx)
    }
}

/// Block indices of the first `n` candidate offsets that lie in the block, in order.
pub open spec fn candidate_indices(p: DepthSamplePlan, n: int) -> Seq<int>
    decreases n,
{
    if n <= 0 {
        Seq::empty()
    } else {
        let prev = candidate_indices(p, n - 1);
        match offset_index(p, sample_offsets()[n - 1]) {
            Some(i) => prev.push(i),
            None => prev,
        }
    }
}

proof fn lemma_row_major_bound(sx: int, sy: int, w: int, h: int)
    by (nonlinear_arith)
    requires
        0 <= sx < w,
        0 <= sy < h,
    ensures
        0 <= sy * w,
        sy * w + sx < w * h,
{
}

/// Indices into the read-back block of the pixels to try, in priority order:
/// the candidate offsets around the focus pixel that fall inside the block.
pub fn depth_sample_indices(plan: &DepthSamplePlan) -> (r: Vec<usize>)
    requires
        -0x7FFF_FFF0 <= plan.center_x <= 0x7FFF_FFF0,
        -0x7FFF_FFF0 <= plan.center_y <= 0x7FFF_FFF0,
        plan.block_w <= 0x7FFF_FFFF,
        plan.block_h <= 0x7FFF_FFFF,
        plan.block_w * plan.block_h <= usize::MAX,
    ensures
        r@.len() == candidate_indices(*plan, SAMPLE_OFFSET_COUNT as int).len(),
        forall|j: int|
            0 <= j < r@.len() ==> #[trigger] r@[j] as int == candidate_indices(
                *plan,
                SAMPLE_OFFSET_COUNT as int,
            )[j],
        forall|j: int| 0 <= j < r@.len() ==> (#[trigger] r@[j] as int) < plan.block_w * plan.block_h,
{
    let mut out: Vec<usize> = Vec::new();
    let bw = plan.block_w as i32;
    let bh = plan.block_h as i32;
    let mut k: usize = 0;
    while k < SAMPLE_OFFSET_COUNT
        invariant
            k <= SAMPLE_OFFSET_COUNT,
            bw == plan.block_w,
            bh == plan.block_h,
            -0x7FFF_FFF0 <= plan.center_x <= 0x7FFF_FFF0,
            -0x7FFF_FFF0 <= plan.center_y <= 0x7FFF_FFF0,
            plan.block_w * plan.block_h <= usize::MAX,
            out@.len() == candidate_indices(*plan, k as int).len(),
            forall|j: int|
                0 <= j < out@.len() ==> #[trigger] out@[j] as int == candidate_indices(*plan, k as int)[j],
            forall|j: int| 0 <= j < out@.len() ==> (#[trigger] out@[j] as int) < plan.block_w * plan.block_h,
        decreases SAMPLE_OFFSET_COUNT - k,
    {
        let (ox, oy) = sample_offset(k);
        let sx = plan.center_x + ox;
        let sy = plan.center_y + oy;
        if !(sx < 0 || sy < 0 || sx >= bw || sy >= bh) {
            proof {
                lemma_row_major_bound(sx as int, sy as int, bw as int, bh as int);
            }
            let idx = sy as usize * plan.block_w as usize + sx as usize;
            out.push(idx);
        }
        k = k + 1;
    }
    out
}

/// The first pixel tried for a planned read-back is the focus pixel itself,
/// and every candidate lies inside the block.
pub proof fn lemma_focus_pixel_tried_first(render_extent: [u32; 2], focus_px: [u32; 2], p: DepthSamplePlan)
    requires
        render_extent[0] > 0,
        render_extent[1] > 0,
        depth_plan_of(render_extent, focus_px, p),
    ensures
        candidate_indices(p, SAMPLE_OFFSET_COUNT as int).len() >= 1,
        candidate_indices(p, SAMPLE_OFFSET_COUNT as int)[0] == p.center_y * p.block_w + p.center_x,
        0 <= p.center_x < p.block_w,
        0 <= p.center_y < p.block_h,
{
    let w = render_extent[0] as int;
    let h = render_extent[1] as int;
    lemma_block_contains_coord(clamp_to_axis(focus_px[0] as int, w), w, block_edge(w));
    lemma_block_contains_coord(clamp_to_axis(focus_px[1] as int, h), h, block_edge(h));
    assert(sample_offsets()[0] == (0int, 0int));
    assert(offset_index(p, (0int, 0int)) == Some(p.center_y * p.block_w + p.center_x));
    assert(candidate_indices(p, 0) =~= Seq::<int>::empty());
    assert(candidate_indices(p, 1) =~= seq![p.center_y * p.block_w + p.center_x]);
    lemma_candidates_prefix(p, 1, SAMPLE_OFFSET_COUNT as int);
}

proof fn lemma_all_candidates_in_block(p: DepthSamplePlan, n: int)
    requires
        0 <= n <= SAMPLE_OFFSET_COUNT,
        p.block_w == SAMPLE_EDGE,
        p.block_h == SAMPLE_EDGE,
        p.center_x == SAMPLE_EDGE / 2,
        p.center_y == SAMPLE_EDGE / 2,
    ensures
        candidate_indices(p, n).len() == n,
    decreases n,
{
    if n > 0 {
        lemma_all_candidates_in_block(p, n - 1);
        let off = sample_offsets()[n - 1];
        assert(-2 <= off.0 <= 2 && -2 <= off.1 <= 2);
        assert(offset_index(p, off) is Some);
    }
}

proof fn lemma_candidates_prefix(p: DepthSamplePlan, m: int, n: int)
    requires
        0 <= m <= n,
    ensures
        candidate_indices(p, m).len() <= candidate_indices(p, n).len(),
        forall|j: int|
            0 <= j < candidate_indices(p, m).len() ==> #[trigger] candidate_indices(p, n)[j]
                == candidate_indices(p, m)[j],
    decreases n - m,
{
    if m < n {
        lemma_candidates_prefix(p, m, n - 1);
    }
}

} // verus!
