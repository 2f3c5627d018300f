//! Compact linear octree over a dense voxel occupancy grid.
//!
//! Each internal node stores the index of its first child in the linear array; the 8 children
//! occupy consecutive slots `[first_child..first_child+8)`. Leaves set `first_child = u32::MAX`
//! and `mask` encodes occupancy: `0` for an empty region, `0xFF` for a full region, and for
//! regions at the depth limit (or of size 1) the occupancy of the up to 2×2×2 voxels at the
//! region's origin, bit `x | y << 1 | z << 2`.
use vstd::arithmetic::power2::{lemma2_to64, lemma_pow2_pos, lemma_pow2_strictly_increases, lemma_pow2_unfold, pow2};
use vstd::bits::{lemma_u32_pow2_no_overflow, lemma_u32_shl_is_mul};
use vstd::prelude::*;

verus! {

/// Compact linear octree node representation.
#[derive(Clone, Copy, Debug, Default)]
pub struct OctNode {
    /// Index of the first of the 8 children; `u32::MAX` marks a leaf.
    pub first_child: u32,
    /// Occupancy mask for leaves (8 bits, child order `x | y << 1 | z << 2`).
    pub mask: u8,
    /// Explicit padding for std140-like alignment.
    pub _pad: [u8; 3],
}

/// Per-grid octree metadata uploaded alongside the grid info.
#[derive(Clone, Copy, Debug, Default)]
pub struct OctreeGridInfo {
    /// Starting index into the global octree node buffer.
    pub node_offset: u32,
    /// Number of nodes for this grid.
    pub node_count: u32,
    /// Maximum depth (root depth = 0).
    pub max_depth: u32,
    /// bit0: 1 if octree present.
    pub flags: u32,
}

// ---------------------------------------------------------------------------
// Occupancy
// ---------------------------------------------------------------------------
/// Voxel `(x, y, z)` lies inside `dims` and is occupied; `occ` is x-major
/// (`x + dims.0 * (y + dims.1 * z)`).
pub open spec fn voxel_solid(occ: Seq<bool>, dims: (u32, u32, u32), x: int, y: int, z: int) -> bool {
    &&& 0 <= x < dims.0
    &&& 0 <= y < dims.1
    &&& 0 <= z < dims.2
    &&& occ[x + dims.0 * (y + dims.1 * z)]
}

/// Voxel at offset `(x, y, z)` from origin `o` is occupied.
pub open spec fn region_solid(
    occ: Seq<bool>,
    dims: (u32, u32, u32),
    o: (int, int, int),
    x: int,
    y: int,
    z: int,
) -> bool {
    voxel_solid(occ, dims, o.0 + x, o.1 + y, o.2 + z)
}

/// Some voxel of the cube of edge `size` at `o` is occupied.
pub open spec fn region_any(occ: Seq<bool>, dims: (u32, u32, u32), o: (int, int, int), size: int) -> bool {
    exists|x: int, y: int, z: int|
        0 <= x < size && 0 <= y < size && 0 <= z < size && #[trigger] region_solid(
            occ,
            dims,
            o,
            x,
            y,
            z,
        )
}

/// Every voxel of the cube of edge `size` at `o` lies inside `dims` and is occupied.
pub open spec fn region_all(occ: Seq<bool>, dims: (u32, u32, u32), o: (int, int, int), size: int) -> bool {
    forall|x: int, y: int, z: int|
        0 <= x < size && 0 <= y < size && 0 <= z < size ==> #[trigger] region_solid(
            occ,
            dims,
            o,
            x,
            y,
            z,
        )
}

/// Bit `k` of a leaf mask: the voxel `(k % 2, (k / 2) % 2, k / 4)` of the
/// region, sampled at up to 2×2×2 resolution, is occupied.
pub open spec fn leaf_bit(occ: Seq<bool>, dims: (u32, u32, u32), o: (int, int, int), size: int, k: int) -> bool {
    let half = if size < 2 {
        size
    } else {
        2
    };
    &&& k % 2 < half
    &&& (k / 2) % 2 < half
    &&& k / 4 < half
    &&& region_solid(occ, dims, o, k % 2, (k / 2) % 2, k / 4)
}

/// The union of the leaf-mask bits `0..n`.
pub open spec fn leaf_mask_prefix(
    occ: Seq<bool>,
    dims: (u32, u32, u32),
    o: (int, int, int),
    size: int,
    n: nat,
) -> u8
    decreases n,
{
    if n == 0 {
        0u8
    } else {
        let prev = leaf_mask_prefix(occ, dims, o, size, (n - 1) as nat);
        if leaf_bit(occ, dims, o, size, n - 1) {
            prev | (1u8 << ((n - 1) as u8))
        } else {
            prev
        }
    }
}

/// Occupancy mask of a leaf at the depth limit.
pub open spec fn leaf_mask(occ: Seq<bool>, dims: (u32, u32, u32), o: (int, int, int), size: int) -> u8 {
    leaf_mask_prefix(occ, dims, o, size, 8)
}

// ---------------------------------------------------------------------------
// Tree shape
// ---------------------------------------------------------------------------
/// Smallest depth `d >= from` (at most 31) with `2^d >= max_dim`.
pub open spec fn covering_depth(max_dim: int, from: nat) -> nat
    decreases 31 - from,
{
    if from >= 31 || pow2(from) >= max_dim {
        from
    } else {
        covering_depth(max_dim, from + 1)
    }
}

/// The largest of the three dimensions.
pub open spec fn max_dim_of(dims: (u32, u32, u32)) -> int {
    let m = if dims.0 >= dims.1 {
        dims.0
    } else {
        dims.1
    };
    if m >= dims.2 {
        m as int
    } else {
        dims.2 as int
    }
}

/// Depth of the octree: enough levels for `2^depth` to cover the largest
/// dimension, capped by `limit` when one is given.
pub open spec fn octree_target_depth(dims: (u32, u32, u32), limit: Option<u32>) -> int {
    let d = covering_depth(max_dim_of(dims), 0) as int;
    match limit {
        Some(l) => if l < d {
            l as int
        } else {
            d
        },
        None => d,
    }
}

/// A region at `depth` is subdivided: it is above the depth limit, larger
/// than one voxel, and partly (not wholly) occupied.
pub open spec fn splits(
    occ: Seq<bool>,
    dims: (u32, u32, u32),
    target: int,
    o: (int, int, int),
    size: int,
    depth: int,
) -> bool {
    &&& depth < target
    &&& size > 1
    &&& region_any(occ, dims, o, size)
    &&& !region_all(occ, dims, o, size)
}

/// Mask stored in a node whose region is not subdivided.
pub open spec fn leaf_value(
    occ: Seq<bool>,
    dims: (u32, u32, u32),
    target: int,
    o: (int, int, int),
    size: int,
    depth: int,
) -> u8 {
    if depth >= target || size <= 1 {
        leaf_mask(occ, dims, o, size)
    } else if !region_any(occ, dims, o, size) {
        0u8
    } else {
        0xFFu8
    }
}

/// Origin of child `c` (order `x | y << 1 | z << 2`) of a region at `o`
/// whose children have edge `half`.
pub open spec fn child_origin(o: (int, int, int), half: int, c: int) -> (int, int, int) {
    (
        o.0 + if c % 2 == 1 {
            half
        } else {
            0
        },
        o.1 + if (c / 2) % 2 == 1 {
            half
        } else {
            0
        },
        o.2 + if c / 4 == 1 {
            half
        } else {
            0
        },
    )
}

/// The padding bytes of a node are zero.
pub open spec fn pad_is_zero(n: OctNode) -> bool {
    n._pad[0] == 0 && n._pad[1] == 0 && n._pad[2] == 0
}

/// Slot `j` is one of the 8 children of node `i`.
pub open spec fn owns_slot(nodes: Seq<OctNode>, i: int, j: int) -> bool {
    &&& 0 <= i < nodes.len()
    &&& nodes[i].first_child != u32::MAX
    &&& nodes[i].first_child <= j < nodes[i].first_child + 8
}

/// Slot `j` is a child of some node.
pub open spec fn slot_owned(nodes: Seq<OctNode>, j: int) -> bool {
    exists|i: int| #[trigger] owns_slot(nodes, i, j)
}

/// The array is a linear octree: every node has zero padding; every inner
/// node keeps mask 0 and points after itself to 8 children inside the array;
/// every slot after the root is a child of exactly one node; and so the
/// array holds the root and whole groups of 8.
pub open spec fn linear_layout(nodes: Seq<OctNode>) -> bool {
    &&& nodes.len() % 8 == 1
    &&& forall|i: int| 0 <= i < nodes.len() ==> pad_is_zero(#[trigger] nodes[i])
    &&& forall|i: int|
        0 <= i < nodes.len() && (#[trigger] nodes[i]).first_child != u32::MAX ==> i
            < nodes[i].first_child && nodes[i].first_child + 8 <= nodes.len() && nodes[i].mask == 0
    &&& forall|j: int| 1 <= j < nodes.len() ==> #[trigger] slot_owned(nodes, j)
    &&& forall|i1: int, i2: int, j: int|
        #[trigger] owns_slot(nodes, i1, j) && #[trigger] owns_slot(nodes, i2, j) ==> i1 == i2
}

/// Node `idx` of `nodes` describes the region of edge `size` at `o` at
/// `depth`, its descendants laid out from slot `lo` on: leaves carry the
/// region's mask; a subdivided region points to its 8 children at slots
/// `lo..lo + 8`, and the subtrees of children 7, 6, …, 0 follow in that
/// order, each right after the previous one. Every node has zero padding.
pub open spec fn node_describes(
    nodes: Seq<OctNode>,
    idx: int,
    occ: Seq<bool>,
    dims: (u32, u32, u32),
    target: int,
    o: (int, int, int),
    size: int,
    depth: int,
    lo: int,
) -> bool
    decreases (if depth < target {
        target - depth
    } else {
        0
    }), 9int,
{
    &&& 0 <= idx < nodes.len()
    &&& pad_is_zero(nodes[idx])
    &&& if splits(occ, dims, target, o, size, depth) {
        let fc = nodes[idx].first_child as int;
        &&& fc != u32::MAX
        &&& fc == lo
        &&& fc + 8 <= nodes.len()
        &&& nodes[idx].mask == 0
        &&& children_describe(nodes, fc, occ, dims, target, o, size / 2, depth + 1, fc + 8, 0)
    } else {
        &&& nodes[idx].first_child == u32::MAX
        &&& nodes[idx].mask == leaf_value(occ, dims, target, o, size, depth)
    }
}

/// Children `c..8` stored from `fc` describe the octants of edge `half` of
/// the region at `o`; the subtree of child `c` is laid out from `lo` plus the
/// nodes below children `c + 1..8`.
pub open spec fn children_describe(
    nodes: Seq<OctNode>,
    fc: int,
    occ: Seq<bool>,
    dims: (u32, u32, u32),
    target: int,
    o: (int, int, int),
    half: int,
    child_depth: int,
    lo: int,
    c: int,
) -> bool
    decreases (if child_depth <= target {
        target - child_depth + 1
    } else {
        0
    }), 8 - c,
{
    if c >= 8 || c < 0 || child_depth > target {
        true
    } else {
        &&& node_describes(
            nodes,
            fc + c,
            occ,
            dims,
            target,
            child_origin(o, half, c),
            half,
            child_depth,
            lo + children_appended(occ, dims, target, o, half, child_depth, c + 1),
        )
        &&& children_describe(nodes, fc, occ, dims, target, o, half, child_depth, lo, c + 1)
    }
}

/// Number of nodes appended below the node of a region (8 per subdivided region).
pub open spec fn appended_nodes(
    occ: Seq<bool>,
    dims: (u32, u32, u32),
    target: int,
    o: (int, int, int),
    size: int,
    depth: int,
) -> nat
    decreases (if depth < target {
        target - depth
    } else {
        0
    }), 9int,
{
    if splits(occ, dims, target, o, size, depth) {
        8 + children_appended(occ, dims, target, o, size / 2, depth + 1, 0)
    } else {
        0
    }
}

/// Nodes appended below children `c..8`.
pub open spec fn children_appended(
    occ: Seq<bool>,
    dims: (u32, u32, u32),
    target: int,
    o: (int, int, int),
    half: int,
    child_depth: int,
    c: int,
) -> nat
    decreases (if child_depth <= target {
        target - child_depth + 1
    } else {
        0
    }), 8 - c,
{
    if c >= 8 || c < 0 || child_depth > target {
        0
    } else {
        appended_nodes(occ, dims, target, child_origin(o, half, c), half, child_depth)
            + children_appended(occ, dims, target, o, half, child_depth, c + 1)
    }
}

/// Depth of the deepest node below (and including) the node of a region.
pub open spec fn deepest_node(
    occ: Seq<bool>,
    dims: (u32, u32, u32),
    target: int,
    o: (int, int, int),
    size: int,
    depth: int,
) -> int
    decreases (if depth < target {
        target - depth
    } else {
        0
    }), 9int,
{
    if splits(occ, dims, target, o, size, depth) {
        children_deepest(occ, dims, target, o, size / 2, depth + 1, 0)
    } else {
        depth
    }
}

/// Depth of the deepest node below children `c..8` (at least `child_depth`).
pub open spec fn children_deepest(
    occ: Seq<bool>,
    dims: (u32, u32, u32),
    target: int,
    o: (int, int, int),
    half: int,
    child_depth: int,
    c: int,
) -> int
    decreases (if child_depth <= target {
        target - child_depth + 1
    } else {
        0
    }), 8 - c,
{
    if c >= 8 || c < 0 || child_depth > target {
        child_depth
    } else {
        let here = deepest_node(occ, dims, target, child_origin(o, half, c), half, child_depth);
        let rest = children_deepest(occ, dims, target, o, half, child_depth, c + 1);
        if here >= rest {
            here
        } else {
            rest
        }
    }
}

// ---------------------------------------------------------------------------
// Lemmas on the tree predicate
// ---------------------------------------------------------------------------
proof fn lemma_node_frame(
    a: Seq<OctNode>,
    b: Seq<OctNode>,
    idx: int,
    occ: Seq<bool>,
    dims: (u32, u32, u32),
    target: int,
    o: (int, int, int),
    size: int,
    depth: int,
    lo: int,
)
    requires
        node_describes(a, idx, occ, dims, target, o, size, depth, lo),
        a.len() <= b.len(),
        b[idx] == a[idx],
        forall|k: int| lo <= k < a.len() ==> b[k] == a[k],
    ensures
        node_describes(b, idx, occ, dims, target, o, size, depth, lo),
    decreases (if depth < target {
        target - depth
    } else {
        0
    }), 9int,
{
    if splits(occ, dims, target, o, size, depth) {
        let fc = a[idx].first_child as int;
        lemma_children_frame(a, b, fc, occ, dims, target, o, size / 2, depth + 1, fc + 8, 0);
    }
}

proof fn lemma_children_frame(
    a: Seq<OctNode>,
    b: Seq<OctNode>,
    fc: int,
    occ: Seq<bool>,
    dims: (u32, u32, u32),
    target: int,
    o: (int, int, int),
    half: int,
    child_depth: int,
    lo: int,
    c: int,
)
    requires
        children_describe(a, fc, occ, dims, target, o, half, child_depth, lo, c),
        a.len() <= b.len(),
        fc + 8 <= lo,
        forall|k: int| fc + c <= k < fc + 8 ==> b[k] == a[k],
        forall|k: int| lo <= k < a.len() ==> b[k] == a[k],
    ensures
        children_describe(b, fc, occ, dims, target, o, half, child_depth, lo, c),
    decreases (if child_depth <= target {
        target - child_depth + 1
    } else {
        0
    }), 8 - c,
{
    if !(c >= 8 || c < 0 || child_depth > target) {
        let lo_c = lo + children_appended(occ, dims, target, o, half, child_depth, c + 1);
        assert(node_describes(
            a,
            fc + c,
            occ,
            dims,
            target,
            child_origin(o, half, c),
            half,
            child_depth,
            lo_c,
        ));
        assert(b[fc + c] == a[fc + c]);
        lemma_node_frame(
            a,
            b,
            fc + c,
            occ,
            dims,
            target,
            child_origin(o, half, c),
            half,
            child_depth,
            lo_c,
        );
        lemma_children_frame(a, b, fc, occ, dims, target, o, half, child_depth, lo, c + 1);
    }
}

// ---------------------------------------------------------------------------
// Executable construction
// ---------------------------------------------------------------------------
proof fn lemma_voxel_index_bound(dx: int, dy: int, dz: int, x: int, y: int, z: int)
    by (nonlinear_arith)
    requires
        0 <= x < dx,
        0 <= y < dy,
        0 <= z < dz,
    ensures
        0 <= dy * z <= dy * dz,
        0 <= y + dy * z < dy * dz,
        dy * dz <= dx * (dy * dz),
        0 <= dx * (y + dy * z),
        0 <= x + dx * (y + dy * z) < dx * (dy * dz),
        dx * (dy * dz) == dx * dy * dz,
{
}

fn voxel_at(occupancy: &[bool], dims: (u32, u32, u32), x: u32, y: u32, z: u32) -> (r: bool)
    requires
        occupancy@.len() == dims.0 * dims.1 * dims.2,
        x < dims.0,
        y < dims.1,
        z < dims.2,
    ensures
        r == voxel_solid(occupancy@, dims, x as int, y as int, z as int),
{
    let (dx, dy, _dz) = dims;
    let len = occupancy.len();
    proof {
        lemma_voxel_index_bound(dims.0 as int, dims.1 as int, dims.2 as int, x as int, y as int, z as int);
    }
    let inner = y as usize + dy as usize * z as usize;
    let index = x as usize + dx as usize * inner;
    occupancy[index]
}

/// Whether the cube of edge `size` at `(ox, oy, oz)` has any occupied voxel,
/// and whether all its voxels are inside `dims` and occupied.
fn region_occupancy(
    occupancy: &[bool],
    dims: (u32, u32, u32),
    ox: u32,
    oy: u32,
    oz: u32,
    size: u32,
) -> (r: (bool, bool))
    requires
        occupancy@.len() == dims.0 * dims.1 * dims.2,
        ox + size <= u32::MAX,
        oy + size <= u32::MAX,
        oz + size <= u32::MAX,
    ensures
        r.0 == region_any(occupancy@, dims, (ox as int, oy as int, oz as int), size as int),
        r.1 == region_all(occupancy@, dims, (ox as int, oy as int, oz as int), size as int),
{
    let ghost occ = occupancy@;
    let ghost o = (ox as int, oy as int, oz as int);
    let ghost s = size as int;
    let (dx, dy, dz) = dims;
    let mut any = false;
    let mut all = true;
    let mut z: u32 = 0;
    while z < size
        invariant
            occ == occupancy@,
            o == (ox as int, oy as int, oz as int),
            s == size as int,
            dims == (dx, dy, dz),
            occupancy@.len() == dims.0 * dims.1 * dims.2,
            ox + size <= u32::MAX,
            oy + size <= u32::MAX,
            oz + size <= u32::MAX,
            z <= size,
            any == exists|a: int, b: int, c: int|
                0 <= a < s && 0 <= b < s && 0 <= c < z && #[trigger] region_solid(
                    occ,
                    dims,
                    o,
                    a,
                    b,
                    c,
                ),
            all == forall|a: int, b: int, c: int|
                0 <= a < s && 0 <= b < s && 0 <= c < z ==> #[trigger] region_solid(
                    occ,
                    dims,
                    o,
                    a,
                    b,
                    c,
                ),
        decreases size - z,
    {
        let mut y: u32 = 0;
        while y < size
            invariant
                occ == occupancy@,
                o == (ox as int, oy as int, oz as int),
                s == size as int,
                dims == (dx, dy, dz),
                occupancy@.len() == dims.0 * dims.1 * dims.2,
                ox + size <= u32::MAX,
                oy + size <= u32::MAX,
                oz + size <= u32::MAX,
                z < size,
                y <= size,
                any == exists|a: int, b: int, c: int|
                    0 <= a < s && 0 <= b < s && 0 <= c <= z && (c < z || b < y)
                        && #[trigger] region_solid(occ, dims, o, a, b, c),
                all == forall|a: int, b: int, c: int|
                    0 <= a < s && 0 <= b < s && 0 <= c <= z && (c < z || b < y)
                        ==> #[trigger] region_solid(occ, dims, o, a, b, c),
            decreases size - y,
        {
            let mut x: u32 = 0;
            while x < size
                invariant
                    occ == occupancy@,
                    o == (ox as int, oy as int, oz as int),
                    s == size as int,
                    dims == (dx, dy, dz),
                    occupancy@.len() == dims.0 * dims.1 * dims.2,
                    ox + size <= u32::MAX,
                    oy + size <= u32::MAX,
                    oz + size <= u32::MAX,
                    z < size,
                    y < size,
                    x <= size,
                    any == exists|a: int, b: int, c: int|
                        0 <= a < s && 0 <= b < s && 0 <= c <= z && (c < z || b < y || (b == y
                            && a < x)) && #[trigger] region_solid(occ, dims, o, a, b, c),
                    all == forall|a: int, b: int, c: int|
                        0 <= a < s && 0 <= b < s && 0 <= c <= z && (c < z || b < y || (b == y
                            && a < x)) ==> #[trigger] region_solid(occ, dims, o, a, b, c),
                decreases size - x,
            {
                let gx = ox + x;
                let gy = oy + y;
                let gz = oz + z;
                if gx >= dx || gy >= dy || gz >= dz {
                    assert(!region_solid(occ, dims, o, x as int, y as int, z as int));
                    all = false;
                } else {
                    let occupied = voxel_at(occupancy, dims, gx, gy, gz);
                    assert(occupied == region_solid(occ, dims, o, x as int, y as int, z as int));
                    any = any || occupied;
                    all = all && occupied;
                }
                x = x + 1;
            }
            y = y + 1;
        }
        z = z + 1;
    }
    (any, all)
}

proof fn lemma_leaf_prefix_skip(
    occ: Seq<bool>,
    dims: (u32, u32, u32),
    o: (int, int, int),
    size: int,
    from: nat,
    to: nat,
)
    requires
        from <= to,
        forall|k: int| from <= k < to ==> !leaf_bit(occ, dims, o, size, k),
    ensures
        leaf_mask_prefix(occ, dims, o, size, to) == leaf_mask_prefix(occ, dims, o, size, from),
    decreases to - from,
{
    if to > from {
        lemma_leaf_prefix_skip(occ, dims, o, size, from, (to - 1) as nat);
    }
}

proof fn lemma_leaf_index(x: u32, y: u32, z: u32)
    by (bit_vector)
    requires
        x < 2,
        y < 2,
        z < 2,
    ensures
        (x | (y << 1u32) | (z << 2u32)) == x + 2 * y + 4 * z,
{
}

/// Occupancy mask of the up to 2×2×2 voxels at the origin of a region.
fn leaf_occupancy_mask(
    occupancy: &[bool],
    dims: (u32, u32, u32),
    ox: u32,
    oy: u32,
    oz: u32,
    size: u32,
) -> (mask: u8)
    requires
        occupancy@.len() == dims.0 * dims.1 * dims.2,
        ox + size <= u32::MAX,
        oy + size <= u32::MAX,
        oz + size <= u32::MAX,
    ensures
        mask == leaf_mask(occupancy@, dims, (ox as int, oy as int, oz as int), size as int),
{
    let ghost occ = occupancy@;
    let ghost o = (ox as int, oy as int, oz as int);
    let ghost s = size as int;
    let (dx, dy, dz) = dims;
    let half = if size < 2 {
        size
    } else {
        2
    };
    let mut mask = 0u8;
    let mut z: u32 = 0;
    while z < half
        invariant
            occ == occupancy@,
            o == (ox as int, oy as int, oz as int),
            s == size as int,
            dims == (dx, dy, dz),
            occupancy@.len() == dims.0 * dims.1 * dims.2,
            ox + size <= u32::MAX,
            oy + size <= u32::MAX,
            oz + size <= u32::MAX,
            half == if size < 2 {
                size
            } else {
                2
            },
            z <= half,
            mask == leaf_mask_prefix(occ, dims, o, s, (4 * z) as nat),
        decreases half - z,
    {
        let mut y: u32 = 0;
        while y < half
            invariant
                occ == occupancy@,
                o == (ox as int, oy as int, oz as int),
                s == size as int,
                dims == (dx, dy, dz),
                occupancy@.len() == dims.0 * dims.1 * dims.2,
                ox + size <= u32::MAX,
                oy + size <= u32::MAX,
                oz + size <= u32::MAX,
                half == if size < 2 {
                    size
                } else {
                    2
                },
                z < half,
                y <= half,
                mask == leaf_mask_prefix(occ, dims, o, s, (4 * z + 2 * y) as nat),
            decreases half - y,
        {
            let mut x: u32 = 0;
            while x < half
                invariant
                    occ == occupancy@,
                    o == (ox as int, oy as int, oz as int),
                    s == size as int,
                    dims == (dx, dy, dz),
                    occupancy@.len() == dims.0 * dims.1 * dims.2,
                    ox + size <= u32::MAX,
                    oy + size <= u32::MAX,
                    oz + size <= u32::MAX,
                    half == if size < 2 {
                        size
                    } else {
                        2
                    },
                    z < half,
                    y < half,
                    x <= half,
                    mask == leaf_mask_prefix(occ, dims, o, s, (4 * z + 2 * y + x) as nat),
                decreases half - x,
            {
                let gx = ox + x;
                let gy = oy + y;
                let gz = oz + z;
                let ghost k = 4 * z + 2 * y + x;
                assert(k % 2 == x && (k / 2) % 2 == y && k / 4 == z);
                if gx < dx && gy < dy && gz < dz && voxel_at(occupancy, dims, gx, gy, gz) {
                    let bit = x | (y << 1u32) | (z << 2u32);
                    proof {
                        lemma_leaf_index(x, y, z);
                    }
                    mask = mask | (1u8 << (bit as u8));
                } else {
                    assert(!leaf_bit(occ, dims, o, s, k));
                }
                x = x + 1;
            }
            proof {
                if half == 1 {
                    lemma_leaf_prefix_skip(
                        occ,
                        dims,
                        o,
                        s,
                        (4 * z + 2 * y + 1) as nat,
                        (4 * z + 2 * y + 2) as nat,
                    );
                }
            }
            y = y + 1;
        }
        proof {
            if half == 1 {
                assert forall|k: int| 4 * z + 2 <= k < 4 * z + 4 implies !leaf_bit(occ, dims, o, s, k) by {}
                lemma_leaf_prefix_skip(occ, dims, o, s, (4 * z + 2) as nat, (4 * z + 4) as nat);
            } else if half == 0 {
            }
        }
        z = z + 1;
    }
    proof {
        assert forall|k: int| 4 * half <= k < 8 implies !leaf_bit(occ, dims, o, s, k) by {}
        lemma_leaf_prefix_skip(occ, dims, o, s, (4 * half) as nat, 8);
    }
    mask
}

proof fn lemma_children_appended_monotone(
    occ: Seq<bool>,
    dims: (u32, u32, u32),
    target: int,
    o: (int, int, int),
    half: int,
    child_depth: int,
    c: int,
)
    requires
        0 <= c,
    ensures
        children_appended(occ, dims, target, o, half, child_depth, c) <= children_appended(
            occ,
            dims,
            target,
            o,
            half,
            child_depth,
            0,
        ),
    decreases c,
{
    if c > 0 {
        lemma_children_appended_monotone(occ, dims, target, o, half, child_depth, c - 1);
    }
}

proof fn lemma_deepest_at_least(
    occ: Seq<bool>,
    dims: (u32, u32, u32),
    target: int,
    o: (int, int, int),
    size: int,
    depth: int,
)
    ensures
        deepest_node(occ, dims, target, o, size, depth) >= depth,
    decreases (if depth < target {
        target - depth
    } else {
        0
    }), 9int,
{
    if splits(occ, dims, target, o, size, depth) {
        lemma_children_deepest_at_least(occ, dims, target, o, size / 2, depth + 1, 0);
    }
}

proof fn lemma_children_deepest_at_least(
    occ: Seq<bool>,
    dims: (u32, u32, u32),
    target: int,
    o: (int, int, int),
    half: int,
    child_depth: int,
    c: int,
)
    ensures
        children_deepest(occ, dims, target, o, half, child_depth, c) >= child_depth,
    decreases (if child_depth <= target {
        target - child_depth + 1
    } else {
        0
    }), 8 - c,
{
    if !(c >= 8 || c < 0 || child_depth > target) {
        lemma_children_deepest_at_least(occ, dims, target, o, half, child_depth, c + 1);
    }
}

/// Turning a childless node into a leaf keeps the layout.
proof fn lemma_layout_set_leaf(a: Seq<OctNode>, b: Seq<OctNode>, idx: int)
    requires
        linear_layout(a),
        0 <= idx < a.len(),
        a[idx].first_child == u32::MAX,
        b.len() == a.len(),
        b[idx].first_child == u32::MAX,
        pad_is_zero(b[idx]),
        forall|k: int| 0 <= k < a.len() && k != idx ==> b[k] == a[k],
    ensures
        linear_layout(b),
{
    assert forall|i: int, j: int| owns_slot(a, i, j) <==> owns_slot(b, i, j) by {
        if 0 <= i < a.len() && i != idx {
            assert(b[i] == a[i]);
        }
    }
    assert forall|i: int| 0 <= i < b.len() implies pad_is_zero(#[trigger] b[i]) by {
        if i != idx {
            assert(b[i] == a[i]);
        }
    }
    assert forall|i: int|
        0 <= i < b.len() && (#[trigger] b[i]).first_child != u32::MAX implies i < b[i].first_child
            && b[i].first_child + 8 <= b.len() && b[i].mask == 0 by {
        assert(b[i] == a[i]);
    }
    assert forall|j: int| 1 <= j < b.len() implies #[trigger] slot_owned(b, j) by {
        assert(slot_owned(a, j));
        let i = choose|i: int| #[trigger] owns_slot(a, i, j);
        assert(owns_slot(b, i, j));
    }
}

/// Giving a childless node 8 fresh children appended after the array keeps
/// the layout.
proof fn lemma_layout_split(a: Seq<OctNode>, b: Seq<OctNode>, idx: int)
    requires
        linear_layout(a),
        0 <= idx < a.len(),
        a[idx].first_child == u32::MAX,
        b.len() == a.len() + 8,
        b[idx].first_child == a.len(),
        b[idx].mask == 0,
        pad_is_zero(b[idx]),
        forall|k: int| 0 <= k < a.len() && k != idx ==> b[k] == a[k],
        forall|k: int|
            a.len() <= k < b.len() ==> (#[trigger] b[k]).first_child == u32::MAX && pad_is_zero(b[k]),
    ensures
        linear_layout(b),
{
    let n = a.len() as int;
    assert forall|i: int, j: int| 0 <= i < n && i != idx implies (owns_slot(a, i, j) <==> owns_slot(b, i, j)) by {
        assert(b[i] == a[i]);
    }
    assert forall|i: int| 0 <= i < b.len() implies pad_is_zero(#[trigger] b[i]) by {
        if i < n && i != idx {
            assert(b[i] == a[i]);
        }
    }
    assert forall|i: int|
        0 <= i < b.len() && (#[trigger] b[i]).first_child != u32::MAX implies i < b[i].first_child
            && b[i].first_child + 8 <= b.len() && b[i].mask == 0 by {
        if i < n && i != idx {
            assert(b[i] == a[i]);
        }
    }
    assert forall|j: int| 1 <= j < b.len() implies #[trigger] slot_owned(b, j) by {
        if j < n {
            assert(slot_owned(a, j));
            let i = choose|i: int| #[trigger] owns_slot(a, i, j);
            assert(i != idx);
            assert(owns_slot(b, i, j));
        } else {
            assert(owns_slot(b, idx, j));
        }
    }
    assert forall|i1: int, i2: int, j: int|
        #[trigger] owns_slot(b, i1, j) && #[trigger] owns_slot(b, i2, j) implies i1 == i2 by {
        if i1 != idx && i2 != idx {
            assert(i1 < n && i2 < n);
            assert(owns_slot(a, i1, j) && owns_slot(a, i2, j));
        } else if i1 == idx && i2 != idx {
            assert(i2 < n);
            assert(owns_slot(a, i2, j));
        } else if i2 == idx && i1 != idx {
            assert(i1 < n);
            assert(owns_slot(a, i1, j));
        }
    }
}

fn placeholder_node() -> (n: OctNode)
    ensures
        n.first_child == u32::MAX,
        n.mask == 0,
        pad_is_zero(n),
{
    OctNode { first_child: u32::MAX, mask: 0, _pad: [0u8, 0u8, 0u8] }
}

/// Fill in node `node_index` (a placeholder) for the region of edge `size` at
/// `(ox, oy, oz)` at `depth`, appending its descendants; children are filled
/// last-to-first. Returns the depth of the deepest node reached.
fn build_node(
    nodes: &mut Vec<OctNode>,
    node_index: u32,
    depth: u32,
    ox: u32,
    oy: u32,
    oz: u32,
    size: u32,
    target: u32,
    occupancy: &[bool],
    dims: (u32, u32, u32),
) -> (deepest: u32)
    requires
        occupancy@.len() == dims.0 * dims.1 * dims.2,
        depth <= target <= 31,
        size == pow2((target - depth) as nat),
        ox + size <= pow2(target as nat),
        oy + size <= pow2(target as nat),
        oz + size <= pow2(target as nat),
        node_index < old(nodes)@.len(),
        old(nodes)@[node_index as int].first_child == u32::MAX,
        old(nodes)@[node_index as int].mask == 0,
        linear_layout(old(nodes)@),
        old(nodes)@.len() + appended_nodes(
            occupancy@,
            dims,
            target as int,
            (ox as int, oy as int, oz as int),
            size as int,
            depth as int,
        ) <= 0x1_0000_0000,
    ensures
        final(nodes)@.len() == old(nodes)@.len() + appended_nodes(
            occupancy@,
            dims,
            target as int,
            (ox as int, oy as int, oz as int),
            size as int,
            depth as int,
        ),
        forall|k: int|
            0 <= k < old(nodes)@.len() && k != node_index ==> final(nodes)@[k] == old(nodes)@[k],
        linear_layout(final(nodes)@),
        node_describes(
            final(nodes)@,
            node_index as int,
            occupancy@,
            dims,
            target as int,
            (ox as int, oy as int, oz as int),
            size as int,
            depth as int,
            old(nodes)@.len() as int,
        ),
        deepest == deepest_node(
            occupancy@,
            dims,
            target as int,
            (ox as int, oy as int, oz as int),
            size as int,
            depth as int,
        ),
    decreases target - depth,
{
    let ghost occ = occupancy@;
    let ghost o = (ox as int, oy as int, oz as int);
    let ghost t = target as int;
    let ghost start = nodes@;
    proof {
        lemma_pow2_pos((target - depth) as nat);
        lemma2_to64();
        if target < 31 {
            lemma_pow2_strictly_increases(target as nat, 31);
        }
    }
    let leaf = depth == target || size == 1;
    if leaf {
        let mask = leaf_occupancy_mask(occupancy, dims, ox, oy, oz, size);
        let mut node = nodes[node_index as usize];
        node.mask = mask;
        nodes.set(node_index as usize, node);
        proof {
            lemma_layout_set_leaf(start, nodes@, node_index as int);
        }
        return depth;
    }
    let (any, all) = region_occupancy(occupancy, dims, ox, oy, oz, size);
    if !any {
        let mut node = nodes[node_index as usize];
        node.mask = 0;
        nodes.set(node_index as usize, node);
        proof {
            lemma_layout_set_leaf(start, nodes@, node_index as int);
        }
        return depth;
    }
    if all {
        let mut node = nodes[node_index as usize];
        node.mask = 0xFF;
        nodes.set(node_index as usize, node);
        proof {
            lemma_layout_set_leaf(start, nodes@, node_index as int);
        }
        return depth;
    }
    // Subdivide
    assert(splits(occ, dims, t, o, size as int, depth as int));
    let first_child = nodes.len() as u32;
    let mut node = nodes[node_index as usize];
    node.first_child = first_child;
    nodes.set(node_index as usize, node);
    let mut i: u32 = 0;
    while i < 8
        invariant
            0 <= i <= 8,
            nodes@.len() == start.len() + i,
            first_child as int == start.len(),
            start.len() + 8 <= 0x1_0000_0000,
            node_index < start.len(),
            nodes@[node_index as int].first_child == first_child,
            nodes@[node_index as int].mask == 0,
            forall|k: int| 0 <= k < start.len() && k != node_index ==> nodes@[k] == start[k],
            pad_is_zero(nodes@[node_index as int]),
            forall|k: int|
                start.len() <= k < nodes@.len() ==> (#[trigger] nodes@[k]).first_child == u32::MAX
                    && nodes@[k].mask == 0 && pad_is_zero(nodes@[k]),
        decreases 8 - i,
    {
        nodes.push(placeholder_node());
        i = i + 1;
    }
    proof {
        assert(start[node_index as int] == old(nodes)@[node_index as int]);
        lemma_layout_split(start, nodes@, node_index as int);
    }
    let half = size / 2;
    let child_depth = depth + 1;
    proof {
        lemma_pow2_unfold((target - depth) as nat);
        assert(half == pow2((target - child_depth) as nat));
    }
    let ghost fc = first_child as int;
    let mut deepest = child_depth;
    let mut c: u32 = 8;
    while c > 0
        invariant
            occ == occupancy@,
            o == (ox as int, oy as int, oz as int),
            t == target as int,
            occupancy@.len() == dims.0 * dims.1 * dims.2,
            depth < target <= 31,
            child_depth == depth + 1,
            half == pow2((target - child_depth) as nat),
            size == 2 * half,
            ox + size <= pow2(target as nat),
            oy + size <= pow2(target as nat),
            oz + size <= pow2(target as nat),
            pow2(target as nat) <= 0x8000_0000,
            splits(occ, dims, t, o, size as int, depth as int),
            c <= 8,
            fc == first_child as int,
            fc == start.len(),
            node_index < start.len(),
            start.len() + appended_nodes(occ, dims, t, o, size as int, depth as int)
                <= 0x1_0000_0000,
            nodes@.len() == start.len() + 8 + children_appended(
                occ,
                dims,
                t,
                o,
                half as int,
                child_depth as int,
                c as int,
            ),
            nodes@[node_index as int].first_child == first_child,
            nodes@[node_index as int].mask == 0,
            linear_layout(nodes@),
            forall|k: int| 0 <= k < start.len() && k != node_index ==> nodes@[k] == start[k],
            forall|k: int|
                fc <= k < fc + c ==> (#[trigger] nodes@[k]).first_child == u32::MAX
                    && nodes@[k].mask == 0,
            children_describe(
                nodes@,
                fc,
                occ,
                dims,
                t,
                o,
                half as int,
                child_depth as int,
                fc + 8,
                c as int,
            ),
            deepest == children_deepest(
                occ,
                dims,
                t,
                o,
                half as int,
                child_depth as int,
                c as int,
            ),
        decreases c,
    {
        c = c - 1;
        let cx = if c % 2 == 1 {
            half
        } else {
            0
        };
        let cy = if (c / 2) % 2 == 1 {
            half
        } else {
            0
        };
        let cz = if c / 4 == 1 {
            half
        } else {
            0
        };
        let child_index = first_child + c;
        let ghost before = nodes@;
        proof {
            lemma_children_appended_monotone(
                occ,
                dims,
                t,
                o,
                half as int,
                child_depth as int,
                c as int,
            );
            lemma_deepest_at_least(
                occ,
                dims,
                t,
                child_origin(o, half as int, c as int),
                half as int,
                child_depth as int,
            );
        }
        let d = build_node(
            nodes,
            child_index,
            child_depth,
            ox + cx,
            oy + cy,
            oz + cz,
            half,
            target,
            occupancy,
            dims,
        );
        proof {
            assert(child_origin(o, half as int, c as int) == (
                (ox + cx) as int,
                (oy + cy) as int,
                (oz + cz) as int,
            ));
            lemma_children_frame(
                before,
                nodes@,
                fc,
                occ,
                dims,
                t,
                o,
                half as int,
                child_depth as int,
                fc + 8,
                c + 1,
            );
            assert(before.len() == fc + 8 + children_appended(
                occ,
                dims,
                t,
                o,
                half as int,
                child_depth as int,
                c + 1,
            ));
            assert(children_describe(
                nodes@,
                fc,
                occ,
                dims,
                t,
                o,
                half as int,
                child_depth as int,
                fc + 8,
                c as int,
            ));
        }
        deepest = if d >= deepest {
            d
        } else {
            deepest
        };
    }
    deepest
}

// ---------------------------------------------------------------------------
// Depth of the tree
// ---------------------------------------------------------------------------
/// Node `j` is reached from node `from` by following `e` child links.
pub open spec fn reached(nodes: Seq<OctNode>, from: int, j: int, e: nat) -> bool
    decreases e,
{
    if e == 0 {
        j == from && 0 <= from < nodes.len()
    } else {
        exists|p: int| reached(nodes, from, p, (e - 1) as nat) && #[trigger] owns_slot(nodes, p, j)
    }
}

proof fn lemma_leaf_reaches_only_itself(nodes: Seq<OctNode>, idx: int, j: int, e: nat)
    requires
        0 <= idx < nodes.len(),
        nodes[idx].first_child == u32::MAX,
        reached(nodes, idx, j, e),
    ensures
        e == 0,
        j == idx,
    decreases e,
{
    if e > 0 {
        let p = choose|p: int| reached(nodes, idx, p, (e - 1) as nat) && #[trigger] owns_slot(nodes, p, j);
        lemma_leaf_reaches_only_itself(nodes, idx, p, (e - 1) as nat);
    }
}

proof fn lemma_reached_through_children(nodes: Seq<OctNode>, idx: int, j: int, e: nat)
    requires
        0 <= idx < nodes.len(),
        nodes[idx].first_child != u32::MAX,
        nodes[idx].first_child + 8 <= nodes.len(),
    ensures
        reached(nodes, idx, j, e + 1) <==> exists|c: int|
            0 <= c < 8 && #[trigger] reached(nodes, nodes[idx].first_child + c, j, e),
    decreases e,
{
    let fc = nodes[idx].first_child as int;
    if e == 0 {
        if reached(nodes, idx, j, 1) {
            let p = choose|p: int| reached(nodes, idx, p, 0) && #[trigger] owns_slot(nodes, p, j);
            assert(reached(nodes, fc + (j - fc), j, 0));
        }
        if exists|c: int| 0 <= c < 8 && #[trigger] reached(nodes, fc + c, j, 0) {
            let c = choose|c: int| 0 <= c < 8 && #[trigger] reached(nodes, fc + c, j, 0);
            assert(reached(nodes, idx, idx, 0) && owns_slot(nodes, idx, j));
        }
    } else {
        if reached(nodes, idx, j, e + 1) {
            let p = choose|p: int| reached(nodes, idx, p, e) && #[trigger] owns_slot(nodes, p, j);
            lemma_reached_through_children(nodes, idx, p, (e - 1) as nat);
            let c = choose|c: int| 0 <= c < 8 && #[trigger] reached(nodes, fc + c, p, (e - 1) as nat);
            assert(reached(nodes, fc + c, j, e));
        }
        if exists|c: int| 0 <= c < 8 && #[trigger] reached(nodes, fc + c, j, e) {
            let c = choose|c: int| 0 <= c < 8 && #[trigger] reached(nodes, fc + c, j, e);
            let p = choose|p: int| reached(nodes, fc + c, p, (e - 1) as nat) && #[trigger] owns_slot(
                nodes,
                p,
                j,
            );
            lemma_reached_through_children(nodes, idx, p, (e - 1) as nat);
            assert(reached(nodes, idx, p, e));
        }
    }
}

proof fn lemma_node_depths(
    nodes: Seq<OctNode>,
    idx: int,
    occ: Seq<bool>,
    dims: (u32, u32, u32),
    target: int,
    o: (int, int, int),
    size: int,
    depth: int,
    lo: int,
)
    requires
        node_describes(nodes, idx, occ, dims, target, o, size, depth, lo),
    ensures
        forall|j: int, e: nat|
            #[trigger] reached(nodes, idx, j, e) ==> depth + e <= deepest_node(
                occ,
                dims,
                target,
                o,
                size,
                depth,
            ),
        exists|j: int, e: nat|
            #[trigger] reached(nodes, idx, j, e) && depth + e == deepest_node(
                occ,
                dims,
                target,
                o,
                size,
                depth,
            ),
    decreases (if depth < target {
        target - depth
    } else {
        0
    }), 9int,
{
    let deepest = deepest_node(occ, dims, target, o, size, depth);
    if splits(occ, dims, target, o, size, depth) {
        let fc = nodes[idx].first_child as int;
        lemma_children_depths(nodes, fc, occ, dims, target, o, size / 2, depth + 1, fc + 8, 0);
        assert forall|j: int, e: nat| #[trigger] reached(nodes, idx, j, e) implies depth + e <= deepest by {
            if e == 0 {
                lemma_deepest_at_least(occ, dims, target, o, size, depth);
            } else {
                lemma_reached_through_children(nodes, idx, j, (e - 1) as nat);
                let c = choose|c: int| 0 <= c < 8 && #[trigger] reached(nodes, fc + c, j, (e - 1) as nat);
                assert(reached(nodes, fc + c, j, (e - 1) as nat));
            }
        }
        let (c, j, e) = choose|c: int, j: int, e: nat|
            0 <= c < 8 && #[trigger] reached(nodes, fc + c, j, e) && depth + 1 + e == deepest;
        lemma_reached_through_children(nodes, idx, j, e);
        assert(reached(nodes, idx, j, e + 1));
    } else {
        assert forall|j: int, e: nat| #[trigger] reached(nodes, idx, j, e) implies depth + e <= deepest by {
            lemma_leaf_reaches_only_itself(nodes, idx, j, e);
        }
        assert(reached(nodes, idx, idx, 0));
    }
}

proof fn lemma_children_depths(
    nodes: Seq<OctNode>,
    fc: int,
    occ: Seq<bool>,
    dims: (u32, u32, u32),
    target: int,
    o: (int, int, int),
    half: int,
    child_depth: int,
    lo: int,
    c: int,
)
    requires
        children_describe(nodes, fc, occ, dims, target, o, half, child_depth, lo, c),
        0 <= c <= 8,
        child_depth <= target,
    ensures
        forall|c2: int, j: int, e: nat|
            c <= c2 < 8 && #[trigger] reached(nodes, fc + c2, j, e) ==> child_depth + e
                <= children_deepest(occ, dims, target, o, half, child_depth, c),
        c < 8 ==> exists|c2: int, j: int, e: nat|
            c <= c2 < 8 && #[trigger] reached(nodes, fc + c2, j, e) && child_depth + e
                == children_deepest(occ, dims, target, o, half, child_depth, c),
    decreases (if child_depth <= target {
        target - child_depth + 1
    } else {
        0
    }), 8 - c,
{
    if c < 8 {
        let lo_c = lo + children_appended(occ, dims, target, o, half, child_depth, c + 1);
        let oc = child_origin(o, half, c);
        lemma_node_depths(nodes, fc + c, occ, dims, target, oc, half, child_depth, lo_c);
        lemma_children_depths(nodes, fc, occ, dims, target, o, half, child_depth, lo, c + 1);
        lemma_deepest_at_least(occ, dims, target, oc, half, child_depth);
        let here = deepest_node(occ, dims, target, oc, half, child_depth);
        let rest = children_deepest(occ, dims, target, o, half, child_depth, c + 1);
        assert forall|c2: int, j: int, e: nat|
            c <= c2 < 8 && #[trigger] reached(nodes, fc + c2, j, e) implies child_depth + e
            <= children_deepest(occ, dims, target, o, half, child_depth, c) by {
            if c2 == c {
                assert(reached(nodes, fc + c, j, e));
            }
        }
        if here >= rest {
            let (j, e) = choose|j: int, e: nat| #[trigger] reached(nodes, fc + c, j, e) && child_depth + e == here;
            assert(reached(nodes, fc + c, j, e));
        } else {
            assert(c + 1 < 8);
        }
    }
}

/// Build a linear octree from a dense voxel occupancy grid.
///
/// `dims`: logical voxel dimensions (x,y,z)
/// `occupancy`: x-major occupancy of the voxels inside `dims` (`x + dims.0 * (y + dims.1 * z)`)
/// `max_depth_limit`: optional cap to avoid over-refining (default = auto based on dims)
/// Returns (nodes, max_depth_reached).
pub fn build_octree(
    dims: (u32, u32, u32),
    occupancy: &[bool],
    max_depth_limit: Option<u32>,
) -> (r: (Vec<OctNode>, u32))
    requires
        occupancy@.len() == dims.0 * dims.1 * dims.2,
        max_dim_of(dims) <= 0x8000_0000,
        1 + appended_nodes(
            occupancy@,
            dims,
            octree_target_depth(dims, max_depth_limit),
            (0, 0, 0),
            pow2(octree_target_depth(dims, max_depth_limit) as nat) as int,
            0,
        ) <= 0x1_0000_0000,
    ensures
        r.0@.len() == 1 + appended_nodes(
            occupancy@,
            dims,
            octree_target_depth(dims, max_depth_limit),
            (0, 0, 0),
            pow2(octree_target_depth(dims, max_depth_limit) as nat) as int,
            0,
        ),
        node_describes(
            r.0@,
            0,
            occupancy@,
            dims,
            octree_target_depth(dims, max_depth_limit),
            (0, 0, 0),
            pow2(octree_target_depth(dims, max_depth_limit) as nat) as int,
            0,
            1,
        ),
        r.1 == deepest_node(
            occupancy@,
            dims,
            octree_target_depth(dims, max_depth_limit),
            (0, 0, 0),
            pow2(octree_target_depth(dims, max_depth_limit) as nat) as int,
            0,
        ),
        linear_layout(r.0@),
        forall|j: int, e: nat| #[trigger] reached(r.0@, 0, j, e) ==> e <= r.1,
        exists|j: int| #[trigger] reached(r.0@, 0, j, r.1 as nat),
{
    let (dx, dy, dz) = dims;
    let m = if dx >= dy {
        dx
    } else {
        dy
    };
    let max_dim = if m >= dz {
        m
    } else {
        dz
    };
    // Depth needed so that 2^depth >= max_dim
    let mut target_depth = 0u32;
    proof {
        lemma2_to64();
    }
    while (1u32 << target_depth) < max_dim
        invariant
            target_depth <= 31,
            max_dim as int == max_dim_of(dims),
            max_dim <= 0x8000_0000,
            covering_depth(max_dim as int, target_depth as nat) == covering_depth(
                max_dim as int,
                0,
            ),
        decreases 31 - target_depth,
    {
        proof {
            lemma2_to64();
            lemma_u32_pow2_no_overflow(target_depth as nat);
            lemma_u32_shl_is_mul(1, target_depth);
            if target_depth == 31 {
                assert(pow2(31) == 0x8000_0000);
            }
        }
        target_depth = target_depth + 1;
    }
    proof {
        lemma_u32_pow2_no_overflow(target_depth as nat);
        lemma_u32_shl_is_mul(1, target_depth);
    }
    if let Some(limit) = max_depth_limit {
        if limit < target_depth {
            target_depth = limit;
        }
    }
    assert(target_depth as int == octree_target_depth(dims, max_depth_limit));
    let size = 1u32 << target_depth;
    proof {
        lemma_u32_pow2_no_overflow(target_depth as nat);
        lemma_u32_shl_is_mul(1, target_depth);
    }
    let mut nodes: Vec<OctNode> = Vec::new();
    nodes.push(placeholder_node());
    proof {
        assert(linear_layout(nodes@));
    }
    let max_depth_reached = build_node(&mut nodes, 0, 0, 0, 0, 0, size, target_depth, occupancy, dims);
    proof {
        lemma_node_depths(
            nodes@,
            0,
            occupancy@,
            dims,
            target_depth as int,
            (0, 0, 0),
            pow2(target_depth as nat) as int,
            0,
            1,
        );
        let (j, e) = choose|j: int, e: nat|
            #[trigger] reached(nodes@, 0, j, e) && e == max_depth_reached;
        assert(reached(nodes@, 0, j, max_depth_reached as nat));
    }
    let result = (nodes, max_depth_reached);
    proof {
        let j = choose|j: int| #[trigger] reached(nodes@, 0, j, max_depth_reached as nat);
        assert(reached(result.0@, 0, j, result.1 as nat));
    }
    result
}

} // verus!
