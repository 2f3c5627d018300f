//! Bookkeeping of the voxel grids that background jobs fill: which grids are
//! ready, which generation of jobs is current, the per-grid resolutions,
//! extents and palettes. The GPU handles of a grid are a type parameter
//! (`V`), and so are a palette colour (`P`) and a grid transform (`T`).
use crate::grids::{apply_future_resolutions, compact_palette_slices, concat_slices, future_resolutions_fit, applied_resolution, seq_max};
use crate::model::DiscoveredModel;
use crate::scene_state::clamp_active_grids;
use crate::vox::round_up_to_8;
use vstd::prelude::*;

verus! {

/// Extents (in texels) of the packed storage of a cubic grid: a texel holds
/// 4 x 4 x 8 voxels.
pub open spec fn cubic_storage(resolution: u32) -> (u32, u32, u32) {
    ((resolution / 4) as u32, (resolution / 4) as u32, (resolution / 8) as u32)
}

/// Storage extents of a cubic grid of the given resolution.
pub fn default_storage(resolution: u32) -> (r: (u32, u32, u32))
    ensures
        r == cubic_storage(resolution),
{
    (resolution / 4, resolution / 4, resolution / 8)
}

/// Number of grid slots kept for `models`: one per model, and at least one.
pub open spec fn grid_slots(models: Seq<DiscoveredModel>) -> nat {
    if models.len() == 0 {
        1
    } else {
        models.len()
    }
}

/// The generation that follows `g` (wrapping at `u64::MAX`).
pub open spec fn next_generation(g: u64) -> u64 {
    if g == u64::MAX {
        0
    } else {
        (g + 1) as u64
    }
}

/// Indices `i < n` whose voxel view and colour-index view are both present, ascending.
pub open spec fn ready_prefix<V>(views: Seq<Option<V>>, colors: Seq<Option<V>>, n: int) -> Seq<usize>
    decreases n,
{
    if n <= 0 {
        Seq::empty()
    } else {
        let prev = ready_prefix(views, colors, n - 1);
        if views[n - 1] is Some && colors[n - 1] is Some {
            prev.push((n - 1) as usize)
        } else {
            prev
        }
    }
}

/// Whether the extension of a model names the MagicaVoxel format.
pub open spec fn is_vox_model(m: DiscoveredModel) -> bool {
    m.extension@ == "vox"@
}

/// The transforms `t` extended with `identity` up to `n` entries.
pub open spec fn padded_transforms<T>(t: Seq<T>, n: nat, identity: T) -> Seq<T> {
    if t.len() < n {
        t + Seq::new((n - t.len()) as nat, |_i: int| identity)
    } else {
        t
    }
}

/// Which of `models` (by position) are MagicaVoxel models.
pub open spec fn vox_flags(models: Seq<DiscoveredModel>) -> Seq<bool> {
    Seq::new(models.len(), |i: int| is_vox_model(models[i]))
}

/// Number of `false` entries among the first `n` of `flags`.
pub open spec fn count_false(flags: Seq<bool>, n: int) -> nat
    decreases n,
{
    if n <= 0 {
        0
    } else {
        count_false(flags, n - 1) + if flags[n - 1] {
            0nat
        } else {
            1nat
        }
    }
}

/// Grids filled by background jobs, and what the renderer needs of them.
pub struct VoxelManager<V, P, T> {
    pub models: Vec<DiscoveredModel>,
    pub voxel_resolution: u32,
    pub grid_resolutions: Vec<u32>,
    pub grid_dims: Vec<(u32, u32, u32)>,
    /// Packed storage extents of each grid: (width, height, depth) in texels.
    pub grid_storage: Vec<(u32, u32, u32)>,
    pub grid_user_transforms: Vec<T>,
    pub future_grid_resolutions: Vec<u32>,
    pub active_voxel_grids: u32,
    pub voxel_views: Vec<Option<V>>,
    pub color_index_views: Vec<Option<V>>,
    pub voxel_pending: Vec<bool>,
    /// Progress of each grid's job: (done, total).
    pub voxel_progress: Vec<(usize, usize)>,
    /// Palette of each grid, in grid-local indices, until packed.
    pub palette_slices: Vec<Option<Vec<P>>>,
    pub palette_bases: Vec<u32>,
    pub palette_lens: Vec<u32>,
    pub voxel_generation: u64,
    pub cancel_requested: bool,
}

impl<V, P: Copy, T: Copy> VoxelManager<V, P, T> {
    /// Number of grid slots.
    pub open spec fn grid_count(&self) -> nat {
        self.grid_resolutions@.len()
    }

    /// Every per-grid table has one entry per grid slot.
    pub open spec fn wf(&self) -> bool {
        let n = self.grid_resolutions@.len();
        &&& self.grid_dims@.len() == n
        &&& self.grid_storage@.len() == n
        &&& self.voxel_views@.len() == n
        &&& self.color_index_views@.len() == n
        &&& self.voxel_pending@.len() == n
        &&& self.voxel_progress@.len() == n
        &&& self.palette_slices@.len() == n
        &&& self.palette_bases@.len() == n
        &&& self.palette_lens@.len() == n
    }

    /// A finished job's grid of this generation and slot is taken.
    pub open spec fn accepts_result_spec(&self, generation: u64, index: int) -> bool {
        generation == self.voxel_generation && !self.cancel_requested && 0 <= index
            < self.voxel_views@.len()
    }

    /// Every grid's job is done and every grid's palette has arrived.
    pub open spec fn all_ready_spec(&self) -> bool {
        &&& forall|i: int| 0 <= i < self.voxel_pending@.len() ==> !#[trigger] self.voxel_pending@[i]
        &&& forall|i: int|
            0 <= i < self.palette_slices@.len() ==> #[trigger] self.palette_slices@[i] is Some
    }

    /// The grids whose voxel and colour-index views are both present.
    pub open spec fn ready_spec(&self) -> Seq<usize> {
        let n = if self.voxel_views@.len() <= self.color_index_views@.len() {
            self.voxel_views@.len()
        } else {
            self.color_index_views@.len()
        };
        ready_prefix(self.voxel_views@, self.color_index_views@, n as int)
    }

    /// A manager for `models` whose jobs of generation 1 are about to start:
    /// one slot per model (at least one), each at `initial_resolution`,
    /// cubic, pending, with no views, no progress and no palette yet.
    pub fn new(initial_resolution: u32, models: Vec<DiscoveredModel>, identity: T) -> (m: Self)
        ensures
            m.wf(),
            m.models@ == models@,
            m.grid_count() == grid_slots(models@),
            m.voxel_resolution == initial_resolution,
            forall|i: int| 0 <= i < m.grid_count() ==> #[trigger] m.grid_resolutions@[i] == initial_resolution,
            forall|i: int|
                0 <= i < m.grid_count() ==> #[trigger] m.grid_dims@[i] == (
                    initial_resolution,
                    initial_resolution,
                    initial_resolution,
                ),
            forall|i: int| 0 <= i < m.grid_count() ==> #[trigger] m.grid_storage@[i] == cubic_storage(initial_resolution),
            m.grid_user_transforms@.len() == m.grid_count(),
            forall|i: int| 0 <= i < m.grid_count() ==> #[trigger] m.grid_user_transforms@[i] == identity,
            m.future_grid_resolutions@ == m.grid_resolutions@,
            m.active_voxel_grids == m.grid_count() as u32,
            forall|i: int| 0 <= i < m.grid_count() ==> #[trigger] m.voxel_views@[i] is None,
            forall|i: int| 0 <= i < m.grid_count() ==> #[trigger] m.color_index_views@[i] is None,
            forall|i: int| 0 <= i < m.grid_count() ==> #[trigger] m.voxel_pending@[i],
            forall|i: int| 0 <= i < m.grid_count() ==> #[trigger] m.voxel_progress@[i] == (0usize, 0usize),
            forall|i: int| 0 <= i < m.grid_count() ==> #[trigger] m.palette_slices@[i] is None,
            forall|i: int| 0 <= i < m.grid_count() ==> #[trigger] m.palette_bases@[i] == 0,
            forall|i: int| 0 <= i < m.grid_count() ==> #[trigger] m.palette_lens@[i] == 0,
            m.voxel_generation == 1,
            !m.cancel_requested,
    {
        let n: usize = if models.len() == 0 {
            1
        } else {
            models.len()
        };
        let storage = default_storage(initial_resolution);
        let mut grid_resolutions: Vec<u32> = Vec::new();
        let mut future_grid_resolutions: Vec<u32> = Vec::new();
        let mut grid_dims: Vec<(u32, u32, u32)> = Vec::new();
        let mut grid_storage: Vec<(u32, u32, u32)> = Vec::new();
        let mut grid_user_transforms: Vec<T> = Vec::new();
        let mut voxel_views: Vec<Option<V>> = Vec::new();
        let mut color_index_views: Vec<Option<V>> = Vec::new();
        let mut voxel_pending: Vec<bool> = Vec::new();
        let mut voxel_progress: Vec<(usize, usize)> = Vec::new();
        let mut palette_slices: Vec<Option<Vec<P>>> = Vec::new();
        let mut palette_bases: Vec<u32> = Vec::new();
        let mut palette_lens: Vec<u32> = Vec::new();
        let mut i: usize = 0;
        while i < n
            invariant
                i <= n,
                grid_resolutions@.len() == i,
                future_grid_resolutions@.len() == i,
                grid_dims@.len() == i,
                grid_storage@.len() == i,
                grid_user_transforms@.len() == i,
                voxel_views@.len() == i,
                color_index_views@.len() == i,
                voxel_pending@.len() == i,
                voxel_progress@.len() == i,
                palette_slices@.len() == i,
                palette_bases@.len() == i,
                palette_lens@.len() == i,
                storage == cubic_storage(initial_resolution),
                forall|j: int| 0 <= j < i ==> #[trigger] grid_resolutions@[j] == initial_resolution,
                forall|j: int| 0 <= j < i ==> #[trigger] future_grid_resolutions@[j] == initial_resolution,
                forall|j: int|
                    0 <= j < i ==> #[trigger] grid_dims@[j] == (
                        initial_resolution,
                        initial_resolution,
                        initial_resolution,
                    ),
                forall|j: int| 0 <= j < i ==> #[trigger] grid_storage@[j] == storage,
                forall|j: int| 0 <= j < i ==> #[trigger] grid_user_transforms@[j] == identity,
                forall|j: int| 0 <= j < i ==> #[trigger] voxel_views@[j] is None,
                forall|j: int| 0 <= j < i ==> #[trigger] color_index_views@[j] is None,
                forall|j: int| 0 <= j < i ==> #[trigger] voxel_pending@[j],
                forall|j: int| 0 <= j < i ==> #[trigger] voxel_progress@[j] == (0usize, 0usize),
                forall|j: int| 0 <= j < i ==> #[trigger] palette_slices@[j] is None,
                forall|j: int| 0 <= j < i ==> #[trigger] palette_bases@[j] == 0,
                forall|j: int| 0 <= j < i ==> #[trigger] palette_lens@[j] == 0,
            decreases n - i,
        {
            grid_resolutions.push(initial_resolution);
            future_grid_resolutions.push(initial_resolution);
            grid_dims.push((initial_resolution, initial_resolution, initial_resolution));
            grid_storage.push(storage);
            grid_user_transforms.push(identity);
            voxel_views.push(None);
            color_index_views.push(None);
            voxel_pending.push(true);
            voxel_progress.push((0, 0));
            palette_slices.push(None);
            palette_bases.push(0);
            palette_lens.push(0);
            i = i + 1;
        }
        assert(future_grid_resolutions@ =~= grid_resolutions@);
        VoxelManager {
            models,
            voxel_resolution: initial_resolution,
            grid_resolutions,
            grid_dims,
            grid_storage,
            grid_user_transforms,
            future_grid_resolutions,
            active_voxel_grids: n as u32,
            voxel_views,
            color_index_views,
            voxel_pending,
            voxel_progress,
            palette_slices,
            palette_bases,
            palette_lens,
            voxel_generation: 1,
            cancel_requested: false,
        }
    }

    /// Record a job's progress: taken when the job is of the current
    /// generation and names a slot; otherwise nothing changes.
    pub fn record_progress(&mut self, generation: u64, index: usize, done: usize, total: usize)
        ensures
            generation == old(self).voxel_generation && index < old(self).voxel_progress@.len()
                ==> *final(self) == (VoxelManager {
                voxel_progress: final(self).voxel_progress,
                ..*old(self)
            }) && final(self).voxel_progress@ == old(self).voxel_progress@.update(
                index as int,
                (done, total),
            ),
            !(generation == old(self).voxel_generation && index < old(self).voxel_progress@.len())
                ==> *final(self) == *old(self),
    {
        if generation != self.voxel_generation {
            return ;
        }
        if index < self.voxel_progress.len() {
            self.voxel_progress.set(index, (done, total));
        }
    }

    /// Whether every per-grid table has one entry per grid slot.
    pub fn tables_aligned(&self) -> (b: bool)
        ensures
            b == self.wf(),
    {
        let n = self.grid_resolutions.len();
        self.grid_dims.len() == n && self.grid_storage.len() == n && self.voxel_views.len() == n
            && self.color_index_views.len() == n && self.voxel_pending.len() == n
            && self.voxel_progress.len() == n && self.palette_slices.len() == n
            && self.palette_bases.len() == n && self.palette_lens.len() == n
    }

    /// Whether a finished job of `generation` for slot `index` is taken:
    /// it is of the current generation, no cancel is pending, and the slot exists.
    pub fn accepts_result(&self, generation: u64, index: usize) -> (b: bool)
        ensures
            b == self.accepts_result_spec(generation, index as int),
    {
        generation == self.voxel_generation && !self.cancel_requested && index < self.voxel_views.len()
    }

    /// Store a finished job's grid in slot `index`: its voxel and colour-index
    /// views, its resolution, content extents and storage extents. The slot
    /// is no longer pending; nothing else changes.
    pub fn store_result(
        &mut self,
        index: usize,
        voxel_view: V,
        color_view: V,
        resolution: u32,
        dims: (u32, u32, u32),
        storage: (u32, u32, u32),
    )
        requires
            old(self).wf(),
            index < old(self).grid_count(),
        ensures
            final(self).wf(),
            *final(self) == (VoxelManager {
                voxel_views: final(self).voxel_views,
                color_index_views: final(self).color_index_views,
                voxel_pending: final(self).voxel_pending,
                grid_resolutions: final(self).grid_resolutions,
                grid_dims: final(self).grid_dims,
                grid_storage: final(self).grid_storage,
                ..*old(self)
            }),
            final(self).voxel_views@ == old(self).voxel_views@.update(index as int, Some(voxel_view)),
            final(self).color_index_views@ == old(self).color_index_views@.update(
                index as int,
                Some(color_view),
            ),
            final(self).voxel_pending@ == old(self).voxel_pending@.update(index as int, false),
            final(self).grid_resolutions@ == old(self).grid_resolutions@.update(index as int, resolution),
            final(self).grid_dims@ == old(self).grid_dims@.update(index as int, dims),
            final(self).grid_storage@ == old(self).grid_storage@.update(index as int, storage),
    {
        self.voxel_views.set(index, Some(voxel_view));
        self.color_index_views.set(index, Some(color_view));
        self.voxel_pending.set(index, false);
        self.grid_resolutions.set(index, resolution);
        self.grid_dims.set(index, dims);
        self.grid_storage.set(index, storage);
    }

    /// Record the palette a job produced for slot `index`. Taken (and the
    /// descriptors are then stale) when the job is of the current generation,
    /// no cancel is pending and the slot exists; otherwise nothing changes.
    pub fn record_palette_slice(&mut self, generation: u64, index: usize, colors: Vec<P>) -> (dirty: bool)
        ensures
            dirty == (generation == old(self).voxel_generation && !old(self).cancel_requested && index
                < old(self).palette_slices@.len()),
            dirty ==> *final(self) == (VoxelManager {
                palette_slices: final(self).palette_slices,
                ..*old(self)
            }) && final(self).palette_slices@ == old(self).palette_slices@.update(
                index as int,
                Some(colors),
            ),
            !dirty ==> *final(self) == *old(self),
    {
        if generation != self.voxel_generation || self.cancel_requested {
            return false;
        }
        if index < self.palette_slices.len() {
            self.palette_slices.set(index, Some(colors));
            true
        } else {
            false
        }
    }

    /// Record that a job of `generation` stopped without a grid. When it is
    /// of the current generation and a cancel was requested, no grid is
    /// pending any more (and the descriptors are stale); otherwise nothing changes.
    pub fn record_cancelled(&mut self, generation: u64) -> (dirty: bool)
        ensures
            dirty == (generation == old(self).voxel_generation && old(self).cancel_requested),
            dirty ==> *final(self) == (VoxelManager {
                voxel_pending: final(self).voxel_pending,
                ..*old(self)
            }) && final(self).voxel_pending@.len() == old(self).voxel_pending@.len() && forall|i: int|
                0 <= i < final(self).voxel_pending@.len() ==> !#[trigger] final(self).voxel_pending@[i],
            !dirty ==> *final(self) == *old(self),
    {
        if generation != self.voxel_generation {
            return false;
        }
        if !self.cancel_requested {
            return false;
        }
        let mut i: usize = 0;
        let ghost start = *self;
        while i < self.voxel_pending.len()
            invariant
                i <= self.voxel_pending@.len(),
                self.voxel_pending@.len() == start.voxel_pending@.len(),
                *self == (VoxelManager { voxel_pending: self.voxel_pending, ..start }),
                forall|j: int| 0 <= j < i ==> !#[trigger] self.voxel_pending@[j],
            decreases self.voxel_pending@.len() - i,
        {
            self.voxel_pending.set(i, false);
            i = i + 1;
        }
        true
    }

    /// Ask the running jobs to stop: from now on no result of theirs is taken.
    pub fn cancel(&mut self)
        ensures
            *final(self) == (VoxelManager { cancel_requested: true, ..*old(self) }),
    {
        self.cancel_requested = true;
    }

    /// Start a new generation of jobs: every view is dropped, no grid is
    /// active, the generation advances (wrapping), every grid is pending with
    /// no progress, and no cancel is pending. Returns the new generation.
    pub fn begin_generation(&mut self) -> (generation: u64)
        ensures
            generation == next_generation(old(self).voxel_generation),
            *final(self) == (VoxelManager {
                voxel_views: final(self).voxel_views,
                color_index_views: final(self).color_index_views,
                voxel_pending: final(self).voxel_pending,
                voxel_progress: final(self).voxel_progress,
                active_voxel_grids: 0,
                voxel_generation: generation,
                cancel_requested: false,
                ..*old(self)
            }),
            final(self).voxel_views@.len() == old(self).voxel_views@.len(),
            final(self).color_index_views@.len() == old(self).color_index_views@.len(),
            final(self).voxel_pending@.len() == old(self).voxel_pending@.len(),
            final(self).voxel_progress@.len() == old(self).voxel_progress@.len(),
            forall|i: int| 0 <= i < final(self).voxel_views@.len() ==> #[trigger] final(self).voxel_views@[i] is None,
            forall|i: int|
                0 <= i < final(self).color_index_views@.len() ==> #[trigger] final(self).color_index_views@[i] is None,
            forall|i: int| 0 <= i < final(self).voxel_pending@.len() ==> #[trigger] final(self).voxel_pending@[i],
            forall|i: int|
                0 <= i < final(self).voxel_progress@.len() ==> #[trigger] final(self).voxel_progress@[i] == (
                    0usize,
                    0usize,
                ),
    {
        let ghost start = *self;
        let mut i: usize = 0;
        while i < self.voxel_views.len()
            invariant
                i <= self.voxel_views@.len(),
                self.voxel_views@.len() == start.voxel_views@.len(),
                *self == (VoxelManager { voxel_views: self.voxel_views, ..start }),
                forall|j: int| 0 <= j < i ==> #[trigger] self.voxel_views@[j] is None,
            decreases self.voxel_views@.len() - i,
        {
            self.voxel_views.set(i, None);
            i = i + 1;
        }
        let ghost step1 = *self;
        let mut i: usize = 0;
        while i < self.color_index_views.len()
            invariant
                i <= self.color_index_views@.len(),
                self.color_index_views@.len() == start.color_index_views@.len(),
                *self == (VoxelManager { color_index_views: self.color_index_views, ..step1 }),
                forall|j: int| 0 <= j < i ==> #[trigger] self.color_index_views@[j] is None,
            decreases self.color_index_views@.len() - i,
        {
            self.color_index_views.set(i, None);
            i = i + 1;
        }
        self.active_voxel_grids = 0;
        self.voxel_generation = self.voxel_generation.wrapping_add(1);
        let ghost step2 = *self;
        let mut i: usize = 0;
        while i < self.voxel_pending.len()
            invariant
                i <= self.voxel_pending@.len(),
                self.voxel_pending@.len() == start.voxel_pending@.len(),
                *self == (VoxelManager { voxel_pending: self.voxel_pending, ..step2 }),
                forall|j: int| 0 <= j < i ==> #[trigger] self.voxel_pending@[j],
            decreases self.voxel_pending@.len() - i,
        {
            self.voxel_pending.set(i, true);
            i = i + 1;
        }
        self.cancel_requested = false;
        let ghost step3 = *self;
        let mut i: usize = 0;
        while i < self.voxel_progress.len()
            invariant
                i <= self.voxel_progress@.len(),
                self.voxel_progress@.len() == start.voxel_progress@.len(),
                *self == (VoxelManager { voxel_progress: self.voxel_progress, ..step3 }),
                forall|j: int| 0 <= j < i ==> #[trigger] self.voxel_progress@[j] == (0usize, 0usize),
            decreases self.voxel_progress@.len() - i,
        {
            self.voxel_progress.set(i, (0, 0));
            i = i + 1;
        }
        self.voxel_generation
    }

    /// The grids whose voxel and colour-index views are both present, in
    /// slot order; their number becomes the number of active grids.
    pub fn refresh_active_grids(&mut self) -> (ready: Vec<usize>)
        ensures
            ready@ == old(self).ready_spec(),
            *final(self) == (VoxelManager { active_voxel_grids: ready@.len() as u32, ..*old(self) }),
    {
        let n = if self.voxel_views.len() <= self.color_index_views.len() {
            self.voxel_views.len()
        } else {
            self.color_index_views.len()
        };
        let mut ready: Vec<usize> = Vec::new();
        let mut i: usize = 0;
        while i < n
            invariant
                i <= n,
                n <= self.voxel_views@.len(),
                n <= self.color_index_views@.len(),
                ready@ == ready_prefix(self.voxel_views@, self.color_index_views@, i as int),
            decreases n - i,
        {
            if self.voxel_views[i].is_some() && self.color_index_views[i].is_some() {
                ready.push(i);
            }
            i = i + 1;
        }
        self.active_voxel_grids = ready.len() as u32;
        ready
    }

    /// Whether every grid's job is done and every grid's palette has arrived.
    pub fn all_ready(&self) -> (b: bool)
        ensures
            b == self.all_ready_spec(),
    {
        let mut i: usize = 0;
        while i < self.voxel_pending.len()
            invariant
                i <= self.voxel_pending@.len(),
                forall|j: int| 0 <= j < i ==> !#[trigger] self.voxel_pending@[j],
            decreases self.voxel_pending@.len() - i,
        {
            if self.voxel_pending[i] {
                return false;
            }
            i = i + 1;
        }
        let mut k: usize = 0;
        while k < self.palette_slices.len()
            invariant
                k <= self.palette_slices@.len(),
                forall|j: int| 0 <= j < self.voxel_pending@.len() ==> !#[trigger] self.voxel_pending@[j],
                forall|j: int| 0 <= j < k ==> #[trigger] self.palette_slices@[j] is Some,
            decreases self.palette_slices@.len() - k,
        {
            if self.palette_slices[k].is_none() {
                return false;
            }
            k = k + 1;
        }
        true
    }

    /// Once every grid and palette is ready, pack the grids' palettes into
    /// one (see `compact_palette_slices`), record each grid's offset and
    /// length in it, and return it. Before that, nothing changes.
    pub fn compact_palette(&mut self, fallback: P) -> (r: Option<Vec<P>>)
        requires
            old(self).wf(),
        ensures
            final(self).wf(),
            r is Some <==> old(self).all_ready_spec(),
            r is None ==> *final(self) == *old(self),
            r matches Some(c) ==> {
                let all = concat_slices(old(self).palette_slices@, old(self).palette_slices@.len() as int);
                &&& *final(self) == (VoxelManager {
                    palette_bases: final(self).palette_bases,
                    palette_lens: final(self).palette_lens,
                    ..*old(self)
                })
                &&& (all.len() > 0 ==> c@ == all)
                &&& (all.len() == 0 ==> c@ == seq![fallback])
                &&& forall|i: int|
                    0 <= i < old(self).palette_slices@.len() ==> #[trigger] final(self).palette_bases@[i]
                        == match old(self).palette_slices@[i] {
                        Some(_) => concat_slices(old(self).palette_slices@, i).len() as u32,
                        None => 0u32,
                    }
                &&& forall|i: int|
                    0 <= i < old(self).palette_slices@.len() ==> #[trigger] final(self).palette_lens@[i]
                        == match old(self).palette_slices@[i] {
                        Some(s) => s@.len() as u32,
                        None => 0u32,
                    }
            },
    {
        if !self.all_ready() {
            return None;
        }
        let (compact, bases, lens) = compact_palette_slices(&self.palette_slices, fallback);
        self.palette_bases = bases;
        self.palette_lens = lens;
        Some(compact)
    }

    /// The palette offset and length of each listed grid (0 and 0 for a
    /// slot without a recorded palette).
    pub fn palette_ranges(&self, grids: &Vec<usize>) -> (r: Vec<(u32, u32)>)
        ensures
            r@.len() == grids@.len(),
            forall|k: int|
                0 <= k < grids@.len() ==> #[trigger] r@[k] == (
                    if grids@[k] < self.palette_bases@.len() {
                        self.palette_bases@[grids@[k] as int]
                    } else {
                        0u32
                    },
                    if grids@[k] < self.palette_lens@.len() {
                        self.palette_lens@[grids@[k] as int]
                    } else {
                        0u32
                    },
                ),
    {
        let mut r: Vec<(u32, u32)> = Vec::new();
        let mut k: usize = 0;
        while k < grids.len()
            invariant
                k <= grids@.len(),
                r@.len() == k,
                forall|j: int|
                    0 <= j < k ==> #[trigger] r@[j] == (
                        if grids@[j] < self.palette_bases@.len() {
                            self.palette_bases@[grids@[j] as int]
                        } else {
                            0u32
                        },
                        if grids@[j] < self.palette_lens@.len() {
                            self.palette_lens@[grids@[j] as int]
                        } else {
                            0u32
                        },
                    ),
            decreases grids@.len() - k,
        {
            let g = grids[k];
            let base = if g < self.palette_bases.len() {
                self.palette_bases[g]
            } else {
                0
            };
            let len = if g < self.palette_lens.len() {
                self.palette_lens[g]
            } else {
                0
            };
            r.push((base, len));
            k = k + 1;
        }
        r
    }

    /// Give every model a transform: the transforms are extended with
    /// `identity` up to one per model.
    pub fn ensure_transform_capacity(&mut self, identity: T)
        ensures
            *final(self) == (VoxelManager {
                grid_user_transforms: final(self).grid_user_transforms,
                ..*old(self)
            }),
            final(self).grid_user_transforms@ == padded_transforms(
                old(self).grid_user_transforms@,
                old(self).models@.len(),
                identity,
            ),
    {
        let ghost start = *self;
        if self.grid_user_transforms.len() < self.models.len() {
            let needed = self.models.len() - self.grid_user_transforms.len();
            let mut k: usize = 0;
            while k < needed
                invariant
                    k <= needed,
                    needed == start.models@.len() - start.grid_user_transforms@.len(),
                    *self == (VoxelManager { grid_user_transforms: self.grid_user_transforms, ..start }),
                    self.grid_user_transforms@ == start.grid_user_transforms@ + Seq::new(
                        k as nat,
                        |_i: int| identity,
                    ),
                decreases needed - k,
            {
                self.grid_user_transforms.push(identity);
                k = k + 1;
                assert(self.grid_user_transforms@ =~= start.grid_user_transforms@ + Seq::new(
                    k as nat,
                    |_i: int| identity,
                ));
            }
        }
    }

    /// Give model `index` the transform `rotation` (the transforms first
    /// extended with `identity` up to one per model). Returns whether a model
    /// `index` exists; when it does not, nothing changes.
    pub fn set_user_transform(&mut self, index: usize, rotation: T, identity: T) -> (changed: bool)
        ensures
            changed == (index < old(self).models@.len()),
            !changed ==> *final(self) == *old(self),
            changed ==> *final(self) == (VoxelManager {
                grid_user_transforms: final(self).grid_user_transforms,
                ..*old(self)
            }) && final(self).grid_user_transforms@ == padded_transforms(
                old(self).grid_user_transforms@,
                old(self).models@.len(),
                identity,
            ).update(index as int, rotation),
    {
        if index >= self.models.len() {
            return false;
        }
        self.ensure_transform_capacity(identity);
        if index < self.grid_user_transforms.len() {
            self.grid_user_transforms.set(index, rotation);
        }
        true
    }

    /// Apply the requested resolutions before a regeneration: each grid with
    /// a request that is not a MagicaVoxel model takes the request rounded up
    /// to a multiple of 8, and the manager's resolution becomes the largest
    /// grid resolution (unchanged when there are no grids).
    pub fn regenerate_resolutions(&mut self)
        requires
            future_resolutions_fit(
                old(self).grid_resolutions@,
                old(self).future_grid_resolutions@,
                vox_flags(old(self).models@),
            ),
        ensures
            final(self).grid_resolutions@.len() == old(self).grid_resolutions@.len(),
            forall|i: int|
                0 <= i < final(self).grid_resolutions@.len() ==> #[trigger] final(self).grid_resolutions@[i]
                    == applied_resolution(
                    old(self).grid_resolutions@,
                    old(self).future_grid_resolutions@,
                    vox_flags(old(self).models@),
                    i,
                ),
            *final(self) == (VoxelManager {
                grid_resolutions: final(self).grid_resolutions,
                voxel_resolution: final(self).voxel_resolution,
                ..*old(self)
            }),
            old(self).grid_resolutions@.len() == 0 ==> final(self).voxel_resolution == old(self).voxel_resolution,
            old(self).grid_resolutions@.len() > 0 ==> final(self).voxel_resolution == seq_max(
                final(self).grid_resolutions@,
            ),
            old(self).grid_resolutions@.len() > 0 ==> (forall|i: int|
                0 <= i < final(self).grid_resolutions@.len() ==> #[trigger] final(self).grid_resolutions@[i]
                    <= final(self).voxel_resolution) && exists|i: int|
                0 <= i < final(self).grid_resolutions@.len() && #[trigger] final(self).grid_resolutions@[i]
                    == final(self).voxel_resolution,
    {
        let vox_ext = "vox".to_owned();
        let mut is_vox: Vec<bool> = Vec::new();
        let mut k: usize = 0;
        while k < self.models.len()
            invariant
                k <= self.models@.len(),
                vox_ext@ == "vox"@,
                is_vox@.len() == k,
                forall|j: int| 0 <= j < k ==> #[trigger] is_vox@[j] == is_vox_model(self.models@[j]),
            decreases self.models@.len() - k,
        {
            is_vox.push(self.models[k].extension == vox_ext);
            k = k + 1;
        }
        assert(is_vox@ =~= vox_flags(self.models@));
        if let Some(maxr) = apply_future_resolutions(
            &mut self.grid_resolutions,
            &self.future_grid_resolutions,
            &is_vox,
        ) {
            self.voxel_resolution = maxr;
        }
    }

    /// Number of grids whose job has finished (no longer pending).
    pub fn finished_grid_count(&self) -> (n: usize)
        ensures
            n == count_false(self.voxel_pending@, self.voxel_pending@.len() as int),
    {
        let mut n: usize = 0;
        let mut i: usize = 0;
        while i < self.voxel_pending.len()
            invariant
                i <= self.voxel_pending@.len(),
                n == count_false(self.voxel_pending@, i as int),
                n <= i,
            decreases self.voxel_pending@.len() - i,
        {
            if !self.voxel_pending[i] {
                n = n + 1;
            }
            i = i + 1;
        }
        n
    }

    /// The resolution requested for grid `index`: its pending request, else
    /// its current resolution, else the manager's resolution.
    pub fn requested_resolution(&self, index: usize) -> (r: u32)
        ensures
            r == if index < self.future_grid_resolutions@.len() {
                self.future_grid_resolutions@[index as int]
            } else if index < self.grid_resolutions@.len() {
                self.grid_resolutions@[index as int]
            } else {
                self.voxel_resolution
            },
    {
        if index < self.future_grid_resolutions.len() {
            self.future_grid_resolutions[index]
        } else if index < self.grid_resolutions.len() {
            self.grid_resolutions[index]
        } else {
            self.voxel_resolution
        }
    }

    /// Request resolution `value` (rounded up to a multiple of 8) for grid
    /// `index` at the next regeneration; a slot without a request entry is
    /// left alone. Returns the rounded value.
    pub fn request_resolution(&mut self, index: usize, value: u32) -> (rounded: u32)
        requires
            value <= u32::MAX - 7,
        ensures
            rounded == round_up_to_8(value as int),
            *final(self) == (VoxelManager {
                future_grid_resolutions: final(self).future_grid_resolutions,
                ..*old(self)
            }),
            index < old(self).future_grid_resolutions@.len() ==> final(self).future_grid_resolutions@
                == old(self).future_grid_resolutions@.update(index as int, rounded),
            index >= old(self).future_grid_resolutions@.len() ==> final(self).future_grid_resolutions@
                == old(self).future_grid_resolutions@,
    {
        let rounded = (value / 8 + if value % 8 != 0 {
            1
        } else {
            0
        }) * 8;
        if index < self.future_grid_resolutions.len() {
            self.future_grid_resolutions.set(index, rounded);
        }
        rounded
    }

    /// After the set of models changed: the requested resolutions restart
    /// from the current ones, and the number of active grids is clamped to
    /// `1..=models + 1` (the models and the ground). Returns the requested
    /// resolutions.
    pub fn reset_requests(&mut self) -> (r: Vec<u32>)
        requires
            old(self).models@.len() < u32::MAX,
        ensures
            r@ == old(self).grid_resolutions@,
            *final(self) == (VoxelManager {
                future_grid_resolutions: final(self).future_grid_resolutions,
                active_voxel_grids: final(self).active_voxel_grids,
                ..*old(self)
            }),
            final(self).future_grid_resolutions@ == old(self).grid_resolutions@,
            final(self).active_voxel_grids == if old(self).active_voxel_grids < 1 {
                1
            } else if old(self).active_voxel_grids > old(self).models@.len() + 1 {
                old(self).models@.len() + 1int
            } else {
                old(self).active_voxel_grids as int
            },
    {
        let mut r: Vec<u32> = Vec::new();
        let mut f: Vec<u32> = Vec::new();
        let mut i: usize = 0;
        while i < self.grid_resolutions.len()
            invariant
                i <= self.grid_resolutions@.len(),
                r@ == self.grid_resolutions@.subrange(0, i as int),
                f@ == self.grid_resolutions@.subrange(0, i as int),
            decreases self.grid_resolutions@.len() - i,
        {
            r.push(self.grid_resolutions[i]);
            f.push(self.grid_resolutions[i]);
            assert(self.grid_resolutions@.subrange(0, i + 1) =~= self.grid_resolutions@.subrange(0, i as int).push(self.grid_resolutions@[i as int]));
            i = i + 1;
        }
        assert(self.grid_resolutions@.subrange(0, i as int) =~= self.grid_resolutions@);
        self.future_grid_resolutions = f;
        self.active_voxel_grids = clamp_active_grids(self.active_voxel_grids, self.models.len());
        r
    }
}

/// After a new generation has begun, no finished job of the generation
/// before it is taken, whatever slot it names.
pub proof fn lemma_new_generation_refuses_old_results<V, P: Copy, T: Copy>(
    before: VoxelManager<V, P, T>,
    after: VoxelManager<V, P, T>,
    index: int,
)
    requires
        after.voxel_generation == next_generation(before.voxel_generation),
    ensures
        !after.accepts_result_spec(before.voxel_generation, index),
{
}

/// While a cancel is pending, no finished job is taken.
pub proof fn lemma_cancel_refuses_results<V, P: Copy, T: Copy>(
    m: VoxelManager<V, P, T>,
    generation: u64,
    index: int,
)
    requires
        m.cancel_requested,
    ensures
        !m.accepts_result_spec(generation, index),
{
}

} // verus!
