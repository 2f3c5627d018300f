//! Plain data carried between the renderer, the swapchain and the benchmark.
use core::time::Duration;
use vstd::prelude::*;

verus! {

/// An RGBA8 image read back from an off-screen render.
#[derive(Clone, Debug)]
pub struct RenderSnapshot {
    pub width: u32,
    pub height: u32,
    pub pixels: Vec<u8>,
}

/// Which models an off-screen snapshot loads.
#[derive(Clone, Copy, Debug)]
pub enum SnapshotModelSelection<'a> {
    /// Every discovered model.
    All,
    /// The models whose file stem or file name matches one of the names, ignoring case.
    Named(&'a [&'a str]),
}

impl<'a> Default for SnapshotModelSelection<'a> {
    fn default() -> (r: Self)
        ensures
            r is All,
    {
        SnapshotModelSelection::All
    }
}

/// Options of an off-screen snapshot: which models it loads, and the camera
/// (of the renderer's camera type `C`) to render from; without one the
/// renderer picks its default view.
pub struct RenderSnapshotOptions<'a, C> {
    pub model_selection: SnapshotModelSelection<'a>,
    pub camera: Option<C>,
}

impl<'a, C> Default for RenderSnapshotOptions<'a, C> {
    fn default() -> (r: Self)
        ensures
            r.model_selection is All,
            r.camera is None,
    {
        RenderSnapshotOptions { model_selection: SnapshotModelSelection::All, camera: None }
    }
}

/// A swapchain image acquired for drawing.
pub struct AcquireResult<F> {
    pub image_index: u32,
    pub future: F,
    pub suboptimal: bool,
}

/// A swapchain image acquired for drawing by the swapchain manager.
pub struct AcquiredFrame<F> {
    pub image_index: u32,
    pub future: F,
    pub suboptimal: bool,
}

/// Manages swapchain lifecycle: recreation on demand, image acquisition, and presentation.
pub struct SwapchainManager;

/// Average frame times of the two traversal variants.
pub struct BenchmarkOutcome {
    pub frames: u32,
    pub branching_cpu_avg: Duration,
    pub branching_gpu_avg_ns: Option<u128>,
    pub branchless_cpu_avg: Duration,
    pub branchless_gpu_avg_ns: Option<u128>,
}

} // verus!
