//! The GPU-resident mirror of the voxel tree: the two arena allocators with
//! their occupancy record, the one-shot publish step that transfers a built
//! CPU tree into the arenas, and the per-frame draw-protocol state machine
//! with its per-depth dispatch plan.

use vstd::prelude::*;
use vstd::arithmetic::div_mod::{
    lemma_div_is_ordered, lemma_div_is_ordered_by_denominator, lemma_hoist_over_denominator,
    lemma_div_basics_1,
};
use crate::gpu_buffer_allocator::{GpuBufferAllocator, GpuIdx, GpuWrite};
use crate::math::UVec3;
use crate::voxel_tree::{
    pow8, pow8_exec, VoxelLeaf, VoxelNode, VoxelTree, VOXEL_IDX_EMPTY, VOXEL_TREE_DEPTH,
};

verus! {

/// Threads per workgroup axis of the draw kernels.
pub const WORKGROUP_SIZE: u32 = 8;

/// Threads per whole workgroup.
pub const WORKGROUP_VOLUME: u32 = WORKGROUP_SIZE * WORKGROUP_SIZE * WORKGROUP_SIZE;

/// The GPU-visible summary of arena occupancy.
#[derive(Clone, Copy, Debug, PartialEq, Eq, Structural)]
pub struct VoxelGpuSceneInfo {
    pub nodes_cap: u32,
    pub nodes_len: u32,
    pub nodes_free_count: u32,
    pub leafs_cap: u32,
    pub leafs_len: u32,
    pub leafs_free_count: u32,
}

impl Default for VoxelGpuSceneInfo {
    /// An all-zero record.
    fn default() -> (r: VoxelGpuSceneInfo)
        ensures
            r == (VoxelGpuSceneInfo {
                nodes_cap: 0,
                nodes_len: 0,
                nodes_free_count: 0,
                leafs_cap: 0,
                leafs_len: 0,
                leafs_free_count: 0,
            }),
    {
        VoxelGpuSceneInfo {
            nodes_cap: 0,
            nodes_len: 0,
            nodes_free_count: 0,
            leafs_cap: 0,
            leafs_len: 0,
            leafs_free_count: 0,
        }
    }
}

/// Which arena lacked room for a publish, and by how much: `required` is the
/// record count of the rejected tree, `available` the arena's remaining
/// room.
#[derive(Clone, Copy, Debug, PartialEq, Eq, Structural)]
pub enum CapacityError {
    Nodes { required: u32, available: u32 },
    Leafs { required: u32, available: u32 },
}

/// The process-wide GPU scene: one allocator per record kind plus the
/// occupancy record mirrored to the GPU.
pub struct VoxelGpuScene {
    pub info: VoxelGpuSceneInfo,
    pub nodes: GpuBufferAllocator<VoxelNode>,
    pub leafs: GpuBufferAllocator<VoxelLeaf>,
}

impl VoxelGpuScene {
    /// The scene invariant: both allocators are well-formed and the
    /// occupancy record carries their capacities.
    pub open spec fn wf(self) -> bool {
        &&& self.nodes.wf()
        &&& self.leafs.wf()
        &&& self.info.nodes_cap == self.nodes.cap
        &&& self.info.leafs_cap == self.leafs.cap
    }

    /// A fresh scene with empty arenas of the given capacities, every slot
    /// pre-filled with the all-empty record.  Node slot 0 is reserved for
    /// the tree root in the occupancy record.
    pub fn new(nodes_cap: GpuIdx, leafs_cap: GpuIdx) -> (r: VoxelGpuScene)
        ensures
            r.wf(),
            r.nodes.len == 0 && r.nodes.cap == nodes_cap,
            r.leafs.len == 0 && r.leafs.cap == leafs_cap,
            r.nodes.free_list@.len() == 0 && r.leafs.free_list@.len() == 0,
            r.nodes.pending@.len() == 0 && r.leafs.pending@.len() == 0,
            r.nodes.avail() == nodes_cap && r.leafs.avail() == leafs_cap,
            r.info == (VoxelGpuSceneInfo {
                nodes_cap,
                nodes_len: 1,
                nodes_free_count: 0,
                leafs_cap,
                leafs_len: 0,
                leafs_free_count: 0,
            }),
            (r.nodes.fill matches Some(nd) && nd.indices@.len() == 512 && forall|i: int|
                0 <= i < 512 ==> nd.indices@[i] == VOXEL_IDX_EMPTY),
            (r.leafs.fill matches Some(lf) && lf.voxels@.len() == 512 && forall|i: int|
                0 <= i < 512 ==> lf.voxels@[i].data == VOXEL_IDX_EMPTY),
    {
        VoxelGpuScene {
            info: VoxelGpuSceneInfo {
                nodes_cap,
                nodes_len: 1,
                nodes_free_count: 0,
                leafs_cap,
                leafs_len: 0,
                leafs_free_count: 0,
            },
            nodes: GpuBufferAllocator::new(nodes_cap, Some(VoxelNode::default())),
            leafs: GpuBufferAllocator::new(leafs_cap, Some(VoxelLeaf::default())),
        }
    }
}

/// Marker for a CPU tree whose contents stand in the GPU arenas.
#[derive(Debug)]
pub struct GpuVoxelTree;

impl GpuVoxelTree {
    /// Transfers every node and leaf of a built CPU tree into the GPU
    /// arenas, in arena order, and updates the occupancy record.  Where
    /// either arena lacks room the transfer fails before any slot is
    /// allocated or any write is queued, naming the arena and the amounts.
    #[verifier::rlimit(100)]
    pub fn prepare_asset(
        source_asset: &VoxelTree,
        gpu_scene: &mut VoxelGpuScene,
    ) -> (r: Result<GpuVoxelTree, CapacityError>)
        requires
            old(gpu_scene).wf(),
            source_asset.wf(),
        ensures
            final(gpu_scene).wf(),
            r is Err <==> (source_asset.nodes@.len() > old(gpu_scene).nodes.avail()
                || source_asset.leafs@.len() > old(gpu_scene).leafs.avail()),
            r is Err ==> *final(gpu_scene) == *old(gpu_scene),
            source_asset.nodes@.len() > old(gpu_scene).nodes.avail() ==> r == Err::<
                GpuVoxelTree,
                CapacityError,
            >(
                CapacityError::Nodes {
                    required: source_asset.nodes@.len() as u32,
                    available: old(gpu_scene).nodes.avail() as u32,
                },
            ),
            (source_asset.nodes@.len() <= old(gpu_scene).nodes.avail()
                && source_asset.leafs@.len() > old(gpu_scene).leafs.avail()) ==> r == Err::<
                GpuVoxelTree,
                CapacityError,
            >(
                CapacityError::Leafs {
                    required: source_asset.leafs@.len() as u32,
                    available: old(gpu_scene).leafs.avail() as u32,
                },
            ),
            r is Ok ==> ({
                let n = source_asset.nodes@.len() as int;
                let l = source_asset.leafs@.len() as int;
                let np0 = old(gpu_scene).nodes.pending@.len() as int;
                let lp0 = old(gpu_scene).leafs.pending@.len() as int;
                &&& final(gpu_scene).nodes.avail() == old(gpu_scene).nodes.avail() - n
                &&& final(gpu_scene).leafs.avail() == old(gpu_scene).leafs.avail() - l
                &&& final(gpu_scene).nodes.cap == old(gpu_scene).nodes.cap
                &&& final(gpu_scene).leafs.cap == old(gpu_scene).leafs.cap
                &&& final(gpu_scene).info == (VoxelGpuSceneInfo {
                    nodes_len: n as u32,
                    leafs_len: l as u32,
                    ..old(gpu_scene).info
                })
                &&& final(gpu_scene).nodes.pending@.len() == np0 + n
                &&& final(gpu_scene).leafs.pending@.len() == lp0 + l
                &&& final(gpu_scene).nodes.pending@.subrange(0, np0)
                    == old(gpu_scene).nodes.pending@
                &&& final(gpu_scene).leafs.pending@.subrange(0, lp0)
                    == old(gpu_scene).leafs.pending@
                &&& forall|i: int|
                    0 <= i < n ==> (#[trigger] final(gpu_scene).nodes.pending@[np0 + i]).data.indices@
                        == source_asset.nodes@[i].indices@
                &&& forall|i: int|
                    0 <= i < l ==> (#[trigger] final(gpu_scene).leafs.pending@[lp0 + i]).data.voxels@
                        == source_asset.leafs@[i].voxels@
                &&& old(gpu_scene).nodes.free_list@.len() == 0 ==> (final(gpu_scene).nodes.len
                    == old(gpu_scene).nodes.len + n && forall|i: int|
                    0 <= i < n ==> (#[trigger] final(gpu_scene).nodes.pending@[np0 + i]).idx == old(
                        gpu_scene,
                    ).nodes.len + i)
                &&& old(gpu_scene).leafs.free_list@.len() == 0 ==> (final(gpu_scene).leafs.len
                    == old(gpu_scene).leafs.len + l && forall|i: int|
                    0 <= i < l ==> (#[trigger] final(gpu_scene).leafs.pending@[lp0 + i]).idx == old(
                        gpu_scene,
                    ).leafs.len + i)
            }),
    {
        let n = source_asset.nodes.len();
        let l = source_asset.leafs.len();
        let gn = gpu_scene.nodes.available();
        let gl = gpu_scene.leafs.available();
        if n > gn as usize {
            return Err(CapacityError::Nodes { required: n as u32, available: gn });
        }
        if l > gl as usize {
            return Err(CapacityError::Leafs { required: l as u32, available: gl });
        }
        let ghost s0 = *gpu_scene;
        let mut i: usize = 0;
        while i < n
            invariant
                0 <= i <= n,
                n == source_asset.nodes@.len(),
                source_asset.wf(),
                s0.wf(),
                s0.nodes.avail() >= n,
                gpu_scene.nodes.wf(),
                gpu_scene.nodes.cap == s0.nodes.cap,
                gpu_scene.nodes.fill == s0.nodes.fill,
                gpu_scene.nodes.avail() == s0.nodes.avail() - i,
                gpu_scene.leafs == s0.leafs,
                gpu_scene.info == s0.info,
                gpu_scene.nodes.pending@.len() == s0.nodes.pending@.len() + i,
                gpu_scene.nodes.pending@.subrange(0, s0.nodes.pending@.len() as int)
                    == s0.nodes.pending@,
                forall|j: int|
                    0 <= j < i ==> (#[trigger] gpu_scene.nodes.pending@[s0.nodes.pending@.len()
                        + j]).data.indices@ == source_asset.nodes@[j].indices@,
                s0.nodes.free_list@.len() == 0 ==> (gpu_scene.nodes.free_list@.len() == 0
                    && gpu_scene.nodes.len == s0.nodes.len + i && forall|j: int|
                    0 <= j < i ==> (#[trigger] gpu_scene.nodes.pending@[s0.nodes.pending@.len()
                        + j]).idx == s0.nodes.len + j),
            decreases n - i,
        {
            let node = VoxelNode { indices: source_asset.nodes[i].indices.clone() };
            proof {
                assert(node.indices@ =~= source_asset.nodes@[i as int].indices@);
            }
            let idx = match gpu_scene.nodes.allocate() {
                Ok(idx) => idx,
                Err(_) => {
                    proof {
                        assert(false);
                    }
                    return Err(CapacityError::Nodes { required: n as u32, available: 0 });
                },
            };
            gpu_scene.nodes.write(idx, node);
            i = i + 1;
        }
        let mut i: usize = 0;
        while i < l
            invariant
                0 <= i <= l,
                l == source_asset.leafs@.len(),
                n == source_asset.nodes@.len(),
                source_asset.wf(),
                s0.wf(),
                s0.leafs.avail() >= l,
                gpu_scene.leafs.wf(),
                gpu_scene.leafs.cap == s0.leafs.cap,
                gpu_scene.leafs.fill == s0.leafs.fill,
                gpu_scene.leafs.avail() == s0.leafs.avail() - i,
                gpu_scene.info == s0.info,
                gpu_scene.leafs.pending@.len() == s0.leafs.pending@.len() + i,
                gpu_scene.leafs.pending@.subrange(0, s0.leafs.pending@.len() as int)
                    == s0.leafs.pending@,
                forall|j: int|
                    0 <= j < i ==> (#[trigger] gpu_scene.leafs.pending@[s0.leafs.pending@.len()
                        + j]).data.voxels@ == source_asset.leafs@[j].voxels@,
                s0.leafs.free_list@.len() == 0 ==> (gpu_scene.leafs.free_list@.len() == 0
                    && gpu_scene.leafs.len == s0.leafs.len + i && forall|j: int|
                    0 <= j < i ==> (#[trigger] gpu_scene.leafs.pending@[s0.leafs.pending@.len()
                        + j]).idx == s0.leafs.len + j),
                gpu_scene.nodes.wf(),
                gpu_scene.nodes.cap == s0.nodes.cap,
                gpu_scene.nodes.fill == s0.nodes.fill,
                gpu_scene.nodes.avail() == s0.nodes.avail() - n,
                gpu_scene.nodes.pending@.len() == s0.nodes.pending@.len() + n,
                gpu_scene.nodes.pending@.subrange(0, s0.nodes.pending@.len() as int)
                    == s0.nodes.pending@,
                forall|j: int|
                    0 <= j < n ==> (#[trigger] gpu_scene.nodes.pending@[s0.nodes.pending@.len()
                        + j]).data.indices@ == source_asset.nodes@[j].indices@,
                s0.nodes.free_list@.len() == 0 ==> (gpu_scene.nodes.len == s0.nodes.len + n
                    && forall|j: int|
                    0 <= j < n ==> (#[trigger] gpu_scene.nodes.pending@[s0.nodes.pending@.len()
                        + j]).idx == s0.nodes.len + j),
            decreases l - i,
        {
            let leaf = VoxelLeaf { voxels: source_asset.leafs[i].voxels.clone() };
            proof {
                assert(leaf.voxels@ =~= source_asset.leafs@[i as int].voxels@);
            }
            let idx = match gpu_scene.leafs.allocate() {
                Ok(idx) => idx,
                Err(_) => {
                    proof {
                        assert(false);
                    }
                    return Err(CapacityError::Leafs { required: l as u32, available: 0 });
                },
            };
            gpu_scene.leafs.write(idx, leaf);
            i = i + 1;
        }
        gpu_scene.info.nodes_len = n as u32;
        gpu_scene.info.leafs_len = l as u32;
        Ok(GpuVoxelTree)
    }
}

/// The draw protocol's per-frame state: waiting for pipeline compilation,
/// issuing one frame's dispatches, or done until the next frame.
#[derive(Clone, Copy, Debug, PartialEq, Eq, Structural)]
pub enum VoxelDrawState {
    Loading,
    Run,
    Done,
}

/// The render-graph node that drives the draw protocol.
pub struct VoxelDrawNode {
    pub state: VoxelDrawState,
}

impl Default for VoxelDrawNode {
    /// A node that starts out waiting for its pipelines.
    fn default() -> (r: VoxelDrawNode)
        ensures
            r.state == VoxelDrawState::Loading,
    {
        VoxelDrawNode { state: VoxelDrawState::Loading }
    }
}

impl VoxelDrawNode {
    /// Advances the polling state machine once per frame: leave `Loading`
    /// only when every required pipeline has finished its asynchronous
    /// compilation, run for exactly one frame, and fall back to `Loading`
    /// when a previously-ready pipeline has gone away.
    pub fn update(&mut self, pipelines_ready: bool)
        ensures
            final(self).state == (match old(self).state {
                VoxelDrawState::Loading => if pipelines_ready {
                    VoxelDrawState::Run
                } else {
                    VoxelDrawState::Loading
                },
                VoxelDrawState::Run => VoxelDrawState::Done,
                VoxelDrawState::Done => if pipelines_ready {
                    VoxelDrawState::Done
                } else {
                    VoxelDrawState::Loading
                },
            }),
    {
        match self.state {
            VoxelDrawState::Loading => {
                if pipelines_ready {
                    self.state = VoxelDrawState::Run;
                }
            },
            VoxelDrawState::Run => {
                self.state = VoxelDrawState::Done;
            },
            VoxelDrawState::Done => {
                if !pipelines_ready {
                    self.state = VoxelDrawState::Loading;
                }
            },
        }
    }
}

/// One per-depth dispatch of the draw protocol: the level's voxel-grid
/// window, the previous pass's dispatch footprint handed forward as a push
/// constant, and this pass's workgroup counts.
pub struct LevelPass {
    pub depth: u32,
    pub min: UVec3,
    pub max: UVec3,
    pub wsize_children: UVec3,
    pub dispatch: UVec3,
}

/// One frame's dispatch sequence: the arena clear pass, then the leaf draw
/// pass, then one node draw pass per remaining level, finest to root.
pub struct FramePlan {
    pub clear_dispatch: u32,
    pub passes: Vec<LevelPass>,
}

/// The per-axis window minimum of the pass at index `k` (0 is the leaf
/// pass, which uses the world bounds unscaled).
pub open spec fn scaled_min(w: int, k: int) -> int {
    if k == 0 {
        w
    } else {
        w / pow8(k)
    }
}

/// The per-axis window maximum (exclusive) of the pass at index `k`.
pub open spec fn scaled_max(w: int, k: int) -> int {
    if k == 0 {
        w
    } else {
        (w - 1) / pow8(k) + 1
    }
}

/// Workgroups along one axis: the window rounded out to workgroup
/// granularity, divided by the workgroup edge, at least one.
pub open spec fn axis_dispatch(mn: int, mx: int) -> int {
    let bmin = (mn / 8) * 8;
    let bmax = ((mx + 7) / 8) * 8;
    let d = (bmax - bmin) / 8;
    if d >= 1 {
        d
    } else {
        1
    }
}

/// Scaling a window down to a coarser grid keeps it a window: the rounded-up
/// maximum stays at or above the rounded-down minimum, and within the
/// unscaled bound.
pub proof fn lemma_scaled_window(a: int, b: int, s: int)
    requires
        0 <= a <= b,
        1 <= b,
        1 <= s,
    ensures
        a / s <= (b - 1) / s + 1,
        0 <= a / s,
        (b - 1) / s + 1 <= b,
{
    lemma_hoist_over_denominator(b - 1, 1, s as nat);
    lemma_div_is_ordered(a, b - 1 + s, s);
    vstd::arithmetic::div_mod::lemma_div_pos_is_pos(a, s);
    vstd::arithmetic::div_mod::lemma_div_pos_is_pos(b - 1, s);
    lemma_div_is_ordered_by_denominator(b - 1, 1, s);
    lemma_div_basics_1(b - 1);
}

/// What one pass of a frame plan must hold for pass index `k`: the right
/// level, the world window scaled to the level's grid, and the workgroup
/// counts derived from that window.
pub open spec fn pass_ok(p: LevelPass, wmin: UVec3, wmax: UVec3, k: int) -> bool {
    &&& p.depth == VOXEL_TREE_DEPTH - 1 - k
    &&& p.min.x == scaled_min(wmin.x as int, k)
    &&& p.min.y == scaled_min(wmin.y as int, k)
    &&& p.min.z == scaled_min(wmin.z as int, k)
    &&& p.max.x == scaled_max(wmax.x as int, k)
    &&& p.max.y == scaled_max(wmax.y as int, k)
    &&& p.max.z == scaled_max(wmax.z as int, k)
    &&& p.dispatch.x == axis_dispatch(p.min.x as int, p.max.x as int)
    &&& p.dispatch.y == axis_dispatch(p.min.y as int, p.max.y as int)
    &&& p.dispatch.z == axis_dispatch(p.min.z as int, p.max.z as int)
}

impl VoxelDrawNode {
    /// One running frame's dispatch sequence: the clear pass covering every
    /// arena slot, then the leaf pass over the world window, then one node
    /// pass per remaining level up to the root, each handed the previous
    /// pass's dispatch footprint.  A node that is not in its running state
    /// plans nothing.
    #[verifier::rlimit(100)]
    pub fn plan_frame(&self, info: &VoxelGpuSceneInfo, world_min: UVec3, world_max: UVec3) -> (r:
        Option<FramePlan>)
        requires
            info.nodes_cap + info.leafs_cap + WORKGROUP_VOLUME <= u32::MAX,
            1 <= world_max.x <= 0xFFFF_FF00u32,
            1 <= world_max.y <= 0xFFFF_FF00u32,
            1 <= world_max.z <= 0xFFFF_FF00u32,
            world_min.x <= world_max.x,
            world_min.y <= world_max.y,
            world_min.z <= world_max.z,
        ensures
            r is Some <==> self.state == VoxelDrawState::Run,
            r matches Some(plan) ==> {
                &&& plan.clear_dispatch == (info.nodes_cap + info.leafs_cap + (WORKGROUP_VOLUME
                    - 1)) / (WORKGROUP_VOLUME as int)
                &&& plan.passes@.len() == VOXEL_TREE_DEPTH
                &&& forall|k: int|
                    0 <= k < VOXEL_TREE_DEPTH ==> pass_ok(
                        #[trigger] plan.passes@[k],
                        world_min,
                        world_max,
                        k,
                    )
                &&& plan.passes@[0].wsize_children == (UVec3 { x: 0, y: 0, z: 0 })
                &&& forall|k: int|
                    1 <= k < VOXEL_TREE_DEPTH ==> (#[trigger] plan.passes@[k]).wsize_children
                        == plan.passes@[k - 1].dispatch
            },
    {
        match self.state {
            VoxelDrawState::Run => {},
            _ => {
                return None;
            },
        }
        let count = info.nodes_cap + info.leafs_cap;
        let clear_dispatch = (count + (WORKGROUP_VOLUME - 1)) / WORKGROUP_VOLUME;
        let mut passes: Vec<LevelPass> = Vec::new();
        let leaf_pass = LevelPass {
            depth: VOXEL_TREE_DEPTH - 1,
            min: world_min,
            max: world_max,
            wsize_children: UVec3 { x: 0, y: 0, z: 0 },
            dispatch: Self::dispatch_size(world_min, world_max),
        };
        let mut prev = leaf_pass.dispatch;
        passes.push(leaf_pass);
        let mut k: u32 = 1;
        while k < VOXEL_TREE_DEPTH
            invariant
                1 <= k <= VOXEL_TREE_DEPTH,
                passes@.len() == k,
                1 <= world_max.x <= 0xFFFF_FF00u32,
                1 <= world_max.y <= 0xFFFF_FF00u32,
                1 <= world_max.z <= 0xFFFF_FF00u32,
                world_min.x <= world_max.x,
                world_min.y <= world_max.y,
                world_min.z <= world_max.z,
                forall|j: int|
                    0 <= j < k ==> pass_ok(#[trigger] passes@[j], world_min, world_max, j),
                passes@[0].wsize_children == (UVec3 { x: 0, y: 0, z: 0 }),
                forall|j: int|
                    1 <= j < k ==> (#[trigger] passes@[j]).wsize_children == passes@[j
                        - 1].dispatch,
                prev == passes@[k - 1].dispatch,
            decreases VOXEL_TREE_DEPTH - k,
        {
            let scale = pow8_exec(k);
            let mn = UVec3 {
                x: world_min.x / scale,
                y: world_min.y / scale,
                z: world_min.z / scale,
            };
            proof {
                let s = scale as int;
                lemma_scaled_window(world_min.x as int, world_max.x as int, s);
                lemma_scaled_window(world_min.y as int, world_max.y as int, s);
                lemma_scaled_window(world_min.z as int, world_max.z as int, s);
            }
            let mx = UVec3 {
                x: (world_max.x - 1) / scale + 1,
                y: (world_max.y - 1) / scale + 1,
                z: (world_max.z - 1) / scale + 1,
            };
            let pass = LevelPass {
                depth: VOXEL_TREE_DEPTH - 1 - k,
                min: mn,
                max: mx,
                wsize_children: prev,
                dispatch: Self::dispatch_size(mn, mx),
            };
            proof {
                assert(mx.x as int == scaled_max(world_max.x as int, k as int));
                assert(pass_ok(pass, world_min, world_max, k as int));
            }
            prev = pass.dispatch;
            passes.push(pass);
            k = k + 1;
        }
        Some(FramePlan { clear_dispatch, passes })
    }

    /// The workgroup counts covering a voxel window, each axis rounded out
    /// to workgroup granularity and at least one workgroup wide.
    pub fn dispatch_size(mn: UVec3, mx: UVec3) -> (r: UVec3)
        requires
            mx.x <= 0xFFFF_FF00u32,
            mx.y <= 0xFFFF_FF00u32,
            mx.z <= 0xFFFF_FF00u32,
            mn.x <= mx.x,
            mn.y <= mx.y,
            mn.z <= mx.z,
        ensures
            r.x == axis_dispatch(mn.x as int, mx.x as int),
            r.y == axis_dispatch(mn.y as int, mx.y as int),
            r.z == axis_dispatch(mn.z as int, mx.z as int),
    {
        let bminx = (mn.x / 8) * 8;
        let bminy = (mn.y / 8) * 8;
        let bminz = (mn.z / 8) * 8;
        let bmaxx = ((mx.x + 7) / 8) * 8;
        let bmaxy = ((mx.y + 7) / 8) * 8;
        let bmaxz = ((mx.z + 7) / 8) * 8;
        let dx = (bmaxx - bminx) / 8;
        let dy = (bmaxy - bminy) / 8;
        let dz = (bmaxz - bminz) / 8;
        UVec3 {
            x: if dx >= 1 {
                dx
            } else {
                1
            },
            y: if dy >= 1 {
                dy
            } else {
                1
            },
            z: if dz >= 1 {
                dz
            } else {
                1
            },
        }
    }
}

} // verus!
