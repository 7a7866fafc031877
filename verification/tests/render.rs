use voxel_svo::gpu_buffer_allocator::GpuBufferAllocator;
use voxel_svo::math::{IVec3, UVec3};
use voxel_svo::render::{
    CapacityError, FramePlan, GpuVoxelTree, VoxelDrawNode, VoxelDrawState, VoxelGpuScene,
    VoxelGpuSceneInfo,
};
use voxel_svo::voxel_tree::{Voxel, VoxelTree};

#[test]
fn allocator_capacity_invariant() {
    // Exactly `cap` allocations succeed, the next one fails and changes
    // nothing, and slot 0 is never silently reused.
    let mut alloc: GpuBufferAllocator<u32> = GpuBufferAllocator::new(3, None);
    assert_eq!(alloc.allocate(), Ok(0));
    assert_eq!(alloc.allocate(), Ok(1));
    assert_eq!(alloc.allocate(), Ok(2));
    assert!(alloc.allocate().is_err());
    assert!(alloc.allocate().is_err());
    assert_eq!(alloc.length(), 3);
    assert_eq!(alloc.size(), 3);
    assert_eq!(alloc.available(), 0);
}

#[test]
fn allocator_free_list_reuse() {
    let mut alloc: GpuBufferAllocator<u32> = GpuBufferAllocator::new(4, None);
    assert_eq!(alloc.allocate(), Ok(0));
    assert_eq!(alloc.allocate(), Ok(1));
    alloc.free(0);
    assert_eq!(alloc.free_count(), 1);
    assert_eq!(alloc.available(), 3);
    // The reclaimed slot is reused before the bump pointer advances.
    assert_eq!(alloc.allocate(), Ok(0));
    assert_eq!(alloc.allocate(), Ok(2));
    assert_eq!(alloc.free_count(), 0);
}

#[test]
fn allocator_write_queue() {
    let mut alloc: GpuBufferAllocator<u32> = GpuBufferAllocator::new(2, None);
    let a = alloc.allocate().unwrap();
    let b = alloc.allocate().unwrap();
    alloc.write(a, 0xCAFE);
    alloc.write(b, 0xBEEF);
    alloc.write(a, 0xF00D);
    let pending = alloc.take_pending();
    assert_eq!(pending.len(), 3);
    assert_eq!((pending[0].idx, pending[0].data), (0, 0xCAFE));
    assert_eq!((pending[1].idx, pending[1].data), (1, 0xBEEF));
    assert_eq!((pending[2].idx, pending[2].data), (0, 0xF00D));
    assert_eq!(alloc.take_pending().len(), 0);
}

#[test]
fn scene_reserves_root_slot() {
    let scene = VoxelGpuScene::new(100, 200);
    assert_eq!(
        scene.info,
        VoxelGpuSceneInfo {
            nodes_cap: 100,
            nodes_len: 1,
            nodes_free_count: 0,
            leafs_cap: 200,
            leafs_len: 0,
            leafs_free_count: 0,
        }
    );
    assert_eq!(scene.nodes.length(), 0);
    assert_eq!(scene.leafs.length(), 0);
}

#[test]
fn publish_capacity_precondition() {
    // A tree too large for the node arena is rejected before any write is
    // queued, naming the arena and the amounts.
    let mut tree = VoxelTree::new(2);
    tree.set_voxel(IVec3 { x: 0, y: 0, z: 0 }, Voxel { data: 5 });
    assert_eq!(tree.nodes.len(), 2);
    assert_eq!(tree.leafs.len(), 1);

    let mut scene = VoxelGpuScene::new(1, 8);
    let r = GpuVoxelTree::prepare_asset(&tree, &mut scene);
    assert_eq!(r.unwrap_err(), CapacityError::Nodes { required: 2, available: 1 });
    assert_eq!(scene.info.nodes_len, 1);
    assert_eq!(scene.info.leafs_len, 0);
    assert_eq!(scene.nodes.length(), 0);
    assert_eq!(scene.leafs.length(), 0);
    assert_eq!(scene.nodes.take_pending().len(), 0);
    assert_eq!(scene.leafs.take_pending().len(), 0);

    let mut scene = VoxelGpuScene::new(8, 0);
    let r = GpuVoxelTree::prepare_asset(&tree, &mut scene);
    assert_eq!(r.unwrap_err(), CapacityError::Leafs { required: 1, available: 0 });
}

#[test]
fn publish_transfers_whole_tree() {
    let mut tree = VoxelTree::new(2);
    tree.set_voxel(IVec3 { x: 0, y: 0, z: 0 }, Voxel { data: 5 });
    tree.set_voxel(IVec3 { x: 63, y: 63, z: 63 }, Voxel { data: 6 });
    let n = tree.nodes.len();
    let l = tree.leafs.len();

    let mut scene = VoxelGpuScene::new(16, 16);
    let r = GpuVoxelTree::prepare_asset(&tree, &mut scene);
    assert!(r.is_ok());
    assert_eq!(scene.info.nodes_len as usize, n);
    assert_eq!(scene.info.leafs_len as usize, l);
    assert_eq!(scene.nodes.length() as usize, n);
    assert_eq!(scene.leafs.length() as usize, l);

    // Fresh arenas allocate sequentially: CPU arena index i lands in GPU
    // slot i, record for record.
    let node_writes = scene.nodes.take_pending();
    assert_eq!(node_writes.len(), n);
    for (i, w) in node_writes.iter().enumerate() {
        assert_eq!(w.idx as usize, i);
        assert_eq!(w.data.indices, tree.nodes[i].indices);
    }
    let leaf_writes = scene.leafs.take_pending();
    assert_eq!(leaf_writes.len(), l);
    for (i, w) in leaf_writes.iter().enumerate() {
        assert_eq!(w.idx as usize, i);
        assert_eq!(w.data.voxels, tree.leafs[i].voxels);
    }
}

#[test]
fn draw_state_machine_transitions() {
    let mut node = VoxelDrawNode::default();
    assert_eq!(node.state, VoxelDrawState::Loading);
    node.update(false);
    assert_eq!(node.state, VoxelDrawState::Loading);
    node.update(true);
    assert_eq!(node.state, VoxelDrawState::Run);
    node.update(true);
    assert_eq!(node.state, VoxelDrawState::Done);
    node.update(true);
    assert_eq!(node.state, VoxelDrawState::Done);
    // A pipeline going away (hot reload) resets the machine.
    node.update(false);
    assert_eq!(node.state, VoxelDrawState::Loading);
}

#[test]
fn plan_only_while_running() {
    let info = VoxelGpuSceneInfo {
        nodes_cap: 1000,
        nodes_len: 0,
        nodes_free_count: 0,
        leafs_cap: 24,
        leafs_len: 0,
        leafs_free_count: 0,
    };
    let wmin = UVec3 { x: 10, y: 10, z: 10 };
    let wmax = UVec3 { x: 100, y: 100, z: 100 };
    let node = VoxelDrawNode::default();
    assert!(node.plan_frame(&info, wmin, wmax).is_none());
    let node = VoxelDrawNode { state: VoxelDrawState::Done };
    assert!(node.plan_frame(&info, wmin, wmax).is_none());
}

#[test]
fn plan_frame_dispatch_values() {
    let info = VoxelGpuSceneInfo {
        nodes_cap: 1000,
        nodes_len: 0,
        nodes_free_count: 0,
        leafs_cap: 24,
        leafs_len: 0,
        leafs_free_count: 0,
    };
    let wmin = UVec3 { x: 10, y: 10, z: 10 };
    let wmax = UVec3 { x: 100, y: 100, z: 100 };
    let node = VoxelDrawNode { state: VoxelDrawState::Run };
    let plan: FramePlan = node.plan_frame(&info, wmin, wmax).unwrap();

    // ceil((1000 + 24) / 512) workgroups clear the arenas.
    assert_eq!(plan.clear_dispatch, 2);
    assert_eq!(plan.passes.len(), 6);

    // Leaf pass: the raw window, rounded out to [8, 104) per axis.
    let leaf = &plan.passes[0];
    assert_eq!(leaf.depth, 5);
    assert_eq!(leaf.min, UVec3 { x: 10, y: 10, z: 10 });
    assert_eq!(leaf.max, UVec3 { x: 100, y: 100, z: 100 });
    assert_eq!(leaf.wsize_children, UVec3 { x: 0, y: 0, z: 0 });
    assert_eq!(leaf.dispatch, UVec3 { x: 12, y: 12, z: 12 });

    // First node pass: the window divided by 8, footprint of the leaf pass
    // handed forward.
    let pass = &plan.passes[1];
    assert_eq!(pass.depth, 4);
    assert_eq!(pass.min, UVec3 { x: 1, y: 1, z: 1 });
    assert_eq!(pass.max, UVec3 { x: 13, y: 13, z: 13 });
    assert_eq!(pass.wsize_children, UVec3 { x: 12, y: 12, z: 12 });
    assert_eq!(pass.dispatch, UVec3 { x: 2, y: 2, z: 2 });

    let pass = &plan.passes[2];
    assert_eq!(pass.depth, 3);
    assert_eq!(pass.min, UVec3 { x: 0, y: 0, z: 0 });
    assert_eq!(pass.max, UVec3 { x: 2, y: 2, z: 2 });
    assert_eq!(pass.wsize_children, UVec3 { x: 2, y: 2, z: 2 });
    assert_eq!(pass.dispatch, UVec3 { x: 1, y: 1, z: 1 });

    for (k, pass) in plan.passes.iter().enumerate().skip(3) {
        assert_eq!(pass.depth as usize, 5 - k);
        assert_eq!(pass.min, UVec3 { x: 0, y: 0, z: 0 });
        assert_eq!(pass.max, UVec3 { x: 1, y: 1, z: 1 });
        assert_eq!(pass.dispatch, UVec3 { x: 1, y: 1, z: 1 });
        assert_eq!(pass.wsize_children, UVec3 { x: 1, y: 1, z: 1 });
    }
}
