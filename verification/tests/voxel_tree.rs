use voxel_svo::math::{IVec3, UVec3};
use voxel_svo::voxel_tree::{
    idx_to_pos, pos_to_idx, Voxel, VoxelTree, VOXEL_IDX_EMPTY,
};

fn v(data: u32) -> Voxel {
    Voxel { data }
}

fn p(x: i32, y: i32, z: i32) -> IVec3 {
    IVec3 { x, y, z }
}

#[test]
fn unit_cube_scenario() {
    // One voxel at the origin of a depth-2 tree: the root, one child node,
    // and one leaf holding the voxel in slot 0 with every other slot unset.
    let mut tree = VoxelTree::new(2);
    tree.set_voxel(p(0, 0, 0), v(0xAA));
    assert_eq!(tree.nodes.len(), 2);
    assert_eq!(tree.leafs.len(), 1);
    assert_eq!(tree.leafs[0].voxels[0].data, 0xAA);
    for i in 1..512 {
        assert_eq!(tree.leafs[0].voxels[i].data, VOXEL_IDX_EMPTY);
    }
}

#[test]
fn shared_parent_scenario() {
    // A second voxel in the same block reuses the whole path: both values
    // stand in the one leaf.
    let mut tree = VoxelTree::new(2);
    tree.set_voxel(p(0, 0, 0), v(0xAA));
    tree.set_voxel(p(1, 0, 0), v(0xBB));
    assert_eq!(tree.nodes.len(), 2);
    assert_eq!(tree.leafs.len(), 1);
    assert_eq!(tree.leafs[0].voxels[0].data, 0xAA);
    let slot = pos_to_idx(p(1, 0, 0)) as usize;
    assert_eq!(slot, 64);
    assert_eq!(tree.leafs[0].voxels[slot].data, 0xBB);
}

#[test]
fn deep_tree_scenario() {
    // depth 6 covers [0, 8^6): one voxel at the maximum coordinate creates
    // exactly depth path elements (root reused, 5 fresh nodes, 1 leaf), and
    // the bounding box is the single cell at the far corner.
    let max = 8i32.pow(6) - 1;
    let mut tree = VoxelTree::new(6);
    tree.set_voxel(p(max, max, max), v(1));
    assert_eq!(tree.nodes.len(), 6);
    assert_eq!(tree.leafs.len(), 1);
    let bbox = tree.calc_bbox();
    assert_eq!(
        bbox,
        Some((
            UVec3 { x: max as u32, y: max as u32, z: max as u32 },
            UVec3 { x: max as u32 + 1, y: max as u32 + 1, z: max as u32 + 1 },
        ))
    );
}

#[test]
fn out_of_range_is_a_no_op() {
    let mut tree = VoxelTree::new(2);
    tree.set_voxel(p(0, 0, 0), v(7));
    let nodes_before = tree.nodes.len();
    let leafs_before = tree.leafs.len();
    tree.set_voxel(p(-1, 0, 0), v(9));
    tree.set_voxel(p(0, -5, 3), v(9));
    tree.set_voxel(p(64, 0, 0), v(9));
    tree.set_voxel(p(0, 0, 64), v(9));
    tree.set_voxel(p(1000, 1000, 1000), v(9));
    assert_eq!(tree.nodes.len(), nodes_before);
    assert_eq!(tree.leafs.len(), leafs_before);
    assert_eq!(tree.get_voxel(p(0, 0, 0)).data, 7);
    assert_eq!(tree.get_voxel(p(64, 0, 0)).data, VOXEL_IDX_EMPTY);
}

#[test]
fn round_trip_and_frame() {
    // Every written voxel reads back, and writing one position changes no
    // other position's value.
    let mut tree = VoxelTree::new(3);
    let cells = [(0, 0, 0, 10u32), (7, 7, 7, 11), (8, 0, 63, 12), (511, 511, 511, 13), (200, 3, 77, 14)];
    for &(x, y, z, val) in cells.iter() {
        tree.set_voxel(p(x, y, z), v(val));
    }
    for &(x, y, z, val) in cells.iter() {
        assert_eq!(tree.get_voxel(p(x, y, z)).data, val);
    }
    assert_eq!(tree.get_voxel(p(1, 2, 3)).data, VOXEL_IDX_EMPTY);
    tree.set_voxel(p(200, 3, 77), v(99));
    assert_eq!(tree.get_voxel(p(200, 3, 77)).data, 99);
    for &(x, y, z, val) in cells.iter().take(4) {
        assert_eq!(tree.get_voxel(p(x, y, z)).data, val);
    }
}

#[test]
fn idempotent_path_creation() {
    // Rewriting an existing position creates nothing; a position in a new
    // block but under the same parent creates only the one missing leaf.
    let mut tree = VoxelTree::new(3);
    tree.set_voxel(p(0, 0, 0), v(1));
    let nodes_after_first = tree.nodes.len();
    let leafs_after_first = tree.leafs.len();
    assert_eq!(nodes_after_first, 3);
    assert_eq!(leafs_after_first, 1);
    tree.set_voxel(p(0, 0, 0), v(2));
    assert_eq!(tree.nodes.len(), nodes_after_first);
    assert_eq!(tree.leafs.len(), leafs_after_first);
    // (9, 0, 0) shares every node with (0, 0, 0) but sits in another block.
    tree.set_voxel(p(9, 0, 0), v(3));
    assert_eq!(tree.nodes.len(), nodes_after_first);
    assert_eq!(tree.leafs.len(), leafs_after_first + 1);
}

#[test]
fn bbox_exact_and_empty() {
    let mut tree = VoxelTree::new(2);
    assert_eq!(tree.calc_bbox(), None);
    tree.set_voxel(p(2, 3, 7), v(1));
    tree.set_voxel(p(5, 3, 9), v(2));
    tree.set_voxel(p(4, 11, 8), v(3));
    let bbox = tree.calc_bbox();
    assert_eq!(
        bbox,
        Some((UVec3 { x: 2, y: 3, z: 7 }, UVec3 { x: 6, y: 12, z: 10 }))
    );
}

#[test]
fn from_color_packs_channels() {
    let voxel = Voxel::from_color(p(255, 128, 1));
    assert_eq!(voxel.data, 255 + 128 * 0x100 + 1 * 0x10000);
    assert_ne!(voxel.data, VOXEL_IDX_EMPTY);
    assert_eq!(Voxel::from_color(p(0, 0, 0)).data, 0);
    assert_eq!(Voxel::empty().data, VOXEL_IDX_EMPTY);
}

#[test]
fn slot_index_round_trip() {
    assert_eq!(pos_to_idx(p(0, 0, 0)), 0);
    assert_eq!(pos_to_idx(p(1, 0, 0)), 64);
    assert_eq!(pos_to_idx(p(7, 7, 7)), 511);
    assert_eq!(pos_to_idx(p(2, 3, 4)), 2 * 64 + 3 * 8 + 4);
    for idx in 0..512 {
        let pos = idx_to_pos(idx);
        assert_eq!(pos_to_idx(pos), idx);
    }
    let pos = idx_to_pos(200);
    assert_eq!((pos.x, pos.y, pos.z), (3, 1, 0));
}
