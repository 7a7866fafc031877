//! The CPU-side sparse voxel octree: two flat arenas (internal nodes and
//! leaves) addressed by integer index, a fixed depth, and the mutation and
//! query algorithms over them.
//!
//! The tree covers the cube `[0, VOXEL_DIM ^ depth)` on each axis.  A path
//! from the root walks `depth` levels: at level `d` (counting down from
//! `depth` at the root to `1` at a leaf's parent) the child slot for a
//! position `p` is `(p / VOXEL_DIM^d) % VOXEL_DIM` per axis; the step at
//! level `1` selects a leaf, which stores the `VOXEL_DIM³` voxels of one
//! finest-grained block.

use vstd::prelude::*;
use vstd::arithmetic::power::{pow, lemma_pow_positive, lemma_pow_adds, lemma_pow_increases};
use vstd::arithmetic::div_mod::{
    lemma_breakdown, lemma_fundamental_div_mod, lemma_div_pos_is_pos, lemma_mod_mod,
    lemma_mod_multiples_basic, lemma_add_mod_noop, lemma_small_mod, lemma_hoist_over_denominator,
    lemma_mod_multiples_vanish, lemma_div_multiples_vanish_fancy,
};
use vstd::arithmetic::mul::{
    lemma_mul_is_commutative, lemma_mul_inequality, lemma_mul_nonnegative,
    lemma_mul_is_distributive_add_other_way,
};
use crate::math::{IVec3, UVec3};

verus! {

/// Number of children per axis at each tree level.
pub const VOXEL_DIM: u32 = 8;

/// Number of hierarchy levels walked from the root down to a leaf.
pub const VOXEL_TREE_DEPTH: u32 = 6;

/// Total child slots per node and voxel slots per leaf.
pub const VOXEL_COUNT: u32 = 512;

/// Sentinel meaning "no child" in a node slot and "unset" in a voxel slot.
/// It is disjoint from every valid packed color payload.
pub const VOXEL_IDX_EMPTY: u32 = u32::MAX;

/// `VOXEL_DIM ^ e`, the edge length in unit cells of a subtree with `e`
/// levels below it.
pub open spec fn pow8(e: int) -> int {
    pow(8, e as nat)
}

pub proof fn lemma_pow8_pos(e: int)
    ensures
        pow8(e) >= 1,
{
    lemma_pow_positive(8, e as nat);
}

pub proof fn lemma_pow8_unfold(e: int)
    requires
        e >= 1,
    ensures
        pow8(e) == 8 * pow8(e - 1),
{
    reveal(pow);
    assert(pow(8, e as nat) == 8 * pow(8, (e - 1) as nat));
}

pub proof fn lemma_pow8_le(e1: int, e2: int)
    requires
        0 <= e1 <= e2,
    ensures
        pow8(e1) <= pow8(e2),
{
    lemma_pow_increases(8, e1 as nat, e2 as nat);
}

pub proof fn lemma_pow8_ten()
    ensures
        pow8(10) == 0x40000000,
{
    reveal_with_fuel(pow, 11);
}

pub proof fn lemma_pow8_small()
    ensures
        pow8(0) == 1,
        pow8(1) == 8,
        pow8(2) == 64,
{
    reveal_with_fuel(pow, 3);
}

/// Row-major index of a local position within a node's or leaf's slot array.
pub open spec fn spec_slot_index(x: int, y: int, z: int) -> int {
    x * 64 + y * 8 + z
}

/// A position with its low `lam + 1` base-`VOXEL_DIM` digits cleared: the
/// origin of the level-`lam` subtree cube the position falls in.
pub open spec fn prefix_base(p: int, lam: int) -> int {
    p - p % pow8(lam + 1)
}

/// Clearing `lam + 1` digits and then restoring the level-`lam` digit clears
/// exactly `lam` digits.
pub proof fn lemma_strip_level(p: int, lam: int)
    requires
        p >= 0,
        lam >= 0,
    ensures
        prefix_base(p, lam) + ((p / pow8(lam)) % 8) * pow8(lam) == p - p % pow8(lam),
{
    let m = pow8(lam);
    lemma_pow8_pos(lam);
    lemma_pow8_unfold(lam + 1);
    lemma_breakdown(p, m, 8);
    assert(m * 8 == pow8(lam + 1));
    lemma_mul_is_commutative(m, (p / m) % 8);
}

/// A subtree origin is aligned to the subtree edge length, one level down.
pub proof fn lemma_aligned_down(x: int, lam: int)
    requires
        lam >= 0,
        x % pow8(lam + 1) == 0,
    ensures
        x % pow8(lam) == 0,
{
    let m = pow8(lam);
    lemma_pow8_pos(lam);
    lemma_pow8_unfold(lam + 1);
    lemma_mod_mod(x, m, 8);
    assert(m * 8 == pow8(lam + 1));
}

/// The origin of a prefix cube is aligned and non-negative.
pub proof fn lemma_prefix_aligned(p: int, lam: int)
    requires
        p >= 0,
        lam >= 0,
    ensures
        prefix_base(p, lam) % pow8(lam + 1) == 0,
        0 <= prefix_base(p, lam) <= p,
{
    let m = pow8(lam + 1);
    lemma_pow8_pos(lam + 1);
    lemma_fundamental_div_mod(p, m);
    lemma_div_pos_is_pos(p, m);
    assert(prefix_base(p, lam) == m * (p / m));
    lemma_mod_multiples_basic(p / m, m);
    lemma_mul_is_commutative(m, p / m);
}

/// The level-`lam` block around an in-range position lies wholly inside the
/// covered cube.
pub proof fn lemma_block_bound(p: int, lam: int, e: int)
    requires
        0 <= p < pow8(e),
        0 <= lam <= e,
    ensures
        p - p % pow8(lam) + pow8(lam) <= pow8(e),
{
    let m = pow8(lam);
    let kk = pow8(e - lam);
    lemma_pow8_pos(lam);
    lemma_pow8_pos(e - lam);
    lemma_pow_adds(8, lam as nat, (e - lam) as nat);
    assert(pow8(e) == m * kk);
    lemma_fundamental_div_mod(p, m);
    lemma_div_pos_is_pos(p, m);
    let q = p / m;
    assert(q < kk) by {
        if q >= kk {
            lemma_mul_inequality(kk, q, m);
            lemma_mul_is_commutative(kk, m);
            lemma_mul_is_commutative(q, m);
        }
    }
    lemma_mul_inequality(q + 1, kk, m);
    lemma_mul_is_distributive_add_other_way(m, q, 1);
    lemma_mul_is_commutative(q + 1, m);
    lemma_mul_is_commutative(kk, m);
    lemma_mul_is_commutative(q, m);
}

/// The slot selected at walk level `lam` by an (absolute, non-negative)
/// position.
pub open spec fn path_slot(lam: int, px: int, py: int, pz: int) -> int {
    spec_slot_index((px / pow8(lam)) % 8, (py / pow8(lam)) % 8, (pz / pow8(lam)) % 8)
}

/// The slot of a position's voxel within its leaf block.
pub open spec fn voxel_slot(px: int, py: int, pz: int) -> int {
    spec_slot_index(px % 8, py % 8, pz % 8)
}

/// The scalar payload stored per unit cell: a packed color word, or the
/// empty sentinel.
#[derive(Clone, Copy, Debug, PartialEq, Eq, Structural)]
pub struct Voxel {
    pub data: u32,
}

impl Voxel {
    /// The unset cell.
    pub fn empty() -> (r: Voxel)
        ensures
            r.data == VOXEL_IDX_EMPTY,
    {
        Voxel { data: VOXEL_IDX_EMPTY }
    }

    /// Packs an RGB color (each channel in `[0, 256)`) into a voxel payload,
    /// with the payload byte zero.  The result is never the empty sentinel.
    pub fn from_color(color: IVec3) -> (r: Voxel)
        requires
            0 <= color.x < 256,
            0 <= color.y < 256,
            0 <= color.z < 256,
        ensures
            r.data == color.x + color.y * 0x100 + color.z * 0x10000,
            r.data != VOXEL_IDX_EMPTY,
    {
        let x = color.x as u32;
        let y = color.y as u32;
        let z = color.z as u32;
        assert(((z << 16u32) | (y << 8u32) | x) == x + y * 0x100 + z * 0x10000
            && ((z << 16u32) | (y << 8u32) | x) < 0x1000000) by (bit_vector)
            requires
                x < 256 && y < 256 && z < 256,
        ;
        let data = (z << 16u32) | (y << 8u32) | x;
        Voxel { data }
    }
}

/// A block of `VOXEL_COUNT` voxels: the tree's terminal node, covering
/// `VOXEL_DIM` unit cells per axis.
#[derive(Clone, Debug)]
pub struct VoxelLeaf {
    pub voxels: Vec<Voxel>,
}

impl Default for VoxelLeaf {
    /// A leaf with every voxel slot at the empty sentinel.
    fn default() -> (r: VoxelLeaf)
        ensures
            r.voxels@.len() == VOXEL_COUNT,
            forall|i: int| 0 <= i < VOXEL_COUNT ==> r.voxels@[i].data == VOXEL_IDX_EMPTY,
    {
        let v = vec![Voxel { data: VOXEL_IDX_EMPTY }; 512];
        VoxelLeaf { voxels: v }
    }
}

/// A block of `VOXEL_COUNT` child indices: the tree's internal node.  Each
/// slot is either the empty sentinel or an index into the node arena (when
/// this node's children are nodes) or the leaf arena (when this node is a
/// leaf's parent).
#[derive(Clone, Debug)]
pub struct VoxelNode {
    pub indices: Vec<u32>,
}

impl Default for VoxelNode {
    /// A node with every child slot at the empty sentinel.
    fn default() -> (r: VoxelNode)
        ensures
            r.indices@.len() == VOXEL_COUNT,
            forall|i: int| 0 <= i < VOXEL_COUNT ==> r.indices@[i] == VOXEL_IDX_EMPTY,
    {
        let v = vec![VOXEL_IDX_EMPTY; 512];
        VoxelNode { indices: v }
    }
}

/// Row-major index of a local position (each component in `[0, VOXEL_DIM)`)
/// within a node's or leaf's slot array.
pub fn pos_to_idx(ipos: IVec3) -> (r: i32)
    requires
        0 <= ipos.x < 8,
        0 <= ipos.y < 8,
        0 <= ipos.z < 8,
    ensures
        r == spec_slot_index(ipos.x as int, ipos.y as int, ipos.z as int),
        0 <= r < 512,
{
    ipos.x * 64 + ipos.y * 8 + ipos.z
}

/// Inverse of `pos_to_idx`: the local position of a slot index.
pub fn idx_to_pos(idx: i32) -> (r: IVec3)
    requires
        0 <= idx < 512,
    ensures
        r.x == idx / 64 && r.y == (idx / 8) % 8 && r.z == idx % 8,
        0 <= r.x < 8 && 0 <= r.y < 8 && 0 <= r.z < 8,
        spec_slot_index(r.x as int, r.y as int, r.z as int) == idx,
{
    let r = IVec3 { x: idx / 64, y: (idx / 8) % 8, z: idx % 8 };
    assert(r.x * 64 + r.y * 8 + r.z == idx);
    r
}

/// Ghost record of where a node stands in the hierarchy: the walk level of
/// its out-edges and the origin of the cube it covers.
pub ghost struct NodeMeta {
    pub lam: int,
    pub bx: int,
    pub by: int,
    pub bz: int,
}

/// Ghost record of the origin of the block a leaf covers.
pub ghost struct LeafBase {
    pub bx: int,
    pub by: int,
    pub bz: int,
}

/// The sparse voxel octree: append-only arenas of nodes and leaves, a root
/// at node index 0, and a fixed depth.
///
/// The two `Ghost` fields carry the placement of every node and leaf in the
/// hierarchy; they are proof-only bookkeeping that pins each arena entry to
/// a single parent slot, which is what makes the arena a strict hierarchy.
pub struct VoxelTree {
    pub depth: u8,
    pub leafs: Vec<VoxelLeaf>,
    pub nodes: Vec<VoxelNode>,
    pub node_meta: Ghost<Map<int, NodeMeta>>,
    pub leaf_base: Ghost<Map<int, LeafBase>>,
}

impl VoxelTree {
    /// Edge length of the cube of positions this tree covers.
    pub open spec fn extent(self) -> int {
        pow8(self.depth as int)
    }

    /// Whether a position lies inside the covered cube.
    pub open spec fn in_range(self, px: int, py: int, pz: int) -> bool {
        &&& 0 <= px < self.extent()
        &&& 0 <= py < self.extent()
        &&& 0 <= pz < self.extent()
    }

    /// The index of the leaf a position's walk reaches, or `-1` where the
    /// walk meets an empty slot.  `lam` is the walk level of `n`'s out-edges.
    pub open spec fn leaf_hit(self, n: int, lam: int, px: int, py: int, pz: int) -> int
        decreases lam,
    {
        if lam < 1 {
            -1
        } else {
            let s = path_slot(lam, px, py, pz);
            let c = self.nodes@[n].indices@[s];
            if c == VOXEL_IDX_EMPTY {
                -1
            } else if lam == 1 {
                c as int
            } else {
                self.leaf_hit(c as int, lam - 1, px, py, pz)
            }
        }
    }

    /// The payload the walk from node `n` finds for a position: the voxel
    /// value where a leaf is reached, the empty sentinel otherwise.
    pub open spec fn sub_lookup(self, n: int, lam: int, px: int, py: int, pz: int) -> u32 {
        let li = self.leaf_hit(n, lam, px, py, pz);
        if li < 0 {
            VOXEL_IDX_EMPTY
        } else {
            self.leafs@[li].voxels@[voxel_slot(px, py, pz)].data
        }
    }

    /// The payload stored for a position, walking from the root.
    pub open spec fn lookup(self, px: int, py: int, pz: int) -> u32 {
        self.sub_lookup(0, self.depth as int, px, py, pz)
    }

    /// Whether a position holds a set voxel.
    pub open spec fn occupied(self, px: int, py: int, pz: int) -> bool {
        &&& self.in_range(px, py, pz)
        &&& self.lookup(px, py, pz) != VOXEL_IDX_EMPTY
    }

    /// Whether a subtree-relative position holds a set voxel below node `n`.
    pub open spec fn sub_occupied(self, n: int, lam: int, qx: int, qy: int, qz: int) -> bool {
        &&& 0 <= qx < pow8(lam + 1)
        &&& 0 <= qy < pow8(lam + 1)
        &&& 0 <= qz < pow8(lam + 1)
        &&& self.sub_lookup(n, lam, qx, qy, qz) != VOXEL_IDX_EMPTY
    }

    /// The claims attached to one non-empty child slot `s` of a node that
    /// stands at level `lam` with origin `b`: the child index is in bounds,
    /// the child's cube lies inside the covered region, and the ghost
    /// placement records agree with the position the slot implies.
    pub open spec fn child_entry_ok(
        self,
        n: int,
        lam: int,
        bx: int,
        by: int,
        bz: int,
        s: int,
    ) -> bool {
        let c = self.nodes@[n].indices@[s] as int;
        let cbx = bx + (s / 64) * pow8(lam);
        let cby = by + ((s / 8) % 8) * pow8(lam);
        let cbz = bz + (s % 8) * pow8(lam);
        &&& cbx + pow8(lam) <= self.extent()
        &&& cby + pow8(lam) <= self.extent()
        &&& cbz + pow8(lam) <= self.extent()
        &&& if lam == 1 {
            &&& 0 <= c < self.leafs@.len()
            &&& self.leaf_base@.contains_key(c)
            &&& self.leaf_base@[c] == (LeafBase { bx: cbx, by: cby, bz: cbz })
        } else {
            &&& 0 <= c < self.nodes@.len()
            &&& self.node_meta@.contains_key(c)
            &&& self.node_meta@[c] == (NodeMeta { lam: lam - 1, bx: cbx, by: cby, bz: cbz })
        }
    }

    /// Well-formedness of the subtree under node `n`, standing at level
    /// `lam` with origin `b`.
    pub open spec fn wf_sub(self, n: int, lam: int, bx: int, by: int, bz: int) -> bool
        decreases lam,
    {
        &&& 0 <= n < self.nodes@.len()
        &&& 1 <= lam
        &&& 0 <= bx && 0 <= by && 0 <= bz
        &&& bx % pow8(lam + 1) == 0
        &&& by % pow8(lam + 1) == 0
        &&& bz % pow8(lam + 1) == 0
        &&& forall|s: int|
            0 <= s < 512 && #[trigger] self.nodes@[n].indices@[s] != VOXEL_IDX_EMPTY ==> {
                &&& self.child_entry_ok(n, lam, bx, by, bz, s)
                &&& (lam > 1 ==> self.wf_sub(
                    self.nodes@[n].indices@[s] as int,
                    lam - 1,
                    bx + (s / 64) * pow8(lam),
                    by + ((s / 8) % 8) * pow8(lam),
                    bz + (s % 8) * pow8(lam),
                ))
            }
    }

    /// Every arena entry is a full slot array.
    pub open spec fn arrays_wf(self) -> bool {
        &&& forall|i: int|
            0 <= i < self.nodes@.len() ==> (#[trigger] self.nodes@[i].indices@).len() == 512
        &&& forall|i: int|
            0 <= i < self.leafs@.len() ==> (#[trigger] self.leafs@[i].voxels@).len() == 512
    }

    /// The tree invariant: arenas well-sized, indices always representable,
    /// the root recorded at the top of the hierarchy, and the whole
    /// reachable hierarchy well-formed.
    pub open spec fn wf(self) -> bool {
        &&& 1 <= self.depth <= 10
        &&& 1 <= self.nodes@.len()
        &&& self.nodes@.len() < VOXEL_IDX_EMPTY
        &&& self.leafs@.len() < VOXEL_IDX_EMPTY
        &&& self.arrays_wf()
        &&& self.node_meta@.contains_key(0)
        &&& self.node_meta@[0] == (NodeMeta { lam: self.depth as int, bx: 0, by: 0, bz: 0 })
        &&& self.wf_sub(0, self.depth as int, 0, 0, 0)
    }

    /// Returns the node-arena index of the child of `parent_idx` at the
    /// local position `pos`, appending a fresh empty node (and recording it
    /// in the parent's slot) where the slot is currently empty.  Idempotent:
    /// an occupied slot is returned as it stands and nothing changes.
    pub fn set_or_create_node(&mut self, parent_idx: u32, pos: IVec3) -> (res: u32)
        requires
            old(self).arrays_wf(),
            parent_idx < old(self).nodes@.len(),
            old(self).nodes@.len() < VOXEL_IDX_EMPTY,
            0 <= pos.x < 8,
            0 <= pos.y < 8,
            0 <= pos.z < 8,
        ensures
            final(self).arrays_wf(),
            ({
                let s = spec_slot_index(pos.x as int, pos.y as int, pos.z as int);
                let c = old(self).nodes@[parent_idx as int].indices@[s];
                if c != VOXEL_IDX_EMPTY {
                    res == c && *final(self) == *old(self)
                } else {
                    &&& res == old(self).nodes@.len()
                    &&& final(self).nodes@.len() == old(self).nodes@.len() + 1
                    &&& final(self).nodes@[parent_idx as int].indices@
                        == old(self).nodes@[parent_idx as int].indices@.update(s, res)
                    &&& forall|i: int|
                        0 <= i < old(self).nodes@.len() && i != parent_idx ==> final(self).nodes@[i]
                            == old(self).nodes@[i]
                    &&& forall|j: int|
                        0 <= j < 512 ==> final(self).nodes@[old(self).nodes@.len() as int].indices@[j]
                            == VOXEL_IDX_EMPTY
                    &&& final(self).leafs == old(self).leafs
                    &&& final(self).depth == old(self).depth
                    &&& final(self).node_meta == old(self).node_meta
                    &&& final(self).leaf_base == old(self).leaf_base
                }
            }),
    {
        let nodes_len = self.nodes.len();
        let idx = pos_to_idx(pos) as usize;
        let cur = self.nodes[parent_idx as usize].indices[idx];
        if cur != VOXEL_IDX_EMPTY {
            cur
        } else {
            let res = nodes_len as u32;
            self.nodes[parent_idx as usize].indices[idx] = res;
            self.nodes.push(VoxelNode::default());
            res
        }
    }

    /// Returns the leaf-arena index of the child of `parent_idx` at the
    /// local position `pos`, appending a fresh empty leaf (and recording it
    /// in the parent's slot) where the slot is currently empty.  Idempotent
    /// in the same way as `set_or_create_node`.
    pub fn set_or_create_leaf(&mut self, parent_idx: u32, pos: IVec3) -> (res: u32)
        requires
            old(self).arrays_wf(),
            parent_idx < old(self).nodes@.len(),
            old(self).leafs@.len() < VOXEL_IDX_EMPTY,
            0 <= pos.x < 8,
            0 <= pos.y < 8,
            0 <= pos.z < 8,
        ensures
            final(self).arrays_wf(),
            ({
                let s = spec_slot_index(pos.x as int, pos.y as int, pos.z as int);
                let c = old(self).nodes@[parent_idx as int].indices@[s];
                if c != VOXEL_IDX_EMPTY {
                    res == c && *final(self) == *old(self)
                } else {
                    &&& res == old(self).leafs@.len()
                    &&& final(self).leafs@.len() == old(self).leafs@.len() + 1
                    &&& final(self).nodes@[parent_idx as int].indices@
                        == old(self).nodes@[parent_idx as int].indices@.update(s, res)
                    &&& forall|i: int|
                        0 <= i < old(self).nodes@.len() && i != parent_idx ==> final(self).nodes@[i]
                            == old(self).nodes@[i]
                    &&& final(self).nodes@.len() == old(self).nodes@.len()
                    &&& forall|i: int|
                        0 <= i < old(self).leafs@.len() ==> final(self).leafs@[i] == old(self).leafs@[i]
                    &&& forall|j: int|
                        0 <= j < 512 ==> final(self).leafs@[old(self).leafs@.len() as int].voxels@[j].data
                            == VOXEL_IDX_EMPTY
                    &&& final(self).depth == old(self).depth
                    &&& final(self).node_meta == old(self).node_meta
                    &&& final(self).leaf_base == old(self).leaf_base
                }
            }),
    {
        let idx = pos_to_idx(pos) as usize;
        let cur = self.nodes[parent_idx as usize].indices[idx];
        if cur != VOXEL_IDX_EMPTY {
            cur
        } else {
            let res = self.leafs.len() as u32;
            self.nodes[parent_idx as usize].indices[idx] = res;
            self.leafs.push(VoxelLeaf::default());
            res
        }
    }

    /// Stores `voxel` at `pos`, lazily materializing the node/leaf chain
    /// along the path from the root.  A position outside the covered cube
    /// leaves the tree untouched.  Exactly the missing path elements are
    /// created: repeated calls on positions that share a path prefix reuse
    /// the nodes and leaves that already stand.
    /// Stores `voxel` at `pos`, lazily materializing the node/leaf chain
    /// along the path from the root.  A position outside the covered cube
    /// leaves the tree untouched.  Exactly the missing path elements are
    /// created: repeated calls on positions that share a path prefix reuse
    /// the nodes and leaves that already stand.
    #[verifier::rlimit(100)]
    pub fn set_voxel(&mut self, pos: IVec3, voxel: Voxel)
        requires
            old(self).wf(),
            old(self).nodes@.len() + old(self).depth < VOXEL_IDX_EMPTY,
            old(self).leafs@.len() + 1 < VOXEL_IDX_EMPTY,
        ensures
            final(self).wf(),
            final(self).depth == old(self).depth,
            !old(self).in_range(pos.x as int, pos.y as int, pos.z as int) ==> *final(self)
                == *old(self),
            old(self).in_range(pos.x as int, pos.y as int, pos.z as int) ==> {
                &&& final(self).lookup(pos.x as int, pos.y as int, pos.z as int) == voxel.data
                &&& forall|qx: int, qy: int, qz: int|
                    #[trigger] old(self).in_range(qx, qy, qz) && !(qx == pos.x as int && qy
                        == pos.y as int && qz == pos.z as int) ==> final(self).lookup(qx, qy, qz)
                        == old(self).lookup(qx, qy, qz)
                &&& final(self).nodes@.len() == old(self).nodes@.len() + old(self).missing_nodes(
                    0,
                    old(self).depth as int,
                    pos.x as int,
                    pos.y as int,
                    pos.z as int,
                )
                &&& final(self).leafs@.len() == old(self).leafs@.len() + old(self).missing_leaf(
                    0,
                    old(self).depth as int,
                    pos.x as int,
                    pos.y as int,
                    pos.z as int,
                )
            },
    {
        let depth = self.depth;
        let max_u = pow8_exec(depth as u32);
        let max = max_u as i32;
        if pos.x < 0 || pos.x >= max {
            return ;
        }
        if pos.y < 0 || pos.y >= max {
            return ;
        }
        if pos.z < 0 || pos.z >= max {
            return ;
        }
        let px = pos.x as u32;
        let py = pos.y as u32;
        let pz = pos.z as u32;
        let ghost t0 = *self;
        let ghost gx = pos.x as int;
        let ghost gy = pos.y as int;
        let ghost gz = pos.z as int;
        proof {
            lemma_pow8_unfold(depth as int + 1);
            lemma_pow8_pos(depth as int);
            lemma_small_mod(gx as nat, pow8(depth as int + 1) as nat);
            lemma_small_mod(gy as nat, pow8(depth as int + 1) as nat);
            lemma_small_mod(gz as nat, pow8(depth as int + 1) as nat);
            assert(prefix_base(gx, depth as int) == 0);
            lemma_missing_bounds(t0, 0, depth as int, gx, gy, gz);
            assert(descent_inv(t0, *self, 0, depth as int, seq![0int], gx, gy, gz));
        }
        let mut parent_idx: u32 = 0;
        let mut d: u8 = depth;
        let ghost mut path: Seq<int> = seq![0int];
        while d >= 2
            invariant
                t0 == *old(self),
                t0.depth == depth,
                1 <= d <= depth,
                depth <= 10,
                gx == px as int && gy == py as int && gz == pz as int,
                t0.nodes@.len() + depth < VOXEL_IDX_EMPTY,
                t0.leafs@.len() + 1 < VOXEL_IDX_EMPTY,
                descent_inv(t0, *self, parent_idx as int, d as int, path, gx, gy, gz),
                self.nodes@.len() - t0.nodes@.len() + self.missing_nodes(
                    parent_idx as int,
                    d as int,
                    gx,
                    gy,
                    gz,
                ) == t0.missing_nodes(0, depth as int, gx, gy, gz),
                self.leafs@.len() - t0.leafs@.len() + self.missing_leaf(
                    parent_idx as int,
                    d as int,
                    gx,
                    gy,
                    gz,
                ) == t0.missing_leaf(0, depth as int, gx, gy, gz),
                t0.missing_nodes(0, depth as int, gx, gy, gz) <= depth - 1,
                0 <= t0.missing_leaf(0, depth as int, gx, gy, gz) <= 1,
                self.nodes@.len() >= t0.nodes@.len(),
                self.leafs@.len() == t0.leafs@.len(),
            decreases d,
        {
            let stride = pow8_exec(d as u32);
            let lx = (px / stride) % 8;
            let ly = (py / stride) % 8;
            let lz = (pz / stride) % 8;
            let local = IVec3 { x: lx as i32, y: ly as i32, z: lz as i32 };
            let pre_len = self.nodes.len();
            let ghost pre = *self;
            let ghost smut = path_slot(d as int, gx, gy, gz);
            proof {
                assert(lx as int == (gx / pow8(d as int)) % 8);
                assert(spec_slot_index(local.x as int, local.y as int, local.z as int) == smut);
            }
            let child = self.set_or_create_node(parent_idx, local);
            if child as usize == pre_len {
                self.node_meta = Ghost(
                    self.node_meta@.insert(
                        child as int,
                        NodeMeta {
                            lam: d as int - 1,
                            bx: prefix_base(gx, d as int - 1),
                            by: prefix_base(gy, d as int - 1),
                            bz: prefix_base(gz, d as int - 1),
                        },
                    ),
                );
                proof {
                    // An occupied slot would have held an index below the old
                    // arena length, so the slot was empty.
                    assert(pre.nodes@[parent_idx as int].indices@[smut] == VOXEL_IDX_EMPTY) by {
                        if pre.nodes@[parent_idx as int].indices@[smut] != VOXEL_IDX_EMPTY {
                            assert(pre.child_entry_ok(
                                parent_idx as int,
                                d as int,
                                prefix_base(gx, d as int),
                                prefix_base(gy, d as int),
                                prefix_base(gz, d as int),
                                smut,
                            ));
                        }
                    }
                    lemma_missing_bounds(pre, parent_idx as int, d as int, gx, gy, gz);
                    assert(self.nodes@.len() < VOXEL_IDX_EMPTY);
                    lemma_node_step_fresh(
                        t0,
                        pre,
                        *self,
                        parent_idx as int,
                        d as int,
                        path,
                        gx,
                        gy,
                        gz,
                    );
                    path = path.push(child as int);
                }
            } else {
                proof {
                    assert(pre.nodes@[parent_idx as int].indices@[smut] != VOXEL_IDX_EMPTY) by {
                        if pre.nodes@[parent_idx as int].indices@[smut] == VOXEL_IDX_EMPTY {
                            assert(child == pre.nodes@.len());
                        }
                    }
                    assert(*self == pre);
                    lemma_node_step_existing(
                        t0,
                        *self,
                        parent_idx as int,
                        d as int,
                        path,
                        gx,
                        gy,
                        gz,
                    );
                    path = path.push(child as int);
                }
            }
            parent_idx = child;
            d = d - 1;
        }
        // d == 1: materialize the leaf and write the voxel into its slot.
        let lx = (px / 8) % 8;
        let ly = (py / 8) % 8;
        let lz = (pz / 8) % 8;
        let local = IVec3 { x: lx as i32, y: ly as i32, z: lz as i32 };
        let pre_leafs = self.leafs.len();
        let ghost pre = *self;
        let ghost smut = path_slot(1, gx, gy, gz);
        proof {
            assert(pow8(1) == 8 && pow8(0) == 1) by {
                lemma_pow8_unfold(1);
                reveal_with_fuel(pow, 1);
            }
            assert(lx as int == (gx / pow8(1)) % 8);
            assert(spec_slot_index(local.x as int, local.y as int, local.z as int) == smut);
        }
        let li = self.set_or_create_leaf(parent_idx, local);
        let ghost lbv = LeafBase { bx: gx - gx % 8, by: gy - gy % 8, bz: gz - gz % 8 };
        if li as usize == pre_leafs {
            self.leaf_base = Ghost(self.leaf_base@.insert(li as int, lbv));
            proof {
                assert(pre.nodes@[parent_idx as int].indices@[smut] == VOXEL_IDX_EMPTY) by {
                    if pre.nodes@[parent_idx as int].indices@[smut] != VOXEL_IDX_EMPTY {
                        assert(pre.child_entry_ok(
                            parent_idx as int,
                            1,
                            prefix_base(gx, 1),
                            prefix_base(gy, 1),
                            prefix_base(gz, 1),
                            smut,
                        ));
                    }
                }
                assert(self.leafs@.len() < VOXEL_IDX_EMPTY);
                lemma_leaf_step_fresh(t0, pre, *self, parent_idx as int, path, gx, gy, gz);
            }
        } else {
            proof {
                assert(pre.nodes@[parent_idx as int].indices@[smut] != VOXEL_IDX_EMPTY) by {
                    if pre.nodes@[parent_idx as int].indices@[smut] == VOXEL_IDX_EMPTY {
                        assert(li == pre.leafs@.len());
                    }
                }
                assert(*self == pre);
                lemma_leaf_step_existing(t0, *self, parent_idx as int, path, gx, gy, gz);
            }
        }
        proof {
            assert(self.leaf_hit(0, depth as int, gx, gy, gz) == li as int);
            assert(self.nodes@.len() == t0.nodes@.len() + t0.missing_nodes(
                0,
                depth as int,
                gx,
                gy,
                gz,
            ));
            assert(self.leafs@.len() == t0.leafs@.len() + t0.missing_leaf(
                0,
                depth as int,
                gx,
                gy,
                gz,
            ));
        }
        let vx = px % 8;
        let vy = py % 8;
        let vz = pz % 8;
        let k = (vx * 64 + vy * 8 + vz) as usize;
        let ghost pre2 = *self;
        self.leafs[li as usize].voxels[k] = voxel;
        proof {
            assert(k as int == voxel_slot(gx, gy, gz));
            lemma_voxel_write(
                t0,
                pre2,
                *self,
                li as int,
                k as int,
                voxel,
                gx,
                gy,
                gz,
            );
        }
    }

    /// Reads the voxel stored at `pos`: the written payload where one was
    /// set, the empty sentinel for unset or out-of-range positions.
    #[verifier::rlimit(100)]
    pub fn get_voxel(&self, pos: IVec3) -> (r: Voxel)
        requires
            self.wf(),
        ensures
            self.in_range(pos.x as int, pos.y as int, pos.z as int) ==> r.data == self.lookup(
                pos.x as int,
                pos.y as int,
                pos.z as int,
            ),
            !self.in_range(pos.x as int, pos.y as int, pos.z as int) ==> r.data
                == VOXEL_IDX_EMPTY,
    {
        let depth = self.depth;
        let max = pow8_exec(depth as u32) as i32;
        if pos.x < 0 || pos.x >= max || pos.y < 0 || pos.y >= max || pos.z < 0 || pos.z >= max {
            return Voxel::empty();
        }
        let px = pos.x as u32;
        let py = pos.y as u32;
        let pz = pos.z as u32;
        let ghost gx = pos.x as int;
        let ghost gy = pos.y as int;
        let ghost gz = pos.z as int;
        proof {
            lemma_pow8_unfold(depth as int + 1);
            lemma_pow8_pos(depth as int);
            lemma_small_mod(gx as nat, pow8(depth as int + 1) as nat);
            lemma_small_mod(gy as nat, pow8(depth as int + 1) as nat);
            lemma_small_mod(gz as nat, pow8(depth as int + 1) as nat);
            assert(prefix_base(gx, depth as int) == 0);
        }
        let mut cur: u32 = 0;
        let mut d: u8 = depth;
        while d >= 2
            invariant
                self.wf(),
                self.depth == depth,
                1 <= d <= depth,
                depth <= 10,
                self.in_range(gx, gy, gz),
                gx == px as int && gy == py as int && gz == pz as int,
                gx == pos.x as int && gy == pos.y as int && gz == pos.z as int,
                cur < self.nodes@.len(),
                self.leaf_hit(0, depth as int, gx, gy, gz) == self.leaf_hit(
                    cur as int,
                    d as int,
                    gx,
                    gy,
                    gz,
                ),
                self.wf_sub(
                    cur as int,
                    d as int,
                    prefix_base(gx, d as int),
                    prefix_base(gy, d as int),
                    prefix_base(gz, d as int),
                ),
            decreases d,
        {
            let stride = pow8_exec(d as u32);
            let lx = (px / stride) % 8;
            let ly = (py / stride) % 8;
            let lz = (pz / stride) % 8;
            let idx = (lx * 64 + ly * 8 + lz) as usize;
            let ghost smut = path_slot(d as int, gx, gy, gz);
            proof {
                assert(lx as int == (gx / pow8(d as int)) % 8);
                assert(idx as int == smut);
                assert(0 <= smut < 512);
            }
            let c = self.nodes[cur as usize].indices[idx];
            if c == VOXEL_IDX_EMPTY {
                proof {
                    assert(self.leaf_hit(cur as int, d as int, gx, gy, gz) == -1);
                }
                return Voxel::empty();
            }
            proof {
                lemma_descend_step(*self, cur as int, d as int, gx, gy, gz);
            }
            cur = c;
            d = d - 1;
        }
        // d == 1: the current node's slot selects the leaf, if any.
        let lx = (px / 8) % 8;
        let ly = (py / 8) % 8;
        let lz = (pz / 8) % 8;
        let idx = (lx * 64 + ly * 8 + lz) as usize;
        let ghost smut = path_slot(1, gx, gy, gz);
        proof {
            assert(pow8(1) == 8 && pow8(0) == 1) by {
                lemma_pow8_unfold(1);
                reveal_with_fuel(pow, 1);
            }
            assert(lx as int == (gx / pow8(1)) % 8);
            assert(idx as int == smut);
            assert(0 <= smut < 512);
        }
        let li = self.nodes[cur as usize].indices[idx];
        if li == VOXEL_IDX_EMPTY {
            proof {
                assert(self.leaf_hit(cur as int, 1, gx, gy, gz) == -1);
            }
            return Voxel::empty();
        }
        proof {
            assert(self.child_entry_ok(
                cur as int,
                1,
                prefix_base(gx, 1),
                prefix_base(gy, 1),
                prefix_base(gz, 1),
                smut,
            ));
            assert(self.leaf_hit(cur as int, 1, gx, gy, gz) == li as int);
        }
        let vx = px % 8;
        let vy = py % 8;
        let vz = pz % 8;
        let k = (vx * 64 + vy * 8 + vz) as usize;
        proof {
            assert(k as int == voxel_slot(gx, gy, gz));
            assert(0 <= voxel_slot(gx, gy, gz) < 512);
        }
        let v = self.leafs[li as usize].voxels[k];
        v
    }

    /// The tight axis-aligned bounding box of the set voxels of one leaf, in
    /// the leaf's local grid: minimum inclusive, maximum exclusive.  `None`
    /// for the empty-sentinel index and for a leaf with no set voxel.
    #[verifier::rlimit(100)]
    pub fn calc_bbox_leaf(&self, leaf_idx: u32) -> (r: Option<(IVec3, IVec3)>)
        requires
            leaf_idx != VOXEL_IDX_EMPTY ==> leaf_idx < self.leafs@.len()
                && self.leafs@[leaf_idx as int].voxels@.len() == 512,
        ensures
            leaf_idx == VOXEL_IDX_EMPTY ==> r is None,
            leaf_idx != VOXEL_IDX_EMPTY ==> ({
                let lv = self.leafs@[leaf_idx as int].voxels@;
                match r {
                    None => forall|s: int| 0 <= s < 512 ==> lv[s].data == VOXEL_IDX_EMPTY,
                    Some(bb) => {
                        &&& 0 <= bb.0.x < bb.1.x <= 8
                        &&& 0 <= bb.0.y < bb.1.y <= 8
                        &&& 0 <= bb.0.z < bb.1.z <= 8
                        &&& forall|s: int|
                            0 <= s < 512 && lv[s].data != VOXEL_IDX_EMPTY ==> bb.0.x <= s / 64
                                < bb.1.x && bb.0.y <= (s / 8) % 8 < bb.1.y && bb.0.z <= s % 8
                                < bb.1.z
                        &&& exists|s: int|
                            0 <= s < 512 && lv[s].data != VOXEL_IDX_EMPTY && s / 64 == bb.0.x
                        &&& exists|s: int|
                            0 <= s < 512 && lv[s].data != VOXEL_IDX_EMPTY && s / 64 == bb.1.x - 1
                        &&& exists|s: int|
                            0 <= s < 512 && lv[s].data != VOXEL_IDX_EMPTY && (s / 8) % 8 == bb.0.y
                        &&& exists|s: int|
                            0 <= s < 512 && lv[s].data != VOXEL_IDX_EMPTY && (s / 8) % 8 == bb.1.y
                                - 1
                        &&& exists|s: int|
                            0 <= s < 512 && lv[s].data != VOXEL_IDX_EMPTY && s % 8 == bb.0.z
                        &&& exists|s: int|
                            0 <= s < 512 && lv[s].data != VOXEL_IDX_EMPTY && s % 8 == bb.1.z - 1
                    },
                }
            }),
    {
        if leaf_idx == VOXEL_IDX_EMPTY {
            return None;
        }
        let mut mnx: i32 = i32::MAX;
        let mut mny: i32 = i32::MAX;
        let mut mnz: i32 = i32::MAX;
        let mut mxx: i32 = i32::MIN;
        let mut mxy: i32 = i32::MIN;
        let mut mxz: i32 = i32::MIN;
        let mut idx: usize = 0;
        while idx < 512
            invariant
                leaf_idx != VOXEL_IDX_EMPTY,
                leaf_idx < self.leafs@.len(),
                self.leafs@[leaf_idx as int].voxels@.len() == 512,
                0 <= idx <= 512,
                mnx == i32::MAX ==> mny == i32::MAX && mnz == i32::MAX && mxx == i32::MIN && mxy
                    == i32::MIN && mxz == i32::MIN && (forall|s: int|
                    0 <= s < idx ==> self.leafs@[leaf_idx as int].voxels@[s].data
                        == VOXEL_IDX_EMPTY),
                mnx != i32::MAX ==> ({
                    let lv = self.leafs@[leaf_idx as int].voxels@;
                    &&& 0 <= mnx < mxx <= 8
                    &&& 0 <= mny < mxy <= 8
                    &&& 0 <= mnz < mxz <= 8
                    &&& forall|s: int|
                        0 <= s < idx && lv[s].data != VOXEL_IDX_EMPTY ==> mnx <= s / 64 < mxx
                            && mny <= (s / 8) % 8 < mxy && mnz <= s % 8 < mxz
                    &&& exists|s: int|
                        0 <= s < idx && lv[s].data != VOXEL_IDX_EMPTY && s / 64 == mnx
                    &&& exists|s: int|
                        0 <= s < idx && lv[s].data != VOXEL_IDX_EMPTY && s / 64 == mxx - 1
                    &&& exists|s: int|
                        0 <= s < idx && lv[s].data != VOXEL_IDX_EMPTY && (s / 8) % 8 == mny
                    &&& exists|s: int|
                        0 <= s < idx && lv[s].data != VOXEL_IDX_EMPTY && (s / 8) % 8 == mxy - 1
                    &&& exists|s: int|
                        0 <= s < idx && lv[s].data != VOXEL_IDX_EMPTY && s % 8 == mnz
                    &&& exists|s: int|
                        0 <= s < idx && lv[s].data != VOXEL_IDX_EMPTY && s % 8 == mxz - 1
                }),
            decreases 512 - idx,
        {
            let v = self.leafs[leaf_idx as usize].voxels[idx];
            if v.data != VOXEL_IDX_EMPTY {
                let p = idx_to_pos(idx as i32);
                let ghost was_found = mnx != i32::MAX;
                mnx = if p.x < mnx {
                    p.x
                } else {
                    mnx
                };
                mny = if p.y < mny {
                    p.y
                } else {
                    mny
                };
                mnz = if p.z < mnz {
                    p.z
                } else {
                    mnz
                };
                mxx = if p.x + 1 > mxx {
                    p.x + 1
                } else {
                    mxx
                };
                mxy = if p.y + 1 > mxy {
                    p.y + 1
                } else {
                    mxy
                };
                mxz = if p.z + 1 > mxz {
                    p.z + 1
                } else {
                    mxz
                };
                proof {
                    let lv = self.leafs@[leaf_idx as int].voxels@;
                    let gi = idx as int;
                    assert(lv[gi].data != VOXEL_IDX_EMPTY);
                    assert(gi / 64 == p.x as int && (gi / 8) % 8 == p.y as int && gi % 8
                        == p.z as int);
                    assert(exists|s: int|
                        0 <= s < idx + 1 && lv[s].data != VOXEL_IDX_EMPTY && s / 64 == mnx) by {
                        if p.x == mnx {
                            assert(0 <= gi < gi + 1 && lv[gi].data != VOXEL_IDX_EMPTY && gi / 64
                                == mnx);
                        }
                    }
                    assert(exists|s: int|
                        0 <= s < idx + 1 && lv[s].data != VOXEL_IDX_EMPTY && s / 64 == mxx - 1) by {
                        if p.x + 1 == mxx {
                            assert(0 <= gi < gi + 1 && lv[gi].data != VOXEL_IDX_EMPTY && gi / 64
                                == mxx - 1);
                        }
                    }
                    assert(exists|s: int|
                        0 <= s < idx + 1 && lv[s].data != VOXEL_IDX_EMPTY && (s / 8) % 8 == mny)
                        by {
                        if p.y == mny {
                            assert(0 <= gi < gi + 1 && lv[gi].data != VOXEL_IDX_EMPTY && (gi / 8)
                                % 8 == mny);
                        }
                    }
                    assert(exists|s: int|
                        0 <= s < idx + 1 && lv[s].data != VOXEL_IDX_EMPTY && (s / 8) % 8 == mxy
                            - 1) by {
                        if p.y + 1 == mxy {
                            assert(0 <= gi < gi + 1 && lv[gi].data != VOXEL_IDX_EMPTY && (gi / 8)
                                % 8 == mxy - 1);
                        }
                    }
                    assert(exists|s: int|
                        0 <= s < idx + 1 && lv[s].data != VOXEL_IDX_EMPTY && s % 8 == mnz) by {
                        if p.z == mnz {
                            assert(0 <= gi < gi + 1 && lv[gi].data != VOXEL_IDX_EMPTY && gi % 8
                                == mnz);
                        }
                    }
                    assert(exists|s: int|
                        0 <= s < idx + 1 && lv[s].data != VOXEL_IDX_EMPTY && s % 8 == mxz - 1) by {
                        if p.z + 1 == mxz {
                            assert(0 <= gi < gi + 1 && lv[gi].data != VOXEL_IDX_EMPTY && gi % 8
                                == mxz - 1);
                        }
                    }
                }
            }
            idx = idx + 1;
        }
        if mnx != i32::MAX {
            Some((IVec3 { x: mnx, y: mny, z: mnz }, IVec3 { x: mxx, y: mxy, z: mxz }))
        } else {
            None
        }
    }

    /// The tight axis-aligned bounding box of the set voxels below one node,
    /// in coordinates relative to the node's own origin: minimum inclusive,
    /// maximum exclusive.  `None` for the empty-sentinel index and for a
    /// subtree with no set voxel.  `depth` counts levels walked from the
    /// root (0 at the root); `child_size` is the edge length of one child's
    /// cube; `base` is the node's origin, used only by the proof.
    #[verifier::rlimit(100)]
    #[verifier::spinoff_prover]
    pub fn calc_bbox_node(
        &self,
        node_idx: u32,
        child_size: i32,
        depth: u8,
        base: Ghost<(int, int, int)>,
    ) -> (r: Option<(IVec3, IVec3)>)
        requires
            self.wf(),
            depth < self.depth,
            child_size == pow8(self.depth as int - depth as int),
            node_idx != VOXEL_IDX_EMPTY ==> node_idx < self.nodes@.len() && self.wf_sub(
                node_idx as int,
                self.depth as int - depth as int,
                base@.0,
                base@.1,
                base@.2,
            ),
        ensures
            node_idx == VOXEL_IDX_EMPTY ==> r is None,
            node_idx != VOXEL_IDX_EMPTY ==> ({
                let lam = self.depth as int - depth as int;
                let n = node_idx as int;
                match r {
                    None => forall|qx: int, qy: int, qz: int|
                        !self.sub_occupied(n, lam, qx, qy, qz),
                    Some(bb) => {
                        &&& 0 <= bb.0.x < bb.1.x <= pow8(lam + 1)
                        &&& 0 <= bb.0.y < bb.1.y <= pow8(lam + 1)
                        &&& 0 <= bb.0.z < bb.1.z <= pow8(lam + 1)
                        &&& forall|qx: int, qy: int, qz: int|
                            #[trigger] self.sub_occupied(n, lam, qx, qy, qz) ==> bb.0.x <= qx
                                < bb.1.x && bb.0.y <= qy < bb.1.y && bb.0.z <= qz < bb.1.z
                        &&& exists|qx: int, qy: int, qz: int|
                            #[trigger] self.sub_occupied(n, lam, qx, qy, qz) && qx == bb.0.x
                        &&& exists|qx: int, qy: int, qz: int|
                            #[trigger] self.sub_occupied(n, lam, qx, qy, qz) && qx == bb.1.x - 1
                        &&& exists|qx: int, qy: int, qz: int|
                            #[trigger] self.sub_occupied(n, lam, qx, qy, qz) && qy == bb.0.y
                        &&& exists|qx: int, qy: int, qz: int|
                            #[trigger] self.sub_occupied(n, lam, qx, qy, qz) && qy == bb.1.y - 1
                        &&& exists|qx: int, qy: int, qz: int|
                            #[trigger] self.sub_occupied(n, lam, qx, qy, qz) && qz == bb.0.z
                        &&& exists|qx: int, qy: int, qz: int|
                            #[trigger] self.sub_occupied(n, lam, qx, qy, qz) && qz == bb.1.z - 1
                    },
                }
            }),
        decreases self.depth as int - depth as int,
    {
        if node_idx == VOXEL_IDX_EMPTY {
            return None;
        }
        let ghost lam = self.depth as int - depth as int;
        let ghost n = node_idx as int;
        proof {
            lemma_pow8_pos(lam);
            lemma_pow8_unfold(lam + 1);
            lemma_pow8_le(lam, 10);
            lemma_pow8_le(self.depth as int, 10);
            lemma_pow8_ten();
        }
        let mut mnx: i32 = i32::MAX;
        let mut mny: i32 = i32::MAX;
        let mut mnz: i32 = i32::MAX;
        let mut mxx: i32 = i32::MIN;
        let mut mxy: i32 = i32::MIN;
        let mut mxz: i32 = i32::MIN;
        let mut idx: usize = 0;
        while idx < 512
            invariant
                self.wf(),
                depth < self.depth,
                lam == self.depth as int - depth as int,
                n == node_idx as int,
                node_idx != VOXEL_IDX_EMPTY,
                node_idx < self.nodes@.len(),
                child_size == pow8(lam),
                1 <= child_size <= 0x4000_0000,
                pow8(self.depth as int) <= 0x4000_0000,
                self.wf_sub(n, lam, base@.0, base@.1, base@.2),
                0 <= base@.0 && 0 <= base@.1 && 0 <= base@.2,
                0 <= idx <= 512,
                mnx == i32::MAX ==> mny == i32::MAX && mnz == i32::MAX && mxx == i32::MIN && mxy
                    == i32::MIN && mxz == i32::MIN && bbox_none(*self, n, lam, idx as int),
                mnx != i32::MAX ==> bbox_inv(
                    *self,
                    n,
                    lam,
                    idx as int,
                    mnx as int,
                    mny as int,
                    mnz as int,
                    mxx as int,
                    mxy as int,
                    mxz as int,
                ),
            decreases 512 - idx,
        {
            let c = self.nodes[node_idx as usize].indices[idx];
            let ghost gs = idx as int;
            let ghost cb = (
                base@.0 + (gs / 64) * pow8(lam),
                base@.1 + ((gs / 8) % 8) * pow8(lam),
                base@.2 + (gs % 8) * pow8(lam),
            );
            proof {
                if c != VOXEL_IDX_EMPTY {
                    assert(self.child_entry_ok(n, lam, base@.0, base@.1, base@.2, gs));
                    lemma_slot_window_in_extent(*self, n, lam, base@.0, base@.1, base@.2, gs);
                }
            }
            let sub: Option<(IVec3, IVec3)> = if depth + 1 == self.depth {
                self.calc_bbox_leaf(c)
            } else {
                proof {
                    lemma_pow8_unfold(lam);
                    assert(child_size as int / 8 == pow8(lam - 1));
                }
                self.calc_bbox_node(c, child_size / 8, depth + 1, Ghost(cb))
            };
            if let Some(bb) = sub {
                let p = idx_to_pos(idx as i32);
                proof {
                    assert(p.x as int == gs / 64 && p.y as int == (gs / 8) % 8 && p.z as int == gs
                        % 8);
                }
                let ox = p.x * child_size;
                let oy = p.y * child_size;
                let oz = p.z * child_size;
                let nx0 = ox + bb.0.x;
                let ny0 = oy + bb.0.y;
                let nz0 = oz + bb.0.z;
                let nx1 = ox + bb.1.x;
                let ny1 = oy + bb.1.y;
                let nz1 = oz + bb.1.z;
                proof {
                    if depth + 1 == self.depth {
                        lemma_pow8_small();
                        lemma_slot_box_leaf(*self, n, base@.0, base@.1, base@.2, gs, bb.0, bb.1);
                    } else {
                        lemma_slot_box_node(
                            *self,
                            n,
                            lam,
                            base@.0,
                            base@.1,
                            base@.2,
                            gs,
                            bb.0,
                            bb.1,
                        );
                    }
                    assert(slot_box_tight(
                        *self,
                        n,
                        lam,
                        gs,
                        nx0 as int,
                        ny0 as int,
                        nz0 as int,
                        nx1 as int,
                        ny1 as int,
                        nz1 as int,
                    ));
                    lemma_bbox_accumulate(
                        *self,
                        n,
                        lam,
                        gs,
                        nx0,
                        ny0,
                        nz0,
                        nx1,
                        ny1,
                        nz1,
                        mnx,
                        mny,
                        mnz,
                        mxx,
                        mxy,
                        mxz,
                    );
                }
                mnx = if nx0 < mnx {
                    nx0
                } else {
                    mnx
                };
                mny = if ny0 < mny {
                    ny0
                } else {
                    mny
                };
                mnz = if nz0 < mnz {
                    nz0
                } else {
                    mnz
                };
                mxx = if nx1 > mxx {
                    nx1
                } else {
                    mxx
                };
                mxy = if ny1 > mxy {
                    ny1
                } else {
                    mxy
                };
                mxz = if nz1 > mxz {
                    nz1
                } else {
                    mxz
                };
            } else {
                proof {
                    assert forall|qx: int, qy: int, qz: int|
                        #[trigger] self.sub_occupied(n, lam, qx, qy, qz) && path_slot(
                            lam,
                            qx,
                            qy,
                            qz,
                        ) == gs implies false by {
                        if c == VOXEL_IDX_EMPTY {
                            assert(self.leaf_hit(n, lam, qx, qy, qz) == -1);
                        } else if depth + 1 == self.depth {
                            lemma_pow8_small();
                            lemma_bbox_step_leaf(*self, n, base@.0, base@.1, base@.2, gs);
                        } else {
                            lemma_bbox_step_node(*self, n, lam, base@.0, base@.1, base@.2, gs);
                        }
                    }
                    lemma_bbox_skip(*self, n, lam, gs, mnx, mny, mnz, mxx, mxy, mxz);
                }
            }
            idx = idx + 1;
        }
        if mnx != i32::MAX {
            proof {
                assert forall|qx: int, qy: int, qz: int|
                    #[trigger] self.sub_occupied(n, lam, qx, qy, qz) implies path_slot(
                    lam,
                    qx,
                    qy,
                    qz,
                ) < 512 by {
                    assert(0 <= (qx / pow8(lam)) % 8 < 8);
                    assert(0 <= (qy / pow8(lam)) % 8 < 8);
                    assert(0 <= (qz / pow8(lam)) % 8 < 8);
                }
            }
            Some((IVec3 { x: mnx, y: mny, z: mnz }, IVec3 { x: mxx, y: mxy, z: mxz }))
        } else {
            proof {
                assert forall|qx: int, qy: int, qz: int|
                    !self.sub_occupied(n, lam, qx, qy, qz) by {
                    if self.sub_occupied(n, lam, qx, qy, qz) {
                        assert(0 <= (qx / pow8(lam)) % 8 < 8);
                        assert(0 <= (qy / pow8(lam)) % 8 < 8);
                        assert(0 <= (qz / pow8(lam)) % 8 < 8);
                        assert(path_slot(lam, qx, qy, qz) < 512);
                    }
                }
            }
            None
        }
    }

    /// The tight axis-aligned bounding box of all set voxels: minimum
    /// inclusive, maximum exclusive.  `None` exactly when no voxel is set.
    #[verifier::rlimit(100)]
    pub fn calc_bbox(&self) -> (r: Option<(UVec3, UVec3)>)
        requires
            self.wf(),
        ensures
            match r {
                None => forall|px: int, py: int, pz: int| !self.occupied(px, py, pz),
                Some(bb) => {
                    &&& 0 <= bb.0.x < bb.1.x <= self.extent()
                    &&& 0 <= bb.0.y < bb.1.y <= self.extent()
                    &&& 0 <= bb.0.z < bb.1.z <= self.extent()
                    &&& forall|px: int, py: int, pz: int|
                        #[trigger] self.occupied(px, py, pz) ==> bb.0.x <= px < bb.1.x && bb.0.y
                            <= py < bb.1.y && bb.0.z <= pz < bb.1.z
                    &&& exists|px: int, py: int, pz: int|
                        #[trigger] self.occupied(px, py, pz) && px == bb.0.x
                    &&& exists|px: int, py: int, pz: int|
                        #[trigger] self.occupied(px, py, pz) && px == bb.1.x - 1
                    &&& exists|px: int, py: int, pz: int|
                        #[trigger] self.occupied(px, py, pz) && py == bb.0.y
                    &&& exists|px: int, py: int, pz: int|
                        #[trigger] self.occupied(px, py, pz) && py == bb.1.y - 1
                    &&& exists|px: int, py: int, pz: int|
                        #[trigger] self.occupied(px, py, pz) && pz == bb.0.z
                    &&& exists|px: int, py: int, pz: int|
                        #[trigger] self.occupied(px, py, pz) && pz == bb.1.z - 1
                },
            },
    {
        let child_size = pow8_exec(self.depth as u32) as i32;
        let sub = self.calc_bbox_node(0, child_size, 0, Ghost((0int, 0int, 0int)));
        proof {
            let lam = self.depth as int;
            lemma_pow8_pos(lam);
            lemma_pow8_unfold(lam + 1);
            assert forall|px: int, py: int, pz: int| #[trigger] self.occupied(px, py, pz) implies
                self.sub_occupied(0, lam, px, py, pz) by {}
            assert forall|px: int, py: int, pz: int|
                #[trigger] self.sub_occupied(0, lam, px, py, pz) implies self.occupied(
                px,
                py,
                pz,
            ) by {
                lemma_root_occupied_in_extent(*self, px, py, pz);
            }
        }
        match sub {
            None => {
                proof {
                    assert forall|px: int, py: int, pz: int|
                        !self.occupied(px, py, pz) by {
                        if self.occupied(px, py, pz) {
                            assert(self.sub_occupied(0, self.depth as int, px, py, pz));
                        }
                    }
                }
                None
            },
            Some(bb) => {
                proof {
                    let lam = self.depth as int;
                    assert(exists|px: int, py: int, pz: int|
                        #[trigger] self.occupied(px, py, pz) && px == bb.0.x as int) by {
                        let (px, py, pz) = choose|px: int, py: int, pz: int|
                            #[trigger] self.sub_occupied(0, lam, px, py, pz) && px == bb.0.x as int;
                        assert(self.occupied(px, py, pz));
                    }
                    assert(exists|px: int, py: int, pz: int|
                        #[trigger] self.occupied(px, py, pz) && px == bb.1.x as int - 1) by {
                        let (px, py, pz) = choose|px: int, py: int, pz: int|
                            #[trigger] self.sub_occupied(0, lam, px, py, pz) && px == bb.1.x as int
                                - 1;
                        assert(self.occupied(px, py, pz));
                    }
                    assert(exists|px: int, py: int, pz: int|
                        #[trigger] self.occupied(px, py, pz) && py == bb.0.y as int) by {
                        let (px, py, pz) = choose|px: int, py: int, pz: int|
                            #[trigger] self.sub_occupied(0, lam, px, py, pz) && py == bb.0.y as int;
                        assert(self.occupied(px, py, pz));
                    }
                    assert(exists|px: int, py: int, pz: int|
                        #[trigger] self.occupied(px, py, pz) && py == bb.1.y as int - 1) by {
                        let (px, py, pz) = choose|px: int, py: int, pz: int|
                            #[trigger] self.sub_occupied(0, lam, px, py, pz) && py == bb.1.y as int
                                - 1;
                        assert(self.occupied(px, py, pz));
                    }
                    assert(exists|px: int, py: int, pz: int|
                        #[trigger] self.occupied(px, py, pz) && pz == bb.0.z as int) by {
                        let (px, py, pz) = choose|px: int, py: int, pz: int|
                            #[trigger] self.sub_occupied(0, lam, px, py, pz) && pz == bb.0.z as int;
                        assert(self.occupied(px, py, pz));
                    }
                    assert(exists|px: int, py: int, pz: int|
                        #[trigger] self.occupied(px, py, pz) && pz == bb.1.z as int - 1) by {
                        let (px, py, pz) = choose|px: int, py: int, pz: int|
                            #[trigger] self.sub_occupied(0, lam, px, py, pz) && pz == bb.1.z as int
                                - 1;
                        assert(self.occupied(px, py, pz));
                    }
                    // The box ends are occupied coordinates (plus one), so the
                    // box lies inside the covered cube.
                    assert(bb.1.x as int <= self.extent() && bb.1.y as int <= self.extent()
                        && bb.1.z as int <= self.extent());
                    assert(bb.0.x >= 0 && bb.0.y >= 0 && bb.0.z >= 0);
                }
                Some(
                    (
                        UVec3 { x: bb.0.x as u32, y: bb.0.y as u32, z: bb.0.z as u32 },
                        UVec3 { x: bb.1.x as u32, y: bb.1.y as u32, z: bb.1.z as u32 },
                    ),
                )
            },
        }
    }

    /// A tree with a single empty root node, covering
    /// `[0, VOXEL_DIM ^ depth)` per axis.
    pub fn new(depth: u8) -> (r: VoxelTree)
        requires
            1 <= depth <= 10,
        ensures
            r.wf(),
            r.depth == depth,
            r.nodes@.len() == 1,
            r.leafs@.len() == 0,
            forall|px: int, py: int, pz: int| r.lookup(px, py, pz) == VOXEL_IDX_EMPTY,
    {
        let root = VoxelNode::default();
        let mut nodes: Vec<VoxelNode> = Vec::new();
        nodes.push(root);
        let r = VoxelTree {
            depth,
            leafs: Vec::new(),
            nodes,
            node_meta: Ghost(
                Map::empty().insert(0int, NodeMeta { lam: depth as int, bx: 0, by: 0, bz: 0 }),
            ),
            leaf_base: Ghost(Map::empty()),
        };
        proof {
            lemma_pow8_pos(depth as int + 1);
            assert forall|px: int, py: int, pz: int|
                r.lookup(px, py, pz) == VOXEL_IDX_EMPTY by {
                assert(r.leaf_hit(0, depth as int, px, py, pz) == -1) by {
                    if depth as int >= 1 {
                        let s = path_slot(depth as int, px, py, pz);
                        if 0 <= s < 512 {
                            assert(r.nodes@[0].indices@[s] == VOXEL_IDX_EMPTY);
                        }
                    }
                }
            }
        }
        r
    }

    /// Number of internal nodes the walk for a position still has to create
    /// below node `n` (standing at level `lam`) before reaching the level of
    /// a leaf's parent.
    pub open spec fn missing_nodes(self, n: int, lam: int, px: int, py: int, pz: int) -> int
        decreases lam,
    {
        if lam <= 1 {
            0
        } else {
            let c = self.nodes@[n].indices@[path_slot(lam, px, py, pz)];
            if c == VOXEL_IDX_EMPTY {
                lam - 1
            } else {
                self.missing_nodes(c as int, lam - 1, px, py, pz)
            }
        }
    }

    /// Whether the walk for a position still has to create its leaf
    /// (1 where it does, 0 where the leaf already exists).
    pub open spec fn missing_leaf(self, n: int, lam: int, px: int, py: int, pz: int) -> int
        decreases lam,
    {
        if lam < 1 {
            0
        } else {
            let c = self.nodes@[n].indices@[path_slot(lam, px, py, pz)];
            if c == VOXEL_IDX_EMPTY {
                1
            } else if lam == 1 {
                0
            } else {
                self.missing_leaf(c as int, lam - 1, px, py, pz)
            }
        }
    }
}

/// Computes `VOXEL_DIM ^ e`.
pub fn pow8_exec(e: u32) -> (r: u32)
    requires
        e <= 10,
    ensures
        r == pow8(e as int),
        1 <= r <= 0x40000000,
{
    proof {
        assert(pow8(0) == 1) by {
            reveal_with_fuel(pow, 1);
        }
        lemma_pow8_ten();
        lemma_pow8_le(e as int, 10);
    }
    let mut r: u32 = 1;
    let mut i: u32 = 0;
    while i < e
        invariant
            i <= e <= 10,
            r == pow8(i as int),
            1 <= r,
        decreases e - i,
    {
        proof {
            lemma_pow8_unfold(i as int + 1);
            lemma_pow8_le(i as int + 1, 10);
            lemma_pow8_ten();
            lemma_pow8_pos(i as int);
        }
        r = r * 8;
        i = i + 1;
    }
    proof {
        lemma_pow8_pos(e as int);
    }
    r
}

/// How a tree relates to the same tree after a fresh internal node was
/// materialized: `parent`'s slot `smut` went from empty to the fresh index,
/// one all-empty node was appended, and its placement `meta` was recorded.
pub open spec fn node_insert_rel(
    old_t: VoxelTree,
    new_t: VoxelTree,
    parent: int,
    smut: int,
    meta: NodeMeta,
) -> bool {
    let fresh = old_t.nodes@.len() as int;
    &&& old_t.arrays_wf()
    &&& new_t.arrays_wf()
    &&& 0 <= parent < old_t.nodes@.len()
    &&& 0 <= smut < 512
    &&& old_t.nodes@.len() < VOXEL_IDX_EMPTY
    &&& old_t.nodes@[parent].indices@[smut] == VOXEL_IDX_EMPTY
    &&& new_t.nodes@.len() == old_t.nodes@.len() + 1
    &&& new_t.nodes@[parent].indices@ == old_t.nodes@[parent].indices@.update(
        smut,
        fresh as u32,
    )
    &&& forall|i: int|
        0 <= i < old_t.nodes@.len() && i != parent ==> new_t.nodes@[i] == old_t.nodes@[i]
    &&& forall|j: int| 0 <= j < 512 ==> new_t.nodes@[fresh].indices@[j] == VOXEL_IDX_EMPTY
    &&& new_t.leafs == old_t.leafs
    &&& new_t.depth == old_t.depth
    &&& new_t.node_meta@ == old_t.node_meta@.insert(fresh, meta)
    &&& new_t.leaf_base == old_t.leaf_base
    &&& old_t.node_meta@.contains_key(parent)
    &&& old_t.node_meta@[parent].lam == meta.lam + 1
    &&& meta.lam >= 1
    &&& meta.bx == old_t.node_meta@[parent].bx + (smut / 64) * pow8(meta.lam + 1)
    &&& meta.by == old_t.node_meta@[parent].by + ((smut / 8) % 8) * pow8(meta.lam + 1)
    &&& meta.bz == old_t.node_meta@[parent].bz + (smut % 8) * pow8(meta.lam + 1)
    &&& meta.bx + pow8(meta.lam + 1) <= old_t.extent()
    &&& meta.by + pow8(meta.lam + 1) <= old_t.extent()
    &&& meta.bz + pow8(meta.lam + 1) <= old_t.extent()
}

/// An all-empty node is a well-formed subtree at any level with an aligned,
/// in-range origin.
pub proof fn lemma_empty_node_wf_sub(t: VoxelTree, n: int, lam: int, bx: int, by: int, bz: int)
    requires
        0 <= n < t.nodes@.len(),
        forall|j: int| 0 <= j < 512 ==> t.nodes@[n].indices@[j] == VOXEL_IDX_EMPTY,
        1 <= lam,
        0 <= bx && 0 <= by && 0 <= bz,
        bx % pow8(lam + 1) == 0,
        by % pow8(lam + 1) == 0,
        bz % pow8(lam + 1) == 0,
    ensures
        t.wf_sub(n, lam, bx, by, bz),
{
    assert forall|s: int|
        0 <= s < 512 && #[trigger] t.nodes@[n].indices@[s] != VOXEL_IDX_EMPTY implies false by {}
}

/// An all-empty node's walk reaches no leaf.
pub proof fn lemma_empty_node_leaf_hit(t: VoxelTree, n: int, lam: int, px: int, py: int, pz: int)
    requires
        forall|j: int| 0 <= j < 512 ==> t.nodes@[n].indices@[j] == VOXEL_IDX_EMPTY,
        lam >= 1,
    ensures
        t.leaf_hit(n, lam, px, py, pz) == -1,
{
    let s = path_slot(lam, px, py, pz);
    assert(0 <= s < 512);
    assert(t.nodes@[n].indices@[s] == VOXEL_IDX_EMPTY);
}

/// Materializing a fresh internal node preserves subtree well-formedness.
pub proof fn lemma_node_insert_wf_sub(
    old_t: VoxelTree,
    new_t: VoxelTree,
    parent: int,
    smut: int,
    meta: NodeMeta,
    n: int,
    lam: int,
    bx: int,
    by: int,
    bz: int,
)
    requires
        node_insert_rel(old_t, new_t, parent, smut, meta),
        old_t.wf_sub(n, lam, bx, by, bz),
        n == parent ==> lam == meta.lam + 1 && bx == old_t.node_meta@[parent].bx && by
            == old_t.node_meta@[parent].by && bz == old_t.node_meta@[parent].bz,
    ensures
        new_t.wf_sub(n, lam, bx, by, bz),
    decreases lam,
{
    let fresh = old_t.nodes@.len() as int;
    assert forall|s: int|
        0 <= s < 512 && #[trigger] new_t.nodes@[n].indices@[s] != VOXEL_IDX_EMPTY implies {
        &&& new_t.child_entry_ok(n, lam, bx, by, bz, s)
        &&& (lam > 1 ==> new_t.wf_sub(
            new_t.nodes@[n].indices@[s] as int,
            lam - 1,
            bx + (s / 64) * pow8(lam),
            by + ((s / 8) % 8) * pow8(lam),
            bz + (s % 8) * pow8(lam),
        ))
    } by {
        let cbx = bx + (s / 64) * pow8(lam);
        let cby = by + ((s / 8) % 8) * pow8(lam);
        let cbz = bz + (s % 8) * pow8(lam);
        if n == parent && s == smut {
            assert(new_t.nodes@[n].indices@[s] == fresh as u32);
            assert(lam == meta.lam + 1);
            assert(cbx == meta.bx && cby == meta.by && cbz == meta.bz);
            assert(new_t.node_meta@.contains_key(fresh));
            assert(new_t.node_meta@[fresh] == meta);
            assert(new_t.child_entry_ok(n, lam, bx, by, bz, s));
            // The fresh node is an all-empty, well-formed subtree.
            lemma_pow8_pos(lam);
            lemma_mul_nonnegative(s / 64, pow8(lam));
            lemma_mul_nonnegative((s / 8) % 8, pow8(lam));
            lemma_mul_nonnegative(s % 8, pow8(lam));
            let m = pow8(lam);
            lemma_aligned_down(bx, lam);
            lemma_aligned_down(by, lam);
            lemma_aligned_down(bz, lam);
            lemma_mod_multiples_basic(s / 64, m);
            lemma_mod_multiples_basic((s / 8) % 8, m);
            lemma_mod_multiples_basic(s % 8, m);
            lemma_add_mod_noop(bx, (s / 64) * m, m);
            lemma_add_mod_noop(by, ((s / 8) % 8) * m, m);
            lemma_add_mod_noop(bz, (s % 8) * m, m);
            assert(bx % m == 0);
            assert(((s / 64) * m) % m == 0);
            assert(0int % m == 0);
            assert(cbx % m == ((bx % m) + (((s / 64) * m) % m)) % m);
            assert(cbx % m == 0 && cby % m == 0 && cbz % m == 0);
            lemma_empty_node_wf_sub(new_t, fresh, lam - 1, cbx, cby, cbz);
        } else {
            assert(new_t.nodes@[n].indices@[s] == old_t.nodes@[n].indices@[s]);
            assert(old_t.nodes@[n].indices@[s] != VOXEL_IDX_EMPTY);
            assert(old_t.child_entry_ok(n, lam, bx, by, bz, s));
            let c = old_t.nodes@[n].indices@[s] as int;
            if lam == 1 {
                assert(new_t.child_entry_ok(n, lam, bx, by, bz, s));
            } else {
                assert(c < fresh);
                assert(new_t.node_meta@[c] == old_t.node_meta@[c]);
                assert(new_t.child_entry_ok(n, lam, bx, by, bz, s));
                if c == parent {
                    assert(old_t.node_meta@[c].lam == lam - 1);
                }
                lemma_node_insert_wf_sub(
                    old_t,
                    new_t,
                    parent,
                    smut,
                    meta,
                    c,
                    lam - 1,
                    cbx,
                    cby,
                    cbz,
                );
            }
        }
    }
}

/// Materializing a fresh internal node changes no walk's outcome: the walks
/// that meet the new slot ran into an empty slot before and run into an
/// all-empty node now.
pub proof fn lemma_node_insert_leaf_hit(
    old_t: VoxelTree,
    new_t: VoxelTree,
    parent: int,
    smut: int,
    meta: NodeMeta,
    n: int,
    lam: int,
    bx: int,
    by: int,
    bz: int,
    px: int,
    py: int,
    pz: int,
)
    requires
        node_insert_rel(old_t, new_t, parent, smut, meta),
        old_t.wf_sub(n, lam, bx, by, bz),
        n == parent ==> lam == meta.lam + 1,
    ensures
        new_t.leaf_hit(n, lam, px, py, pz) == old_t.leaf_hit(n, lam, px, py, pz),
    decreases lam,
{
    let fresh = old_t.nodes@.len() as int;
    if lam >= 1 {
        let s = path_slot(lam, px, py, pz);
        assert(0 <= s < 512);
        if n == parent && s == smut {
            assert(old_t.leaf_hit(n, lam, px, py, pz) == -1);
            assert(lam == meta.lam + 1 >= 2);
            assert(new_t.nodes@[n].indices@[s] == fresh as u32);
            lemma_empty_node_leaf_hit(new_t, fresh, lam - 1, px, py, pz);
        } else {
            assert(new_t.nodes@[n].indices@[s] == old_t.nodes@[n].indices@[s]);
            let c = old_t.nodes@[n].indices@[s];
            if c != VOXEL_IDX_EMPTY && lam > 1 {
                assert(old_t.child_entry_ok(n, lam, bx, by, bz, s));
                lemma_node_insert_leaf_hit(
                    old_t,
                    new_t,
                    parent,
                    smut,
                    meta,
                    c as int,
                    lam - 1,
                    bx + (s / 64) * pow8(lam),
                    by + ((s / 8) % 8) * pow8(lam),
                    bz + (s % 8) * pow8(lam),
                    px,
                    py,
                    pz,
                );
            }
        }
    }
}

/// How a tree relates to the same tree after a fresh leaf was materialized:
/// `parent`'s slot `smut` went from empty to the fresh leaf index, one
/// all-empty leaf was appended, and its block origin `lb` was recorded.
pub open spec fn leaf_insert_rel(
    old_t: VoxelTree,
    new_t: VoxelTree,
    parent: int,
    smut: int,
    lb: LeafBase,
) -> bool {
    let fresh = old_t.leafs@.len() as int;
    &&& old_t.arrays_wf()
    &&& new_t.arrays_wf()
    &&& 0 <= parent < old_t.nodes@.len()
    &&& 0 <= smut < 512
    &&& old_t.leafs@.len() < VOXEL_IDX_EMPTY
    &&& old_t.nodes@[parent].indices@[smut] == VOXEL_IDX_EMPTY
    &&& new_t.nodes@.len() == old_t.nodes@.len()
    &&& new_t.nodes@[parent].indices@ == old_t.nodes@[parent].indices@.update(
        smut,
        fresh as u32,
    )
    &&& forall|i: int|
        0 <= i < old_t.nodes@.len() && i != parent ==> new_t.nodes@[i] == old_t.nodes@[i]
    &&& new_t.leafs@.len() == old_t.leafs@.len() + 1
    &&& forall|i: int| 0 <= i < old_t.leafs@.len() ==> new_t.leafs@[i] == old_t.leafs@[i]
    &&& forall|j: int| 0 <= j < 512 ==> new_t.leafs@[fresh].voxels@[j].data == VOXEL_IDX_EMPTY
    &&& new_t.depth == old_t.depth
    &&& new_t.node_meta == old_t.node_meta
    &&& new_t.leaf_base@ == old_t.leaf_base@.insert(fresh, lb)
    &&& old_t.node_meta@.contains_key(parent)
    &&& old_t.node_meta@[parent].lam == 1
    &&& lb.bx == old_t.node_meta@[parent].bx + (smut / 64) * 8
    &&& lb.by == old_t.node_meta@[parent].by + ((smut / 8) % 8) * 8
    &&& lb.bz == old_t.node_meta@[parent].bz + (smut % 8) * 8
    &&& lb.bx + 8 <= old_t.extent()
    &&& lb.by + 8 <= old_t.extent()
    &&& lb.bz + 8 <= old_t.extent()
}

/// Materializing a fresh leaf preserves subtree well-formedness.
pub proof fn lemma_leaf_insert_wf_sub(
    old_t: VoxelTree,
    new_t: VoxelTree,
    parent: int,
    smut: int,
    lb: LeafBase,
    n: int,
    lam: int,
    bx: int,
    by: int,
    bz: int,
)
    requires
        leaf_insert_rel(old_t, new_t, parent, smut, lb),
        old_t.wf_sub(n, lam, bx, by, bz),
        n == parent ==> lam == 1 && bx == old_t.node_meta@[parent].bx && by
            == old_t.node_meta@[parent].by && bz == old_t.node_meta@[parent].bz,
    ensures
        new_t.wf_sub(n, lam, bx, by, bz),
    decreases lam,
{
    let fresh = old_t.leafs@.len() as int;
    assert forall|s: int|
        0 <= s < 512 && #[trigger] new_t.nodes@[n].indices@[s] != VOXEL_IDX_EMPTY implies {
        &&& new_t.child_entry_ok(n, lam, bx, by, bz, s)
        &&& (lam > 1 ==> new_t.wf_sub(
            new_t.nodes@[n].indices@[s] as int,
            lam - 1,
            bx + (s / 64) * pow8(lam),
            by + ((s / 8) % 8) * pow8(lam),
            bz + (s % 8) * pow8(lam),
        ))
    } by {
        let cbx = bx + (s / 64) * pow8(lam);
        let cby = by + ((s / 8) % 8) * pow8(lam);
        let cbz = bz + (s % 8) * pow8(lam);
        if n == parent && s == smut {
            assert(new_t.nodes@[n].indices@[s] == fresh as u32);
            assert(lam == 1);
            assert(pow8(1) == 8) by {
                lemma_pow8_unfold(1);
                assert(pow8(0) == 1) by { reveal_with_fuel(pow, 1); }
            }
            assert(cbx == lb.bx && cby == lb.by && cbz == lb.bz);
            assert(new_t.leaf_base@.contains_key(fresh));
            assert(new_t.leaf_base@[fresh] == lb);
            assert(new_t.child_entry_ok(n, lam, bx, by, bz, s));
        } else {
            assert(new_t.nodes@[n].indices@[s] == old_t.nodes@[n].indices@[s]);
            assert(old_t.nodes@[n].indices@[s] != VOXEL_IDX_EMPTY);
            assert(old_t.child_entry_ok(n, lam, bx, by, bz, s));
            let c = old_t.nodes@[n].indices@[s] as int;
            if lam == 1 {
                assert(c < fresh);
                assert(new_t.leaf_base@[c] == old_t.leaf_base@[c]);
                assert(new_t.child_entry_ok(n, lam, bx, by, bz, s));
            } else {
                assert(new_t.child_entry_ok(n, lam, bx, by, bz, s));
                if c == parent {
                    assert(old_t.node_meta@[c].lam == lam - 1);
                }
                lemma_leaf_insert_wf_sub(
                    old_t,
                    new_t,
                    parent,
                    smut,
                    lb,
                    c,
                    lam - 1,
                    cbx,
                    cby,
                    cbz,
                );
            }
        }
    }
}

/// Materializing a fresh leaf redirects only the walks that previously ran
/// into the parent's empty slot: those now reach the fresh (all-empty) leaf.
pub proof fn lemma_leaf_insert_leaf_hit(
    old_t: VoxelTree,
    new_t: VoxelTree,
    parent: int,
    smut: int,
    lb: LeafBase,
    n: int,
    lam: int,
    bx: int,
    by: int,
    bz: int,
    px: int,
    py: int,
    pz: int,
)
    requires
        leaf_insert_rel(old_t, new_t, parent, smut, lb),
        old_t.wf_sub(n, lam, bx, by, bz),
        n == parent ==> lam == 1,
    ensures
        new_t.leaf_hit(n, lam, px, py, pz) == old_t.leaf_hit(n, lam, px, py, pz) || (
        old_t.leaf_hit(n, lam, px, py, pz) == -1 && new_t.leaf_hit(n, lam, px, py, pz)
            == old_t.leafs@.len()),
    decreases lam,
{
    let fresh = old_t.leafs@.len() as int;
    if lam >= 1 {
        let s = path_slot(lam, px, py, pz);
        assert(0 <= s < 512);
        if n == parent && s == smut {
            assert(old_t.leaf_hit(n, lam, px, py, pz) == -1);
            assert(new_t.nodes@[n].indices@[s] == fresh as u32);
            assert(new_t.leaf_hit(n, lam, px, py, pz) == fresh);
        } else {
            assert(new_t.nodes@[n].indices@[s] == old_t.nodes@[n].indices@[s]);
            let c = old_t.nodes@[n].indices@[s];
            if c != VOXEL_IDX_EMPTY && lam > 1 {
                assert(old_t.child_entry_ok(n, lam, bx, by, bz, s));
                lemma_leaf_insert_leaf_hit(
                    old_t,
                    new_t,
                    parent,
                    smut,
                    lb,
                    c as int,
                    lam - 1,
                    bx + (s / 64) * pow8(lam),
                    by + ((s / 8) % 8) * pow8(lam),
                    bz + (s % 8) * pow8(lam),
                    px,
                    py,
                    pz,
                );
            }
        }
    }
}

/// A walk from a well-formed subtree lands inside the leaf arena (or at -1).
pub proof fn lemma_leaf_hit_bounds(
    t: VoxelTree,
    n: int,
    lam: int,
    bx: int,
    by: int,
    bz: int,
    px: int,
    py: int,
    pz: int,
)
    requires
        t.wf_sub(n, lam, bx, by, bz),
    ensures
        t.leaf_hit(n, lam, px, py, pz) == -1 || (0 <= t.leaf_hit(n, lam, px, py, pz)
            < t.leafs@.len()),
    decreases lam,
{
    if lam >= 1 {
        let s = path_slot(lam, px, py, pz);
        assert(0 <= s < 512);
        let c = t.nodes@[n].indices@[s];
        if c != VOXEL_IDX_EMPTY {
            assert(t.child_entry_ok(n, lam, bx, by, bz, s));
            if lam > 1 {
                lemma_leaf_hit_bounds(
                    t,
                    c as int,
                    lam - 1,
                    bx + (s / 64) * pow8(lam),
                    by + ((s / 8) % 8) * pow8(lam),
                    bz + (s % 8) * pow8(lam),
                    px,
                    py,
                    pz,
                );
            }
        }
    }
}

/// The leaf a position's walk reaches covers exactly the position's block:
/// its recorded origin is the position with the low digit cleared.
pub proof fn lemma_leaf_hit_base(
    t: VoxelTree,
    n: int,
    lam: int,
    bx: int,
    by: int,
    bz: int,
    px: int,
    py: int,
    pz: int,
)
    requires
        t.wf_sub(n, lam, bx, by, bz),
        t.leaf_hit(n, lam, px, py, pz) >= 0,
        px >= 0 && py >= 0 && pz >= 0,
        bx == prefix_base(px, lam),
        by == prefix_base(py, lam),
        bz == prefix_base(pz, lam),
    ensures
        t.leaf_base@.contains_key(t.leaf_hit(n, lam, px, py, pz)),
        t.leaf_base@[t.leaf_hit(n, lam, px, py, pz)] == (LeafBase {
            bx: px - px % 8,
            by: py - py % 8,
            bz: pz - pz % 8,
        }),
    decreases lam,
{
    let s = path_slot(lam, px, py, pz);
    assert(0 <= s < 512);
    let c = t.nodes@[n].indices@[s];
    assert(c != VOXEL_IDX_EMPTY);
    assert(t.child_entry_ok(n, lam, bx, by, bz, s));
    lemma_strip_level(px, lam);
    lemma_strip_level(py, lam);
    lemma_strip_level(pz, lam);
    assert(s / 64 == (px / pow8(lam)) % 8 && (s / 8) % 8 == (py / pow8(lam)) % 8 && s % 8 == (pz
        / pow8(lam)) % 8) by {
        assert(0 <= (px / pow8(lam)) % 8 < 8);
        assert(0 <= (py / pow8(lam)) % 8 < 8);
        assert(0 <= (pz / pow8(lam)) % 8 < 8);
    }
    if lam == 1 {
        assert(pow8(1) == 8) by {
            lemma_pow8_unfold(1);
            assert(pow8(0) == 1) by { reveal_with_fuel(pow, 1); }
        }
        assert(bx + (s / 64) * pow8(1) == px - px % 8);
    } else {
        lemma_leaf_hit_base(
            t,
            c as int,
            lam - 1,
            bx + (s / 64) * pow8(lam),
            by + ((s / 8) % 8) * pow8(lam),
            bz + (s % 8) * pow8(lam),
            px,
            py,
            pz,
        );
    }
}

/// Walk outcomes depend on the node arena alone.
pub proof fn lemma_leaf_hit_nodes_congruent(
    t1: VoxelTree,
    t2: VoxelTree,
    n: int,
    lam: int,
    px: int,
    py: int,
    pz: int,
)
    requires
        t2.nodes@ == t1.nodes@,
    ensures
        t2.leaf_hit(n, lam, px, py, pz) == t1.leaf_hit(n, lam, px, py, pz),
    decreases lam,
{
    if lam >= 1 {
        let s = path_slot(lam, px, py, pz);
        let c = t1.nodes@[n].indices@[s];
        if c != VOXEL_IDX_EMPTY && lam > 1 {
            lemma_leaf_hit_nodes_congruent(t1, t2, c as int, lam - 1, px, py, pz);
        }
    }
}

/// Subtree well-formedness depends only on the node arena, the leaf count,
/// and the placement records — not on voxel values.
pub proof fn lemma_wf_sub_shape_congruent(
    t1: VoxelTree,
    t2: VoxelTree,
    n: int,
    lam: int,
    bx: int,
    by: int,
    bz: int,
)
    requires
        t1.wf_sub(n, lam, bx, by, bz),
        t2.nodes@ == t1.nodes@,
        t2.leafs@.len() == t1.leafs@.len(),
        t2.node_meta == t1.node_meta,
        t2.leaf_base == t1.leaf_base,
        t2.depth == t1.depth,
    ensures
        t2.wf_sub(n, lam, bx, by, bz),
    decreases lam,
{
    assert forall|s: int|
        0 <= s < 512 && #[trigger] t2.nodes@[n].indices@[s] != VOXEL_IDX_EMPTY implies {
        &&& t2.child_entry_ok(n, lam, bx, by, bz, s)
        &&& (lam > 1 ==> t2.wf_sub(
            t2.nodes@[n].indices@[s] as int,
            lam - 1,
            bx + (s / 64) * pow8(lam),
            by + ((s / 8) % 8) * pow8(lam),
            bz + (s % 8) * pow8(lam),
        ))
    } by {
        assert(t1.nodes@[n].indices@[s] != VOXEL_IDX_EMPTY);
        assert(t1.child_entry_ok(n, lam, bx, by, bz, s));
        if lam > 1 {
            lemma_wf_sub_shape_congruent(
                t1,
                t2,
                t1.nodes@[n].indices@[s] as int,
                lam - 1,
                bx + (s / 64) * pow8(lam),
                by + ((s / 8) % 8) * pow8(lam),
                bz + (s % 8) * pow8(lam),
            );
        }
    }
}

/// The invariant pieces `set_voxel`'s descent carries from one level to the
/// next: the chain of nodes materialized so far, their recorded placements,
/// and the walk's agreement with the tree as it stood before the descent.
pub open spec fn descent_inv(
    t0: VoxelTree,
    t: VoxelTree,
    parent: int,
    d: int,
    path: Seq<int>,
    gx: int,
    gy: int,
    gz: int,
) -> bool {
    let depth = t0.depth as int;
    &&& t.wf()
    &&& t0.wf()
    &&& t.depth == t0.depth
    &&& 1 <= d <= depth
    &&& t0.in_range(gx, gy, gz)
    &&& path.len() == depth - d + 1
    &&& path[0] == 0
    &&& parent == path[path.len() - 1]
    &&& (forall|i: int| 0 <= i < path.len() ==> 0 <= #[trigger] path[i] < t.nodes@.len())
    &&& (forall|i: int|
        0 <= i < path.len() - 1 ==> {
            let c = #[trigger] t.nodes@[path[i]].indices@[path_slot(depth - i, gx, gy, gz)];
            c != VOXEL_IDX_EMPTY && c as int == path[i + 1]
        })
    &&& (forall|i: int|
        0 <= i < path.len() ==> t.node_meta@.contains_key(#[trigger] path[i])
            && t.node_meta@[path[i]] == (NodeMeta {
            lam: depth - i,
            bx: prefix_base(gx, depth - i),
            by: prefix_base(gy, depth - i),
            bz: prefix_base(gz, depth - i),
        }))
    &&& t.wf_sub(
        parent,
        d,
        prefix_base(gx, d),
        prefix_base(gy, d),
        prefix_base(gz, d),
    )
    &&& (forall|qx: int, qy: int, qz: int|
        #[trigger] t0.in_range(qx, qy, qz) ==> t.lookup(qx, qy, qz) == t0.lookup(qx, qy, qz))
}

/// Following an occupied slot one level down: the walk agrees, and the
/// child's subtree is well-formed at the position's prefix cube.
#[verifier::rlimit(100)]
pub proof fn lemma_descend_step(t: VoxelTree, cur: int, d: int, gx: int, gy: int, gz: int)
    requires
        t.wf_sub(cur, d, prefix_base(gx, d), prefix_base(gy, d), prefix_base(gz, d)),
        d >= 2,
        gx >= 0 && gy >= 0 && gz >= 0,
        t.nodes@[cur].indices@[path_slot(d, gx, gy, gz)] != VOXEL_IDX_EMPTY,
    ensures
        ({
            let c = t.nodes@[cur].indices@[path_slot(d, gx, gy, gz)] as int;
            &&& 0 <= c < t.nodes@.len()
            &&& t.leaf_hit(cur, d, gx, gy, gz) == t.leaf_hit(c, d - 1, gx, gy, gz)
            &&& t.wf_sub(
                c,
                d - 1,
                prefix_base(gx, d - 1),
                prefix_base(gy, d - 1),
                prefix_base(gz, d - 1),
            )
        }),
{
    let smut = path_slot(d, gx, gy, gz);
    assert(0 <= smut < 512);
    assert(t.child_entry_ok(
        cur,
        d,
        prefix_base(gx, d),
        prefix_base(gy, d),
        prefix_base(gz, d),
        smut,
    ));
    lemma_strip_level(gx, d);
    lemma_strip_level(gy, d);
    lemma_strip_level(gz, d);
    assert(smut / 64 == (gx / pow8(d)) % 8 && (smut / 8) % 8 == (gy / pow8(d)) % 8 && smut % 8
        == (gz / pow8(d)) % 8) by {
        assert(0 <= (gx / pow8(d)) % 8 < 8);
        assert(0 <= (gy / pow8(d)) % 8 < 8);
        assert(0 <= (gz / pow8(d)) % 8 < 8);
    }
}

/// One descent step of `set_voxel` through an already-materialized child:
/// nothing changes, and the invariant moves down one level.
#[verifier::rlimit(100)]
#[verifier::spinoff_prover]
pub proof fn lemma_node_step_existing(
    t0: VoxelTree,
    t: VoxelTree,
    parent: int,
    d: int,
    path: Seq<int>,
    gx: int,
    gy: int,
    gz: int,
)
    requires
        descent_inv(t0, t, parent, d, path, gx, gy, gz),
        2 <= d,
        t.nodes@[parent].indices@[path_slot(d, gx, gy, gz)] != VOXEL_IDX_EMPTY,
    ensures
        ({
            let c = t.nodes@[parent].indices@[path_slot(d, gx, gy, gz)] as int;
            &&& descent_inv(t0, t, c, d - 1, path.push(c), gx, gy, gz)
            &&& t.missing_nodes(parent, d, gx, gy, gz) == t.missing_nodes(c, d - 1, gx, gy, gz)
            &&& t.missing_leaf(parent, d, gx, gy, gz) == t.missing_leaf(c, d - 1, gx, gy, gz)
            &&& 0 <= c < t.nodes@.len()
        }),
{
    let depth = t0.depth as int;
    let smut = path_slot(d, gx, gy, gz);
    let bx = prefix_base(gx, d);
    let by = prefix_base(gy, d);
    let bz = prefix_base(gz, d);
    assert(0 <= smut < 512);
    assert(t.child_entry_ok(parent, d, bx, by, bz, smut));
    let c = t.nodes@[parent].indices@[smut] as int;
    lemma_descend_step(t, parent, d, gx, gy, gz);
    lemma_strip_level(gx, d);
    lemma_strip_level(gy, d);
    lemma_strip_level(gz, d);
    assert(smut / 64 == (gx / pow8(d)) % 8 && (smut / 8) % 8 == (gy / pow8(d)) % 8 && smut % 8 == (
    gz / pow8(d)) % 8) by {
        assert(0 <= (gx / pow8(d)) % 8 < 8);
        assert(0 <= (gy / pow8(d)) % 8 < 8);
        assert(0 <= (gz / pow8(d)) % 8 < 8);
    }
    let path2 = path.push(c);
    assert forall|i: int| 0 <= i < path2.len() - 1 implies {
        let cc = #[trigger] t.nodes@[path2[i]].indices@[path_slot(depth - i, gx, gy, gz)];
        cc != VOXEL_IDX_EMPTY && cc as int == path2[i + 1]
    } by {
        if i < path.len() - 1 {
            assert(path2[i] == path[i] && path2[i + 1] == path[i + 1]);
        } else {
            assert(path2[i] == parent && path2[i + 1] == c && depth - i == d);
        }
    }
}

/// One descent step of `set_voxel` that materialized a fresh internal node.
#[verifier::rlimit(100)]
#[verifier::spinoff_prover]
pub proof fn lemma_node_step_fresh(
    t0: VoxelTree,
    pre: VoxelTree,
    new_t: VoxelTree,
    parent: int,
    d: int,
    path: Seq<int>,
    gx: int,
    gy: int,
    gz: int,
)
    requires
        descent_inv(t0, pre, parent, d, path, gx, gy, gz),
        2 <= d,
        new_t.nodes@.len() < VOXEL_IDX_EMPTY,
        new_t.arrays_wf(),
        pre.nodes@[parent].indices@[path_slot(d, gx, gy, gz)] == VOXEL_IDX_EMPTY,
        new_t.nodes@.len() == pre.nodes@.len() + 1,
        new_t.nodes@[parent].indices@ == pre.nodes@[parent].indices@.update(
            path_slot(d, gx, gy, gz),
            pre.nodes@.len() as u32,
        ),
        forall|i: int|
            0 <= i < pre.nodes@.len() && i != parent ==> new_t.nodes@[i] == pre.nodes@[i],
        forall|j: int|
            0 <= j < 512 ==> new_t.nodes@[pre.nodes@.len() as int].indices@[j]
                == VOXEL_IDX_EMPTY,
        new_t.leafs == pre.leafs,
        new_t.depth == pre.depth,
        new_t.leaf_base == pre.leaf_base,
        new_t.node_meta@ == pre.node_meta@.insert(
            pre.nodes@.len() as int,
            NodeMeta {
                lam: d - 1,
                bx: prefix_base(gx, d - 1),
                by: prefix_base(gy, d - 1),
                bz: prefix_base(gz, d - 1),
            },
        ),
    ensures
        ({
            let fresh = pre.nodes@.len() as int;
            &&& descent_inv(t0, new_t, fresh, d - 1, path.push(fresh), gx, gy, gz)
            &&& pre.missing_nodes(parent, d, gx, gy, gz) == d - 1
            &&& new_t.missing_nodes(fresh, d - 1, gx, gy, gz) == d - 2
            &&& pre.missing_leaf(parent, d, gx, gy, gz) == 1
            &&& new_t.missing_leaf(fresh, d - 1, gx, gy, gz) == 1
        }),
{
    let depth = t0.depth as int;
    let smut = path_slot(d, gx, gy, gz);
    let fresh = pre.nodes@.len() as int;
    let meta = NodeMeta {
        lam: d - 1,
        bx: prefix_base(gx, d - 1),
        by: prefix_base(gy, d - 1),
        bz: prefix_base(gz, d - 1),
    };
    assert(0 <= smut < 512);
    lemma_strip_level(gx, d);
    lemma_strip_level(gy, d);
    lemma_strip_level(gz, d);
    assert(smut / 64 == (gx / pow8(d)) % 8 && (smut / 8) % 8 == (gy / pow8(d)) % 8 && smut % 8
        == (gz / pow8(d)) % 8) by {
        assert(0 <= (gx / pow8(d)) % 8 < 8);
        assert(0 <= (gy / pow8(d)) % 8 < 8);
        assert(0 <= (gz / pow8(d)) % 8 < 8);
    }
    lemma_block_bound(gx, d, t0.depth as int);
    lemma_block_bound(gy, d, t0.depth as int);
    lemma_block_bound(gz, d, t0.depth as int);
    assert(node_insert_rel(pre, new_t, parent, smut, meta));
    assert(0 == parent ==> d == depth && prefix_base(gx, d) == 0 && prefix_base(gy, d) == 0
        && prefix_base(gz, d) == 0) by {
        if parent == 0 {
            assert(pre.node_meta@[0].lam == depth);
            assert(pre.node_meta@[path[path.len() - 1]].lam == depth - (path.len() - 1));
        }
    }
    lemma_node_insert_wf_sub(pre, new_t, parent, smut, meta, 0, depth, 0, 0, 0);
    assert(new_t.wf());
    assert forall|qx: int, qy: int, qz: int| #[trigger] t0.in_range(qx, qy, qz) implies
        new_t.lookup(qx, qy, qz) == t0.lookup(qx, qy, qz) by {
        lemma_node_insert_leaf_hit(pre, new_t, parent, smut, meta, 0, depth, 0, 0, 0, qx, qy, qz);
        assert(pre.lookup(qx, qy, qz) == t0.lookup(qx, qy, qz));
    }
    lemma_prefix_aligned(gx, d - 1);
    lemma_prefix_aligned(gy, d - 1);
    lemma_prefix_aligned(gz, d - 1);
    lemma_empty_node_wf_sub(new_t, fresh, d - 1, meta.bx, meta.by, meta.bz);
    let path2 = path.push(fresh);
    assert forall|i: int| 0 <= i < path2.len() - 1 implies {
        let cc = #[trigger] new_t.nodes@[path2[i]].indices@[path_slot(depth - i, gx, gy, gz)];
        cc != VOXEL_IDX_EMPTY && cc as int == path2[i + 1]
    } by {
        if i < path.len() - 1 {
            assert(pre.node_meta@[path[i]].lam == depth - i);
            assert(pre.node_meta@[parent].lam == d);
            assert(path[i] != parent);
            assert(new_t.nodes@[path2[i]] == pre.nodes@[path2[i]]);
            assert(path2[i] == path[i] && path2[i + 1] == path[i + 1]);
        } else {
            assert(path2[i] == parent && path2[i + 1] == fresh && depth - i == d);
        }
    }
    assert forall|i: int| 0 <= i < path2.len() implies new_t.node_meta@.contains_key(
        #[trigger] path2[i],
    ) && new_t.node_meta@[path2[i]] == (NodeMeta {
        lam: depth - i,
        bx: prefix_base(gx, depth - i),
        by: prefix_base(gy, depth - i),
        bz: prefix_base(gz, depth - i),
    }) by {
        if i < path.len() {
            assert(path2[i] == path[i]);
            assert(path[i] < fresh);
        } else {
            assert(path2[i] == fresh && depth - i == d - 1);
        }
    }
    assert(pre.missing_nodes(parent, d, gx, gy, gz) == d - 1);
    assert(new_t.missing_nodes(fresh, d - 1, gx, gy, gz) == d - 2) by {
        if d - 1 > 1 {
            assert(new_t.nodes@[fresh].indices@[path_slot(d - 1, gx, gy, gz)]
                == VOXEL_IDX_EMPTY);
        }
    }
    assert(new_t.missing_leaf(fresh, d - 1, gx, gy, gz) == 1) by {
        assert(new_t.nodes@[fresh].indices@[path_slot(d - 1, gx, gy, gz)] == VOXEL_IDX_EMPTY);
    }
}

/// The last descent step of `set_voxel` through an already-materialized
/// leaf: the walk from the root reaches that leaf, whose recorded block is
/// the position's block.
#[verifier::rlimit(100)]
pub proof fn lemma_leaf_step_existing(
    t0: VoxelTree,
    t: VoxelTree,
    parent: int,
    path: Seq<int>,
    gx: int,
    gy: int,
    gz: int,
)
    requires
        descent_inv(t0, t, parent, 1, path, gx, gy, gz),
        t.nodes@[parent].indices@[path_slot(1, gx, gy, gz)] != VOXEL_IDX_EMPTY,
    ensures
        ({
            let li = t.nodes@[parent].indices@[path_slot(1, gx, gy, gz)] as int;
            &&& 0 <= li < t.leafs@.len()
            &&& t.leaf_base@.contains_key(li)
            &&& t.leaf_base@[li] == (LeafBase {
                bx: gx - gx % 8,
                by: gy - gy % 8,
                bz: gz - gz % 8,
            })
            &&& t.leaf_hit(0, t0.depth as int, gx, gy, gz) == li
            &&& t.missing_nodes(parent, 1, gx, gy, gz) == 0
            &&& t.missing_leaf(parent, 1, gx, gy, gz) == 0
        }),
{
    let depth = t0.depth as int;
    let smut = path_slot(1, gx, gy, gz);
    let bx = prefix_base(gx, 1);
    let by = prefix_base(gy, 1);
    let bz = prefix_base(gz, 1);
    assert(0 <= smut < 512);
    assert(t.child_entry_ok(parent, 1, bx, by, bz, smut));
    lemma_strip_level(gx, 1);
    lemma_strip_level(gy, 1);
    lemma_strip_level(gz, 1);
    assert(pow8(1) == 8 && pow8(0) == 1) by {
        lemma_pow8_unfold(1);
        reveal_with_fuel(pow, 1);
    }
    assert(smut / 64 == (gx / pow8(1)) % 8 && (smut / 8) % 8 == (gy / pow8(1)) % 8 && smut % 8 == (
    gz / pow8(1)) % 8) by {
        assert(0 <= (gx / pow8(1)) % 8 < 8);
        assert(0 <= (gy / pow8(1)) % 8 < 8);
        assert(0 <= (gz / pow8(1)) % 8 < 8);
    }
    assert(bx + (smut / 64) * pow8(1) == gx - gx % 8);
    assert(by + ((smut / 8) % 8) * pow8(1) == gy - gy % 8);
    assert(bz + (smut % 8) * pow8(1) == gz - gz % 8);
    lemma_chain_eval(t, path, gx, gy, gz);
}

/// The last descent step of `set_voxel` where the leaf had to be
/// materialized: the fresh leaf is recorded at the position's block, the
/// walk from the root now reaches it, and every lookup still answers as it
/// did before the step (the fresh leaf is all-empty).
pub proof fn lemma_leaf_step_fresh(
    t0: VoxelTree,
    pre: VoxelTree,
    new_t: VoxelTree,
    parent: int,
    path: Seq<int>,
    gx: int,
    gy: int,
    gz: int,
)
    requires
        descent_inv(t0, pre, parent, 1, path, gx, gy, gz),
        new_t.leafs@.len() < VOXEL_IDX_EMPTY,
        new_t.arrays_wf(),
        pre.nodes@[parent].indices@[path_slot(1, gx, gy, gz)] == VOXEL_IDX_EMPTY,
        new_t.nodes@.len() == pre.nodes@.len(),
        new_t.nodes@[parent].indices@ == pre.nodes@[parent].indices@.update(
            path_slot(1, gx, gy, gz),
            pre.leafs@.len() as u32,
        ),
        forall|i: int|
            0 <= i < pre.nodes@.len() && i != parent ==> new_t.nodes@[i] == pre.nodes@[i],
        new_t.leafs@.len() == pre.leafs@.len() + 1,
        forall|i: int| 0 <= i < pre.leafs@.len() ==> new_t.leafs@[i] == pre.leafs@[i],
        forall|j: int|
            0 <= j < 512 ==> new_t.leafs@[pre.leafs@.len() as int].voxels@[j].data
                == VOXEL_IDX_EMPTY,
        new_t.depth == pre.depth,
        new_t.node_meta == pre.node_meta,
        new_t.leaf_base@ == pre.leaf_base@.insert(
            pre.leafs@.len() as int,
            LeafBase { bx: gx - gx % 8, by: gy - gy % 8, bz: gz - gz % 8 },
        ),
    ensures
        ({
            let fresh = pre.leafs@.len() as int;
            &&& new_t.wf()
            &&& new_t.depth == t0.depth
            &&& new_t.leaf_base@.contains_key(fresh)
            &&& new_t.leaf_base@[fresh] == (LeafBase {
                bx: gx - gx % 8,
                by: gy - gy % 8,
                bz: gz - gz % 8,
            })
            &&& new_t.leaf_hit(0, t0.depth as int, gx, gy, gz) == fresh
            &&& (forall|qx: int, qy: int, qz: int|
                #[trigger] t0.in_range(qx, qy, qz) ==> new_t.lookup(qx, qy, qz) == t0.lookup(
                    qx,
                    qy,
                    qz,
                ))
            &&& pre.missing_nodes(parent, 1, gx, gy, gz) == 0
            &&& pre.missing_leaf(parent, 1, gx, gy, gz) == 1
        }),
{
    let depth = t0.depth as int;
    let smut = path_slot(1, gx, gy, gz);
    let fresh = pre.leafs@.len() as int;
    let lb = LeafBase { bx: gx - gx % 8, by: gy - gy % 8, bz: gz - gz % 8 };
    assert(0 <= smut < 512);
    lemma_pow8_small();
    lemma_strip_level(gx, 1);
    lemma_strip_level(gy, 1);
    lemma_strip_level(gz, 1);
    assert(smut / 64 == (gx / pow8(1)) % 8 && (smut / 8) % 8 == (gy / pow8(1)) % 8 && smut % 8
        == (gz / pow8(1)) % 8) by {
        assert(0 <= (gx / pow8(1)) % 8 < 8);
        assert(0 <= (gy / pow8(1)) % 8 < 8);
        assert(0 <= (gz / pow8(1)) % 8 < 8);
    }
    lemma_block_bound(gx, 1, depth);
    lemma_block_bound(gy, 1, depth);
    lemma_block_bound(gz, 1, depth);
    assert(leaf_insert_rel(pre, new_t, parent, smut, lb));
    assert(0 == parent ==> 1 == depth && prefix_base(gx, 1) == 0 && prefix_base(gy, 1) == 0
        && prefix_base(gz, 1) == 0) by {
        if parent == 0 {
            assert(pre.node_meta@[0].lam == depth);
            assert(pre.node_meta@[path[path.len() - 1]].lam == depth - (path.len() - 1));
        }
    }
    lemma_leaf_insert_wf_sub(pre, new_t, parent, smut, lb, 0, depth, 0, 0, 0);
    assert(new_t.wf());
    assert forall|qx: int, qy: int, qz: int| #[trigger] t0.in_range(qx, qy, qz) implies
        new_t.lookup(qx, qy, qz) == t0.lookup(qx, qy, qz) by {
        lemma_leaf_insert_leaf_hit(pre, new_t, parent, smut, lb, 0, depth, 0, 0, 0, qx, qy, qz);
        lemma_leaf_hit_bounds(pre, 0, depth, 0, 0, 0, qx, qy, qz);
        assert(0 <= voxel_slot(qx, qy, qz) < 512);
        assert(pre.lookup(qx, qy, qz) == t0.lookup(qx, qy, qz));
    }
    assert forall|i: int| 0 <= i < path.len() - 1 implies {
        let cc = #[trigger] new_t.nodes@[path[i]].indices@[path_slot(depth - i, gx, gy, gz)];
        cc != VOXEL_IDX_EMPTY && cc as int == path[i + 1]
    } by {
        assert(pre.node_meta@[path[i]].lam == depth - i);
        assert(pre.node_meta@[parent].lam == 1);
        assert(path[i] != parent);
        assert(new_t.nodes@[path[i]] == pre.nodes@[path[i]]);
        assert(pre.nodes@[path[i]].indices@[path_slot(depth - i, gx, gy, gz)] as int == path[i
            + 1]);
    }
    lemma_chain_eval(new_t, path, gx, gy, gz);
    assert(new_t.nodes@[parent].indices@[smut] == fresh as u32);
    assert(new_t.leaf_hit(parent, 1, gx, gy, gz) == fresh);
}

/// Writing one voxel into the leaf its position's walk reaches changes that
/// position's lookup to the written value and no other lookup at all.
pub proof fn lemma_voxel_write(
    t0: VoxelTree,
    pre: VoxelTree,
    new_t: VoxelTree,
    li: int,
    k: int,
    v: Voxel,
    gx: int,
    gy: int,
    gz: int,
)
    requires
        pre.wf(),
        t0.wf(),
        pre.depth == t0.depth,
        t0.in_range(gx, gy, gz),
        0 <= li < pre.leafs@.len(),
        k == voxel_slot(gx, gy, gz),
        pre.leaf_hit(0, pre.depth as int, gx, gy, gz) == li,
        pre.leaf_base@.contains_key(li),
        pre.leaf_base@[li] == (LeafBase { bx: gx - gx % 8, by: gy - gy % 8, bz: gz - gz % 8 }),
        forall|qx: int, qy: int, qz: int|
            #[trigger] t0.in_range(qx, qy, qz) ==> pre.lookup(qx, qy, qz) == t0.lookup(qx, qy, qz),
        new_t.nodes@ == pre.nodes@,
        new_t.leafs@.len() == pre.leafs@.len(),
        new_t.leafs@[li].voxels@ == pre.leafs@[li].voxels@.update(k, v),
        forall|i: int| 0 <= i < pre.leafs@.len() && i != li ==> new_t.leafs@[i] == pre.leafs@[i],
        new_t.depth == pre.depth,
        new_t.node_meta == pre.node_meta,
        new_t.leaf_base == pre.leaf_base,
        new_t.arrays_wf(),
        pre.arrays_wf(),
    ensures
        new_t.wf(),
        new_t.lookup(gx, gy, gz) == v.data,
        forall|qx: int, qy: int, qz: int|
            #[trigger] t0.in_range(qx, qy, qz) && !(qx == gx && qy == gy && qz == gz)
                ==> new_t.lookup(qx, qy, qz) == t0.lookup(qx, qy, qz),
{
    let depth = pre.depth as int;
    lemma_wf_sub_shape_congruent(pre, new_t, 0, depth, 0, 0, 0);
    lemma_leaf_hit_nodes_congruent(pre, new_t, 0, depth, gx, gy, gz);
    assert(0 <= k < 512);
    assert(new_t.lookup(gx, gy, gz) == v.data);
    assert forall|qx: int, qy: int, qz: int|
        #[trigger] t0.in_range(qx, qy, qz) && !(qx == gx && qy == gy && qz == gz) implies
        new_t.lookup(qx, qy, qz) == t0.lookup(qx, qy, qz) by {
        lemma_leaf_hit_nodes_congruent(pre, new_t, 0, depth, qx, qy, qz);
        let h = pre.leaf_hit(0, depth, qx, qy, qz);
        lemma_leaf_hit_bounds(pre, 0, depth, 0, 0, 0, qx, qy, qz);
        assert(0 <= voxel_slot(qx, qy, qz) < 512);
        if h == li && voxel_slot(qx, qy, qz) == k {
            lemma_pow8_unfold(depth + 1);
            lemma_pow8_pos(depth);
            lemma_small_mod(qx as nat, pow8(depth + 1) as nat);
            lemma_small_mod(qy as nat, pow8(depth + 1) as nat);
            lemma_small_mod(qz as nat, pow8(depth + 1) as nat);
            lemma_leaf_hit_base(pre, 0, depth, 0, 0, 0, qx, qy, qz);
            assert(qx - qx % 8 == gx - gx % 8);
            assert(qy - qy % 8 == gy - gy % 8);
            assert(qz - qz % 8 == gz - gz % 8);
            assert(qx % 8 == gx % 8 && qy % 8 == gy % 8 && qz % 8 == gz % 8) by {
                assert(0 <= qx % 8 < 8 && 0 <= gx % 8 < 8);
                assert(0 <= qy % 8 < 8 && 0 <= gy % 8 < 8);
                assert(0 <= qz % 8 < 8 && 0 <= gz % 8 < 8);
            }
            assert(false);
        }
    }
}

/// Splitting a coordinate within a window into its level digit and rest.
pub proof fn lemma_digit_decompose(q: int, m: int, dig: int)
    requires
        m >= 1,
        0 <= q < 8 * m,
        (q / m) % 8 == dig,
    ensures
        q / m == dig,
        q == dig * m + q % m,
        0 <= q % m < m,
        0 <= dig < 8,
{
    lemma_fundamental_div_mod(q, m);
    lemma_div_pos_is_pos(q, m);
    assert(q / m < 8) by {
        if q / m >= 8 {
            lemma_mul_inequality(8, q / m, m);
            lemma_mul_is_commutative(8, m);
            lemma_mul_is_commutative(q / m, m);
        }
    }
    lemma_small_mod((q / m) as nat, 8);
    lemma_mul_is_commutative(m, q / m);
}

/// Composing a level digit with a rest gives a coordinate in the window
/// whose level digit is that digit.
pub proof fn lemma_digit_compose(r: int, m: int, dig: int)
    requires
        m >= 1,
        0 <= r < m,
        0 <= dig < 8,
    ensures
        ((dig * m + r) / m) % 8 == dig,
        0 <= dig * m + r < 8 * m,
        (dig * m + r) % m == r,
{
    lemma_div_multiples_vanish_fancy(dig, r, m);
    lemma_mul_is_commutative(dig, m);
    lemma_small_mod(dig as nat, 8);
    lemma_mul_inequality(dig, 7, m);
    lemma_mul_nonnegative(dig, m);
    lemma_fundamental_div_mod(dig * m + r, m);
}

/// A walk below level `lam` only reads a position's low `lam + 1` digits:
/// shifting the position by multiples of the subtree edge changes nothing.
pub proof fn lemma_leaf_hit_shift(
    t: VoxelTree,
    n: int,
    lam: int,
    qx: int,
    qy: int,
    qz: int,
    sx: int,
    sy: int,
    sz: int,
)
    requires
        qx >= 0 && qy >= 0 && qz >= 0,
        sx >= 0 && sy >= 0 && sz >= 0,
        sx % pow8(lam + 1) == 0,
        sy % pow8(lam + 1) == 0,
        sz % pow8(lam + 1) == 0,
    ensures
        t.leaf_hit(n, lam, qx + sx, qy + sy, qz + sz) == t.leaf_hit(n, lam, qx, qy, qz),
    decreases lam,
{
    if lam >= 1 {
        let m = pow8(lam);
        lemma_pow8_pos(lam);
        lemma_pow8_pos(lam + 1);
        lemma_pow8_unfold(lam + 1);
        lemma_fundamental_div_mod(sx, pow8(lam + 1));
        lemma_fundamental_div_mod(sy, pow8(lam + 1));
        lemma_fundamental_div_mod(sz, pow8(lam + 1));
        let kx = sx / pow8(lam + 1);
        let ky = sy / pow8(lam + 1);
        let kz = sz / pow8(lam + 1);
        lemma_div_pos_is_pos(sx, pow8(lam + 1));
        lemma_div_pos_is_pos(sy, pow8(lam + 1));
        lemma_div_pos_is_pos(sz, pow8(lam + 1));
        assert(sx == (8 * kx) * m && sy == (8 * ky) * m && sz == (8 * kz) * m) by {
            lemma_mul_is_commutative(pow8(lam + 1), kx);
            lemma_mul_is_commutative(pow8(lam + 1), ky);
            lemma_mul_is_commutative(pow8(lam + 1), kz);
            assert(kx * (8 * m) == (8 * kx) * m) by (nonlinear_arith);
            assert(ky * (8 * m) == (8 * ky) * m) by (nonlinear_arith);
            assert(kz * (8 * m) == (8 * kz) * m) by (nonlinear_arith);
        }
        assert(((qx + sx) / m) % 8 == (qx / m) % 8) by {
            lemma_hoist_over_denominator(qx, 8 * kx, m as nat);
            lemma_mod_multiples_vanish(kx, qx / m, 8);
        }
        assert(((qy + sy) / m) % 8 == (qy / m) % 8) by {
            lemma_hoist_over_denominator(qy, 8 * ky, m as nat);
            lemma_mod_multiples_vanish(ky, qy / m, 8);
        }
        assert(((qz + sz) / m) % 8 == (qz / m) % 8) by {
            lemma_hoist_over_denominator(qz, 8 * kz, m as nat);
            lemma_mod_multiples_vanish(kz, qz / m, 8);
        }
        assert(path_slot(lam, qx + sx, qy + sy, qz + sz) == path_slot(lam, qx, qy, qz));
        let s = path_slot(lam, qx, qy, qz);
        let c = t.nodes@[n].indices@[s];
        if c != VOXEL_IDX_EMPTY && lam > 1 {
            lemma_aligned_down(sx, lam);
            lemma_aligned_down(sy, lam);
            lemma_aligned_down(sz, lam);
            lemma_leaf_hit_shift(t, c as int, lam - 1, qx, qy, qz, sx, sy, sz);
        }
    }
}

/// The in-leaf voxel slot likewise only reads the low digit.
pub proof fn lemma_voxel_slot_shift(
    qx: int,
    qy: int,
    qz: int,
    sx: int,
    sy: int,
    sz: int,
)
    requires
        sx % 8 == 0 && sy % 8 == 0 && sz % 8 == 0,
    ensures
        voxel_slot(qx + sx, qy + sy, qz + sz) == voxel_slot(qx, qy, qz),
{
    lemma_fundamental_div_mod(sx, 8);
    lemma_fundamental_div_mod(sy, 8);
    lemma_fundamental_div_mod(sz, 8);
    lemma_mod_multiples_vanish(sx / 8, qx, 8);
    lemma_mod_multiples_vanish(sy / 8, qy, 8);
    lemma_mod_multiples_vanish(sz / 8, qz, 8);
}

/// The occupied positions of a node's cube that fall in one occupied slot's
/// window are exactly that child subtree's occupied positions, shifted by
/// the child's offset within the cube.
#[verifier::rlimit(100)]
#[verifier::spinoff_prover]
pub proof fn lemma_bbox_step_node(
    t: VoxelTree,
    n: int,
    lam: int,
    bx: int,
    by: int,
    bz: int,
    s: int,
)
    requires
        t.wf_sub(n, lam, bx, by, bz),
        lam >= 2,
        0 <= s < 512,
        t.nodes@[n].indices@[s] != VOXEL_IDX_EMPTY,
    ensures
        ({
            let c = t.nodes@[n].indices@[s] as int;
            let ox = (s / 64) * pow8(lam);
            let oy = ((s / 8) % 8) * pow8(lam);
            let oz = (s % 8) * pow8(lam);
            &&& (forall|qx: int, qy: int, qz: int|
                #[trigger] t.sub_occupied(n, lam, qx, qy, qz) && path_slot(lam, qx, qy, qz) == s
                    ==> t.sub_occupied(c, lam - 1, qx - ox, qy - oy, qz - oz))
            &&& (forall|rx: int, ry: int, rz: int|
                #[trigger] t.sub_occupied(c, lam - 1, rx, ry, rz) ==> t.sub_occupied(
                    n,
                    lam,
                    rx + ox,
                    ry + oy,
                    rz + oz,
                ) && path_slot(lam, rx + ox, ry + oy, rz + oz) == s)
        }),
{
    let c = t.nodes@[n].indices@[s] as int;
    let m = pow8(lam);
    let ox = (s / 64) * m;
    let oy = ((s / 8) % 8) * m;
    let oz = (s % 8) * m;
    lemma_pow8_pos(lam);
    lemma_pow8_pos(lam - 1);
    lemma_pow8_unfold(lam);
    lemma_pow8_unfold(lam + 1);
    assert(ox % m == 0 && oy % m == 0 && oz % m == 0) by {
        lemma_mod_multiples_basic(s / 64, m);
        lemma_mod_multiples_basic((s / 8) % 8, m);
        lemma_mod_multiples_basic(s % 8, m);
    }
    assert(ox % 8 == 0 && oy % 8 == 0 && oz % 8 == 0) by {
        assert((s / 64) * (8 * pow8(lam - 1)) == ((s / 64) * pow8(lam - 1)) * 8)
            by (nonlinear_arith);
        assert(((s / 8) % 8) * (8 * pow8(lam - 1)) == (((s / 8) % 8) * pow8(lam - 1)) * 8)
            by (nonlinear_arith);
        assert((s % 8) * (8 * pow8(lam - 1)) == ((s % 8) * pow8(lam - 1)) * 8)
            by (nonlinear_arith);
        lemma_mod_multiples_basic((s / 64) * pow8(lam - 1), 8);
        lemma_mod_multiples_basic(((s / 8) % 8) * pow8(lam - 1), 8);
        lemma_mod_multiples_basic((s % 8) * pow8(lam - 1), 8);
    }
    assert(ox >= 0 && oy >= 0 && oz >= 0) by {
        lemma_mul_nonnegative(s / 64, m);
        lemma_mul_nonnegative((s / 8) % 8, m);
        lemma_mul_nonnegative(s % 8, m);
    }
    assert forall|qx: int, qy: int, qz: int|
        #[trigger] t.sub_occupied(n, lam, qx, qy, qz) && path_slot(lam, qx, qy, qz) == s implies
        t.sub_occupied(c, lam - 1, qx - ox, qy - oy, qz - oz) by {
        assert((qx / m) % 8 == s / 64 && (qy / m) % 8 == (s / 8) % 8 && (qz / m) % 8 == s % 8) by {
            assert(0 <= (qx / m) % 8 < 8);
            assert(0 <= (qy / m) % 8 < 8);
            assert(0 <= (qz / m) % 8 < 8);
        }
        lemma_digit_decompose(qx, m, s / 64);
        lemma_digit_decompose(qy, m, (s / 8) % 8);
        lemma_digit_decompose(qz, m, s % 8);
        let rx = qx - ox;
        let ry = qy - oy;
        let rz = qz - oz;
        assert(0 <= rx < m && 0 <= ry < m && 0 <= rz < m);
        assert(t.leaf_hit(n, lam, qx, qy, qz) == t.leaf_hit(c, lam - 1, qx, qy, qz));
        lemma_leaf_hit_shift(t, c, lam - 1, rx, ry, rz, ox, oy, oz);
        lemma_voxel_slot_shift(rx, ry, rz, ox, oy, oz);
    }
    assert forall|rx: int, ry: int, rz: int|
        #[trigger] t.sub_occupied(c, lam - 1, rx, ry, rz) implies t.sub_occupied(
        n,
        lam,
        rx + ox,
        ry + oy,
        rz + oz,
    ) && path_slot(lam, rx + ox, ry + oy, rz + oz) == s by {
        lemma_digit_compose(rx, m, s / 64);
        lemma_digit_compose(ry, m, (s / 8) % 8);
        lemma_digit_compose(rz, m, s % 8);
        let qx = rx + ox;
        let qy = ry + oy;
        let qz = rz + oz;
        assert(path_slot(lam, qx, qy, qz) == s);
        assert(t.leaf_hit(n, lam, qx, qy, qz) == t.leaf_hit(c, lam - 1, qx, qy, qz));
        lemma_leaf_hit_shift(t, c, lam - 1, rx, ry, rz, ox, oy, oz);
        lemma_voxel_slot_shift(rx, ry, rz, ox, oy, oz);
    }
}

/// The occupied positions of a leaf-parent's cube that fall in one occupied
/// slot's window are exactly that leaf's set voxels, shifted by the leaf's
/// offset within the cube.
#[verifier::rlimit(100)]
#[verifier::spinoff_prover]
pub proof fn lemma_bbox_step_leaf(
    t: VoxelTree,
    n: int,
    bx: int,
    by: int,
    bz: int,
    s: int,
)
    requires
        t.wf_sub(n, 1, bx, by, bz),
        0 <= s < 512,
        t.nodes@[n].indices@[s] != VOXEL_IDX_EMPTY,
        t.arrays_wf(),
    ensures
        ({
            let li = t.nodes@[n].indices@[s] as int;
            let lv = t.leafs@[li].voxels@;
            let ox = (s / 64) * 8;
            let oy = ((s / 8) % 8) * 8;
            let oz = (s % 8) * 8;
            &&& 0 <= li < t.leafs@.len()
            &&& (forall|qx: int, qy: int, qz: int|
                #[trigger] t.sub_occupied(n, 1, qx, qy, qz) && path_slot(1, qx, qy, qz) == s
                    ==> 0 <= qx - ox < 8 && 0 <= qy - oy < 8 && 0 <= qz - oz < 8
                    && lv[spec_slot_index(qx - ox, qy - oy, qz - oz)].data != VOXEL_IDX_EMPTY)
            &&& (forall|sl: int|
                0 <= sl < 512 && lv[sl].data != VOXEL_IDX_EMPTY ==> #[trigger] t.sub_occupied(
                    n,
                    1,
                    sl / 64 + ox,
                    (sl / 8) % 8 + oy,
                    sl % 8 + oz,
                ) && path_slot(1, sl / 64 + ox, (sl / 8) % 8 + oy, sl % 8 + oz) == s)
        }),
{
    let li = t.nodes@[n].indices@[s] as int;
    let lv = t.leafs@[li].voxels@;
    let ox = (s / 64) * 8;
    let oy = ((s / 8) % 8) * 8;
    let oz = (s % 8) * 8;
    assert(pow8(2) == 64 && pow8(1) == 8 && pow8(0) == 1) by {
        lemma_pow8_unfold(2);
        lemma_pow8_unfold(1);
        reveal_with_fuel(pow, 1);
    }
    assert(t.child_entry_ok(n, 1, bx, by, bz, s));
    assert forall|qx: int, qy: int, qz: int|
        #[trigger] t.sub_occupied(n, 1, qx, qy, qz) && path_slot(1, qx, qy, qz) == s implies 0 <= qx
        - ox < 8 && 0 <= qy - oy < 8 && 0 <= qz - oz < 8 && lv[spec_slot_index(
        qx - ox,
        qy - oy,
        qz - oz,
    )].data != VOXEL_IDX_EMPTY by {
        assert((qx / 8) % 8 == s / 64 && (qy / 8) % 8 == (s / 8) % 8 && (qz / 8) % 8 == s % 8) by {
            assert(0 <= (qx / 8) % 8 < 8);
            assert(0 <= (qy / 8) % 8 < 8);
            assert(0 <= (qz / 8) % 8 < 8);
        }
        lemma_digit_decompose(qx, 8, s / 64);
        lemma_digit_decompose(qy, 8, (s / 8) % 8);
        lemma_digit_decompose(qz, 8, s % 8);
        assert(t.leaf_hit(n, 1, qx, qy, qz) == li);
        assert(voxel_slot(qx, qy, qz) == spec_slot_index(qx - ox, qy - oy, qz - oz));
    }
    assert forall|sl: int| 0 <= sl < 512 && lv[sl].data != VOXEL_IDX_EMPTY implies
        #[trigger] t.sub_occupied(n, 1, sl / 64 + ox, (sl / 8) % 8 + oy, sl % 8 + oz)
        && path_slot(1, sl / 64 + ox, (sl / 8) % 8 + oy, sl % 8 + oz) == s by {
        lemma_digit_compose(sl / 64, 8, s / 64);
        lemma_digit_compose((sl / 8) % 8, 8, (s / 8) % 8);
        lemma_digit_compose(sl % 8, 8, s % 8);
        let qx = sl / 64 + ox;
        let qy = (sl / 8) % 8 + oy;
        let qz = sl % 8 + oz;
        assert(qx == (s / 64) * 8 + sl / 64 && qy == ((s / 8) % 8) * 8 + (sl / 8) % 8 && qz == (s
            % 8) * 8 + sl % 8);
        assert(path_slot(1, qx, qy, qz) == s);
        assert(t.leaf_hit(n, 1, qx, qy, qz) == li);
        assert(voxel_slot(qx, qy, qz) == sl);
    }
}

/// An occupied slot of a well-formed node keeps its whole window inside the
/// covered cube (relative to the node's origin).
pub proof fn lemma_slot_window_in_extent(
    t: VoxelTree,
    n: int,
    lam: int,
    bx: int,
    by: int,
    bz: int,
    s: int,
)
    requires
        t.wf_sub(n, lam, bx, by, bz),
        0 <= s < 512,
        t.nodes@[n].indices@[s] != VOXEL_IDX_EMPTY,
    ensures
        (s / 64) * pow8(lam) + pow8(lam) <= t.extent() - bx,
        ((s / 8) % 8) * pow8(lam) + pow8(lam) <= t.extent() - by,
        (s % 8) * pow8(lam) + pow8(lam) <= t.extent() - bz,
        0 <= (s / 64) * pow8(lam),
        0 <= ((s / 8) % 8) * pow8(lam),
        0 <= (s % 8) * pow8(lam),
{
    assert(t.child_entry_ok(n, lam, bx, by, bz, s));
    lemma_pow8_pos(lam);
    lemma_mul_nonnegative(s / 64, pow8(lam));
    lemma_mul_nonnegative((s / 8) % 8, pow8(lam));
    lemma_mul_nonnegative(s % 8, pow8(lam));
}

/// The box `[b0, b1)` tightly bounds the occupied positions (relative to
/// node `n`'s origin) whose walk enters slot `s`.
pub open spec fn slot_box_tight(
    t: VoxelTree,
    n: int,
    lam: int,
    s: int,
    b0x: int,
    b0y: int,
    b0z: int,
    b1x: int,
    b1y: int,
    b1z: int,
) -> bool {
    &&& (forall|qx: int, qy: int, qz: int|
        #[trigger] t.sub_occupied(n, lam, qx, qy, qz) && path_slot(lam, qx, qy, qz) == s ==> b0x
            <= qx < b1x && b0y <= qy < b1y && b0z <= qz < b1z)
    &&& (exists|qx: int, qy: int, qz: int|
        #[trigger] t.sub_occupied(n, lam, qx, qy, qz) && path_slot(lam, qx, qy, qz) == s && qx
            == b0x)
    &&& (exists|qx: int, qy: int, qz: int|
        #[trigger] t.sub_occupied(n, lam, qx, qy, qz) && path_slot(lam, qx, qy, qz) == s && qx
            == b1x - 1)
    &&& (exists|qx: int, qy: int, qz: int|
        #[trigger] t.sub_occupied(n, lam, qx, qy, qz) && path_slot(lam, qx, qy, qz) == s && qy
            == b0y)
    &&& (exists|qx: int, qy: int, qz: int|
        #[trigger] t.sub_occupied(n, lam, qx, qy, qz) && path_slot(lam, qx, qy, qz) == s && qy
            == b1y - 1)
    &&& (exists|qx: int, qy: int, qz: int|
        #[trigger] t.sub_occupied(n, lam, qx, qy, qz) && path_slot(lam, qx, qy, qz) == s && qz
            == b0z)
    &&& (exists|qx: int, qy: int, qz: int|
        #[trigger] t.sub_occupied(n, lam, qx, qy, qz) && path_slot(lam, qx, qy, qz) == s && qz
            == b1z - 1)
}

/// No position whose walk enters a slot below `upto` is occupied.
pub open spec fn bbox_none(t: VoxelTree, n: int, lam: int, upto: int) -> bool {
    forall|qx: int, qy: int, qz: int|
        #[trigger] t.sub_occupied(n, lam, qx, qy, qz) && path_slot(lam, qx, qy, qz) < upto
            ==> false
}

/// The box `[mn, mx)` tightly bounds the occupied positions whose walk
/// enters a slot below `upto`, with at least one such position.
pub open spec fn bbox_inv(
    t: VoxelTree,
    n: int,
    lam: int,
    upto: int,
    mnx: int,
    mny: int,
    mnz: int,
    mxx: int,
    mxy: int,
    mxz: int,
) -> bool {
    &&& 0 <= mnx < mxx <= pow8(lam + 1)
    &&& 0 <= mny < mxy <= pow8(lam + 1)
    &&& 0 <= mnz < mxz <= pow8(lam + 1)
    &&& (forall|qx: int, qy: int, qz: int|
        #[trigger] t.sub_occupied(n, lam, qx, qy, qz) && path_slot(lam, qx, qy, qz) < upto ==> mnx
            <= qx < mxx && mny <= qy < mxy && mnz <= qz < mxz)
    &&& (exists|qx: int, qy: int, qz: int|
        #[trigger] t.sub_occupied(n, lam, qx, qy, qz) && path_slot(lam, qx, qy, qz) < upto && qx
            == mnx)
    &&& (exists|qx: int, qy: int, qz: int|
        #[trigger] t.sub_occupied(n, lam, qx, qy, qz) && path_slot(lam, qx, qy, qz) < upto && qx
            == mxx - 1)
    &&& (exists|qx: int, qy: int, qz: int|
        #[trigger] t.sub_occupied(n, lam, qx, qy, qz) && path_slot(lam, qx, qy, qz) < upto && qy
            == mny)
    &&& (exists|qx: int, qy: int, qz: int|
        #[trigger] t.sub_occupied(n, lam, qx, qy, qz) && path_slot(lam, qx, qy, qz) < upto && qy
            == mxy - 1)
    &&& (exists|qx: int, qy: int, qz: int|
        #[trigger] t.sub_occupied(n, lam, qx, qy, qz) && path_slot(lam, qx, qy, qz) < upto && qz
            == mnz)
    &&& (exists|qx: int, qy: int, qz: int|
        #[trigger] t.sub_occupied(n, lam, qx, qy, qz) && path_slot(lam, qx, qy, qz) < upto && qz
            == mxz - 1)
}

/// Containment half of `lemma_slot_box_leaf`: every occupied position of
/// the slot's window lies in the leaf's shifted local box.
#[verifier::rlimit(100)]
#[verifier::spinoff_prover]
pub proof fn lemma_slot_box_leaf_contain(
    t: VoxelTree,
    n: int,
    bx: int,
    by: int,
    bz: int,
    s: int,
    c0: IVec3,
    c1: IVec3,
)
    requires
        t.wf_sub(n, 1, bx, by, bz),
        t.arrays_wf(),
        0 <= s < 512,
        t.nodes@[n].indices@[s] != VOXEL_IDX_EMPTY,
        ({
            let lv = t.leafs@[t.nodes@[n].indices@[s] as int].voxels@;
            forall|sl: int|
                0 <= sl < 512 && lv[sl].data != VOXEL_IDX_EMPTY ==> c0.x <= sl / 64 < c1.x && c0.y
                    <= (sl / 8) % 8 < c1.y && c0.z <= sl % 8 < c1.z
        }),
    ensures
        forall|qx: int, qy: int, qz: int|
            #[trigger] t.sub_occupied(n, 1, qx, qy, qz) && path_slot(1, qx, qy, qz) == s ==> (s
                / 64) * 8 + c0.x <= qx < (s / 64) * 8 + c1.x && ((s / 8) % 8) * 8 + c0.y <= qy < ((
            s / 8) % 8) * 8 + c1.y && (s % 8) * 8 + c0.z <= qz < (s % 8) * 8 + c1.z,
{
    let li = t.nodes@[n].indices@[s] as int;
    let lv = t.leafs@[li].voxels@;
    let ox = (s / 64) * 8;
    let oy = ((s / 8) % 8) * 8;
    let oz = (s % 8) * 8;
    lemma_bbox_step_leaf(t, n, bx, by, bz, s);
    assert forall|qx: int, qy: int, qz: int|
        #[trigger] t.sub_occupied(n, 1, qx, qy, qz) && path_slot(1, qx, qy, qz) == s implies ox
        + c0.x <= qx < ox + c1.x && oy + c0.y <= qy < oy + c1.y && oz + c0.z <= qz < oz + c1.z by {
        let sl = spec_slot_index(qx - ox, qy - oy, qz - oz);
        assert(lv[sl].data != VOXEL_IDX_EMPTY);
        assert(sl / 64 == qx - ox && (sl / 8) % 8 == qy - oy && sl % 8 == qz - oz);
    }
}

/// A set voxel slot of a leaf marks its shifted position occupied in the
/// leaf's parent.
#[verifier::rlimit(100)]
#[verifier::spinoff_prover]
pub proof fn lemma_leaf_occupied_at(
    t: VoxelTree,
    n: int,
    bx: int,
    by: int,
    bz: int,
    s: int,
    sl: int,
)
    requires
        t.wf_sub(n, 1, bx, by, bz),
        t.arrays_wf(),
        0 <= s < 512,
        t.nodes@[n].indices@[s] != VOXEL_IDX_EMPTY,
        0 <= sl < 512,
        t.leafs@[t.nodes@[n].indices@[s] as int].voxels@[sl].data != VOXEL_IDX_EMPTY,
    ensures
        t.sub_occupied(
            n,
            1,
            sl / 64 + (s / 64) * 8,
            (sl / 8) % 8 + ((s / 8) % 8) * 8,
            sl % 8 + (s % 8) * 8,
        ),
        path_slot(
            1,
            sl / 64 + (s / 64) * 8,
            (sl / 8) % 8 + ((s / 8) % 8) * 8,
            sl % 8 + (s % 8) * 8,
        ) == s,
{
    let li = t.nodes@[n].indices@[s] as int;
    lemma_pow8_small();
    lemma_digit_compose(sl / 64, 8, s / 64);
    lemma_digit_compose((sl / 8) % 8, 8, (s / 8) % 8);
    lemma_digit_compose(sl % 8, 8, s % 8);
    let qx = sl / 64 + (s / 64) * 8;
    let qy = (sl / 8) % 8 + ((s / 8) % 8) * 8;
    let qz = sl % 8 + (s % 8) * 8;
    assert(qx == (s / 64) * 8 + sl / 64 && qy == ((s / 8) % 8) * 8 + (sl / 8) % 8 && qz == (s % 8)
        * 8 + sl % 8);
    assert(path_slot(1, qx, qy, qz) == s);
    assert(t.leaf_hit(n, 1, qx, qy, qz) == li);
    assert(voxel_slot(qx, qy, qz) == sl);
    assert(t.child_entry_ok(n, 1, bx, by, bz, s));
}

/// Lower-bound witnesses for `lemma_slot_box_leaf`.
#[verifier::rlimit(100)]
#[verifier::spinoff_prover]
pub proof fn lemma_slot_box_leaf_lo(
    t: VoxelTree,
    n: int,
    bx: int,
    by: int,
    bz: int,
    s: int,
    c0: IVec3,
    c1: IVec3,
)
    requires
        t.wf_sub(n, 1, bx, by, bz),
        t.arrays_wf(),
        0 <= s < 512,
        t.nodes@[n].indices@[s] != VOXEL_IDX_EMPTY,
        ({
            let lv = t.leafs@[t.nodes@[n].indices@[s] as int].voxels@;
            &&& 0 <= c0.x < c1.x <= 8
            &&& 0 <= c0.y < c1.y <= 8
            &&& 0 <= c0.z < c1.z <= 8
            &&& (forall|sl: int|
                0 <= sl < 512 && lv[sl].data != VOXEL_IDX_EMPTY ==> c0.x <= sl / 64 < c1.x && c0.y
                    <= (sl / 8) % 8 < c1.y && c0.z <= sl % 8 < c1.z)
            &&& (exists|sl: int|
                0 <= sl < 512 && lv[sl].data != VOXEL_IDX_EMPTY && sl / 64 == c0.x)
            &&& (exists|sl: int|
                0 <= sl < 512 && lv[sl].data != VOXEL_IDX_EMPTY && sl / 64 == c1.x - 1)
            &&& (exists|sl: int|
                0 <= sl < 512 && lv[sl].data != VOXEL_IDX_EMPTY && (sl / 8) % 8 == c0.y)
            &&& (exists|sl: int|
                0 <= sl < 512 && lv[sl].data != VOXEL_IDX_EMPTY && (sl / 8) % 8 == c1.y - 1)
            &&& (exists|sl: int|
                0 <= sl < 512 && lv[sl].data != VOXEL_IDX_EMPTY && sl % 8 == c0.z)
            &&& (exists|sl: int|
                0 <= sl < 512 && lv[sl].data != VOXEL_IDX_EMPTY && sl % 8 == c1.z - 1)
        }),
    ensures
        exists|qx: int, qy: int, qz: int|
            #[trigger] t.sub_occupied(n, 1, qx, qy, qz) && path_slot(1, qx, qy, qz) == s && qx
                == (s / 64) * 8 + c0.x,
        exists|qx: int, qy: int, qz: int|
            #[trigger] t.sub_occupied(n, 1, qx, qy, qz) && path_slot(1, qx, qy, qz) == s && qy
                == ((s / 8) % 8) * 8 + c0.y,
        exists|qx: int, qy: int, qz: int|
            #[trigger] t.sub_occupied(n, 1, qx, qy, qz) && path_slot(1, qx, qy, qz) == s && qz
                == (s % 8) * 8 + c0.z,
{
    let li = t.nodes@[n].indices@[s] as int;
    let lv = t.leafs@[li].voxels@;
    let ox = (s / 64) * 8;
    let oy = ((s / 8) % 8) * 8;
    let oz = (s % 8) * 8;
    assert(exists|qx: int, qy: int, qz: int|
        #[trigger] t.sub_occupied(n, 1, qx, qy, qz) && path_slot(1, qx, qy, qz) == s && qx
            == ox + c0.x) by {
        let sl = choose|sl: int| 0 <= sl < 512 && lv[sl].data != VOXEL_IDX_EMPTY && sl / 64 == c0.x;
        lemma_leaf_occupied_at(t, n, bx, by, bz, s, sl);
    }
    assert(exists|qx: int, qy: int, qz: int|
        #[trigger] t.sub_occupied(n, 1, qx, qy, qz) && path_slot(1, qx, qy, qz) == s && qy
            == oy + c0.y) by {
        let sl = choose|sl: int| 0 <= sl < 512 && lv[sl].data != VOXEL_IDX_EMPTY && (sl / 8) % 8 == c0.y;
        lemma_leaf_occupied_at(t, n, bx, by, bz, s, sl);
    }
    assert(exists|qx: int, qy: int, qz: int|
        #[trigger] t.sub_occupied(n, 1, qx, qy, qz) && path_slot(1, qx, qy, qz) == s && qz
            == oz + c0.z) by {
        let sl = choose|sl: int| 0 <= sl < 512 && lv[sl].data != VOXEL_IDX_EMPTY && sl % 8 == c0.z;
        lemma_leaf_occupied_at(t, n, bx, by, bz, s, sl);
    }
}

/// Upper-bound witnesses for `lemma_slot_box_leaf`.
#[verifier::rlimit(100)]
#[verifier::spinoff_prover]
pub proof fn lemma_slot_box_leaf_hi(
    t: VoxelTree,
    n: int,
    bx: int,
    by: int,
    bz: int,
    s: int,
    c0: IVec3,
    c1: IVec3,
)
    requires
        t.wf_sub(n, 1, bx, by, bz),
        t.arrays_wf(),
        0 <= s < 512,
        t.nodes@[n].indices@[s] != VOXEL_IDX_EMPTY,
        ({
            let lv = t.leafs@[t.nodes@[n].indices@[s] as int].voxels@;
            &&& 0 <= c0.x < c1.x <= 8
            &&& 0 <= c0.y < c1.y <= 8
            &&& 0 <= c0.z < c1.z <= 8
            &&& (forall|sl: int|
                0 <= sl < 512 && lv[sl].data != VOXEL_IDX_EMPTY ==> c0.x <= sl / 64 < c1.x && c0.y
                    <= (sl / 8) % 8 < c1.y && c0.z <= sl % 8 < c1.z)
            &&& (exists|sl: int|
                0 <= sl < 512 && lv[sl].data != VOXEL_IDX_EMPTY && sl / 64 == c0.x)
            &&& (exists|sl: int|
                0 <= sl < 512 && lv[sl].data != VOXEL_IDX_EMPTY && sl / 64 == c1.x - 1)
            &&& (exists|sl: int|
                0 <= sl < 512 && lv[sl].data != VOXEL_IDX_EMPTY && (sl / 8) % 8 == c0.y)
            &&& (exists|sl: int|
                0 <= sl < 512 && lv[sl].data != VOXEL_IDX_EMPTY && (sl / 8) % 8 == c1.y - 1)
            &&& (exists|sl: int|
                0 <= sl < 512 && lv[sl].data != VOXEL_IDX_EMPTY && sl % 8 == c0.z)
            &&& (exists|sl: int|
                0 <= sl < 512 && lv[sl].data != VOXEL_IDX_EMPTY && sl % 8 == c1.z - 1)
        }),
    ensures
        exists|qx: int, qy: int, qz: int|
            #[trigger] t.sub_occupied(n, 1, qx, qy, qz) && path_slot(1, qx, qy, qz) == s && qx
                == (s / 64) * 8 + c1.x - 1,
        exists|qx: int, qy: int, qz: int|
            #[trigger] t.sub_occupied(n, 1, qx, qy, qz) && path_slot(1, qx, qy, qz) == s && qy
                == ((s / 8) % 8) * 8 + c1.y - 1,
        exists|qx: int, qy: int, qz: int|
            #[trigger] t.sub_occupied(n, 1, qx, qy, qz) && path_slot(1, qx, qy, qz) == s && qz
                == (s % 8) * 8 + c1.z - 1,
{
    let li = t.nodes@[n].indices@[s] as int;
    let lv = t.leafs@[li].voxels@;
    let ox = (s / 64) * 8;
    let oy = ((s / 8) % 8) * 8;
    let oz = (s % 8) * 8;
    assert(exists|qx: int, qy: int, qz: int|
        #[trigger] t.sub_occupied(n, 1, qx, qy, qz) && path_slot(1, qx, qy, qz) == s && qx
            == ox + c1.x - 1) by {
        let sl = choose|sl: int| 0 <= sl < 512 && lv[sl].data != VOXEL_IDX_EMPTY && sl / 64 == c1.x
            - 1;
        lemma_leaf_occupied_at(t, n, bx, by, bz, s, sl);
    }
    assert(exists|qx: int, qy: int, qz: int|
        #[trigger] t.sub_occupied(n, 1, qx, qy, qz) && path_slot(1, qx, qy, qz) == s && qy
            == oy + c1.y - 1) by {
        let sl = choose|sl: int| 0 <= sl < 512 && lv[sl].data != VOXEL_IDX_EMPTY && (sl / 8) % 8 == c1.y - 1;
        lemma_leaf_occupied_at(t, n, bx, by, bz, s, sl);
    }
    assert(exists|qx: int, qy: int, qz: int|
        #[trigger] t.sub_occupied(n, 1, qx, qy, qz) && path_slot(1, qx, qy, qz) == s && qz
            == oz + c1.z - 1) by {
        let sl = choose|sl: int| 0 <= sl < 512 && lv[sl].data != VOXEL_IDX_EMPTY && sl % 8 == c1.z - 1;
        lemma_leaf_occupied_at(t, n, bx, by, bz, s, sl);
    }
}

/// A leaf child's tight local box, shifted by the leaf's offset, is the
/// tight box of the parent positions entering that slot.
pub proof fn lemma_slot_box_leaf(
    t: VoxelTree,
    n: int,
    bx: int,
    by: int,
    bz: int,
    s: int,
    c0: IVec3,
    c1: IVec3,
)
    requires
        t.wf_sub(n, 1, bx, by, bz),
        t.arrays_wf(),
        0 <= s < 512,
        t.nodes@[n].indices@[s] != VOXEL_IDX_EMPTY,
        ({
            let lv = t.leafs@[t.nodes@[n].indices@[s] as int].voxels@;
            &&& 0 <= c0.x < c1.x <= 8
            &&& 0 <= c0.y < c1.y <= 8
            &&& 0 <= c0.z < c1.z <= 8
            &&& (forall|sl: int|
                0 <= sl < 512 && lv[sl].data != VOXEL_IDX_EMPTY ==> c0.x <= sl / 64 < c1.x && c0.y
                    <= (sl / 8) % 8 < c1.y && c0.z <= sl % 8 < c1.z)
            &&& (exists|sl: int|
                0 <= sl < 512 && lv[sl].data != VOXEL_IDX_EMPTY && sl / 64 == c0.x)
            &&& (exists|sl: int|
                0 <= sl < 512 && lv[sl].data != VOXEL_IDX_EMPTY && sl / 64 == c1.x - 1)
            &&& (exists|sl: int|
                0 <= sl < 512 && lv[sl].data != VOXEL_IDX_EMPTY && (sl / 8) % 8 == c0.y)
            &&& (exists|sl: int|
                0 <= sl < 512 && lv[sl].data != VOXEL_IDX_EMPTY && (sl / 8) % 8 == c1.y - 1)
            &&& (exists|sl: int|
                0 <= sl < 512 && lv[sl].data != VOXEL_IDX_EMPTY && sl % 8 == c0.z)
            &&& (exists|sl: int|
                0 <= sl < 512 && lv[sl].data != VOXEL_IDX_EMPTY && sl % 8 == c1.z - 1)
        }),
    ensures
        slot_box_tight(
            t,
            n,
            1,
            s,
            (s / 64) * 8 + c0.x,
            ((s / 8) % 8) * 8 + c0.y,
            (s % 8) * 8 + c0.z,
            (s / 64) * 8 + c1.x,
            ((s / 8) % 8) * 8 + c1.y,
            (s % 8) * 8 + c1.z,
        ),
{
    lemma_slot_box_leaf_contain(t, n, bx, by, bz, s, c0, c1);
    lemma_slot_box_leaf_lo(t, n, bx, by, bz, s, c0, c1);
    lemma_slot_box_leaf_hi(t, n, bx, by, bz, s, c0, c1);
}

/// An internal child's tight relative box, shifted by the child's offset, is
/// the tight box of the parent positions entering that slot.
#[verifier::rlimit(100)]
#[verifier::spinoff_prover]
pub proof fn lemma_slot_box_node(
    t: VoxelTree,
    n: int,
    lam: int,
    bx: int,
    by: int,
    bz: int,
    s: int,
    c0: IVec3,
    c1: IVec3,
)
    requires
        t.wf_sub(n, lam, bx, by, bz),
        lam >= 2,
        0 <= s < 512,
        t.nodes@[n].indices@[s] != VOXEL_IDX_EMPTY,
        ({
            let c = t.nodes@[n].indices@[s] as int;
            &&& 0 <= c0.x < c1.x <= pow8(lam)
            &&& 0 <= c0.y < c1.y <= pow8(lam)
            &&& 0 <= c0.z < c1.z <= pow8(lam)
            &&& (forall|rx: int, ry: int, rz: int|
                #[trigger] t.sub_occupied(c, lam - 1, rx, ry, rz) ==> c0.x <= rx < c1.x && c0.y
                    <= ry < c1.y && c0.z <= rz < c1.z)
            &&& (exists|rx: int, ry: int, rz: int|
                #[trigger] t.sub_occupied(c, lam - 1, rx, ry, rz) && rx == c0.x)
            &&& (exists|rx: int, ry: int, rz: int|
                #[trigger] t.sub_occupied(c, lam - 1, rx, ry, rz) && rx == c1.x - 1)
            &&& (exists|rx: int, ry: int, rz: int|
                #[trigger] t.sub_occupied(c, lam - 1, rx, ry, rz) && ry == c0.y)
            &&& (exists|rx: int, ry: int, rz: int|
                #[trigger] t.sub_occupied(c, lam - 1, rx, ry, rz) && ry == c1.y - 1)
            &&& (exists|rx: int, ry: int, rz: int|
                #[trigger] t.sub_occupied(c, lam - 1, rx, ry, rz) && rz == c0.z)
            &&& (exists|rx: int, ry: int, rz: int|
                #[trigger] t.sub_occupied(c, lam - 1, rx, ry, rz) && rz == c1.z - 1)
        }),
    ensures
        slot_box_tight(
            t,
            n,
            lam,
            s,
            (s / 64) * pow8(lam) + c0.x,
            ((s / 8) % 8) * pow8(lam) + c0.y,
            (s % 8) * pow8(lam) + c0.z,
            (s / 64) * pow8(lam) + c1.x,
            ((s / 8) % 8) * pow8(lam) + c1.y,
            (s % 8) * pow8(lam) + c1.z,
        ),
{
    let c = t.nodes@[n].indices@[s] as int;
    let ox = (s / 64) * pow8(lam);
    let oy = ((s / 8) % 8) * pow8(lam);
    let oz = (s % 8) * pow8(lam);
    lemma_bbox_step_node(t, n, lam, bx, by, bz, s);
    assert forall|qx: int, qy: int, qz: int|
        #[trigger] t.sub_occupied(n, lam, qx, qy, qz) && path_slot(lam, qx, qy, qz) == s implies ox
        + c0.x <= qx < ox + c1.x && oy + c0.y <= qy < oy + c1.y && oz + c0.z <= qz < oz + c1.z by {
        assert(t.sub_occupied(c, lam - 1, qx - ox, qy - oy, qz - oz));
    }
    assert(exists|qx: int, qy: int, qz: int|
        #[trigger] t.sub_occupied(n, lam, qx, qy, qz) && path_slot(lam, qx, qy, qz) == s && qx
            == ox + c0.x) by {
        let (rx, ry, rz) = choose|rx: int, ry: int, rz: int|
            #[trigger] t.sub_occupied(c, lam - 1, rx, ry, rz) && rx == c0.x;
        assert(t.sub_occupied(n, lam, rx + ox, ry + oy, rz + oz) && path_slot(
            lam,
            rx + ox,
            ry + oy,
            rz + oz,
        ) == s);
    }
    assert(exists|qx: int, qy: int, qz: int|
        #[trigger] t.sub_occupied(n, lam, qx, qy, qz) && path_slot(lam, qx, qy, qz) == s && qx
            == ox + c1.x - 1) by {
        let (rx, ry, rz) = choose|rx: int, ry: int, rz: int|
            #[trigger] t.sub_occupied(c, lam - 1, rx, ry, rz) && rx == c1.x - 1;
        assert(t.sub_occupied(n, lam, rx + ox, ry + oy, rz + oz) && path_slot(
            lam,
            rx + ox,
            ry + oy,
            rz + oz,
        ) == s);
    }
    assert(exists|qx: int, qy: int, qz: int|
        #[trigger] t.sub_occupied(n, lam, qx, qy, qz) && path_slot(lam, qx, qy, qz) == s && qy
            == oy + c0.y) by {
        let (rx, ry, rz) = choose|rx: int, ry: int, rz: int|
            #[trigger] t.sub_occupied(c, lam - 1, rx, ry, rz) && ry == c0.y;
        assert(t.sub_occupied(n, lam, rx + ox, ry + oy, rz + oz) && path_slot(
            lam,
            rx + ox,
            ry + oy,
            rz + oz,
        ) == s);
    }
    assert(exists|qx: int, qy: int, qz: int|
        #[trigger] t.sub_occupied(n, lam, qx, qy, qz) && path_slot(lam, qx, qy, qz) == s && qy
            == oy + c1.y - 1) by {
        let (rx, ry, rz) = choose|rx: int, ry: int, rz: int|
            #[trigger] t.sub_occupied(c, lam - 1, rx, ry, rz) && ry == c1.y - 1;
        assert(t.sub_occupied(n, lam, rx + ox, ry + oy, rz + oz) && path_slot(
            lam,
            rx + ox,
            ry + oy,
            rz + oz,
        ) == s);
    }
    assert(exists|qx: int, qy: int, qz: int|
        #[trigger] t.sub_occupied(n, lam, qx, qy, qz) && path_slot(lam, qx, qy, qz) == s && qz
            == oz + c0.z) by {
        let (rx, ry, rz) = choose|rx: int, ry: int, rz: int|
            #[trigger] t.sub_occupied(c, lam - 1, rx, ry, rz) && rz == c0.z;
        assert(t.sub_occupied(n, lam, rx + ox, ry + oy, rz + oz) && path_slot(
            lam,
            rx + ox,
            ry + oy,
            rz + oz,
        ) == s);
    }
    assert(exists|qx: int, qy: int, qz: int|
        #[trigger] t.sub_occupied(n, lam, qx, qy, qz) && path_slot(lam, qx, qy, qz) == s && qz
            == oz + c1.z - 1) by {
        let (rx, ry, rz) = choose|rx: int, ry: int, rz: int|
            #[trigger] t.sub_occupied(c, lam - 1, rx, ry, rz) && rz == c1.z - 1;
        assert(t.sub_occupied(n, lam, rx + ox, ry + oy, rz + oz) && path_slot(
            lam,
            rx + ox,
            ry + oy,
            rz + oz,
        ) == s);
    }
}

/// Folding one slot's tight box into the running bounds keeps them the tight
/// bounds of everything scanned so far.
#[verifier::rlimit(100)]
#[verifier::spinoff_prover]
pub proof fn lemma_bbox_accumulate(
    t: VoxelTree,
    n: int,
    lam: int,
    idx: int,
    b0x: i32,
    b0y: i32,
    b0z: i32,
    b1x: i32,
    b1y: i32,
    b1z: i32,
    omnx: i32,
    omny: i32,
    omnz: i32,
    omxx: i32,
    omxy: i32,
    omxz: i32,
)
    requires
        0 <= idx < 512,
        slot_box_tight(
            t,
            n,
            lam,
            idx,
            b0x as int,
            b0y as int,
            b0z as int,
            b1x as int,
            b1y as int,
            b1z as int,
        ),
        0 <= b0x < b1x,
        0 <= b0y < b1y,
        0 <= b0z < b1z,
        b1x as int <= pow8(lam + 1),
        b1y as int <= pow8(lam + 1),
        b1z as int <= pow8(lam + 1),
        omnx == i32::MAX ==> omny == i32::MAX && omnz == i32::MAX && omxx == i32::MIN && omxy
            == i32::MIN && omxz == i32::MIN && bbox_none(t, n, lam, idx),
        omnx != i32::MAX ==> bbox_inv(
            t,
            n,
            lam,
            idx,
            omnx as int,
            omny as int,
            omnz as int,
            omxx as int,
            omxy as int,
            omxz as int,
        ),
    ensures
        ({
            let nmnx = if b0x < omnx { b0x } else { omnx };
            let nmny = if b0y < omny { b0y } else { omny };
            let nmnz = if b0z < omnz { b0z } else { omnz };
            let nmxx = if b1x > omxx { b1x } else { omxx };
            let nmxy = if b1y > omxy { b1y } else { omxy };
            let nmxz = if b1z > omxz { b1z } else { omxz };
            &&& nmnx != i32::MAX
            &&& bbox_inv(
                t,
                n,
                lam,
                idx + 1,
                nmnx as int,
                nmny as int,
                nmnz as int,
                nmxx as int,
                nmxy as int,
                nmxz as int,
            )
        }),
{
}

/// A slot at which nothing is occupied extends the scanned range without
/// changing the bounds.
pub proof fn lemma_bbox_skip(
    t: VoxelTree,
    n: int,
    lam: int,
    idx: int,
    omnx: i32,
    omny: i32,
    omnz: i32,
    omxx: i32,
    omxy: i32,
    omxz: i32,
)
    requires
        0 <= idx < 512,
        forall|qx: int, qy: int, qz: int|
            #[trigger] t.sub_occupied(n, lam, qx, qy, qz) && path_slot(lam, qx, qy, qz) == idx
                ==> false,
        omnx == i32::MAX ==> bbox_none(t, n, lam, idx),
        omnx != i32::MAX ==> bbox_inv(
            t,
            n,
            lam,
            idx,
            omnx as int,
            omny as int,
            omnz as int,
            omxx as int,
            omxy as int,
            omxz as int,
        ),
    ensures
        omnx == i32::MAX ==> bbox_none(t, n, lam, idx + 1),
        omnx != i32::MAX ==> bbox_inv(
            t,
            n,
            lam,
            idx + 1,
            omnx as int,
            omny as int,
            omnz as int,
            omxx as int,
            omxy as int,
            omxz as int,
        ),
{
}

/// Every occupied position below the root lies inside the covered cube: the
/// root's only possible child slot is the one covering the cube itself.
#[verifier::rlimit(100)]
pub proof fn lemma_root_occupied_in_extent(t: VoxelTree, qx: int, qy: int, qz: int)
    requires
        t.wf(),
        t.sub_occupied(0, t.depth as int, qx, qy, qz),
    ensures
        t.occupied(qx, qy, qz),
{
    let lam = t.depth as int;
    let m = pow8(lam);
    let s = path_slot(lam, qx, qy, qz);
    assert(0 <= s < 512);
    assert(t.nodes@[0].indices@[s] != VOXEL_IDX_EMPTY) by {
        if t.nodes@[0].indices@[s] == VOXEL_IDX_EMPTY {
            assert(t.leaf_hit(0, lam, qx, qy, qz) == -1);
        }
    }
    assert(t.child_entry_ok(0, lam, 0, 0, 0, s));
    lemma_pow8_pos(lam);
    lemma_pow8_unfold(lam + 1);
    assert(s / 64 == 0 && (s / 8) % 8 == 0 && s % 8 == 0) by {
        lemma_mul_nonnegative(s / 64, m);
        lemma_mul_nonnegative((s / 8) % 8, m);
        lemma_mul_nonnegative(s % 8, m);
        if s / 64 >= 1 {
            lemma_mul_inequality(1, s / 64, m);
        }
        if (s / 8) % 8 >= 1 {
            lemma_mul_inequality(1, (s / 8) % 8, m);
        }
        if s % 8 >= 1 {
            lemma_mul_inequality(1, s % 8, m);
        }
    }
    lemma_digit_decompose(qx, m, 0);
    lemma_digit_decompose(qy, m, 0);
    lemma_digit_decompose(qz, m, 0);
    assert(qx < m && qy < m && qz < m);
}

/// The number of elements a walk still has to create is bounded by the
/// number of levels left.
pub proof fn lemma_missing_bounds(t: VoxelTree, n: int, lam: int, px: int, py: int, pz: int)
    ensures
        0 <= t.missing_nodes(n, lam, px, py, pz),
        lam >= 1 ==> t.missing_nodes(n, lam, px, py, pz) <= lam - 1,
        lam < 1 ==> t.missing_nodes(n, lam, px, py, pz) == 0,
        0 <= t.missing_leaf(n, lam, px, py, pz) <= 1,
    decreases lam,
{
    if lam > 1 {
        let c = t.nodes@[n].indices@[path_slot(lam, px, py, pz)];
        if c != VOXEL_IDX_EMPTY {
            lemma_missing_bounds(t, c as int, lam - 1, px, py, pz);
        }
    }
}

/// Evaluating a walk along an explicitly materialized chain of nodes: the
/// walk from the root agrees with the walk from the chain's last node.
pub proof fn lemma_chain_eval(t: VoxelTree, path: Seq<int>, px: int, py: int, pz: int)
    requires
        t.depth >= 1,
        1 <= path.len() <= t.depth,
        path[0] == 0,
        forall|i: int|
            0 <= i < path.len() - 1 ==> {
                let c = #[trigger] t.nodes@[path[i]].indices@[path_slot(
                    t.depth - i,
                    px,
                    py,
                    pz,
                )];
                c != VOXEL_IDX_EMPTY && c as int == path[i + 1]
            },
    ensures
        t.leaf_hit(0, t.depth as int, px, py, pz) == t.leaf_hit(
            path[path.len() - 1],
            t.depth - (path.len() - 1),
            px,
            py,
            pz,
        ),
    decreases path.len(),
{
    if path.len() > 1 {
        let prefix = path.drop_last();
        assert forall|i: int| 0 <= i < prefix.len() - 1 implies {
            let c = #[trigger] t.nodes@[prefix[i]].indices@[path_slot(t.depth - i, px, py, pz)];
            c != VOXEL_IDX_EMPTY && c as int == prefix[i + 1]
        } by {
            assert(prefix[i] == path[i] && prefix[i + 1] == path[i + 1]);
        }
        lemma_chain_eval(t, prefix, px, py, pz);
        let k = path.len() - 2;
        assert(prefix[prefix.len() - 1] == path[k]);
        let lam = t.depth - k;
        assert(lam >= 2);
        let c = t.nodes@[path[k]].indices@[path_slot(lam, px, py, pz)];
        assert(c != VOXEL_IDX_EMPTY && c as int == path[k + 1]);
        assert(t.leaf_hit(path[k], lam, px, py, pz) == t.leaf_hit(
            path[k + 1],
            lam - 1,
            px,
            py,
            pz,
        ));
    }
}

} // verus!
