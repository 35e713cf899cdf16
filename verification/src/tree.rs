//! The 64-ary sparse occupancy tree and its compiler.
//!
//! A node covers a cube of side `2^scale` voxels and has 64 child slots, each
//! covering a sub-cube of side `2^(scale-2)`. A 64-bit occupancy mask marks
//! the nonempty slots; the packed pointer addresses the run of child nodes
//! (or, for a leaf node at `scale == 2`, the run of palette indices in the
//! leaf array) stored for the nonempty slots in ascending bit order.

use crate::map::{
    brick_index_spec, region_has_chunks, voxel_at, Brick, VoxelMap,
};
use crate::math::{chunk_axis_spec, Vec3i};
use vstd::arithmetic::div_mod::{
    lemma_div_is_ordered, lemma_fundamental_div_mod, lemma_fundamental_div_mod_converse,
    lemma_mod_multiples_vanish,
};
use vstd::arithmetic::power2::{lemma_pow2_adds, lemma_pow2_pos, lemma2_to64, pow2};
use vstd::bits::lemma_u32_shl_is_mul;
use vstd::prelude::*;

verus! {

/// Bit `i` of a 64-bit mask.
pub open spec fn bit64(m: u64, i: u64) -> bool {
    i < 64 && (m >> i) & 1 == 1
}

/// How many of the bits below `n` are set.
pub open spec fn count_bits_below(m: u64, n: int) -> nat
    decreases n,
{
    if n <= 0 {
        0
    } else {
        count_bits_below(m, n - 1) + (if bit64(m, (n - 1) as u64) {
            1nat
        } else {
            0nat
        })
    }
}

/// How many bits of the 64-bit mask are set.
pub open spec fn popcount64(m: u64) -> nat {
    count_bits_below(m, 64)
}

/// Setting one bit above all set bits: the lower bits keep their values, the
/// new bit is set, and everything above it stays clear.
proof fn lemma_mask_set_bit(m: u64, i: u64)
    by (bit_vector)
    requires
        i < 64,
        m >> i == 0,
    ensures
        forall|j: u64| j < i ==> ((m | (1u64 << i)) >> j) & 1 == (m >> j) & 1,
        ((m | (1u64 << i)) >> i) & 1 == 1,
        forall|j: u64| i < j < 64 ==> ((m | (1u64 << i)) >> j) & 1 == 0,
        i + 1 < 64 ==> (m | (1u64 << i)) >> (i + 1) == 0,
        (m | (1u64 << i)) != 0,
{
}

/// Every bit of the zero mask is clear.
proof fn lemma_zero_mask_bits()
    by (bit_vector)
    ensures
        forall|j: u64| j < 64 ==> ((0u64 >> j) & 1) == 0,
        forall|j: u64| j < 64 ==> (0u64 >> j) == 0,
{
}

/// Splitting a 64-bit mask into two 32-bit words and reassembling them is the
/// identity.
proof fn lemma_mask_split(m: u64)
    by (bit_vector)
    ensures
        (((m >> 32) as u32) as u64) * 0x1_0000_0000 + (((m & 0xFFFF_FFFF) as u32) as u64) == m,
{
}

/// Packing an index below `2^31` with a flag bit and unpacking it is the
/// identity.
proof fn lemma_ptr_pack(x: u32)
    by (bit_vector)
    requires
        x < 0x8000_0000,
    ensures
        ((x << 1) | 1) % 2 == 1,
        ((x << 1) | 1) / 2 == x,
        (x << 1) % 2 == 0,
        (x << 1) / 2 == x,
{
}

/// Two masks equal on all bits below `n` have the same count below `n`.
proof fn lemma_count_bits_same(m1: u64, m2: u64, n: int)
    requires
        0 <= n <= 64,
        forall|j: u64| j < n ==> bit64(m1, j) == bit64(m2, j),
    ensures
        count_bits_below(m1, n) == count_bits_below(m2, n),
    decreases n,
{
    if n > 0 {
        lemma_count_bits_same(m1, m2, n - 1);
        assert(bit64(m1, (n - 1) as u64) == bit64(m2, (n - 1) as u64));
    }
}

/// A mask whose bits at and above `n` are clear counts the same below `n` as
/// over the whole word.
proof fn lemma_count_bits_top(m: u64, n: int)
    requires
        0 <= n <= 64,
        forall|j: u64| n <= j < 64 ==> !bit64(m, j),
    ensures
        popcount64(m) == count_bits_below(m, n),
    decreases 64 - n,
{
    if n < 64 {
        lemma_count_bits_top(m, n + 1);
    }
}

/// The count below `n` never exceeds `n`.
proof fn lemma_count_bits_le(m: u64, n: int)
    requires
        0 <= n <= 64,
    ensures
        count_bits_below(m, n) <= n,
    decreases n,
{
    if n > 0 {
        lemma_count_bits_le(m, n - 1);
    }
}

/// A mask with some set bit below 64 has a positive count.
proof fn lemma_count_bits_pos(m: u64, j: u64, n: int)
    requires
        j < n <= 64,
        bit64(m, j),
    ensures
        count_bits_below(m, n) >= 1,
    decreases n,
{
    if j < n - 1 {
        lemma_count_bits_pos(m, j, n - 1);
    }
}

/// One element of the compiled tree: four packed 32-bit words, fixed by the
/// wire format shared with the traversal kernel.
#[derive(Clone, Copy, PartialEq, Eq, Structural, Debug)]
pub struct Node {
    /// Bit 0: leaf flag; bits 1-31: index of the node's run in the node array
    /// (leaf flag clear) or in the leaf array (leaf flag set).
    pub child_ptr_is_leaf: u32,
    /// Low half of the 64-bit occupancy mask.
    pub maskl: u32,
    /// High half of the 64-bit occupancy mask.
    pub maskh: u32,
    /// Padding for 16-byte alignment of the wire format.
    pub pad: u32,
}

impl Node {
    /// The 64-bit occupancy mask.
    pub open spec fn mask(self) -> u64 {
        ((self.maskh as u64) * 0x1_0000_0000 + (self.maskl as u64)) as u64
    }

    /// Whether bit `i` of the occupancy mask is set.
    pub open spec fn mask_bit(self, i: u64) -> bool {
        bit64(self.mask(), i)
    }

    /// Whether the node's run lies in the leaf array.
    pub open spec fn is_leaf(self) -> bool {
        self.child_ptr_is_leaf % 2 == 1
    }

    /// Index of the node's run.
    pub open spec fn ptr(self) -> int {
        (self.child_ptr_is_leaf / 2) as int
    }

    /// The node standing for a fully empty subtree.
    pub open spec fn empty_spec() -> Node {
        Node { child_ptr_is_leaf: 0, maskl: 0, maskh: 0, pad: 0 }
    }

    /// Builds the empty sentinel node.
    pub fn empty() -> (n: Node)
        ensures
            n == Node::empty_spec(),
    {
        Node { child_ptr_is_leaf: 0, maskl: 0, maskh: 0, pad: 0 }
    }
}

/// A node's run is addressable and well formed with respect to the two
/// arrays: a leaf run lies inside the leaf array and holds no zero byte; a
/// child run lies inside the node array and holds no empty node. An empty
/// node claims nothing.
pub open spec fn node_consistent(ns: Seq<Node>, ls: Seq<u8>, n: Node) -> bool {
    n.mask() != 0 ==> {
        if n.is_leaf() {
            &&& n.ptr() + popcount64(n.mask()) <= ls.len()
            &&& forall|k: int| n.ptr() <= k < n.ptr() + popcount64(n.mask()) ==> ls[k] != 0
        } else {
            &&& n.ptr() + popcount64(n.mask()) <= ns.len()
            &&& forall|k: int|
                n.ptr() <= k < n.ptr() + popcount64(n.mask()) ==> (#[trigger] ns[k]).mask() != 0
        }
    }
}

/// Consistency only looks into the runs the node addresses, so growing either
/// array preserves it.
proof fn lemma_consistent_extend(ns1: Seq<Node>, ls1: Seq<u8>, ns2: Seq<Node>, ls2: Seq<u8>, n: Node)
    requires
        node_consistent(ns1, ls1, n),
        ns1.len() <= ns2.len(),
        ls1.len() <= ls2.len(),
        ns2.subrange(0, ns1.len() as int) == ns1,
        ls2.subrange(0, ls1.len() as int) == ls1,
    ensures
        node_consistent(ns2, ls2, n),
{
    if n.mask() != 0 {
        if n.is_leaf() {
            assert forall|k: int|
                n.ptr() <= k < n.ptr() + popcount64(n.mask()) implies ls2[k] != 0 by {
                assert(ls2[k] == ls1.subrange(0, ls1.len() as int)[k]);
            }
        } else {
            assert forall|k: int|
                n.ptr() <= k < n.ptr() + popcount64(n.mask()) implies (#[trigger] ns2[k]).mask()
                != 0 by {
                assert(ns2[k] == ns1.subrange(0, ns1.len() as int)[k]);
            }
        }
    }
}


/// Extending the arrays preserves consistency of a whole stored range and
/// of a collected run of nodes at once.
proof fn lemma_range_consistent_extend(
    ns1: Seq<Node>,
    ls1: Seq<u8>,
    ns2: Seq<Node>,
    ls2: Seq<u8>,
    lo: int,
    cs: Seq<Node>,
)
    requires
        ns1.len() <= ns2.len(),
        ls1.len() <= ls2.len(),
        ns2.subrange(0, ns1.len() as int) == ns1,
        ls2.subrange(0, ls1.len() as int) == ls1,
        0 <= lo <= ns1.len(),
        forall|j: int| lo <= j < ns1.len() ==> node_consistent(ns1, ls1, #[trigger] ns1[j]),
        forall|k: int| 0 <= k < cs.len() ==> node_consistent(ns1, ls1, #[trigger] cs[k]),
    ensures
        forall|j: int| lo <= j < ns1.len() ==> node_consistent(ns2, ls2, #[trigger] ns2[j]),
        forall|k: int| 0 <= k < cs.len() ==> node_consistent(ns2, ls2, #[trigger] cs[k]),
{
    assert forall|j: int| lo <= j < ns1.len() implies node_consistent(
        ns2,
        ls2,
        #[trigger] ns2[j],
    ) by {
        assert(ns2[j] == ns1[j]) by {
            assert(ns2.subrange(0, ns1.len() as int)[j] == ns2[j]);
        }
        lemma_consistent_extend(ns1, ls1, ns2, ls2, ns1[j]);
    }
    assert forall|k: int| 0 <= k < cs.len() implies node_consistent(
        ns2,
        ls2,
        #[trigger] cs[k],
    ) by {
        lemma_consistent_extend(ns1, ls1, ns2, ls2, cs[k]);
    }
}

/// The voxel cube of side `size` starting at `pos` contains `v`.
pub open spec fn in_cube(v: Vec3i, pos: Vec3i, size: int) -> bool {
    &&& pos.x <= v.x < pos.x + size
    &&& pos.y <= v.y < pos.y + size
    &&& pos.z <= v.z < pos.z + size
}

/// Every voxel of the cube of side `size` starting at `pos` is empty.
pub open spec fn region_empty(m: Map<Vec3i, Seq<u8>>, pos: Vec3i, size: int) -> bool {
    forall|v: Vec3i| #[trigger] in_cube(v, pos, size) ==> voxel_at(m, v) == 0
}

/// Offset of child slot `i` in units of the child cube side: bits 0-1 give
/// x, bits 2-3 give z, bits 4-5 give y.
pub open spec fn child_delta(i: int) -> Vec3i {
    Vec3i { x: (i % 4) as i32, y: ((i / 16) % 4) as i32, z: ((i / 4) % 4) as i32 }
}

/// Origin of child slot `i` of the node at `pos` covering side `2^scale`.
pub open spec fn child_pos(pos: Vec3i, scale: u32, i: int) -> Vec3i {
    let s = pow2((scale - 2) as nat) as int;
    Vec3i {
        x: (pos.x + child_delta(i).x * s) as i32,
        y: (pos.y + child_delta(i).y * s) as i32,
        z: (pos.z + child_delta(i).z * s) as i32,
    }
}

/// The voxel range a node covers, as a voxel count.
pub open spec fn region_of(scale: u32) -> u32 {
    pow2(scale as nat) as u32
}

/// The cells of the 4x4x4 tile at `pos`, in slot order.
pub open spec fn tile_cells(m: Map<Vec3i, Seq<u8>>, pos: Vec3i) -> Seq<u8> {
    Seq::new(64, |i: int| voxel_at(m, child_pos(pos, 2, i)))
}

/// The nonzero values among the first `n` cells, in slot order.
pub open spec fn actives_below(t: Seq<u8>, n: int) -> Seq<u8>
    decreases n,
{
    if n <= 0 {
        Seq::empty()
    } else {
        actives_below(t, n - 1) + (if t[n - 1] != 0 {
            seq![t[n - 1]]
        } else {
            Seq::empty()
        })
    }
}

/// The nonzero cells of the tile at `pos`, in slot order: exactly the bytes a
/// leaf node appends to the leaf array.
pub open spec fn active_cells(m: Map<Vec3i, Seq<u8>>, pos: Vec3i) -> Seq<u8> {
    actives_below(tile_cells(m, pos), 64)
}

/// The full leaf payload of the cube of side `2^scale` at `pos`: the
/// nonzero cells of every 4x4x4 tile, tiles visited in ascending child-slot
/// order at every level. This is exactly the byte stream the compiler
/// appends to the leaf array for the cube.
pub open spec fn region_leaves(m: Map<Vec3i, Seq<u8>>, pos: Vec3i, scale: u32) -> Seq<u8>
    decreases scale, 65int,
{
    if scale <= 2 {
        active_cells(m, pos)
    } else {
        region_leaves_upto(m, pos, scale, 64)
    }
}

/// The leaf payload of the first `i` child slots of the cube at `pos`.
pub open spec fn region_leaves_upto(
    m: Map<Vec3i, Seq<u8>>,
    pos: Vec3i,
    scale: u32,
    i: int,
) -> Seq<u8>
    decreases scale, i,
{
    if i <= 0 || scale <= 2 {
        Seq::empty()
    } else {
        region_leaves_upto(m, pos, scale, i - 1) + region_leaves(
            m,
            child_pos(pos, scale, i - 1),
            (scale - 2) as u32,
        )
    }
}

/// An empty region contributes no leaf payload.
pub proof fn lemma_region_leaves_empty(m: Map<Vec3i, Seq<u8>>, pos: Vec3i, scale: u32)
    requires
        region_fits(pos, scale),
        region_empty(m, pos, pow2(scale as nat) as int),
    ensures
        region_leaves(m, pos, scale) =~= Seq::<u8>::empty(),
    decreases scale, 65int,
{
    lemma2_to64();
    if scale == 2 {
        let t = tile_cells(m, pos);
        assert forall|j: int| 0 <= j < 64 implies t[j] == 0 by {
            let c = child_pos(pos, 2, j);
            assert(child_delta(j).x * 1 == child_delta(j).x && child_delta(j).y * 1
                == child_delta(j).y && child_delta(j).z * 1 == child_delta(j).z);
            assert(in_cube(c, pos, 4));
            assert(t[j] == voxel_at(m, c));
        }
        assert forall|n: int| 0 <= n <= 64 implies actives_below(t, n)
            =~= Seq::<u8>::empty() by {
            lemma_actives_empty(m, pos, t, n);
        }
    } else {
        lemma_pow2_pos((scale - 2) as nat);
        lemma_pow2_adds(2, (scale - 2) as nat);
        lemma_region_leaves_upto_empty(m, pos, scale, 64);
    }
}

/// An empty region's child slots contribute no leaf payload either.
proof fn lemma_region_leaves_upto_empty(m: Map<Vec3i, Seq<u8>>, pos: Vec3i, scale: u32, i: int)
    requires
        region_fits(pos, scale),
        scale > 2,
        region_empty(m, pos, pow2(scale as nat) as int),
        i <= 64,
    ensures
        region_leaves_upto(m, pos, scale, i) =~= Seq::<u8>::empty(),
    decreases scale, i,
{
    if i > 0 {
        lemma_region_leaves_upto_empty(m, pos, scale, i - 1);
        let c = child_pos(pos, scale, i - 1);
        let sub = (scale - 2) as u32;
        assert(region_empty(m, c, pow2(sub as nat) as int)) by {
            assert forall|v: Vec3i|
                #[trigger] in_cube(v, c, pow2(sub as nat) as int) implies voxel_at(m, v)
                == 0 by {
                lemma_child_in_parent(pos, scale, i - 1, v);
            }
        }
        assert(region_fits(c, sub)) by {
            lemma_child_region_fits(pos, scale, i - 1);
        }
        lemma_region_leaves_empty(m, c, sub);
    }
}

/// A child cube of a well-placed cube is itself well placed.
proof fn lemma_child_region_fits(pos: Vec3i, scale: u32, i: int)
    requires
        region_fits(pos, scale),
        scale > 2,
        0 <= i < 64,
    ensures
        region_fits(child_pos(pos, scale, i), (scale - 2) as u32),
{
    lemma2_to64();
    lemma_pow2_pos((scale - 2) as nat);
    lemma_pow2_adds(2, (scale - 2) as nat);
    let s = pow2((scale - 2) as nat) as int;
    let d = child_delta(i);
    let c = child_pos(pos, scale, i);
    assert(0 <= d.x <= 3 && 0 <= d.y <= 3 && 0 <= d.z <= 3);
    assert(0 <= d.x * s && d.x * s + s <= 4 * s && 0 <= d.y * s && d.y * s + s <= 4 * s && 0
        <= d.z * s && d.z * s + s <= 4 * s) by (nonlinear_arith)
        requires
            0 <= d.x <= 3,
            0 <= d.y <= 3,
            0 <= d.z <= 3,
            s > 0,
    ;
    assert(c.x % 4 == 0 && c.y % 4 == 0 && c.z % 4 == 0) by {
        lemma_pow2_adds(2, (scale - 4) as nat);
        let q = pow2((scale - 4) as nat) as int;
        assert(s == 4 * q);
        assert(d.x * s == 4 * ((d.x as int) * q) && d.y * s == 4 * ((d.y as int) * q) && d.z
            * s == 4 * ((d.z as int) * q)) by (nonlinear_arith)
            requires
                s == 4 * q,
        ;
        lemma_mod_multiples_vanish((d.x as int) * q, pos.x as int, 4);
        lemma_mod_multiples_vanish((d.y as int) * q, pos.y as int, 4);
        lemma_mod_multiples_vanish((d.z as int) * q, pos.z as int, 4);
    }
}

/// How many of the first `n` child slots hold a nonzero voxel.
pub open spec fn occupied_slots_below(
    m: Map<Vec3i, Seq<u8>>,
    pos: Vec3i,
    scale: u32,
    n: int,
) -> nat
    decreases n,
{
    if n <= 0 {
        0
    } else {
        occupied_slots_below(m, pos, scale, n - 1) + (if !region_empty(
            m,
            child_pos(pos, scale, n - 1),
            pow2((scale - 2) as nat) as int,
        ) {
            1nat
        } else {
            0nat
        })
    }
}

/// How many nodes the compiler appends for the cube of side `2^scale` at
/// `pos`: none for a leaf tile or a pruned chunk-free region, else every
/// descendant's nodes plus one node per occupied child slot.
pub open spec fn region_nodes(m: Map<Vec3i, Seq<u8>>, pos: Vec3i, scale: u32) -> nat
    decreases scale, 65int,
{
    if scale <= 2 {
        0
    } else if !region_has_chunks(m, pos, region_of(scale)) {
        0
    } else {
        region_nodes_upto(m, pos, scale, 64) + occupied_slots_below(m, pos, scale, 64)
    }
}

/// The nodes appended for the first `i` child slots of the cube at `pos`.
pub open spec fn region_nodes_upto(m: Map<Vec3i, Seq<u8>>, pos: Vec3i, scale: u32, i: int) -> nat
    decreases scale, i,
{
    if i <= 0 || scale <= 2 {
        0
    } else {
        region_nodes_upto(m, pos, scale, i - 1) + region_nodes(
            m,
            child_pos(pos, scale, i - 1),
            (scale - 2) as u32,
        )
    }
}

/// Counting set bits is monotone in the prefix length, and strictly grows
/// past a set bit.
proof fn lemma_count_bits_mono(m: u64, n1: int, n2: int)
    requires
        0 <= n1 <= n2 <= 64,
    ensures
        count_bits_below(m, n1) <= count_bits_below(m, n2),
    decreases n2 - n1,
{
    if n1 < n2 {
        lemma_count_bits_mono(m, n1, n2 - 1);
    }
}

/// A set bit's rank lies below the total count.
proof fn lemma_rank_below_count(m: u64, j: u64)
    requires
        j < 64,
        bit64(m, j),
    ensures
        count_bits_below(m, j as int) < popcount64(m),
{
    lemma_count_bits_mono(m, j + 1, 64);
}

/// When the mask's bits record exactly the occupied slots, the bit count is
/// the occupied-slot count.
proof fn lemma_count_is_occupied(m: Map<Vec3i, Seq<u8>>, pos: Vec3i, scale: u32, mask: u64, n: int)
    requires
        0 <= n <= 64,
        forall|j: u64|
            j < n ==> (bit64(mask, j) <==> !region_empty(
                m,
                child_pos(pos, scale, j as int),
                pow2((scale - 2) as nat) as int,
            )),
    ensures
        count_bits_below(mask, n) == occupied_slots_below(m, pos, scale, n),
    decreases n,
{
    if n > 0 {
        lemma_count_is_occupied(m, pos, scale, mask, n - 1);
        assert(bit64(mask, (n - 1) as u64) <==> !region_empty(
            m,
            child_pos(pos, scale, n - 1),
            pow2((scale - 2) as nat) as int,
        ));
    }
}

/// The node stored in a run for an occupied child slot: nonempty, a leaf
/// exactly at the tile level, padding clear, and its occupancy bits describe
/// the slot's own sub-cubes.
pub open spec fn child_run_entry_matches(
    e: Node,
    m: Map<Vec3i, Seq<u8>>,
    cpos: Vec3i,
    scale: u32,
) -> bool {
    &&& e.mask() != 0
    &&& e.pad == 0
    &&& (scale == 2 ==> e.is_leaf())
    &&& (scale > 2 ==> !e.is_leaf())
    &&& forall|i: u64|
        i < 64 ==> (e.mask_bit(i) <==> !region_empty(
            m,
            child_pos(cpos, scale, i as int),
            pow2((scale - 2) as nat) as int,
        ))
}

/// Pushing the child compiled for the next occupied slot keeps every stored
/// child at the rank of its slot.
proof fn lemma_rank_push(
    m: Map<Vec3i, Seq<u8>>,
    pos: Vec3i,
    scale: u32,
    sub_scale: u32,
    children_pre: Seq<Node>,
    child: Node,
    mask_pre: u64,
    i: u64,
)
    requires
        i < 64,
        mask_pre >> i == 0,
        children_pre.len() == count_bits_below(mask_pre, i as int),
        forall|j: u64|
            j < i && #[trigger] bit64(mask_pre, j) ==> child_run_entry_matches(
                children_pre[count_bits_below(mask_pre, j as int) as int],
                m,
                child_pos(pos, scale, j as int),
                sub_scale,
            ),
        child_run_entry_matches(child, m, child_pos(pos, scale, i as int), sub_scale),
    ensures
        forall|j: u64|
            j < i + 1 && #[trigger] bit64(mask_pre | (1u64 << i), j)
                ==> child_run_entry_matches(
                children_pre.push(child)[count_bits_below(
                    mask_pre | (1u64 << i),
                    j as int,
                ) as int],
                m,
                child_pos(pos, scale, j as int),
                sub_scale,
            ),
{
    let mask = mask_pre | (1u64 << i);
    lemma_mask_set_bit(mask_pre, i);
    assert forall|j: u64|
        j < i + 1 && #[trigger] bit64(mask, j) implies child_run_entry_matches(
        children_pre.push(child)[count_bits_below(mask, j as int) as int],
        m,
        child_pos(pos, scale, j as int),
        sub_scale,
    ) by {
        lemma_count_bits_same(mask_pre, mask, j as int);
        if j < i {
            assert(bit64(mask_pre, j)) by {
                assert(((mask_pre | (1u64 << i)) >> j) & 1 == (mask_pre >> j) & 1);
            }
            assert(count_bits_below(mask_pre, j as int) < children_pre.len()) by {
                assert(count_bits_below(mask_pre, j + 1) == count_bits_below(
                    mask_pre,
                    j as int,
                ) + 1);
                lemma_count_bits_mono(mask_pre, j + 1, i as int);
            }
        } else {
            lemma_count_bits_same(mask_pre, mask, i as int);
        }
    }
}

/// The actives sequence grows by one element per nonzero cell, matching the
/// count of set mask bits.
proof fn lemma_actives_count(t: Seq<u8>, m: u64, n: int)
    requires
        0 <= n <= 64,
        forall|j: u64| j < n ==> (bit64(m, j) <==> t[j as int] != 0),
    ensures
        actives_below(t, n).len() == count_bits_below(m, n),
    decreases n,
{
    if n > 0 {
        lemma_actives_count(t, m, n - 1);
    }
}

/// Every byte the actives sequence holds is nonzero.
proof fn lemma_actives_nonzero(t: Seq<u8>, n: int)
    requires
        0 <= n <= 64,
    ensures
        forall|k: int| 0 <= k < actives_below(t, n).len() ==> actives_below(t, n)[k] != 0,
    decreases n,
{
    if n > 0 {
        lemma_actives_nonzero(t, n - 1);
        let a1 = actives_below(t, n - 1);
        let a2 = actives_below(t, n);
        assert forall|k: int| 0 <= k < a2.len() implies a2[k] != 0 by {
            if k < a1.len() {
                assert(a2[k] == a1[k]);
            } else {
                assert(t[n - 1] != 0);
                assert(a2[k] == seq![t[n - 1]][k - a1.len()]);
            }
        }
    }
}

/// Geometry preconditions shared by the compiler at every level.
pub open spec fn region_fits(pos: Vec3i, scale: u32) -> bool {
    &&& 2 <= scale <= 30
    &&& scale % 2 == 0
    &&& 0 <= pos.x && 0 <= pos.y && 0 <= pos.z
    &&& pos.x % 4 == 0 && pos.y % 4 == 0 && pos.z % 4 == 0
    &&& pos.x + pow2(scale as nat) <= 0x4000_0000
    &&& pos.y + pow2(scale as nat) <= 0x4000_0000
    &&& pos.z + pow2(scale as nat) <= 0x4000_0000
}

/// A child cube lies inside its parent cube.
proof fn lemma_child_in_parent(pos: Vec3i, scale: u32, i: int, v: Vec3i)
    requires
        region_fits(pos, scale),
        0 <= i < 64,
        in_cube(v, child_pos(pos, scale, i), pow2((scale - 2) as nat) as int),
    ensures
        in_cube(v, pos, pow2(scale as nat) as int),
{
    let s = pow2((scale - 2) as nat) as int;
    lemma_pow2_adds(2, (scale - 2) as nat);
    lemma2_to64();
    lemma_pow2_pos((scale - 2) as nat);
    let d = child_delta(i);
    assert(0 <= d.x <= 3 && 0 <= d.y <= 3 && 0 <= d.z <= 3);
    assert(d.x * s + s <= 4 * s && d.y * s + s <= 4 * s && d.z * s + s <= 4 * s
        && 0 <= d.x * s && 0 <= d.y * s && 0 <= d.z * s) by (nonlinear_arith)
        requires
            0 <= d.x <= 3,
            0 <= d.y <= 3,
            0 <= d.z <= 3,
            s > 0,
    ;
}

/// Every voxel of a parent cube lies in exactly the child cube its offsets
/// select; this gives the child slot covering it.
proof fn lemma_cube_cover(pos: Vec3i, scale: u32, v: Vec3i)
    requires
        region_fits(pos, scale),
        in_cube(v, pos, pow2(scale as nat) as int),
    ensures
        exists|i: int|
            0 <= i < 64 && #[trigger] in_cube(
                v,
                child_pos(pos, scale, i),
                pow2((scale - 2) as nat) as int,
            ),
{
    let s = pow2((scale - 2) as nat) as int;
    lemma_pow2_adds(2, (scale - 2) as nat);
    lemma2_to64();
    lemma_pow2_pos((scale - 2) as nat);
    let dx = (v.x - pos.x) / s;
    let dy = (v.y - pos.y) / s;
    let dz = (v.z - pos.z) / s;
    lemma_fundamental_div_mod(v.x - pos.x, s);
    lemma_fundamental_div_mod(v.y - pos.y, s);
    lemma_fundamental_div_mod(v.z - pos.z, s);
    let rx = (v.x - pos.x) % s;
    let ry = (v.y - pos.y) % s;
    let rz = (v.z - pos.z) % s;
    assert(0 <= dx <= 3 && 0 <= dy <= 3 && 0 <= dz <= 3) by (nonlinear_arith)
        requires
            s > 0,
            v.x - pos.x == s * dx + rx,
            v.y - pos.y == s * dy + ry,
            v.z - pos.z == s * dz + rz,
            0 <= rx < s,
            0 <= ry < s,
            0 <= rz < s,
            0 <= v.x - pos.x < 4 * s,
            0 <= v.y - pos.y < 4 * s,
            0 <= v.z - pos.z < 4 * s,
    ;
    let i = dx + 4 * dz + 16 * dy;
    assert(0 <= i < 64);
    lemma_fundamental_div_mod_converse(i, 4, dz + 4 * dy, dx);
    lemma_fundamental_div_mod_converse(i, 16, dy, dx + 4 * dz);
    lemma_fundamental_div_mod_converse(i / 4, 4, dy, dz);
    lemma_fundamental_div_mod_converse(i / 16, 4, 0, dy);
    assert(child_delta(i) == Vec3i { x: dx as i32, y: dy as i32, z: dz as i32 });
    assert(in_cube(v, child_pos(pos, scale, i), s)) by {
        assert(child_pos(pos, scale, i).x == pos.x + dx * s && child_pos(pos, scale, i).y
            == pos.y + dy * s && child_pos(pos, scale, i).z == pos.z + dz * s)
            by (nonlinear_arith)
            requires
                s > 0,
                0 <= dx <= 3,
                0 <= dy <= 3,
                0 <= dz <= 3,
                child_delta(i).x == dx && child_delta(i).y == dy && child_delta(i).z == dz,
                region_fits(pos, scale),
                pow2((scale - 2) as nat) == s,
                4 * s == pow2(scale as nat),
        ;
        assert(s * dx == dx * s && s * dy == dy * s && s * dz == dz * s) by (nonlinear_arith);
    }
}

/// A region whose chunk range holds no brick contains no voxel data at all.
proof fn lemma_no_chunks_region_empty(m: Map<Vec3i, Seq<u8>>, pos: Vec3i, scale: u32)
    requires
        region_fits(pos, scale),
        !region_has_chunks(m, pos, region_of(scale)),
    ensures
        region_empty(m, pos, pow2(scale as nat) as int),
{
    lemma2_to64();
    let size = pow2(scale as nat) as int;
    assert(region_of(scale) > 0);
    assert forall|v: Vec3i| #[trigger] in_cube(v, pos, size) implies voxel_at(m, v) == 0 by {
        if m.contains_key(v.spec_chunk()) {
            let c = v.spec_chunk();
            lemma_div_is_ordered(pos.x as int, v.x as int, 8);
            lemma_div_is_ordered(pos.y as int, v.y as int, 8);
            lemma_div_is_ordered(pos.z as int, v.z as int, 8);
            lemma_div_is_ordered(v.x as int, pos.x + size - 1, 8);
            lemma_div_is_ordered(v.y as int, pos.y + size - 1, 8);
            lemma_div_is_ordered(v.z as int, pos.z + size - 1, 8);
            assert(crate::map::in_chunk_region(c, pos, region_of(scale)));
            assert(region_has_chunks(m, pos, region_of(scale)));
        }
    }
}

/// Inside an aligned 4x4x4 tile every voxel shares the tile's chunk, and its
/// cell offsets are the tile-local offsets added to the tile's base cell.
proof fn lemma_tile_same_chunk(pos: Vec3i, v: Vec3i)
    requires
        pos.x % 4 == 0 && pos.y % 4 == 0 && pos.z % 4 == 0,
        0 <= pos.x && 0 <= pos.y && 0 <= pos.z,
        in_cube(v, pos, 4),
    ensures
        v.spec_chunk() == pos.spec_chunk(),
        v.spec_local().x == pos.spec_local().x + (v.x - pos.x),
        v.spec_local().y == pos.spec_local().y + (v.y - pos.y),
        v.spec_local().z == pos.spec_local().z + (v.z - pos.z),
{
    lemma_tile_axis(pos.x as int, v.x as int);
    lemma_tile_axis(pos.y as int, v.y as int);
    lemma_tile_axis(pos.z as int, v.z as int);
}

/// One axis of the tile argument: adding less than 4 to a nonnegative
/// multiple of 4 stays in the same chunk and moves the local offset by the
/// same amount.
proof fn lemma_tile_axis(p: int, x: int)
    requires
        p % 4 == 0,
        0 <= p,
        p <= x < p + 4,
    ensures
        chunk_axis_spec(x) == chunk_axis_spec(p),
        x % 8 == p % 8 + (x - p),
{
    lemma_fundamental_div_mod(p, 8);
    let a = p / 8;
    let r = p % 8;
    assert(r % 4 == 0) by {
        lemma_fundamental_div_mod(p, 4);
        lemma_fundamental_div_mod_converse(r, 4, (p / 4) - 2 * a, p % 4);
    }
    assert(r == 0 || r == 4);
    lemma_fundamental_div_mod_converse(x, 8, a, r + (x - p));
}

/// Compiles the 4x4x4 leaf tile at `pos`: gathers the 64 cells covered by
/// the tile's brick, appends the nonzero values to the leaf array in
/// ascending slot order, and returns the leaf node addressing that run.
/// Without a brick over the tile the empty sentinel is returned and the leaf
/// array is untouched.
#[verifier::rlimit(100)]
#[verifier::spinoff_prover]
fn compile_tile(map: &VoxelMap, leaves: &mut Vec<u8>, pos: Vec3i) -> (node: Node)
    requires
        map.wf(),
        region_fits(pos, 2),
    ensures
        final(leaves)@ == old(leaves)@ + active_cells(map@, pos),
        final(leaves)@.len() >= old(leaves)@.len(),
        final(leaves)@.subrange(0, old(leaves)@.len() as int) == old(leaves)@,
        node.is_leaf() || node == Node::empty_spec(),
        forall|i: u64|
            i < 64 ==> (node.mask_bit(i) <==> !region_empty(
                map@,
                child_pos(pos, 2, i as int),
                1,
            )),
        (node.mask() == 0) <==> region_empty(map@, pos, 4),
        node.mask() == 0 ==> final(leaves)@ == old(leaves)@,
        !region_has_chunks(map@, pos, region_of(2)) ==> node == Node::empty_spec(),
        popcount64(node.mask()) <= 64,
        final(leaves)@.len() == old(leaves)@.len() + popcount64(node.mask()),
        node.mask() != 0 && old(leaves)@.len() < 0x8000_0000 ==> node.ptr() == old(
            leaves,
        )@.len() && node.is_leaf(),
        node.pad == 0,
        forall|k: int|
            old(leaves)@.len() <= k < final(leaves)@.len() ==> final(leaves)@[k] != 0,
{
    proof {
        lemma2_to64();
        lemma_count_bits_le(0, 64);
        lemma_zero_mask_bits();
        // Unit-size child cubes: the slot offsets are the voxel offsets.
        assert forall|i: int| 0 <= i < 64 implies child_pos(pos, 2, i) == (Vec3i {
            x: (pos.x + child_delta(i).x) as i32,
            y: (pos.y + child_delta(i).y) as i32,
            z: (pos.z + child_delta(i).z) as i32,
        }) by {
            assert(child_delta(i).x * 1 == child_delta(i).x && child_delta(i).y * 1
                == child_delta(i).y && child_delta(i).z * 1 == child_delta(i).z);
        }
    }
    let ghost t = tile_cells(map@, pos);
    match map.brick(pos) {
        None => {
            let node = Node::empty();
            proof {
                assert(node.mask() == 0);
                lemma_count_bits_top(0, 0);
                assert forall|v: Vec3i| #[trigger] in_cube(v, pos, 4) implies voxel_at(
                    map@,
                    v,
                ) == 0 by {
                    lemma_tile_same_chunk(pos, v);
                }
                assert forall|i: u64| i < 64 implies !node.mask_bit(i) && region_empty(
                    map@,
                    child_pos(pos, 2, i as int),
                    1,
                ) by {
                    let c = child_pos(pos, 2, i as int);
                    assert forall|v: Vec3i| #[trigger] in_cube(v, c, 1) implies voxel_at(
                        map@,
                        v,
                    ) == 0 by {
                        assert(in_cube(v, pos, 4));
                    }
                }
                assert(region_empty(map@, pos, 4));
                assert forall|n: int| 0 <= n <= 64 implies actives_below(t, n)
                    =~= Seq::<u8>::empty() by {
                    lemma_actives_empty(map@, pos, t, n);
                }
                assert(leaves@ =~= leaves@ + active_cells(map@, pos));
                assert(leaves@.subrange(0, leaves@.len() as int) =~= leaves@);
            }
            node
        },
        Some(brick) => {
            let leaf_index = leaves.len();
            let mut mask: u64 = 0;
            let mut i: usize = 0;
            while i < 64
                invariant
                    map.wf(),
                    region_fits(pos, 2),
                    t == tile_cells(map@, pos),
                    brick@ == map@[pos.spec_chunk()],
                    map@.contains_key(pos.spec_chunk()),
                    i <= 64,
                    leaves@ == old(leaves)@ + actives_below(t, i as int),
                    forall|j: u64| i <= j < 64 ==> !bit64(mask, j),
                    i < 64 ==> mask >> (i as u64) == 0,
                    forall|j: u64| j < i ==> (bit64(mask, j) <==> t[j as int] != 0),
                    (mask == 0) <==> (forall|j: int| 0 <= j < i ==> t[j] == 0),
                decreases 64 - i,
            {
                let dx = (i % 4) as i32;
                let dz = ((i / 4) % 4) as i32;
                let dy = (i / 16) as i32;
                proof {
                    lemma_fundamental_div_mod_converse(i as int, 16, i as int / 16, dx + 4 * dz);
                    lemma_fundamental_div_mod_converse(i as int / 16, 4, 0, dy as int);
                }
                let v = Vec3i::new(pos.x + dx, pos.y + dy, pos.z + dz);
                proof {
                    lemma2_to64();
                    assert(child_delta(i as int) == (Vec3i { x: dx, y: dy, z: dz }));
                    assert(child_delta(i as int).x * 1 == child_delta(i as int).x
                        && child_delta(i as int).y * 1 == child_delta(i as int).y
                        && child_delta(i as int).z * 1 == child_delta(i as int).z);
                    assert(child_pos(pos, 2, i as int) == v);
                    assert(in_cube(v, pos, 4));
                    lemma_tile_same_chunk(pos, v);
                }
                let l = v.local();
                let cell_idx = Brick::voxel_index(l);
                let val = brick.cell(cell_idx);
                proof {
                    assert(val == voxel_at(map@, v));
                    assert(val == t[i as int]);
                }
                let ghost mask0 = mask;
                if val != 0 {
                    proof {
                        lemma_mask_set_bit(mask, i as u64);
                    }
                    mask = mask | (1u64 << (i as u64));
                    leaves.push(val);
                }
                proof {
                    assert(leaves@ =~= old(leaves)@ + actives_below(t, i + 1));
                    if val != 0 {
                        assert forall|j: u64| i + 1 <= j < 64 implies !bit64(mask, j) by {
                            assert(((mask0 | (1u64 << (i as u64))) >> j) & 1 == 0);
                        }
                        if i + 1 < 64 {
                            assert(mask >> ((i + 1) as u64) == 0);
                        }
                    } else {
                        if i + 1 < 64 {
                            assert(mask >> ((i + 1) as u64) == 0) by (bit_vector)
                                requires
                                    mask >> (i as u64) == 0,
                                    i < 64,
                            ;
                        }
                    }
                }
                i += 1;
            }
            proof {
                lemma_actives_count(t, mask, 64);
                lemma_actives_nonzero(t, 64);
                lemma_count_bits_top(mask, 64);
            }
            let maskl = #[verifier::truncate] ((mask & 0xFFFF_FFFF) as u32);
            let maskh = #[verifier::truncate] ((mask >> 32) as u32);
            let ptr32: u32 = #[verifier::truncate] (leaf_index as u32);
            let node = Node { child_ptr_is_leaf: (ptr32 << 1) | 1, maskl, maskh, pad: 0 };
            proof {
                lemma_mask_split(mask);
                assert(node.mask() == mask);
                lemma_shl1_parity(ptr32);
                assert(node.is_leaf());
                // Mask bits match per-cell emptiness of the unit sub-cubes.
                assert forall|i2: u64| i2 < 64 implies (node.mask_bit(i2) <==> !region_empty(
                    map@,
                    child_pos(pos, 2, i2 as int),
                    1,
                )) by {
                    let c = child_pos(pos, 2, i2 as int);
                    assert(t[i2 as int] == voxel_at(map@, c));
                    if t[i2 as int] != 0 {
                        assert(in_cube(c, c, 1));
                        assert(!region_empty(map@, c, 1));
                    } else {
                        assert forall|v: Vec3i| #[trigger] in_cube(v, c, 1) implies voxel_at(
                            map@,
                            v,
                        ) == 0 by {
                            assert(v == c);
                        }
                    }
                }
                // The whole tile is empty exactly when the mask is zero.
                lemma_count_bits_le(mask, 64);
                if mask == 0 {
                    assert forall|v: Vec3i| #[trigger] in_cube(v, pos, 4) implies voxel_at(
                        map@,
                        v,
                    ) == 0 by {
                        lemma_cube_cover(pos, 2, v);
                        let i2 = choose|i2: int|
                            0 <= i2 < 64 && #[trigger] in_cube(v, child_pos(pos, 2, i2), 1);
                        assert(v == child_pos(pos, 2, i2));
                        assert(t[i2] == voxel_at(map@, v));
                    }
                    assert forall|n: int| 0 <= n <= 64 implies actives_below(t, n)
                        =~= Seq::<u8>::empty() by {
                        lemma_actives_empty(map@, pos, t, n);
                    }
                    assert(leaves@ =~= old(leaves)@);
                } else {
                    let j = choose|j: int| 0 <= j < 64 && t[j] != 0;
                    let c = child_pos(pos, 2, j);
                    assert(voxel_at(map@, c) == t[j]);
                    assert(in_cube(c, pos, 4));
                    assert(!region_empty(map@, pos, 4));
                }
                if mask != 0 && leaf_index < 0x8000_0000 {
                    lemma_ptr_pack(ptr32);
                    assert(node.ptr() == leaf_index);
                }
                assert forall|k: int|
                    old(leaves)@.len() <= k < leaves@.len() implies leaves@[k] != 0 by {
                    assert(leaves@[k] == actives_below(t, 64)[k - leaf_index]);
                }
                assert(old(leaves)@ + actives_below(t, 64 as int) == leaves@);
                assert(leaves@.subrange(0, old(leaves)@.len() as int) =~= old(leaves)@);
                // This arm is only reached when the region's chunk is stored.
                lemma_div_is_ordered(pos.x as int, pos.x + 3, 8);
                lemma_div_is_ordered(pos.y as int, pos.y + 3, 8);
                lemma_div_is_ordered(pos.z as int, pos.z + 3, 8);
                lemma_tile_same_chunk(
                    pos,
                    Vec3i { x: (pos.x + 3) as i32, y: (pos.y + 3) as i32, z: (pos.z + 3) as i32 },
                );
                lemma2_to64();
                assert(crate::map::in_chunk_region(pos.spec_chunk(), pos, region_of(2)));
                assert(region_has_chunks(map@, pos, region_of(2)));
            }
            node
        },
    }
}

/// Compiles the cube of side `2^scale` at `pos` into a node, appending any
/// child nodes to `nodes` and any leaf payload bytes to `leaves`.
///
/// The returned node's mask bit `i` is set exactly when child sub-cube `i`
/// holds a nonzero voxel, and the mask is zero exactly when the whole cube is
/// empty. A region whose chunk range holds no brick is pruned without
/// touching either array. As long as the arrays stay inside the 31-bit
/// pointer range of the wire format, every appended node addresses a
/// well-formed run.
#[verifier::rlimit(100)]
#[verifier::spinoff_prover]
pub fn generate_tree(
    map: &VoxelMap,
    nodes: &mut Vec<Node>,
    leaves: &mut Vec<u8>,
    scale: u32,
    pos: Vec3i,
) -> (node: Node)
    requires
        map.wf(),
        region_fits(pos, scale),
    ensures
        final(nodes)@.len() >= old(nodes)@.len(),
        final(leaves)@.len() >= old(leaves)@.len(),
        final(nodes)@.subrange(0, old(nodes)@.len() as int) == old(nodes)@,
        final(leaves)@.subrange(0, old(leaves)@.len() as int) == old(leaves)@,
        forall|i: u64|
            i < 64 ==> (node.mask_bit(i) <==> !region_empty(
                map@,
                child_pos(pos, scale, i as int),
                pow2((scale - 2) as nat) as int,
            )),
        (node.mask() == 0) <==> region_empty(map@, pos, pow2(scale as nat) as int),
        node.mask() == 0 ==> final(nodes)@ == old(nodes)@ && final(leaves)@ == old(leaves)@,
        !region_has_chunks(map@, pos, region_of(scale)) ==> node == Node::empty_spec(),
        final(leaves)@ == old(leaves)@ + region_leaves(map@, pos, scale),
        scale == 2 ==> final(nodes)@ == old(nodes)@ && final(leaves)@ == old(leaves)@
            + active_cells(map@, pos) && (node.is_leaf() || node == Node::empty_spec()),
        scale > 2 ==> !node.is_leaf(),
        popcount64(node.mask()) <= 64,
        final(nodes)@.len() <= 0x8000_0000 && final(leaves)@.len() <= 0x8000_0000
            ==> node_consistent(final(nodes)@, final(leaves)@, node) && (forall|j: int|
            old(nodes)@.len() <= j < final(nodes)@.len() ==> node_consistent(
                final(nodes)@,
                final(leaves)@,
                #[trigger] final(nodes)@[j],
            )),
        scale == 2 && node.mask() != 0 && old(leaves)@.len() < 0x8000_0000 ==> node.ptr()
            == old(leaves)@.len(),
        scale > 2 && node.mask() != 0 && final(nodes)@.len() <= 0x8000_0000 ==> node.ptr()
            == final(nodes)@.len() - popcount64(node.mask()),
        node.pad == 0,
        final(nodes)@.len() == old(nodes)@.len() + region_nodes(map@, pos, scale),
        forall|j: int|
            old(nodes)@.len() <= j < final(nodes)@.len() ==> (#[trigger] final(nodes)@[j]).pad
                == 0,
        scale > 2 && node.mask() != 0 && final(nodes)@.len() <= 0x8000_0000 ==> forall|j: u64|
            j < 64 && #[trigger] node.mask_bit(j) ==> child_run_entry_matches(
                final(nodes)@[node.ptr() + count_bits_below(node.mask(), j as int)],
                map@,
                child_pos(pos, scale, j as int),
                (scale - 2) as u32,
            ),
    decreases scale,
{
    proof {
        lemma2_to64();
        lemma_pow2_pos((scale - 2) as nat);
        lemma_pow2_adds(2, (scale - 2) as nat);
        lemma_count_bits_le(0, 64);
    }
    if scale == 2 {
        let node = compile_tile(map, leaves, pos);
        proof {
            assert(nodes@.subrange(0, nodes@.len() as int) =~= nodes@);
            assert(leaves@ =~= old(leaves)@ + region_leaves(map@, pos, scale));
            assert(region_nodes(map@, pos, scale) == 0);
            if leaves@.len() <= 0x8000_0000 && node.mask() != 0 {
                assert(node_consistent(nodes@, leaves@, node));
            }
        }
        node
    } else {
        let region: u32 = 1u32 << scale;
        proof {
            lemma_u32_shl_is_mul(1u32, scale);
            assert(region == region_of(scale));
        }
        if !map.has_bricks_in_region(pos, region) {
            let node = Node::empty();
            proof {
                lemma_zero_mask_bits();
                assert(node.mask() == 0);
                lemma_no_chunks_region_empty(map@, pos, scale);
                lemma_region_leaves_empty(map@, pos, scale);
                assert(leaves@ =~= leaves@ + region_leaves(map@, pos, scale));
                assert(region_nodes(map@, pos, scale) == 0);
                assert forall|i: u64| i < 64 implies !node.mask_bit(i) && region_empty(
                    map@,
                    child_pos(pos, scale, i as int),
                    pow2((scale - 2) as nat) as int,
                ) by {
                    assert forall|v: Vec3i|
                        #[trigger] in_cube(
                            v,
                            child_pos(pos, scale, i as int),
                            pow2((scale - 2) as nat) as int,
                        ) implies voxel_at(map@, v) == 0 by {
                        lemma_child_in_parent(pos, scale, i as int, v);
                    }
                }
                assert(nodes@.subrange(0, nodes@.len() as int) =~= nodes@);
                assert(leaves@.subrange(0, leaves@.len() as int) =~= leaves@);
            }
            return node;
        }
        let sub_scale = scale - 2;
        let sub_u: u32 = 1u32 << sub_scale;
        proof {
            lemma_u32_shl_is_mul(1u32, sub_scale);
        }
        let sub: i32 = sub_u as i32;
        let ghost s = pow2((scale - 2) as nat) as int;
        let ghost n0 = nodes@.len() as int;
        let ghost l0 = leaves@.len() as int;
        let mut children: Vec<Node> = Vec::new();
        let mut mask: u64 = 0;
        let mut i: usize = 0;
        proof {
            lemma_zero_mask_bits();
            assert(leaves@ =~= old(leaves)@ + region_leaves_upto(map@, pos, scale, 0));
        }
        while i < 64
            invariant
                map.wf(),
                region_fits(pos, scale),
                4 <= scale <= 30,
                scale % 2 == 0,
                sub_scale == scale - 2,
                s == pow2((scale - 2) as nat) as int,
                sub as int == s,
                0 < s <= 0x1000_0000,
                pow2(scale as nat) == 4 * s,
                n0 == old(nodes)@.len(),
                l0 == old(leaves)@.len(),
                i <= 64,
                nodes@.len() >= n0,
                leaves@.len() >= l0,
                nodes@.subrange(0, n0) == old(nodes)@,
                leaves@.subrange(0, l0) == old(leaves)@,
                leaves@ == old(leaves)@ + region_leaves_upto(map@, pos, scale, i as int),
                forall|j: u64| i <= j < 64 ==> !bit64(mask, j),
                i < 64 ==> mask >> (i as u64) == 0,
                children@.len() == count_bits_below(mask, i as int),
                nodes@.len() == n0 + region_nodes_upto(map@, pos, scale, i as int),
                forall|j: int| n0 <= j < nodes@.len() ==> (#[trigger] nodes@[j]).pad == 0,
                forall|k: int| 0 <= k < children@.len() ==> (#[trigger] children@[k]).pad == 0,
                forall|j: u64|
                    j < i && #[trigger] bit64(mask, j) ==> child_run_entry_matches(
                        children@[count_bits_below(mask, j as int) as int],
                        map@,
                        child_pos(pos, scale, j as int),
                        sub_scale,
                    ),
                forall|j: u64|
                    j < i ==> (bit64(mask, j) <==> !region_empty(
                        map@,
                        child_pos(pos, scale, j as int),
                        s,
                    )),
                (mask == 0) <==> (forall|j: int|
                    0 <= j < i ==> region_empty(map@, child_pos(pos, scale, j), s)),
                mask == 0 ==> nodes@ == old(nodes)@ && leaves@ == old(leaves)@,
                forall|k: int| 0 <= k < children@.len() ==> (#[trigger] children@[k]).mask() != 0,
                nodes@.len() <= 0x8000_0000 && leaves@.len() <= 0x8000_0000 ==> (forall|k: int|
                    0 <= k < children@.len() ==> node_consistent(
                        nodes@,
                        leaves@,
                        #[trigger] children@[k],
                    )) && (forall|j: int|
                    n0 <= j < nodes@.len() ==> node_consistent(
                        nodes@,
                        leaves@,
                        #[trigger] nodes@[j],
                    )),
            decreases 64 - i,
        {
            let dx = (i % 4) as i32;
            let dz = ((i / 4) % 4) as i32;
            let dy = (i / 16) as i32;
            proof {
                lemma_fundamental_div_mod_converse(i as int, 16, i as int / 16, dx + 4 * dz);
                lemma_fundamental_div_mod_converse(i as int / 16, 4, 0, dy as int);
                assert(child_delta(i as int) == (Vec3i { x: dx, y: dy, z: dz }));
                assert(0 <= dx * sub <= 3 * s && 0 <= dy * sub <= 3 * s && 0 <= dz * sub
                    <= 3 * s && dx * sub == child_delta(i as int).x * s && dy * sub
                    == child_delta(i as int).y * s && dz * sub == child_delta(i as int).z * s)
                    by (nonlinear_arith)
                    requires
                        0 <= dx <= 3,
                        0 <= dy <= 3,
                        0 <= dz <= 3,
                        sub == s,
                        s > 0,
                        child_delta(i as int) == (Vec3i { x: dx, y: dy, z: dz }),
                ;
            }
            let cpos = Vec3i::new(pos.x + dx * sub, pos.y + dy * sub, pos.z + dz * sub);
            proof {
                assert(cpos == child_pos(pos, scale, i as int));
                // The child region keeps all the geometric preconditions.
                assert(cpos.x % 4 == 0 && cpos.y % 4 == 0 && cpos.z % 4 == 0) by {
                    lemma2_to64();
                    lemma_pow2_pos((sub_scale - 2) as nat);
                    lemma_pow2_adds(2, (sub_scale - 2) as nat);
                    let q = pow2((sub_scale - 2) as nat) as int;
                    assert(s == 4 * q);
                    assert(dx * s == 4 * ((dx as int) * q) && dy * s == 4 * ((dy as int) * q)
                        && dz * s == 4 * ((dz as int) * q)) by (nonlinear_arith)
                        requires
                            s == 4 * q,
                    ;
                    lemma_mod_multiples_vanish((dx as int) * q, pos.x as int, 4);
                    lemma_mod_multiples_vanish((dy as int) * q, pos.y as int, 4);
                    lemma_mod_multiples_vanish((dz as int) * q, pos.z as int, 4);
                }
                assert(cpos.x + s <= pos.x + pow2(scale as nat) && cpos.y + s <= pos.y + pow2(
                    scale as nat,
                ) && cpos.z + s <= pos.z + pow2(scale as nat)) by (nonlinear_arith)
                    requires
                        0 <= dx <= 3,
                        0 <= dy <= 3,
                        0 <= dz <= 3,
                        s > 0,
                        cpos.x == pos.x + dx * s,
                        cpos.y == pos.y + dy * s,
                        cpos.z == pos.z + dz * s,
                        pow2(scale as nat) == 4 * s,
                ;
                assert(region_fits(cpos, sub_scale));
            }
            let ghost nodes_pre = nodes@;
            let ghost leaves_pre = leaves@;
            let ghost children_pre = children@;
            let ghost mask_pre = mask;
            let child = generate_tree(map, nodes, leaves, sub_scale, cpos);
            proof {
                // Prefix preservation composes through the recursive call.
                assert(nodes@.subrange(0, n0) =~= nodes_pre.subrange(0, n0));
                assert(leaves@.subrange(0, l0) =~= leaves_pre.subrange(0, l0));
                // The child's payload extends the slot-ordered leaf stream,
                // and its node count extends the slot-ordered node total.
                assert(leaves@ =~= old(leaves)@ + region_leaves_upto(map@, pos, scale, i + 1));
                assert(nodes@.len() == n0 + region_nodes_upto(map@, pos, scale, i + 1));
                // Padding stays clear on everything appended so far.
                assert forall|j: int| n0 <= j < nodes@.len() implies (#[trigger] nodes@[j]).pad
                    == 0 by {
                    if j < nodes_pre.len() {
                        assert(nodes@.subrange(0, nodes_pre.len() as int)[j] == nodes@[j]);
                        assert(nodes@[j] == nodes_pre[j]) by {
                            assert(nodes@.subrange(0, nodes_pre.len() as int) =~= nodes_pre);
                        }
                    }
                }
            }
            let nonempty = child.maskl != 0 || child.maskh != 0;
            proof {
                assert(nonempty == (child.mask() != 0));
            }
            if nonempty {
                proof {
                    lemma_mask_set_bit(mask, i as u64);
                    lemma_count_bits_same(mask, mask | (1u64 << (i as u64)), i as int);
                }
                mask = mask | (1u64 << (i as u64));
                children.push(child);
            }
            proof {
                let iu = i as u64;
                if nonempty {
                    assert(children@ == children_pre.push(child));
                    assert(bit64(mask, iu));
                    assert(count_bits_below(mask, i + 1) == count_bits_below(
                        mask_pre,
                        i as int,
                    ) + 1);
                    assert forall|j: u64| i + 1 <= j < 64 implies !bit64(mask, j) by {
                        assert(((mask_pre | (1u64 << iu)) >> j) & 1 == 0);
                    }
                    if i + 1 < 64 {
                        assert(mask >> ((i + 1) as u64) == 0);
                    }
                } else {
                    assert(count_bits_below(mask, i + 1) == count_bits_below(mask, i as int));
                    if i + 1 < 64 {
                        assert(mask >> ((i + 1) as u64) == 0) by (bit_vector)
                            requires
                                mask >> (i as u64) == 0,
                                i < 64,
                        ;
                    }
                }
                // Each stored child keeps sitting at the rank of its slot.
                if nonempty {
                    assert(child_run_entry_matches(
                        child,
                        map@,
                        child_pos(pos, scale, i as int),
                        sub_scale,
                    )) by {
                        assert(child != Node::empty_spec());
                    }
                    lemma_rank_push(
                        map@,
                        pos,
                        scale,
                        sub_scale,
                        children_pre,
                        child,
                        mask_pre,
                        iu,
                    );
                    assert(children@ == children_pre.push(child));
                } else {
                    assert forall|j: u64|
                        j < i + 1 && #[trigger] bit64(mask, j) implies child_run_entry_matches(
                        children@[count_bits_below(mask, j as int) as int],
                        map@,
                        child_pos(pos, scale, j as int),
                        sub_scale,
                    ) by {
                        assert(j < iu);
                    }
                }
                // The new slot's bit records the child region's emptiness; the
                // earlier bits keep their meaning.
                assert(bit64(mask, iu) <==> !region_empty(
                    map@,
                    child_pos(pos, scale, i as int),
                    s,
                ));
                assert forall|j: u64|
                    j < i + 1 implies (bit64(mask, j) <==> !region_empty(
                    map@,
                    child_pos(pos, scale, j as int),
                    s,
                )) by {
                    if j < iu {
                        assert(bit64(mask, j) == bit64(mask_pre, j));
                    }
                }
                if mask == 0 {
                    assert(!bit64(mask, iu));
                    assert(region_empty(map@, child_pos(pos, scale, i as int), s));
                    assert(child.mask() == 0);
                    assert(nodes@ == old(nodes)@ && leaves@ == old(leaves)@);
                }
                // Consistency of everything appended so far survives the
                // call's array growth.
                if nodes@.len() <= 0x8000_0000 && leaves@.len() <= 0x8000_0000 {
                    lemma_range_consistent_extend(
                        nodes_pre,
                        leaves_pre,
                        nodes@,
                        leaves@,
                        n0,
                        children_pre,
                    );
                    assert forall|k: int| 0 <= k < children@.len() implies node_consistent(
                        nodes@,
                        leaves@,
                        #[trigger] children@[k],
                    ) by {
                        if k < children_pre.len() {
                            assert(children@[k] == children_pre[k]);
                        } else {
                            assert(children@[k] == child);
                        }
                    }
                    assert forall|j: int| n0 <= j < nodes@.len() implies node_consistent(
                        nodes@,
                        leaves@,
                        #[trigger] nodes@[j],
                    ) by {
                        if j < nodes_pre.len() {
                            assert(nodes@[j] == nodes_pre[j]) by {
                                assert(nodes@.subrange(0, nodes_pre.len() as int)[j]
                                    == nodes@[j]);
                            }
                        }
                    }
                }
            }
            i += 1;
        }
        proof {
            lemma_count_bits_top(mask, 64);
            assert(leaves@ =~= old(leaves)@ + region_leaves(map@, pos, scale));
        }
        let run_start = nodes.len();
        let ptr32: u32 = #[verifier::truncate] (run_start as u32);
        let mut k: usize = 0;
        let ghost nodes_mid = nodes@;
        while k < children.len()
            invariant
                k <= children@.len(),
                nodes@ == nodes_mid + children@.subrange(0, k as int),
            decreases children@.len() - k,
        {
            let c = children[k];
            nodes.push(c);
            proof {
                assert(nodes@ =~= nodes_mid + children@.subrange(0, k + 1));
            }
            k += 1;
        }
        let maskl = #[verifier::truncate] ((mask & 0xFFFF_FFFF) as u32);
        let maskh = #[verifier::truncate] ((mask >> 32) as u32);
        let node = Node { child_ptr_is_leaf: ptr32 << 1, maskl, maskh, pad: 0 };
        proof {
            lemma_mask_split(mask);
            assert(node.mask() == mask);
            lemma_shl1_parity(ptr32);
            assert(!node.is_leaf());
            assert(children@.subrange(0, children@.len() as int) =~= children@);
            assert(nodes@ == nodes_mid + children@);
            // Prefix preservation across the append of the child run.
            assert(nodes@.subrange(0, n0) =~= nodes_mid.subrange(0, n0));
            assert(nodes@.subrange(0, nodes_mid.len() as int) =~= nodes_mid);
            // The mask matches region emptiness on every slot and overall.
            if mask == 0 {
                assert forall|v: Vec3i|
                    #[trigger] in_cube(v, pos, pow2(scale as nat) as int) implies voxel_at(
                    map@,
                    v,
                ) == 0 by {
                    lemma_cube_cover(pos, scale, v);
                    let i2 = choose|i2: int|
                        0 <= i2 < 64 && #[trigger] in_cube(v, child_pos(pos, scale, i2), s);
                    assert(region_empty(map@, child_pos(pos, scale, i2), s));
                }
                assert(region_empty(map@, pos, pow2(scale as nat) as int));
                lemma_count_bits_top(0, 0);
                assert(children@.len() == 0);
                assert(nodes@ =~= old(nodes)@);
            } else {
                let j = choose|j: int|
                    0 <= j < 64 && !region_empty(map@, child_pos(pos, scale, j), s);
                let w = choose|v: Vec3i|
                    !(#[trigger] in_cube(v, child_pos(pos, scale, j), s) ==> voxel_at(map@, v)
                        == 0);
                lemma_child_in_parent(pos, scale, j, w);
                assert(!region_empty(map@, pos, pow2(scale as nat) as int));
            }
            lemma_count_bits_le(mask, 64);
            // Exact node growth: the children run completes the slot totals.
            lemma_count_is_occupied(map@, pos, scale, mask, 64);
            assert(nodes@.len() == n0 + region_nodes(map@, pos, scale));
            // Padding stays clear across the appended run.
            assert forall|j: int| n0 <= j < nodes@.len() implies (#[trigger] nodes@[j]).pad
                == 0 by {
                if j < nodes_mid.len() {
                    assert(nodes@[j] == nodes_mid[j]) by {
                        assert(nodes@.subrange(0, nodes_mid.len() as int)[j] == nodes@[j]);
                    }
                } else {
                    assert(nodes@[j] == children@[j - nodes_mid.len()]);
                }
            }
            // Run placement and consistency under the pointer range.
            if mask != 0 && nodes@.len() <= 0x8000_0000 {
                let jb = choose|j: int|
                    0 <= j < 64 && !region_empty(map@, child_pos(pos, scale, j), s);
                assert(bit64(mask, jb as u64));
                lemma_count_bits_pos(mask, jb as u64, 64);
                assert(children@.len() >= 1);
                assert(run_start < 0x8000_0000);
                lemma_ptr_pack(ptr32);
                assert(node.ptr() == run_start);
                assert(node.ptr() == nodes@.len() - popcount64(node.mask()));
                assert forall|q: int|
                    node.ptr() <= q < node.ptr() + popcount64(node.mask()) implies (
                #[trigger] nodes@[q]).mask() != 0 by {
                    assert(nodes@[q] == children@[q - run_start]);
                }
                // Each occupied slot's compiled child sits at the slot's
                // rank inside the run: the wire order is ascending slots.
                assert forall|j: u64|
                    j < 64 && #[trigger] node.mask_bit(j) implies child_run_entry_matches(
                    nodes@[node.ptr() + count_bits_below(node.mask(), j as int)],
                    map@,
                    child_pos(pos, scale, j as int),
                    (scale - 2) as u32,
                ) by {
                    lemma_rank_below_count(mask, j);
                    assert(nodes@[run_start + count_bits_below(mask, j as int)] == children@[
                        count_bits_below(mask, j as int) as int]);
                }
            }
            if nodes@.len() <= 0x8000_0000 && leaves@.len() <= 0x8000_0000 {
                assert(leaves@.subrange(0, leaves@.len() as int) =~= leaves@);
                assert forall|j2: int| n0 <= j2 < nodes@.len() implies node_consistent(
                    nodes@,
                    leaves@,
                    #[trigger] nodes@[j2],
                ) by {
                    if j2 < nodes_mid.len() {
                        assert(node_consistent(nodes_mid, leaves@, nodes_mid[j2]));
                        lemma_consistent_extend(nodes_mid, leaves@, nodes@, leaves@, nodes_mid[j2]);
                        assert(nodes@[j2] == nodes_mid[j2]) by {
                            assert(nodes@.subrange(0, nodes_mid.len() as int)[j2] == nodes@[j2]);
                        }
                    } else {
                        let c = children@[j2 - nodes_mid.len()];
                        assert(nodes@[j2] == c);
                        assert(node_consistent(nodes_mid, leaves@, c));
                        lemma_consistent_extend(nodes_mid, leaves@, nodes@, leaves@, c);
                    }
                }
            }
        }
        node
    }
}

/// An all-zero tile contributes no active cells at any prefix length.
proof fn lemma_actives_empty(m: Map<Vec3i, Seq<u8>>, pos: Vec3i, t: Seq<u8>, n: int)
    requires
        t == tile_cells(m, pos),
        0 <= n <= 64,
        forall|j: int| 0 <= j < 64 ==> t[j] == 0,
    ensures
        actives_below(t, n) =~= Seq::<u8>::empty(),
    decreases n,
{
    if n > 0 {
        lemma_actives_empty(m, pos, t, n - 1);
    }
}

/// Shifting left by one makes an even word; adding the low bit makes it odd.
proof fn lemma_shl1_parity(x: u32)
    by (bit_vector)
    ensures
        (x << 1) % 2 == 0,
        ((x << 1) | 1) % 2 == 1,
{
}


/// The compiled artifact: the node array (root at index 0), the flat leaf
/// payload, the 256-entry packed-RGBA palette, and the root cube's
/// power-of-two side exponent.
pub struct VoxelTree {
    pub nodes: Vec<Node>,
    pub leaves: Vec<u8>,
    pub palette: Vec<u32>,
    pub exp: u32,
}

impl VoxelTree {
    /// The palette is full, both arrays stay inside the wire format's 31-bit
    /// pointer range, and every node addresses a well-formed run.
    pub open spec fn wf(&self) -> bool {
        &&& self.palette@.len() == 256
        &&& 1 <= self.nodes@.len() <= 0x8000_0000
        &&& self.leaves@.len() <= 0x8000_0000
        &&& forall|j: int|
            0 <= j < self.nodes@.len() ==> node_consistent(
                self.nodes@,
                self.leaves@,
                #[trigger] self.nodes@[j],
            )
    }

    /// Compiles a voxel map into a tree whose root covers the cube of side
    /// `2^exp` voxels at the origin. Succeeds whenever the compiled output
    /// fits the persisted format: `None` comes exactly when the node count
    /// overflows the format's 32-bit node-byte header or the leaf payload
    /// outgrows the 31-bit pointer range, which is fatal for the asset.
    #[verifier::rlimit(100)]
    pub fn from_map(map: &VoxelMap, exp: u32) -> (r: Option<VoxelTree>)
        requires
            map.wf(),
            region_fits(Vec3i { x: 0, y: 0, z: 0 }, exp),
        ensures
            match r {
                Some(t) => {
                    &&& t.wf()
                    &&& t.exp == exp
                    &&& t.palette@ == map.palette@
                    &&& t.leaves@ == region_leaves(map@, Vec3i { x: 0, y: 0, z: 0 }, exp)
                    &&& t.nodes@.len() == 1 + region_nodes(map@, Vec3i { x: 0, y: 0, z: 0 }, exp)
                    &&& t.nodes@.len() <= 0x0FFF_FFFF
                    &&& forall|j: int|
                        0 <= j < t.nodes@.len() ==> (#[trigger] t.nodes@[j]).pad == 0
                    &&& forall|i: u64|
                        i < 64 ==> ((#[trigger] t.nodes@[0].mask_bit(i)) <==> !region_empty(
                            map@,
                            child_pos(Vec3i { x: 0, y: 0, z: 0 }, exp, i as int),
                            pow2((exp - 2) as nat) as int,
                        ))
                    &&& ((t.nodes@[0].mask() == 0) <==> region_empty(
                        map@,
                        Vec3i { x: 0, y: 0, z: 0 },
                        pow2(exp as nat) as int,
                    ))
                },
                None => 1 + region_nodes(map@, Vec3i { x: 0, y: 0, z: 0 }, exp) > 0x0FFF_FFFF
                    || region_leaves(map@, Vec3i { x: 0, y: 0, z: 0 }, exp).len()
                    > 0x8000_0000,
            },
    {
        let origin = Vec3i::new(0, 0, 0);
        let mut nodes: Vec<Node> = Vec::new();
        nodes.push(Node::empty());
        let mut leaves: Vec<u8> = Vec::new();
        let ghost init = nodes@;
        proof {
            assert(init =~= seq![Node::empty_spec()]);
        }
        let root = generate_tree(map, &mut nodes, &mut leaves, exp, origin);
        if nodes.len() > 0x0FFF_FFFF || leaves.len() > 0x8000_0000 {
            return None;
        }
        let ghost pre = nodes@;
        nodes[0] = root;
        let mut palette: Vec<u32> = Vec::new();
        let mut i: usize = 0;
        while i < 256
            invariant
                map.wf(),
                i <= 256,
                palette@ == map.palette@.subrange(0, i as int),
            decreases 256 - i,
        {
            palette.push(map.palette[i]);
            proof {
                assert(palette@ =~= map.palette@.subrange(0, i + 1));
            }
            i += 1;
        }
        proof {
            assert(palette@ =~= map.palette@);
        }
        let t = VoxelTree { nodes, leaves, palette, exp };
        proof {
            // Writing the root into slot 0 preserves every node's
            // consistency: slot 0 held the empty sentinel, so no run can
            // address it, and the root's own run lies beyond it.
            assert(pre.subrange(0, 1) == init);
            assert(pre[0] == init[0]) by {
                assert(pre.subrange(0, 1)[0] == pre[0]);
            }
            assert(pre[0].mask() == 0);
            assert forall|j: int| 0 <= j < t.nodes@.len() implies (#[trigger] t.nodes@[j]).pad
                == 0 by {
                if j > 0 {
                    assert(pre[j].pad == 0);
                }
            }
            assert forall|j: int| 0 <= j < t.nodes@.len() implies node_consistent(
                t.nodes@,
                t.leaves@,
                #[trigger] t.nodes@[j],
            ) by {
                let m = if j == 0 {
                    root
                } else {
                    pre[j]
                };
                assert(t.nodes@[j] == m);
                assert(node_consistent(pre, t.leaves@, m));
                if m.mask() != 0 && !m.is_leaf() {
                    assert forall|k: int|
                        m.ptr() <= k < m.ptr() + popcount64(m.mask()) implies (
                    #[trigger] t.nodes@[k]).mask() != 0 by {
                        assert(pre[k].mask() != 0);
                        assert(k != 0);
                    }
                }
            }
        }
        Some(t)
    }
}

} // verus!
