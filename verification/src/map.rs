//! The sparse voxel map: a mapping from chunk coordinates to bricks, plus a
//! 256-entry color palette.
//!
//! A brick is a dense cube of side 8 holding one palette index per cell, 0
//! meaning empty. The map is modelled as a mathematical `Map` from chunk
//! coordinate to the 512-byte cell sequence of the brick stored there.

use crate::math::{chunk_axis, chunk_axis_spec, Vec3i};
use vstd::arithmetic::div_mod::lemma_div_is_ordered;
use vstd::prelude::*;

verus! {

/// A dense cube of side 8 holding one palette index per cell.
pub struct Brick {
    pub data: Vec<u8>,
}

impl View for Brick {
    type V = Seq<u8>;

    open spec fn view(&self) -> Seq<u8> {
        self.data@
    }
}

/// Cell index of a local position inside a brick: `x + z*8 + y*64`.
pub open spec fn brick_index_spec(l: Vec3i) -> int {
    l.x + l.z * 8 + l.y * 64
}

impl Brick {
    /// A brick is a full cube: exactly 512 cells.
    pub open spec fn wf(&self) -> bool {
        self@.len() == 512
    }

    /// Cell index of a local position inside a brick.
    pub fn voxel_index(pos: Vec3i) -> (i: usize)
        requires
            0 <= pos.x < 8,
            0 <= pos.y < 8,
            0 <= pos.z < 8,
        ensures
            i == brick_index_spec(pos),
            i < 512,
    {
        (pos.x + pos.z * 8 + pos.y * 64) as usize
    }

    /// Reads one cell.
    pub fn cell(&self, i: usize) -> (v: u8)
        requires
            self.wf(),
            i < 512,
        ensures
            v == self@[i as int],
    {
        self.data[i]
    }

    /// Writes one cell.
    pub fn set_cell(&mut self, i: usize, v: u8)
        requires
            old(self).wf(),
            i < 512,
        ensures
            final(self).wf(),
            final(self)@ == old(self)@.update(i as int, v),
    {
        self.data[i] = v;
    }
}

impl Default for Brick {
    /// An all-empty brick: 512 cells of 0.
    fn default() -> (b: Brick)
        ensures
            b.wf(),
            b@ == Seq::new(512, |i: int| 0u8),
    {
        let mut data: Vec<u8> = Vec::new();
        let mut i: usize = 0;
        while i < 512
            invariant
                i <= 512,
                data@.len() == i,
                forall|j: int| 0 <= j < i ==> data@[j] == 0u8,
            decreases 512 - i,
        {
            data.push(0u8);
            i += 1;
        }
        proof {
            assert(data@ =~= Seq::new(512, |j: int| 0u8));
        }
        Brick { data }
    }
}

/// One stored chunk: its coordinate and its brick.
pub struct ChunkEntry {
    pub pos: Vec3i,
    pub brick: Brick,
}

/// No two entries share a chunk coordinate.
pub open spec fn unique_keys(s: Seq<ChunkEntry>) -> bool {
    forall|i: int, j: int| 0 <= i < j < s.len() ==> s[i].pos != s[j].pos
}

/// Some entry carries this chunk coordinate.
pub open spec fn has_key(s: Seq<ChunkEntry>, p: Vec3i) -> bool {
    exists|i: int| 0 <= i < s.len() && s[i].pos == p
}

/// The cells of the entry carrying this chunk coordinate.
pub open spec fn value_at(s: Seq<ChunkEntry>, p: Vec3i) -> Seq<u8> {
    s[choose|i: int| 0 <= i < s.len() && s[i].pos == p].brick@
}

/// The chunk store as a mathematical map.
pub open spec fn map_of(s: Seq<ChunkEntry>) -> Map<Vec3i, Seq<u8>> {
    Map::new(|p: Vec3i| has_key(s, p), |p: Vec3i| value_at(s, p))
}

/// The sparse voxel map: bricks keyed by chunk coordinate, plus a palette.
pub struct VoxelMap {
    pub chunks: Vec<ChunkEntry>,
    pub palette: Vec<u32>,
}

/// Value of the voxel at `v`: the cell of its brick, or 0 where no brick is
/// stored.
pub open spec fn voxel_at(m: Map<Vec3i, Seq<u8>>, v: Vec3i) -> u8 {
    if m.contains_key(v.spec_chunk()) {
        m[v.spec_chunk()][brick_index_spec(v.spec_local())]
    } else {
        0u8
    }
}

/// The chunk coordinate `p` lies in the chunk range covering the cube of
/// `range` voxels starting at `pos`.
pub open spec fn in_chunk_region(p: Vec3i, pos: Vec3i, range: u32) -> bool {
    &&& chunk_axis_spec(pos.x as int) <= p.x
    &&& p.x <= chunk_axis_spec(pos.x + range - 1)
    &&& chunk_axis_spec(pos.y as int) <= p.y
    &&& p.y <= chunk_axis_spec(pos.y + range - 1)
    &&& chunk_axis_spec(pos.z as int) <= p.z
    &&& p.z <= chunk_axis_spec(pos.z + range - 1)
}

/// Some chunk of `m` lies in the chunk range covering the cube of `range`
/// voxels starting at `pos`.
pub open spec fn region_has_chunks(m: Map<Vec3i, Seq<u8>>, pos: Vec3i, range: u32) -> bool {
    range > 0 && exists|p: Vec3i| m.contains_key(p) && #[trigger] in_chunk_region(p, pos, range)
}

/// `q` is `p` translated by `o`.
pub open spec fn offset_key(p: Vec3i, o: Vec3i, q: Vec3i) -> bool {
    q.x == p.x + o.x && q.y == p.y + o.y && q.z == p.z + o.z
}

/// `m1` is `m0` with every chunk key translated by `o`, where `o` is the
/// smallest nonnegative translation that makes every key nonnegative.
pub open spec fn is_positive_shift(
    m0: Map<Vec3i, Seq<u8>>,
    m1: Map<Vec3i, Seq<u8>>,
    o: Vec3i,
) -> bool {
    &&& o.x >= 0 && o.y >= 0 && o.z >= 0
    &&& forall|p: Vec3i| #[trigger]
        m0.contains_key(p) ==> p.x + o.x >= 0 && p.y + o.y >= 0 && p.z + o.z >= 0
    &&& (o.x > 0 ==> exists|p: Vec3i| #[trigger] m0.contains_key(p) && p.x + o.x == 0)
    &&& (o.y > 0 ==> exists|p: Vec3i| #[trigger] m0.contains_key(p) && p.y + o.y == 0)
    &&& (o.z > 0 ==> exists|p: Vec3i| #[trigger] m0.contains_key(p) && p.z + o.z == 0)
    &&& forall|p: Vec3i, q: Vec3i|
        m0.contains_key(p) && #[trigger] offset_key(p, o, q) ==> m1.contains_key(q)
            && m1[q] == m0[p]
    &&& forall|q: Vec3i| #[trigger]
        m1.contains_key(q) ==> exists|p: Vec3i|
            m0.contains_key(p) && #[trigger] offset_key(p, o, q)
}

/// Shifting to positive coordinates is idempotent: a map whose keys are
/// already nonnegative is its own positive shift, under the zero offset.
/// Together with the shift's own contract — afterwards every key is
/// nonnegative, and a map with nonnegative keys is left unchanged — this
/// says that applying the shift twice equals applying it once.
pub proof fn lemma_positive_shift_idempotent(m: Map<Vec3i, Seq<u8>>)
    requires
        forall|p: Vec3i| #[trigger] m.contains_key(p) ==> p.x >= 0 && p.y >= 0 && p.z >= 0,
    ensures
        is_positive_shift(m, m, Vec3i { x: 0, y: 0, z: 0 }),
{
    let o = Vec3i { x: 0, y: 0, z: 0 };
    assert forall|p: Vec3i, q: Vec3i|
        m.contains_key(p) && #[trigger] offset_key(p, o, q) implies m.contains_key(q) && m[q]
        == m[p] by {
        assert(q == p);
    }
    assert forall|q: Vec3i| #[trigger] m.contains_key(q) implies exists|p: Vec3i|
        m.contains_key(p) && #[trigger] offset_key(p, o, q) by {
        assert(offset_key(q, o, q));
    }
}

/// In a well-formed map every stored brick is a full 512-cell cube.
pub proof fn lemma_wf_values_full(m: &VoxelMap)
    requires
        m.wf(),
    ensures
        forall|q: Vec3i| #[trigger] m@.contains_key(q) ==> m@[q].len() == 512,
{
    assert forall|q: Vec3i| #[trigger] m@.contains_key(q) implies m@[q].len() == 512 by {
        let w = choose|w: int| 0 <= w < m.chunks@.len() && m.chunks@[w].pos == q;
        assert(m.chunks@[w].brick.wf());
    }
}

impl View for VoxelMap {
    type V = Map<Vec3i, Seq<u8>>;

    open spec fn view(&self) -> Map<Vec3i, Seq<u8>> {
        map_of(self.chunks@)
    }
}

impl VoxelMap {
    /// Chunk coordinates are unique, every brick is a full cube, and the
    /// palette has exactly 256 entries.
    pub open spec fn wf(&self) -> bool {
        &&& unique_keys(self.chunks@)
        &&& forall|i: int| 0 <= i < self.chunks@.len() ==> (#[trigger] self.chunks@[i]).brick.wf()
        &&& self.palette@.len() == 256
    }

    /// An empty map with the default all-white palette.
    pub fn new() -> (m: VoxelMap)
        ensures
            m.wf(),
            m@ == Map::<Vec3i, Seq<u8>>::empty(),
            m.palette@ == Seq::new(256, |i: int| u32::MAX),
    {
        let mut palette: Vec<u32> = Vec::new();
        let mut i: usize = 0;
        while i < 256
            invariant
                i <= 256,
                palette@.len() == i,
                forall|j: int| 0 <= j < i ==> palette@[j] == u32::MAX,
            decreases 256 - i,
        {
            palette.push(u32::MAX);
            i += 1;
        }
        let m = VoxelMap { chunks: Vec::new(), palette };
        proof {
            assert(m@ =~= Map::<Vec3i, Seq<u8>>::empty());
            assert(m.palette@ =~= Seq::new(256, |j: int| u32::MAX));
        }
        m
    }

    /// Index of the entry carrying chunk coordinate `p`, if any.
    fn find_chunk(&self, p: Vec3i) -> (r: Option<usize>)
        ensures
            match r {
                Some(i) => i < self.chunks@.len() && self.chunks@[i as int].pos == p,
                None => !has_key(self.chunks@, p),
            },
    {
        let mut i: usize = 0;
        while i < self.chunks.len()
            invariant
                i <= self.chunks@.len(),
                forall|j: int| 0 <= j < i ==> self.chunks@[j].pos != p,
            decreases self.chunks@.len() - i,
        {
            if self.chunks[i].pos == p {
                return Some(i);
            }
            i += 1;
        }
        None
    }

    /// The brick covering a voxel position, if one is stored.
    pub fn brick(&self, voxel_pos: Vec3i) -> (r: Option<&Brick>)
        requires
            self.wf(),
        ensures
            match r {
                Some(b) => self@.contains_key(voxel_pos.spec_chunk()) && b@ == self@[voxel_pos.spec_chunk()],
                None => !self@.contains_key(voxel_pos.spec_chunk()),
            },
    {
        let c = voxel_pos.chunk();
        match self.find_chunk(c) {
            Some(i) => {
                proof {
                    assert(self.chunks@[i as int].pos == c);
                    let w = choose|k: int|
                        0 <= k < self.chunks@.len() && self.chunks@[k].pos == c;
                    assert(w == i);
                }
                Some(&self.chunks[i].brick)
            },
            None => None,
        }
    }

    /// Whether the map stores a brick at chunk coordinate `p`.
    fn contains_chunk(&self, p: Vec3i) -> (r: bool)
        ensures
            r == has_key(self.chunks@, p),
    {
        match self.find_chunk(p) {
            Some(_) => true,
            None => false,
        }
    }

    /// Reports whether any stored chunk falls in the chunk range covering a
    /// cube of `range` voxels starting at `pos`. False for an empty range.
    ///
    /// Scans whichever is smaller: the candidate chunk range or the stored
    /// chunk list.
    pub fn has_bricks_in_region(&self, pos: Vec3i, range: u32) -> (r: bool)
        requires
            self.wf(),
            pos.x + range - 1 <= i32::MAX,
            pos.y + range - 1 <= i32::MAX,
            pos.z + range - 1 <= i32::MAX,
        ensures
            r == region_has_chunks(self@, pos, range),
    {
        if range == 0 {
            return false;
        }
        let lo = Vec3i::new(chunk_axis(pos.x), chunk_axis(pos.y), chunk_axis(pos.z));
        let hi = Vec3i::new(
            chunk_axis(((pos.x as i64) + (range as i64) - 1) as i32),
            chunk_axis(((pos.y as i64) + (range as i64) - 1) as i32),
            chunk_axis(((pos.z as i64) + (range as i64) - 1) as i32),
        );
        proof {
            lemma_div_is_ordered(pos.x as int, pos.x + range - 1, 8);
            lemma_div_is_ordered(pos.y as int, pos.y + range - 1, 8);
            lemma_div_is_ordered(pos.z as int, pos.z + range - 1, 8);
        }
        let dx: u64 = (hi.x - lo.x) as u64 + 1;
        let dy: u64 = (hi.y - lo.y) as u64 + 1;
        let dz: u64 = (hi.z - lo.z) as u64 + 1;
        proof {
            assert(dx * dy * dz < 0x1_0000_0000_0000_0000_0000_0000) by (nonlinear_arith)
                requires
                    dx <= 0x2000_0001,
                    dy <= 0x2000_0001,
                    dz <= 0x2000_0001,
            ;
            assert(dx * dy < 0x1_0000_0000_0000_0000_0000_0000) by (nonlinear_arith)
                requires
                    dx <= 0x2000_0001,
                    dy <= 0x2000_0001,
            ;
        }
        let volume: u128 = (dx as u128) * (dy as u128) * (dz as u128);
        if (self.chunks.len() as u128) < volume {
            // Fewer stored chunks than candidate cells: scan the chunk list.
            let mut i: usize = 0;
            while i < self.chunks.len()
                invariant
                    i <= self.chunks@.len(),
                    forall|j: int|
                        0 <= j < i ==> !in_chunk_region(
                            (#[trigger] self.chunks@[j]).pos,
                            pos,
                            range,
                        ),
                    range > 0,
                    lo.x == chunk_axis_spec(pos.x as int),
                    lo.y == chunk_axis_spec(pos.y as int),
                    lo.z == chunk_axis_spec(pos.z as int),
                    hi.x == chunk_axis_spec(pos.x + range - 1),
                    hi.y == chunk_axis_spec(pos.y + range - 1),
                    hi.z == chunk_axis_spec(pos.z + range - 1),
                decreases self.chunks@.len() - i,
            {
                let k = self.chunks[i].pos;
                if k.x >= lo.x && k.x <= hi.x && k.y >= lo.y && k.y <= hi.y && k.z >= lo.z
                    && k.z <= hi.z {
                    proof {
                        assert(self@.contains_key(k)) by {
                            assert(self.chunks@[i as int].pos == k);
                        }
                        assert(in_chunk_region(k, pos, range));
                        assert(region_has_chunks(self@, pos, range)) by {
                            assert(self@.contains_key(k) && in_chunk_region(k, pos, range));
                        }
                    }
                    return true;
                }
                i += 1;
            }
            proof {
                if region_has_chunks(self@, pos, range) {
                    let p = choose|p: Vec3i|
                        self@.contains_key(p) && in_chunk_region(p, pos, range);
                    let j = choose|j: int|
                        0 <= j < self.chunks@.len() && self.chunks@[j].pos == p;
                    assert(!in_chunk_region(self.chunks@[j].pos, pos, range));
                }
            }
            false
        } else {
            // The candidate cell range is at most as large: scan it.
            let mut x: i32 = lo.x;
            while x <= hi.x
                invariant
                    lo.x <= x <= hi.x + 1,
                    -0x1000_0000 <= x <= 0x1000_0000,
                    forall|p: Vec3i|
                        self@.contains_key(p) && in_chunk_region(p, pos, range) ==> p.x
                            >= x,
                    range > 0,
                    lo.x == chunk_axis_spec(pos.x as int),
                    lo.y == chunk_axis_spec(pos.y as int),
                    lo.z == chunk_axis_spec(pos.z as int),
                    hi.x == chunk_axis_spec(pos.x + range - 1),
                    hi.y == chunk_axis_spec(pos.y + range - 1),
                    hi.z == chunk_axis_spec(pos.z + range - 1),
                    hi.x <= 0x0FFF_FFFF,
                    hi.y <= 0x0FFF_FFFF,
                    hi.z <= 0x0FFF_FFFF,
                    lo.y >= -0x1000_0000,
                    lo.z >= -0x1000_0000,
                    self.wf(),
                decreases hi.x + 1 - x,
            {
                let mut y: i32 = lo.y;
                while y <= hi.y
                    invariant
                        lo.y <= y <= hi.y + 1,
                        -0x1000_0000 <= y,
                        y <= 0x1000_0000 + 1,
                        forall|p: Vec3i|
                            self@.contains_key(p) && in_chunk_region(p, pos, range)
                                ==> p.x > x || (p.x == x && p.y >= y),
                        range > 0,
                    lo.x == chunk_axis_spec(pos.x as int),
                    lo.y == chunk_axis_spec(pos.y as int),
                    lo.z == chunk_axis_spec(pos.z as int),
                        hi.x == chunk_axis_spec(pos.x + range - 1),
                        hi.y == chunk_axis_spec(pos.y + range - 1),
                        hi.z == chunk_axis_spec(pos.z + range - 1),
                        lo.x <= x <= hi.x,
                        hi.y <= 0x0FFF_FFFF,
                        hi.z <= 0x0FFF_FFFF,
                        lo.z >= -0x1000_0000,
                        self.wf(),
                    decreases hi.y + 1 - y,
                {
                    let mut z: i32 = lo.z;
                    while z <= hi.z
                        invariant
                            lo.z <= z <= hi.z + 1,
                            -0x1000_0000 <= z,
                            z <= 0x1000_0000 + 1,
                            forall|p: Vec3i|
                                self@.contains_key(p) && in_chunk_region(p, pos, range)
                                    ==> p.x > x || (p.x == x && (p.y > y || (p.y == y
                                    && p.z >= z))),
                            range > 0,
                    lo.x == chunk_axis_spec(pos.x as int),
                    lo.y == chunk_axis_spec(pos.y as int),
                    lo.z == chunk_axis_spec(pos.z as int),
                            hi.x == chunk_axis_spec(pos.x + range - 1),
                            hi.y == chunk_axis_spec(pos.y + range - 1),
                            hi.z == chunk_axis_spec(pos.z + range - 1),
                            lo.x <= x <= hi.x,
                            lo.y <= y <= hi.y,
                            hi.z <= 0x0FFF_FFFF,
                            self.wf(),
                        decreases hi.z + 1 - z,
                    {
                        if self.contains_chunk(Vec3i::new(x, y, z)) {
                            proof {
                                let k = Vec3i { x, y, z };
                                assert(self@.contains_key(k));
                                assert(in_chunk_region(k, pos, range));
                                assert(region_has_chunks(self@, pos, range)) by {
                                    assert(self@.contains_key(k) && in_chunk_region(k, pos, range));
                                }
                            }
                            return true;
                        }
                        z += 1;
                    }
                    y += 1;
                }
                x += 1;
            }
            proof {
                if region_has_chunks(self@, pos, range) {
                    let p = choose|p: Vec3i|
                        self@.contains_key(p) && in_chunk_region(p, pos, range);
                    assert(p.x <= hi.x);
                }
            }
            false
        }
    }

    /// Writes the palette index `value` at voxel position `pos`, creating an
    /// empty brick first where none covers it.
    pub fn set_voxel(&mut self, pos: Vec3i, value: u8)
        requires
            old(self).wf(),
        ensures
            final(self).wf(),
            final(self).palette == old(self).palette,
            final(self)@ == old(self)@.insert(
                pos.spec_chunk(),
                (if old(self)@.contains_key(pos.spec_chunk()) {
                    old(self)@[pos.spec_chunk()]
                } else {
                    Seq::new(512, |i: int| 0u8)
                }).update(brick_index_spec(pos.spec_local()), value),
            ),
    {
        let c = pos.chunk();
        let l = pos.local();
        let idx = Brick::voxel_index(l);
        let ghost m0 = self@;
        match self.find_chunk(c) {
            Some(i) => {
                proof {
                    if self@.contains_key(c) {
                        let w = choose|k: int|
                            0 <= k < self.chunks@.len() && self.chunks@[k].pos == c;
                        assert(w == i);
                    }
                }
                let e = &mut self.chunks[i];
                e.brick.set_cell(idx, value);
                proof {
                    assert forall|p: Vec3i| #![auto] self@.contains_key(p) <==> m0.insert(
                        c,
                        m0[c].update(idx as int, value),
                    ).contains_key(p) by {
                        if has_key(self.chunks@, p) {
                            let k = choose|k: int|
                                0 <= k < self.chunks@.len() && self.chunks@[k].pos == p;
                            assert(old(self).chunks@[k].pos == p);
                        }
                        if m0.insert(c, m0[c].update(idx as int, value)).contains_key(p) {
                            if p == c {
                                assert(self.chunks@[i as int].pos == p);
                            } else {
                                let k = choose|k: int|
                                    0 <= k < old(self).chunks@.len() && old(
                                        self,
                                    ).chunks@[k].pos == p;
                                assert(self.chunks@[k].pos == p);
                            }
                        }
                    }
                    assert forall|p: Vec3i|
                        self@.contains_key(p) implies #[trigger] self@[p] == m0.insert(
                        c,
                        m0[c].update(idx as int, value),
                    )[p] by {
                        let k = choose|k: int|
                            0 <= k < self.chunks@.len() && self.chunks@[k].pos == p;
                        if p == c {
                            assert(k == i);
                        } else {
                            assert(old(self).chunks@[k].pos == p);
                            let w = choose|w: int|
                                0 <= w < old(self).chunks@.len() && old(self).chunks@[w].pos
                                    == p;
                            assert(w == k);
                        }
                    }
                    assert(self@ =~= m0.insert(c, m0[c].update(idx as int, value)));
                }
            },
            None => {
                let mut b = Brick::default();
                b.set_cell(idx, value);
                self.chunks.push(ChunkEntry { pos: c, brick: b });
                proof {
                    let n = old(self).chunks@.len() as int;
                    assert(self.chunks@[n].pos == c);
                    assert forall|p: Vec3i| #![auto] self@.contains_key(p) <==> m0.insert(
                        c,
                        Seq::new(512, |i: int| 0u8).update(idx as int, value),
                    ).contains_key(p) by {
                        if has_key(self.chunks@, p) {
                            let k = choose|k: int|
                                0 <= k < self.chunks@.len() && self.chunks@[k].pos == p;
                            if k < n {
                                assert(old(self).chunks@[k].pos == p);
                            }
                        }
                        if m0.contains_key(p) {
                            let k = choose|k: int|
                                0 <= k < old(self).chunks@.len() && old(self).chunks@[k].pos
                                    == p;
                            assert(self.chunks@[k].pos == p);
                        }
                    }
                    assert forall|p: Vec3i|
                        self@.contains_key(p) implies #[trigger] self@[p] == m0.insert(
                        c,
                        Seq::new(512, |i: int| 0u8).update(idx as int, value),
                    )[p] by {
                        let k = choose|k: int|
                            0 <= k < self.chunks@.len() && self.chunks@[k].pos == p;
                        if p == c {
                            assert(k == n) by {
                                if k < n {
                                    assert(old(self).chunks@[k].pos == c);
                                    assert(!m0.contains_key(c));
                                }
                            }
                        } else {
                            assert(k < n);
                            assert(old(self).chunks@[k].pos == p);
                            let w = choose|w: int|
                                0 <= w < old(self).chunks@.len() && old(self).chunks@[w].pos
                                    == p;
                            assert(w == k);
                        }
                    }
                    assert(self@ =~= m0.insert(
                        c,
                        Seq::new(512, |i: int| 0u8).update(idx as int, value),
                    ));
                }
            },
        }
    }

    /// Translates every chunk key by the smallest nonnegative offset that
    /// makes all coordinates nonnegative. A no-op when the map is empty or
    /// already nonnegative; in particular, applying it twice equals applying
    /// it once.
    #[verifier::loop_isolation(false)]
    #[verifier::rlimit(50)]
    pub fn shift_to_positive(&mut self)
        requires
            old(self).wf(),
            forall|p: Vec3i| #[trigger]
                old(self)@.contains_key(p) ==> p.x > i32::MIN && p.y > i32::MIN && p.z
                    > i32::MIN,
            forall|p: Vec3i, q: Vec3i|
                #[trigger] old(self)@.contains_key(p) && #[trigger] old(self)@.contains_key(
                    q,
                ) ==> p.x - q.x <= i32::MAX && p.y - q.y <= i32::MAX && p.z - q.z
                    <= i32::MAX,
        ensures
            final(self).wf(),
            final(self).palette == old(self).palette,
            forall|q: Vec3i| #[trigger]
                final(self)@.contains_key(q) ==> q.x >= 0 && q.y >= 0 && q.z >= 0,
            exists|o: Vec3i| #[trigger] is_positive_shift(old(self)@, final(self)@, o),
            (forall|p: Vec3i| #[trigger]
                old(self)@.contains_key(p) ==> p.x >= 0 && p.y >= 0 && p.z >= 0)
                ==> *final(self) == *old(self),
    {
        let n = self.chunks.len();
        if n == 0 {
            proof {
                let o = Vec3i { x: 0, y: 0, z: 0 };
                assert(is_positive_shift(self@, self@, o));
            }
            return;
        }
        let mut minx: i32 = self.chunks[0].pos.x;
        let mut miny: i32 = self.chunks[0].pos.y;
        let mut minz: i32 = self.chunks[0].pos.z;
        let mut i: usize = 1;
        while i < n
            invariant
                1 <= i <= n,
                n == self.chunks@.len(),
                exists|j: int| 0 <= j < i && (#[trigger] self.chunks@[j]).pos.x == minx,
                exists|j: int| 0 <= j < i && (#[trigger] self.chunks@[j]).pos.y == miny,
                exists|j: int| 0 <= j < i && (#[trigger] self.chunks@[j]).pos.z == minz,
                forall|j: int|
                    0 <= j < i ==> (#[trigger] self.chunks@[j]).pos.x >= minx
                        && self.chunks@[j].pos.y >= miny && self.chunks@[j].pos.z >= minz,
            decreases n - i,
        {
            let p = self.chunks[i].pos;
            if p.x < minx {
                minx = p.x;
            }
            if p.y < miny {
                miny = p.y;
            }
            if p.z < minz {
                minz = p.z;
            }
            i += 1;
        }
        proof {
            // Every stored coordinate is a key of the map.
            assert forall|j: int| 0 <= j < n implies self@.contains_key(
                (#[trigger] self.chunks@[j]).pos,
            ) by {
                assert(has_key(self.chunks@, self.chunks@[j].pos));
            }
        }
        let ox: i32 = if minx < 0 {
            proof {
                let j = choose|j: int| 0 <= j < n && (#[trigger] self.chunks@[j]).pos.x == minx;
                assert(self@.contains_key(self.chunks@[j].pos));
            }
            -minx
        } else {
            0
        };
        let oy: i32 = if miny < 0 {
            proof {
                let j = choose|j: int| 0 <= j < n && (#[trigger] self.chunks@[j]).pos.y == miny;
                assert(self@.contains_key(self.chunks@[j].pos));
            }
            -miny
        } else {
            0
        };
        let oz: i32 = if minz < 0 {
            proof {
                let j = choose|j: int| 0 <= j < n && (#[trigger] self.chunks@[j]).pos.z == minz;
                assert(self@.contains_key(self.chunks@[j].pos));
            }
            -minz
        } else {
            0
        };
        if ox == 0 && oy == 0 && oz == 0 {
            proof {
                let o = Vec3i { x: 0, y: 0, z: 0 };
                assert forall|p: Vec3i, q: Vec3i|
                    self@.contains_key(p) && #[trigger] offset_key(p, o, q) implies self@
                    .contains_key(q) && self@[q] == self@[p] by {
                    assert(q == p);
                }
                assert forall|q: Vec3i| #[trigger] self@.contains_key(q) implies exists|p: Vec3i|
                    self@.contains_key(p) && #[trigger] offset_key(p, o, q) by {
                    assert(offset_key(q, o, q));
                }
                assert forall|p: Vec3i| #[trigger] self@.contains_key(p) implies p.x >= 0 && p.y
                    >= 0 && p.z >= 0 by {
                    let j = choose|j: int|
                        0 <= j < self.chunks@.len() && (#[trigger] self.chunks@[j]).pos == p;
                    assert(self.chunks@[j].pos.x >= minx);
                }
                assert(is_positive_shift(self@, self@, o));
            }
            return;
        }
        let ghost m0 = self@;
        let ghost s0 = self.chunks@;
        let ghost o = Vec3i { x: ox, y: oy, z: oz };
        proof {
            // The minimum is itself a key, so the pairwise spread bound makes
            // every translated coordinate fit.
            let jx = choose|j: int| 0 <= j < n && (#[trigger] s0[j]).pos.x == minx;
            let jy = choose|j: int| 0 <= j < n && (#[trigger] s0[j]).pos.y == miny;
            let jz = choose|j: int| 0 <= j < n && (#[trigger] s0[j]).pos.z == minz;
            assert forall|j: int| 0 <= j < n implies (#[trigger] s0[j]).pos.x + ox <= i32::MAX
                && s0[j].pos.y + oy <= i32::MAX && s0[j].pos.z + oz <= i32::MAX && s0[j].pos.x
                + ox >= 0 && s0[j].pos.y + oy >= 0 && s0[j].pos.z + oz >= 0 by {
                assert(m0.contains_key(s0[j].pos));
                assert(m0.contains_key(s0[jx].pos));
                assert(m0.contains_key(s0[jy].pos));
                assert(m0.contains_key(s0[jz].pos));
            }
        }
        let mut out: Vec<ChunkEntry> = Vec::new();
        while self.chunks.len() > 0
            invariant
                out@.len() + self.chunks@.len() == n,
                n == s0.len(),
                self.chunks@ == s0.subrange(0, self.chunks@.len() as int),
                forall|j: int|
                    0 <= j < out@.len() ==> (#[trigger] out@[j]).pos.x == s0[n - 1 - j].pos.x
                        + ox && out@[j].pos.y == s0[n - 1 - j].pos.y + oy && out@[j].pos.z
                        == s0[n - 1 - j].pos.z + oz && out@[j].brick == s0[n - 1 - j].brick,
                forall|j: int| 0 <= j < n ==> (#[trigger] s0[j]).pos.x + ox <= i32::MAX
                    && s0[j].pos.y + oy <= i32::MAX && s0[j].pos.z + oz <= i32::MAX
                    && s0[j].pos.x + ox >= 0 && s0[j].pos.y + oy >= 0 && s0[j].pos.z + oz >= 0,
                0 <= ox && 0 <= oy && 0 <= oz,
                self.palette == old(self).palette,
            decreases self.chunks@.len(),
        {
            let e = match self.chunks.pop() {
                Some(e) => e,
                None => {
                    proof {
                        assert(false);
                    }
                    return;
                },
            };
            let q = Vec3i { x: e.pos.x + ox, y: e.pos.y + oy, z: e.pos.z + oz };
            out.push(ChunkEntry { pos: q, brick: e.brick });
        }
        self.chunks = out;
        proof {
            let s1 = self.chunks@;
            assert(s1.len() == n);
            // Uniqueness carries over: translation is injective on keys.
            assert forall|a: int, b: int| 0 <= a < b < n implies (#[trigger] s1[a]).pos
                != (#[trigger] s1[b]).pos by {
                assert(unique_keys(s0));
                assert(s0[n - 1 - a].pos != s0[n - 1 - b].pos);
                if s1[a].pos == s1[b].pos {
                    assert(s0[n - 1 - a].pos.x == s0[n - 1 - b].pos.x);
                    assert(s0[n - 1 - a].pos.y == s0[n - 1 - b].pos.y);
                    assert(s0[n - 1 - a].pos.z == s0[n - 1 - b].pos.z);
                }
            }
            assert(unique_keys(s1));
            assert forall|j: int| 0 <= j < s1.len() implies (#[trigger] s1[j]).brick.wf() by {
                assert(s0[n - 1 - j].brick.wf());
            }
            let m1 = self@;
            // Forward direction of the translation.
            assert forall|p: Vec3i, q: Vec3i|
                m0.contains_key(p) && #[trigger] offset_key(p, o, q) implies m1.contains_key(q)
                && m1[q] == m0[p] by {
                let a = choose|a: int| 0 <= a < s0.len() && (#[trigger] s0[a]).pos == p;
                assert(s1[n - 1 - a].pos.x == p.x + ox);
                assert(s1[n - 1 - a].pos == q);
                assert(has_key(s1, q));
                let w = choose|w: int| 0 <= w < s1.len() && (#[trigger] s1[w]).pos == q;
                assert(w == n - 1 - a);
                let v = choose|v: int| 0 <= v < s0.len() && (#[trigger] s0[v]).pos == p;
                assert(v == a);
                assert(m1[q] == s1[w].brick@);
                assert(m0[p] == s0[a].brick@);
            }
            // Backward direction.
            assert forall|q: Vec3i| #[trigger] m1.contains_key(q) implies exists|p: Vec3i|
                m0.contains_key(p) && #[trigger] offset_key(p, o, q) by {
                let w = choose|w: int| 0 <= w < s1.len() && (#[trigger] s1[w]).pos == q;
                let p = s0[n - 1 - w].pos;
                assert(m0.contains_key(p)) by {
                    assert(has_key(s0, p));
                }
                assert(offset_key(p, o, q));
            }
            // Minimality witnesses.
            if ox > 0 {
                let j = choose|j: int| 0 <= j < n && (#[trigger] s0[j]).pos.x == minx;
                assert(m0.contains_key(s0[j].pos) && s0[j].pos.x + o.x == 0);
            }
            if oy > 0 {
                let j = choose|j: int| 0 <= j < n && (#[trigger] s0[j]).pos.y == miny;
                assert(m0.contains_key(s0[j].pos) && s0[j].pos.y + o.y == 0);
            }
            if oz > 0 {
                let j = choose|j: int| 0 <= j < n && (#[trigger] s0[j]).pos.z == minz;
                assert(m0.contains_key(s0[j].pos) && s0[j].pos.z + o.z == 0);
            }
            assert forall|p: Vec3i| #[trigger] m0.contains_key(p) implies p.x + o.x >= 0 && p.y
                + o.y >= 0 && p.z + o.z >= 0 by {
                let a = choose|a: int| 0 <= a < s0.len() && (#[trigger] s0[a]).pos == p;
            }
            assert(is_positive_shift(m0, m1, o));
            // All keys of the result are nonnegative.
            assert forall|q: Vec3i| #[trigger] m1.contains_key(q) implies q.x >= 0 && q.y >= 0
                && q.z >= 0 by {
                let w = choose|w: int| 0 <= w < s1.len() && (#[trigger] s1[w]).pos == q;
            }
            // At least one axis shifted, so some old key was negative.
            if ox > 0 {
                let j = choose|j: int| 0 <= j < n && (#[trigger] s0[j]).pos.x == minx;
                assert(m0.contains_key(s0[j].pos) && s0[j].pos.x < 0);
            } else if oy > 0 {
                let j = choose|j: int| 0 <= j < n && (#[trigger] s0[j]).pos.y == miny;
                assert(m0.contains_key(s0[j].pos) && s0[j].pos.y < 0);
            } else {
                let j = choose|j: int| 0 <= j < n && (#[trigger] s0[j]).pos.z == minz;
                assert(m0.contains_key(s0[j].pos) && s0[j].pos.z < 0);
            }
        }
    }
}

} // verus!
