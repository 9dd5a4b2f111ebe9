use vstd::arithmetic::div_mod::lemma_fundamental_div_mod_converse;
use vstd::prelude::*;

verus! {

/// Side length of a chunk, in blocks, on every axis.
pub const CHUNK_SIZE: i32 = 16;

/// Blocks per chunk: `CHUNK_SIZE` cubed.
pub const CHUNK_VOLUME: usize = 4096;

/// World block positions handed to the public edit and observer surface
/// stay within this bound per axis.
pub const EDIT_LIMIT: i32 = 0x4000_0000;

/// Chunks within this bound per axis may have their geometry built: the
/// chunk of any in-edit-bounds position plus the widest view radius.
pub const MESH_LIMIT: i32 = 0x0400_0041;

/// World block positions the block lookup accepts: every neighbour of
/// every cell of a meshable chunk, so `16 * MESH_LIMIT + 16`.
pub const WORLD_LIMIT: i32 = 0x4000_0420;

/// Chunk coordinates that may become resident: the chunk of any
/// in-world-bounds position, with margin.
pub const CHUNK_LIMIT: i32 = 0x0400_0080;

/// An integer triple: a world block position, or a chunk coordinate.
#[derive(Clone, Copy, PartialEq, Eq, Structural, Hash, Debug)]
pub struct BlockPos {
    pub x: i32,
    pub y: i32,
    pub z: i32,
}

impl View for BlockPos {
    type V = (int, int, int);

    open spec fn view(&self) -> (int, int, int) {
        (self.x as int, self.y as int, self.z as int)
    }
}

/// The chunk coordinate owning world axis value `v`: the floor of `v / 16`.
pub open spec fn chunk_axis(v: int) -> int {
    v / 16
}

/// The in-chunk offset of world axis value `v`, in `0 .. 16`.
pub open spec fn local_axis(v: int) -> int {
    v % 16
}

/// The chunk coordinate owning world position `p`.
pub open spec fn chunk_of(p: (int, int, int)) -> (int, int, int) {
    (chunk_axis(p.0), chunk_axis(p.1), chunk_axis(p.2))
}

/// The in-chunk position of world position `p`.
pub open spec fn local_of(p: (int, int, int)) -> (int, int, int) {
    (local_axis(p.0), local_axis(p.1), local_axis(p.2))
}

/// Index of local cell `(x, y, z)` in a chunk's dense block array:
/// x outermost, then y, then z.
pub open spec fn cell_index(l: (int, int, int)) -> int {
    (l.0 * 16 + l.1) * 16 + l.2
}

/// True when `l` is a local cell position: every axis in `0 .. 16`.
pub open spec fn local_in_range(l: (int, int, int)) -> bool {
    &&& 0 <= l.0 < 16
    &&& 0 <= l.1 < 16
    &&& 0 <= l.2 < 16
}

/// World positions the library accepts.
pub open spec fn in_world_bounds(p: (int, int, int)) -> bool {
    &&& -(WORLD_LIMIT as int) <= p.0 <= WORLD_LIMIT as int
    &&& -(WORLD_LIMIT as int) <= p.1 <= WORLD_LIMIT as int
    &&& -(WORLD_LIMIT as int) <= p.2 <= WORLD_LIMIT as int
}

/// Chunk coordinates the library accepts.
pub open spec fn in_chunk_bounds(c: (int, int, int)) -> bool {
    &&& -(CHUNK_LIMIT as int) <= c.0 <= CHUNK_LIMIT as int
    &&& -(CHUNK_LIMIT as int) <= c.1 <= CHUNK_LIMIT as int
    &&& -(CHUNK_LIMIT as int) <= c.2 <= CHUNK_LIMIT as int
}

/// World positions the public edit and observer surface accepts.
pub open spec fn in_edit_bounds(p: (int, int, int)) -> bool {
    &&& -(EDIT_LIMIT as int) <= p.0 <= EDIT_LIMIT as int
    &&& -(EDIT_LIMIT as int) <= p.1 <= EDIT_LIMIT as int
    &&& -(EDIT_LIMIT as int) <= p.2 <= EDIT_LIMIT as int
}

/// Chunks whose geometry may be built.
pub open spec fn in_mesh_bounds(c: (int, int, int)) -> bool {
    &&& -(MESH_LIMIT as int) <= c.0 <= MESH_LIMIT as int
    &&& -(MESH_LIMIT as int) <= c.1 <= MESH_LIMIT as int
    &&& -(MESH_LIMIT as int) <= c.2 <= MESH_LIMIT as int
}

/// Splits one world axis value into its chunk coordinate and its in-chunk
/// offset, so that `v == 16 * chunk + local` with `0 <= local < 16`.
pub fn axis_split(v: i32) -> (r: (i32, i32))
    ensures
        r.0 as int == chunk_axis(v as int),
        r.1 as int == local_axis(v as int),
{
    if v >= 0 {
        let w: u32 = v as u32;
        let c: u32 = w / 16;
        let l: u32 = w % 16;
        proof {
            lemma_fundamental_div_mod_converse(v as int, 16, c as int, l as int);
        }
        (c as i32, l as i32)
    } else {
        let w: u64 = (-(v as i64)) as u64;
        let qc: u64 = (w + 15) / 16;
        let l64: u64 = qc * 16 - w;
        let c: i32 = (-(qc as i64)) as i32;
        let l: i32 = l64 as i32;
        proof {
            lemma_fundamental_div_mod_converse(v as int, 16, c as int, l as int);
        }
        (c, l)
    }
}

impl BlockPos {
    pub fn new(x: i32, y: i32, z: i32) -> (r: BlockPos)
        ensures
            r@ == (x as int, y as int, z as int),
    {
        BlockPos { x, y, z }
    }

    /// True when the position is a local cell position: every axis in `0 .. 16`.
    pub fn is_in_chunk(&self) -> (r: bool)
        ensures
            r == local_in_range(self@),
    {
        self.x >= 0 && self.x < 16 && self.y >= 0 && self.y < 16 && self.z >= 0 && self.z < 16
    }

    /// Componentwise sum.
    pub fn offset(self, d: BlockPos) -> (r: BlockPos)
        requires
            i32::MIN <= self@.0 + d@.0 <= i32::MAX,
            i32::MIN <= self@.1 + d@.1 <= i32::MAX,
            i32::MIN <= self@.2 + d@.2 <= i32::MAX,
        ensures
            r@ == (self@.0 + d@.0, self@.1 + d@.1, self@.2 + d@.2),
    {
        BlockPos { x: self.x + d.x, y: self.y + d.y, z: self.z + d.z }
    }

    /// The chunk coordinate owning this world position.
    pub fn chunk(self) -> (r: BlockPos)
        ensures
            r@ == chunk_of(self@),
    {
        let (cx, _) = axis_split(self.x);
        let (cy, _) = axis_split(self.y);
        let (cz, _) = axis_split(self.z);
        BlockPos { x: cx, y: cy, z: cz }
    }

    /// The in-chunk position of this world position.
    pub fn local(self) -> (r: BlockPos)
        ensures
            r@ == local_of(self@),
            local_in_range(r@),
    {
        let (_, lx) = axis_split(self.x);
        let (_, ly) = axis_split(self.y);
        let (_, lz) = axis_split(self.z);
        proof {
            lemma_local_in_range(self.x as int);
            lemma_local_in_range(self.y as int);
            lemma_local_in_range(self.z as int);
        }
        BlockPos { x: lx, y: ly, z: lz }
    }
}

/// A local axis offset is always in `0 .. 16`.
pub proof fn lemma_local_in_range(v: int)
    ensures
        0 <= local_axis(v) < 16,
{
}

/// A world axis value is sixteen times its chunk coordinate plus its local
/// offset.
pub proof fn lemma_axis_recompose(v: int)
    ensures
        v == 16 * chunk_axis(v) + local_axis(v),
{
    vstd::arithmetic::div_mod::lemma_fundamental_div_mod(v, 16);
}

/// One of the six faces of a cube, named from the world axes: `Top` is +y,
/// `Right` is +x, `Front` is +z.
#[derive(Clone, Copy, PartialEq, Eq, Structural, Hash, Debug)]
pub enum BlockSide {
    Top,
    Bottom,
    Left,
    Right,
    Front,
    Back,
}

impl BlockSide {
    /// The unit offset towards the neighbour across this face.
    pub fn to_pos(&self) -> (r: BlockPos)
        ensures
            r@ == side_delta(*self),
    {
        match self {
            BlockSide::Top => BlockPos { x: 0, y: 1, z: 0 },
            BlockSide::Bottom => BlockPos { x: 0, y: -1, z: 0 },
            BlockSide::Left => BlockPos { x: -1, y: 0, z: 0 },
            BlockSide::Right => BlockPos { x: 1, y: 0, z: 0 },
            BlockSide::Front => BlockPos { x: 0, y: 0, z: 1 },
            BlockSide::Back => BlockPos { x: 0, y: 0, z: -1 },
        }
    }

    /// The face seen from the other side.
    pub fn opposite(self) -> (r: BlockSide)
        ensures
            side_delta(r) == neg_delta(side_delta(self)),
    {
        match self {
            BlockSide::Top => BlockSide::Bottom,
            BlockSide::Bottom => BlockSide::Top,
            BlockSide::Left => BlockSide::Right,
            BlockSide::Right => BlockSide::Left,
            BlockSide::Front => BlockSide::Back,
            BlockSide::Back => BlockSide::Front,
        }
    }
}

/// The unit offset towards the neighbour across face `s`.
pub open spec fn side_delta(s: BlockSide) -> (int, int, int) {
    match s {
        BlockSide::Top => (0, 1, 0),
        BlockSide::Bottom => (0, -1, 0),
        BlockSide::Left => (-1, 0, 0),
        BlockSide::Right => (1, 0, 0),
        BlockSide::Front => (0, 0, 1),
        BlockSide::Back => (0, 0, -1),
    }
}

/// Componentwise negation.
pub open spec fn neg_delta(d: (int, int, int)) -> (int, int, int) {
    (-d.0, -d.1, -d.2)
}

/// Componentwise sum of a position and an offset.
pub open spec fn add_delta(p: (int, int, int), d: (int, int, int)) -> (int, int, int) {
    (p.0 + d.0, p.1 + d.1, p.2 + d.2)
}

/// Per-face exposure flags for one cell, in the fixed face order the mesh
/// builders emit: back, left, front, right, top, bottom.
#[derive(Clone, Copy, PartialEq, Eq, Structural, Debug)]
pub struct BlockSides {
    pub top: bool,
    pub bottom: bool,
    pub left: bool,
    pub right: bool,
    pub front: bool,
    pub back: bool,
}

} // verus!
