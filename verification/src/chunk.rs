use crate::assoc::AssocMap;
use crate::gpu::DrawCmd;
use crate::meshdata::{MeshData, MeshView, Model};
use crate::pos::{add_delta, cell_index, in_mesh_bounds, in_world_bounds, local_in_range, BlockPos, BlockSides};
use crate::registry::{BlockID, BlockManager, BlockModel, BlockType, BlockView};
use crate::server::{
    caches_only, cell_mesh, cell_sides_spec, chunk_mesh, chunk_mesh_upto, is_unit_delta,
    lemma_step_chunk_delta, nbr_id, next_rev, solid_id, ChunkServer,
};
use vstd::arithmetic::div_mod::{
    lemma_fundamental_div_mod, lemma_fundamental_div_mod_converse,
};
use vstd::prelude::*;

verus! {

/// A chunk save image was too short to hold a full block grid.
#[derive(Clone, Copy, PartialEq, Eq, Structural, Debug)]
pub struct CorruptSave;

/// A 16x16x16 cube of block ids: the unit of generation, meshing, saving
/// and eviction. Owns only its own block grid; neighbours are consulted
/// through the cache at mesh-build time.
pub struct Chunk {
    /// The chunk coordinate.
    pub pos: BlockPos,
    /// The built geometry, if any.
    pub model: Option<Model>,
    /// How many times the geometry has been rebuilt.
    pub revision: u64,
    /// The dense block grid, x outermost, then y, then z.
    pub blocks: Vec<BlockID>,
    /// Whether the chunk holds unsaved edits.
    pub modified: bool,
}

/// The mathematical content of a `Chunk`.
#[verifier::ext_equal]
pub ghost struct ChunkView {
    pub pos: (int, int, int),
    pub blocks: Seq<int>,
    pub modified: bool,
    pub revision: int,
    pub mesh: Option<MeshView>,
}

/// A sequence of ids as mathematical integers.
pub open spec fn ids_view(s: Seq<BlockID>) -> Seq<int> {
    s.map_values(|b: BlockID| b as int)
}

impl View for Chunk {
    type V = ChunkView;

    open spec fn view(&self) -> ChunkView {
        ChunkView {
            pos: self.pos@,
            blocks: ids_view(self.blocks@),
            modified: self.modified,
            revision: self.revision as int,
            mesh: match self.model {
                Some(ref m) => Some(m.data@),
                None => None,
            },
        }
    }
}

/// A full block grid: 4096 ids, each a valid index into a registry of
/// `nreg` blocks.
pub open spec fn blocks_wf(v: Seq<int>, nreg: int) -> bool {
    &&& v.len() == 4096
    &&& forall|i: int| 0 <= i < v.len() ==> 0 <= #[trigger] v[i] < nreg
}

/// A save image fit for a registry of `nreg` blocks: one byte per cell,
/// each a valid id.
pub open spec fn stored_wf(bytes: Seq<u8>, nreg: int) -> bool {
    &&& bytes.len() == 4096
    &&& forall|i: int| 0 <= i < bytes.len() ==> (#[trigger] bytes[i]) < nreg
}

/// The block grid a save image decodes to.
pub open spec fn decode_blocks(bytes: Seq<u8>) -> Seq<int> {
    Seq::new(4096, |i: int| bytes[i] as int)
}

/// The save image a block grid encodes to: one byte per cell, x outermost,
/// then y, then z.
pub open spec fn encode_blocks(v: Seq<int>) -> Seq<u8> {
    Seq::new(4096, |i: int| v[i] as u8)
}

/// Saving then loading gives the blocks back unchanged: the codec
/// round-trips exactly on full byte-ranged grids.
pub proof fn lemma_save_load_roundtrip(v: Seq<int>)
    requires
        blocks_wf(v, 256),
    ensures
        decode_blocks(encode_blocks(v)) == v,
{
    assert(decode_blocks(encode_blocks(v)) =~= v);
}

/// The local cell of dense index `n`: inverse of `cell_index`.
pub open spec fn cell_of_index(n: int) -> (int, int, int) {
    (n / 256, (n / 16) % 16, n % 16)
}

/// `cell_index` and `cell_of_index` are inverse on the 4096 cells.
pub proof fn lemma_cell_index_roundtrip(l: (int, int, int))
    requires
        local_in_range(l),
    ensures
        cell_of_index(cell_index(l)) == l,
        0 <= cell_index(l) < 4096,
{
    let n = (l.0 * 16 + l.1) * 16 + l.2;
    lemma_fundamental_div_mod_converse(n, 256, l.0, l.1 * 16 + l.2);
    lemma_fundamental_div_mod_converse(n, 16, l.0 * 16 + l.1, l.2);
    lemma_fundamental_div_mod_converse(l.0 * 16 + l.1, 16, l.0, l.1);
}

/// The world position of local cell `l` of chunk `c`.
pub open spec fn cell_pos(c: (int, int, int), l: (int, int, int)) -> (int, int, int) {
    (16 * c.0 + l.0, 16 * c.1 + l.1, 16 * c.2 + l.2)
}

/// Euclidean remainder: `r == v mod m` with `0 <= r < m`.
fn emod(v: i64, m: i64) -> (r: i64)
    requires
        1 <= m <= 128,
        -0x200_0000_0000 <= v <= 0x200_0000_0000,
    ensures
        r as int == (v as int) % (m as int),
        0 <= r < m,
{
    if v >= 0 {
        let r = ((v as u64) % (m as u64)) as i64;
        proof {
            lemma_fundamental_div_mod(v as int, m as int);
        }
        r
    } else {
        let w: u64 = (-v) as u64;
        let mu: u64 = m as u64;
        let qc: u64 = (w + mu - 1) / mu;
        proof {
            lemma_fundamental_div_mod((w + mu - 1) as int, mu as int);
            assert((mu as int) * (qc as int) <= (w as int) + (mu as int) - 1);
            assert((mu as int) * (qc as int) >= (w as int));
            assert((qc as int) * (mu as int) == (mu as int) * (qc as int)) by (nonlinear_arith);
        }
        let prod: u64 = qc * mu;
        let r: i64 = (prod - w) as i64;
        proof {
            assert((-(qc as int)) * (mu as int) == -((qc as int) * (mu as int)))
                by (nonlinear_arith);
            assert(m as int == mu as int);
            assert(v as int == (-(qc as int)) * (m as int) + (r as int));
            lemma_fundamental_div_mod_converse(v as int, m as int, -(qc as int), r as int);
        }
        r
    }
}

/// A triangle wave of period `2p` and amplitude `p`: rises from 0 to `p`,
/// falls back to 0.
pub open spec fn tri_wave(v: int, p: int) -> int {
    let m = v % (2 * p);
    if m < p {
        m
    } else {
        2 * p - m
    }
}

fn tri_wave_exec(v: i64, p: i64) -> (r: i64)
    requires
        1 <= p <= 64,
        -0x100_0000_0000 <= v <= 0x100_0000_0000,
    ensures
        r as int == tri_wave(v as int, p as int),
        0 <= r <= p,
{
    let m = emod(v, 2 * p);
    if m < p {
        m
    } else {
        2 * p - m
    }
}

/// The deterministic pseudo-terrain height at world column `(x, z)`: a sum
/// of triangle waves of unrelated periods, standing in for a heightmap. Any
/// deterministic function of the column would do; this one gives gentle
/// hills around height zero.
pub open spec fn terrain_height(x: int, z: int) -> int {
    tri_wave(x, 16) / 2 + tri_wave(z, 24) / 3 + tri_wave(x + z, 40) / 8 - 12
}

fn terrain_height_exec(x: i64, z: i64) -> (r: i64)
    requires
        -0x10_0000_0000 <= x <= 0x10_0000_0000,
        -0x10_0000_0000 <= z <= 0x10_0000_0000,
    ensures
        r as int == terrain_height(x as int, z as int),
        -12 <= r <= 9,
{
    let a = tri_wave_exec(x, 16);
    let b = tri_wave_exec(z, 24);
    let c = tri_wave_exec(x + z, 40);
    a / 2 + b / 3 + c / 8 - 12
}

/// The first id registered under `name`, or 0 (the empty block) if the
/// registry holds no such name.
pub open spec fn lookup_or_zero(reg: Seq<BlockView>, name: Seq<char>) -> int {
    if crate::registry::contains_name(reg, name) {
        choose|i: int| 0 <= i < reg.len() && (#[trigger] reg[i]).name == name
    } else {
        0
    }
}

/// The terrain block of local cell `l` of chunk `c`: air above the height
/// of the column, grass at it, a shallow band of dirt below, stone deeper.
/// Missing names fall back to the empty block, keeping generation total and
/// deterministic for every registry.
pub open spec fn spec_gen_block(reg: Seq<BlockView>, c: (int, int, int), l: (int, int, int)) -> int {
    let p = cell_pos(c, l);
    let hd = p.1 - terrain_height(p.0, p.2);
    if hd > 0 {
        lookup_or_zero(reg, "air"@)
    } else if hd == 0 {
        lookup_or_zero(reg, "grass"@)
    } else if hd > -5 {
        lookup_or_zero(reg, "dirt"@)
    } else {
        lookup_or_zero(reg, "stone"@)
    }
}

/// The full generated grid of chunk `c`.
#[verifier::opaque]
pub open spec fn gen_blocks(reg: Seq<BlockView>, c: (int, int, int)) -> Seq<int> {
    Seq::new(4096, |n: int| spec_gen_block(reg, c, cell_of_index(n)))
}

/// The grid a chunk gets when it becomes resident: its save image if the
/// store holds one, else the generated terrain.
pub open spec fn stored_or_gen(
    store: Map<(int, int, int), Seq<u8>>,
    reg: Seq<BlockView>,
    c: (int, int, int),
) -> Seq<int> {
    if store.contains_key(c) {
        decode_blocks(store[c])
    } else {
        gen_blocks(reg, c)
    }
}

impl BlockManager {
    /// The id registered under `name`, or 0 if there is none.
    pub fn lookup_or_zero(&self, name: &String) -> (r: BlockID)
        requires
            self.wf(),
            self@.len() >= 1,
        ensures
            r as int == lookup_or_zero(self@, name@),
            0 <= r < self@.len(),
    {
        match self.lookup_by_name(name) {
            Ok(id) => {
                proof {
                    let c = choose|i: int|
                        0 <= i < self@.len() && (#[trigger] self@[i]).name == name@;
                    assert(self@[id as int].name == name@);
                    if c != id as int {
                        assert(self@[c].name != self@[id as int].name);
                    }
                }
                id
            },
            Err(_) => 0,
        }
    }
}

impl Chunk {
    /// Overwrites the grid from a save image: 4096 bytes, one id per cell,
    /// x outermost, then y, then z. Fails, changing nothing, on an image
    /// shorter than a full grid.
    pub fn load(&mut self, bytes: &Vec<u8>) -> (r: Result<(), CorruptSave>)
        ensures
            r is Ok <==> bytes@.len() >= 4096,
            r is Ok ==> final(self)@ == (ChunkView { blocks: decode_blocks(bytes@), ..old(self)@ }),
            r is Err ==> *final(self) == *old(self),
    {
        if bytes.len() < 4096 {
            return Err(CorruptSave);
        }
        let mut blocks: Vec<BlockID> = Vec::new();
        let mut i: usize = 0;
        while i < 4096
            invariant
                bytes@.len() >= 4096,
                i <= 4096,
                blocks@.len() == i,
                forall|j: int| 0 <= j < i ==> #[trigger] blocks@[j] == bytes@[j] as i32,
            decreases 4096 - i,
        {
            blocks.push(bytes[i] as i32);
            i = i + 1;
        }
        self.blocks = blocks;
        proof {
            assert(self@.blocks =~= decode_blocks(bytes@));
            assert(self@ =~~= (ChunkView { blocks: decode_blocks(bytes@), ..old(self)@ }));
        }
        Ok(())
    }

    /// Encodes the grid as its save image: the exact bytes `load` reads
    /// back.
    pub fn save(&self) -> (r: Vec<u8>)
        requires
            blocks_wf(self@.blocks, 256),
        ensures
            r@ == encode_blocks(self@.blocks),
    {
        let mut out: Vec<u8> = Vec::new();
        let mut i: usize = 0;
        while i < 4096
            invariant
                blocks_wf(self@.blocks, 256),
                self.blocks@.len() == 4096,
                i <= 4096,
                out@.len() == i,
                forall|j: int| 0 <= j < i ==> #[trigger] out@[j] as int == self@.blocks[j],
            decreases 4096 - i,
        {
            proof {
                assert(self@.blocks[i as int] == self.blocks@[i as int] as int);
            }
            out.push(self.blocks[i] as u8);
            i = i + 1;
        }
        proof {
            assert(out@ =~= encode_blocks(self@.blocks));
        }
        out
    }

    /// Regenerates the grid as the deterministic terrain of this chunk's
    /// coordinate: a pure function of coordinate and registry.
    pub fn generate(&mut self, manager: &BlockManager)
        requires
            manager.wf(),
            manager@.len() >= 1,
        ensures
            final(self)@ == (ChunkView { blocks: gen_blocks(manager@, old(self)@.pos), ..old(
                self,
            )@ }),
            blocks_wf(final(self)@.blocks, manager@.len() as int),
    {
        let air = manager.lookup_or_zero(&"air".to_owned());
        let grass = manager.lookup_or_zero(&"grass".to_owned());
        let dirt = manager.lookup_or_zero(&"dirt".to_owned());
        let stone = manager.lookup_or_zero(&"stone".to_owned());
        let px: i64 = (self.pos.x as i64) * 16;
        let py: i64 = (self.pos.y as i64) * 16;
        let pz: i64 = (self.pos.z as i64) * 16;
        let mut blocks: Vec<BlockID> = Vec::new();
        let mut n: usize = 0;
        while n < 4096
            invariant
                manager.wf(),
                manager@.len() >= 1,
                air as int == lookup_or_zero(manager@, "air"@),
                grass as int == lookup_or_zero(manager@, "grass"@),
                dirt as int == lookup_or_zero(manager@, "dirt"@),
                stone as int == lookup_or_zero(manager@, "stone"@),
                0 <= air < manager@.len(),
                0 <= grass < manager@.len(),
                0 <= dirt < manager@.len(),
                0 <= stone < manager@.len(),
                px == 16 * (self.pos@.0),
                py == 16 * (self.pos@.1),
                pz == 16 * (self.pos@.2),
                n <= 4096,
                blocks@.len() == n,
                forall|j: int|
                    0 <= j < n ==> #[trigger] blocks@[j] as int == spec_gen_block(
                        manager@,
                        self.pos@,
                        cell_of_index(j),
                    ),
                forall|j: int| 0 <= j < n ==> 0 <= #[trigger] blocks@[j] < manager@.len(),
            decreases 4096 - n,
        {
            let x: i64 = (n / 256) as i64;
            let y: i64 = ((n / 16) % 16) as i64;
            let z: i64 = (n % 16) as i64;
            let wx: i64 = px + x;
            let wy: i64 = py + y;
            let wz: i64 = pz + z;
            let h = terrain_height_exec(wx, wz);
            let hd = wy - h;
            let id: BlockID = if hd > 0 {
                air
            } else if hd == 0 {
                grass
            } else if hd > -5 {
                dirt
            } else {
                stone
            };
            proof {
                let l = cell_of_index(n as int);
                assert(l.0 == x as int && l.1 == y as int && l.2 == z as int);
                assert(cell_pos(self.pos@, l) == (wx as int, wy as int, wz as int));
                assert(id as int == spec_gen_block(manager@, self.pos@, l));
            }
            blocks.push(id);
            n = n + 1;
        }
        self.blocks = blocks;
        proof {
            reveal(gen_blocks);
            assert(self@.blocks =~= gen_blocks(manager@, old(self)@.pos));
            assert(self@ =~~= (ChunkView { blocks: gen_blocks(manager@, old(self)@.pos), ..old(
                self,
            )@ }));
        }
    }

    /// A fresh chunk at `pos`, without geometry: loaded from its save image
    /// if the store has one, else generated.
    pub fn new(pos: BlockPos, manager: &BlockManager, saves: &AssocMap<Vec<u8>>) -> (r: Chunk)
        requires
            manager.wf(),
            manager@.len() >= 1,
            saves.wf(),
            saves@.contains_key(pos@) ==> stored_wf(saves@[pos@], manager@.len() as int),
        ensures
            r@.pos == pos@,
            r@.modified == false,
            r@.revision == 0,
            r@.mesh is None,
            r@.blocks == stored_or_gen(saves@, manager@, pos@),
            blocks_wf(r@.blocks, manager@.len() as int),
    {
        let mut chunk = Chunk {
            pos,
            model: None,
            revision: 0,
            blocks: Vec::new(),
            modified: false,
        };
        let loaded: bool = match saves.get(pos) {
            Some(bytes) => chunk.load(bytes).is_ok(),
            None => false,
        };
        if !loaded {
            chunk.generate(manager);
        }
        proof {
            if saves@.contains_key(pos@) {
                assert(forall|i: int|
                    0 <= i < 4096 ==> #[trigger] decode_blocks(saves@[pos@])[i] == saves@[pos@][i]
                        as int);
            }
        }
        chunk
    }

    /// The id at an in-chunk local position, `None` outside the chunk.
    pub fn get_block(&self, pos: BlockPos) -> (r: Option<BlockID>)
        requires
            blocks_wf(self@.blocks, 256),
        ensures
            r == if local_in_range(pos@) {
                Some((self@.blocks[cell_index(pos@)]) as BlockID)
            } else {
                None::<BlockID>
            },
    {
        if pos.is_in_chunk() {
            proof {
                lemma_cell_index_roundtrip(pos@);
            }
            let idx: usize = ((pos.x as usize) * 16 + (pos.y as usize)) * 16 + (pos.z as usize);
            Some(self.blocks[idx])
        } else {
            None
        }
    }

    /// Writes the id at an in-chunk local position and marks the chunk
    /// modified. The id must fit a save byte.
    pub fn set_block(&mut self, pos: BlockPos, b: BlockID)
        requires
            blocks_wf(old(self)@.blocks, 256),
            local_in_range(pos@),
            0 <= b < 256,
        ensures
            final(self)@ == (ChunkView {
                blocks: old(self)@.blocks.update(cell_index(pos@), b as int),
                modified: true,
                ..old(self)@
            }),
    {
        proof {
            lemma_cell_index_roundtrip(pos@);
        }
        let idx: usize = ((pos.x as usize) * 16 + (pos.y as usize)) * 16 + (pos.z as usize);
        self.modified = true;
        let ghost pre = self.blocks@;
        let n: usize = self.blocks.len();
        let mut out: Vec<BlockID> = Vec::new();
        let mut i: usize = 0;
        while i < n
            invariant
                n == self.blocks@.len(),
                self.blocks@ == pre,
                idx < n,
                i <= n,
                out@.len() == i,
                forall|j: int|
                    0 <= j < i ==> #[trigger] out@[j] == if j == idx {
                        b
                    } else {
                        pre[j]
                    },
            decreases n - i,
        {
            if i == idx {
                out.push(b);
            } else {
                out.push(self.blocks[i]);
            }
            i = i + 1;
        }
        self.blocks = out;
        proof {
            assert(self@.blocks =~= old(self)@.blocks.update(cell_index(pos@), b as int));
            assert(self@ =~~= (ChunkView {
                blocks: old(self)@.blocks.update(cell_index(pos@), b as int),
                modified: true,
                ..old(self)@
            }));
        }
    }

    /// Whether the chunk has unsaved edits.
    pub fn is_modified(&self) -> (r: bool)
        ensures
            r == self@.modified,
    {
        self.modified
    }

    /// Marks the chunk as saved.
    pub fn clear_modified(&mut self)
        ensures
            final(self)@ == (ChunkView { modified: false, ..old(self)@ }),
    {
        self.modified = false;
        proof {
            assert(self@ =~~= (ChunkView { modified: false, ..old(self)@ }));
        }
    }

    /// Rebuilds this chunk's geometry: for every non-empty cell, the six
    /// exposure flags come from the six adjacent cells — in-chunk
    /// neighbours from this chunk's own grid, boundary neighbours from the
    /// world through the cache, which loads or generates a missing
    /// neighbour chunk rather than ever occluding against unknown space.
    /// The finished mesh replaces the old geometry in one step and the
    /// revision counter moves on. The chunk's blocks, the world's content
    /// and everything else of the cache are untouched.
    #[verifier::rlimit(100)]
    #[verifier::spinoff_prover]
    pub fn update(&mut self, world: &mut ChunkServer)
        requires
            old(world).inv(),
            in_mesh_bounds(old(self)@.pos),
            blocks_wf(old(self)@.blocks, old(world).registry().len() as int),
        ensures
            final(world).inv(),
            caches_only(*old(world), *final(world)),
            final(self)@.pos == old(self)@.pos,
            final(self)@.blocks == old(self)@.blocks,
            final(self)@.modified == old(self)@.modified,
            final(self)@.revision == next_rev(old(self)@.revision),
            final(self)@.mesh == Some(
                chunk_mesh(
                    old(world).registry(),
                    old(self)@.blocks,
                    final(world).residents(),
                    final(world).store(),
                    old(self)@.pos,
                ),
            ),
            match final(self)@.mesh {
                Some(m) => m.wf(),
                None => false,
            },
    {
        let ghost c: (int, int, int) = self.pos@;
        let ghost reg: Seq<BlockView> = old(world).registry();
        // Make the six face neighbours resident up front, so that boundary
        // queries below leave the cache exactly as it is.
        world.cache_neighbors(self.pos);
        let ghost r0: Map<(int, int, int), ChunkView> = world.residents();
        let ghost s0: Map<(int, int, int), Seq<u8>> = world.store();
        let mut data = MeshData::new();
        proof {
            reveal(crate::server::chunk_mesh_upto);
        }
        let mut n: usize = 0;
        while n < 4096
            invariant
                world.inv(),
                caches_only(*old(world), *world),
                *self == *old(self),
                reg == old(world).registry(),
                world.registry() == reg,
                world.residents() == r0,
                world.store() == s0,
                r0.contains_key((c.0 - 1, c.1, c.2)),
                r0.contains_key((c.0 + 1, c.1, c.2)),
                r0.contains_key((c.0, c.1 - 1, c.2)),
                r0.contains_key((c.0, c.1 + 1, c.2)),
                r0.contains_key((c.0, c.1, c.2 - 1)),
                r0.contains_key((c.0, c.1, c.2 + 1)),
                c == self.pos@,
                in_mesh_bounds(c),
                blocks_wf(self@.blocks, reg.len() as int),
                n <= 4096,
                data@.wf(),
                data@.verts.len() <= 24 * (n as int),
                data@ == chunk_mesh_upto(reg, self@.blocks, r0, s0, c, n as int),
            decreases 4096 - n,
        {
            let ghost pre = *world;
            emit_cell(&mut data, &self.blocks, world, self.pos, n);
            proof {
                assert(*world == pre);
                reveal(crate::server::chunk_mesh_upto);
                assert(data@ == chunk_mesh_upto(reg, self@.blocks, r0, s0, c, n + 1 as int));
            }
            n = n + 1;
        }
        self.model = Some(Model::new(data));
        self.revision = if self.revision < u64::MAX {
            self.revision + 1
        } else {
            0
        };
    }

    /// Appends this chunk's draw command if it has built geometry; a chunk
    /// still waiting for its mesh is skipped.
    pub fn render(&self, out: &mut Vec<DrawCmd>)
        ensures
            final(out)@ == if self@.mesh is Some {
                old(out)@.push(DrawCmd::Chunk { pos: self.pos, revision: self.revision })
            } else {
                old(out)@
            },
    {
        if let Some(_m) = &self.model {
            out.push(DrawCmd::Chunk { pos: self.pos, revision: self.revision });
        }
    }
}

/// A dense index decomposes into its local cell and back.
pub proof fn lemma_index_of_cell(n: int)
    requires
        0 <= n < 4096,
    ensures
        cell_index(cell_of_index(n)) == n,
{
    lemma_fundamental_div_mod(n, 256);
    vstd::arithmetic::div_mod::lemma_mod_bound(n, 256);
    let x = n / 256;
    let r1 = n % 256;
    lemma_fundamental_div_mod(r1, 16);
    vstd::arithmetic::div_mod::lemma_mod_bound(r1, 16);
    lemma_fundamental_div_mod_converse(n, 16, 16 * x + r1 / 16, r1 % 16);
    lemma_fundamental_div_mod_converse(16 * x + r1 / 16, 16, x, r1 / 16);
}

/// The six exposure flags of the cell at local `(x, y, z)` of the chunk at
/// `cpos`, read against grid `blocks` and the world. The six face
/// neighbours of `cpos` must be resident, so the cache is left untouched.
#[verifier::rlimit(100)]
#[verifier::spinoff_prover]
fn cell_sides_exec(
    blocks: &Vec<BlockID>,
    world: &mut ChunkServer,
    cpos: BlockPos,
    x: usize,
    y: usize,
    z: usize,
) -> (r: BlockSides)
    requires
        old(world).inv(),
        in_mesh_bounds(cpos@),
        blocks_wf(ids_view(blocks@), old(world).registry().len() as int),
        x < 16,
        y < 16,
        z < 16,
        old(world).residents().contains_key((cpos@.0 - 1, cpos@.1, cpos@.2)),
        old(world).residents().contains_key((cpos@.0 + 1, cpos@.1, cpos@.2)),
        old(world).residents().contains_key((cpos@.0, cpos@.1 - 1, cpos@.2)),
        old(world).residents().contains_key((cpos@.0, cpos@.1 + 1, cpos@.2)),
        old(world).residents().contains_key((cpos@.0, cpos@.1, cpos@.2 - 1)),
        old(world).residents().contains_key((cpos@.0, cpos@.1, cpos@.2 + 1)),
    ensures
        *final(world) == *old(world),
        r == cell_sides_spec(
            old(world).registry(),
            ids_view(blocks@),
            old(world).residents(),
            old(world).store(),
            cpos@,
            (x as int, y as int, z as int),
        ),
{
    let ghost pre_t = *world;
    let top = face_open(blocks, world, cpos.x, cpos.y, cpos.z, x as i32, y as i32, z as i32, 0, 1, 0);
    proof {
        assert(*world == pre_t);
    }
    let ghost pre_b = *world;
    let bottom = face_open(
        blocks, world, cpos.x, cpos.y, cpos.z, x as i32, y as i32, z as i32, 0, -1, 0);
    proof {
        assert(*world == pre_b);
    }
    let ghost pre_l = *world;
    let left = face_open(
        blocks, world, cpos.x, cpos.y, cpos.z, x as i32, y as i32, z as i32, -1, 0, 0);
    proof {
        assert(*world == pre_l);
    }
    let ghost pre_r = *world;
    let right = face_open(
        blocks, world, cpos.x, cpos.y, cpos.z, x as i32, y as i32, z as i32, 1, 0, 0);
    proof {
        assert(*world == pre_r);
    }
    let ghost pre_f = *world;
    let front = face_open(
        blocks, world, cpos.x, cpos.y, cpos.z, x as i32, y as i32, z as i32, 0, 0, 1);
    proof {
        assert(*world == pre_f);
    }
    let ghost pre_k = *world;
    let back = face_open(
        blocks, world, cpos.x, cpos.y, cpos.z, x as i32, y as i32, z as i32, 0, 0, -1);
    proof {
        assert(*world == pre_k);
    }
    BlockSides { top, bottom, left, right, front, back }
}

/// Appends the exposed faces of the cell at dense index `n` of the chunk
/// at `cpos` with grid `blocks`: exactly `cell_mesh` of that cell. The six
/// face neighbours of `cpos` must already be resident, so the cache is
/// left untouched.
#[verifier::rlimit(100)]
#[verifier::spinoff_prover]
fn emit_cell(
    data: &mut MeshData,
    blocks: &Vec<BlockID>,
    world: &mut ChunkServer,
    cpos: BlockPos,
    n: usize,
)
    requires
        old(world).inv(),
        in_mesh_bounds(cpos@),
        blocks_wf(ids_view(blocks@), old(world).registry().len() as int),
        n < 4096,
        old(data)@.wf(),
        old(data)@.verts.len() + 24 <= u32::MAX,
        old(world).residents().contains_key((cpos@.0 - 1, cpos@.1, cpos@.2)),
        old(world).residents().contains_key((cpos@.0 + 1, cpos@.1, cpos@.2)),
        old(world).residents().contains_key((cpos@.0, cpos@.1 - 1, cpos@.2)),
        old(world).residents().contains_key((cpos@.0, cpos@.1 + 1, cpos@.2)),
        old(world).residents().contains_key((cpos@.0, cpos@.1, cpos@.2 - 1)),
        old(world).residents().contains_key((cpos@.0, cpos@.1, cpos@.2 + 1)),
    ensures
        *final(world) == *old(world),
        final(data)@ == cell_mesh(
            old(data)@,
            old(world).registry(),
            ids_view(blocks@),
            old(world).residents(),
            old(world).store(),
            cpos@,
            cell_of_index(n as int),
        ),
        final(data)@.wf(),
        final(data)@.verts.len() <= old(data)@.verts.len() + 24,
{
    let ghost c: (int, int, int) = cpos@;
    let ghost reg: Seq<BlockView> = old(world).registry();
    let ghost own: Seq<int> = ids_view(blocks@);
    let x: usize = n / 256;
    let y: usize = (n / 16) % 16;
    let z: usize = n % 16;
    proof {
        crate::server::lemma_cell_of_index_range(n as int);
        lemma_index_of_cell(n as int);
    }
    let ghost l: (int, int, int) = (x as int, y as int, z as int);
    proof {
        assert(l == cell_of_index(n as int));
    }
    let sides = cell_sides_exec(blocks, world, cpos, x, y, z);
    let id: BlockID = blocks[n];
    proof {
        assert(own[n as int] == id as int);
        assert(0 <= id as int && (id as int) < reg.len());
    }
    let px: i32 = cpos.x * 16;
    let py: i32 = cpos.y * 16;
    let pz: i32 = cpos.z * 16;
    let wx: i32 = px + x as i32;
    let wy: i32 = py + y as i32;
    let wz: i32 = pz + z as i32;
    let bp = BlockPos::new(wx, wy, wz);
    proof {
        assert(bp@ == cell_pos(c, l));
    }
    let bt: &BlockType = world.manager().describe(id);
    proof {
        assert(bt@ == reg[id as int]);
    }
    match bt.model {
        BlockModel::Invisible => {},
        BlockModel::Cube { texture } => {
            crate::meshgen::append_cube(data, bp, sides, texture);
        },
        BlockModel::Sided { side, top: tr, bottom: br } => {
            crate::meshgen::append_cube_sided(data, bp, sides, side, tr, br);
        },
        BlockModel::Slab { side, top: tr, bottom: br } => {
            crate::meshgen::append_slab(data, bp, sides, side, tr, br);
        },
    }
    proof {
        assert(data@ == cell_mesh(
            old(data)@,
            reg,
            own,
            old(world).residents(),
            old(world).store(),
            c,
            l,
        ));
    }
}

/// Whether the face of the cell at local `(lx, ly, lz)` of chunk
/// `(cx, cy, cz)` towards `(dx, dy, dz)` is exposed: the block behind the
/// face is not solid. In-chunk neighbours are read from `blocks`,
/// out-of-chunk neighbours from the world, which may make the neighbour
/// chunk resident.
fn face_open(
    blocks: &Vec<BlockID>,
    world: &mut ChunkServer,
    cx: i32,
    cy: i32,
    cz: i32,
    lx: i32,
    ly: i32,
    lz: i32,
    dx: i32,
    dy: i32,
    dz: i32,
) -> (r: bool)
    requires
        old(world).inv(),
        in_mesh_bounds((cx as int, cy as int, cz as int)),
        0 <= lx < 16,
        0 <= ly < 16,
        0 <= lz < 16,
        is_unit_delta((dx as int, dy as int, dz as int)),
        blocks_wf(ids_view(blocks@), old(world).registry().len() as int),
    ensures
        final(world).inv(),
        caches_only(*old(world), *final(world)),
        forall|k: (int, int, int)| #[trigger]
            final(world).residents().contains_key(k) ==> old(world).residents().contains_key(k)
                || k == add_delta(
                (cx as int, cy as int, cz as int),
                (dx as int, dy as int, dz as int),
            ),
        old(world).residents().contains_key(
            add_delta((cx as int, cy as int, cz as int), (dx as int, dy as int, dz as int)),
        ) ==> *final(world) == *old(world),
        r == !solid_id(
            old(world).registry(),
            nbr_id(
                old(world).registry(),
                ids_view(blocks@),
                old(world).residents(),
                old(world).store(),
                (cx as int, cy as int, cz as int),
                (lx as int, ly as int, lz as int),
                (dx as int, dy as int, dz as int),
            ),
        ),
{
    let ghost c: (int, int, int) = (cx as int, cy as int, cz as int);
    let ghost l: (int, int, int) = (lx as int, ly as int, lz as int);
    let ghost d: (int, int, int) = (dx as int, dy as int, dz as int);
    let nx = lx + dx;
    let ny = ly + dy;
    let nz = lz + dz;
    if 0 <= nx && nx < 16 && 0 <= ny && ny < 16 && 0 <= nz && nz < 16 {
        proof {
            assert(local_in_range(add_delta(l, d)));
            lemma_cell_index_roundtrip(add_delta(l, d));
        }
        let idx: usize = ((nx as usize) * 16 + (ny as usize)) * 16 + (nz as usize);
        let id: BlockID = blocks[idx];
        proof {
            assert(ids_view(blocks@)[idx as int] == id as int);
        }
        let solid = world.manager().describe(id).solid;
        !solid
    } else {
        let wpx: i32 = cx * 16 + lx + dx;
        let wpy: i32 = cy * 16 + ly + dy;
        let wpz: i32 = cz * 16 + lz + dz;
        let p = BlockPos::new(wpx, wpy, wpz);
        proof {
            assert(p@ == add_delta(cell_pos(c, l), d));
            assert(in_world_bounds(p@));
            lemma_step_chunk_delta(c, l, d);
        }
        let solid = world.solid_at(p);
        !solid
    }
}

} // verus!
