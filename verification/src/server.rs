use crate::assoc::AssocMap;
use crate::chunk::{
    blocks_wf, cell_of_index, cell_pos, stored_or_gen, stored_wf, Chunk, ChunkView, CorruptSave,
};
use crate::gpu::{DrawCmd, Texture};
use crate::meshdata::{MeshView, Model};
use crate::meshgen::{rect_of, shape_mesh};
use crate::pos::{
    in_edit_bounds, in_mesh_bounds,
    add_delta, cell_index, chunk_of, in_chunk_bounds, in_world_bounds, local_in_range, local_of,
    side_delta, BlockPos, BlockSide, BlockSides,
};
use crate::registry::{registry_wf, BlockID, BlockManager, BlockModel, BlockView};
use vstd::arithmetic::div_mod::{lemma_fundamental_div_mod, lemma_fundamental_div_mod_converse};
use vstd::prelude::*;

verus! {

/// The in-memory image of the per-chunk save files: the library reads and
/// writes this store; the host mirrors it to disk.
pub type SaveStore = AssocMap<Vec<u8>>;

/// The block id the world shows at position `p`: the resident chunk's cell
/// if one is resident, else the cell of the save image if one is stored,
/// else the generated terrain. Total and deterministic.
pub open spec fn world_block(
    reg: Seq<BlockView>,
    res: Map<(int, int, int), ChunkView>,
    store: Map<(int, int, int), Seq<u8>>,
    p: (int, int, int),
) -> int {
    let c = chunk_of(p);
    let n = cell_index(local_of(p));
    if res.contains_key(c) {
        res[c].blocks[n]
    } else {
        stored_or_gen(store, reg, c)[n]
    }
}

/// Whether id `id` names a solid block of `reg`.
pub open spec fn solid_id(reg: Seq<BlockView>, id: int) -> bool {
    0 <= id < reg.len() && reg[id].solid
}

/// The id next to local cell `l` of chunk `c` across offset `d`: read from
/// the chunk's own grid when the neighbour is in-chunk, else from the world.
pub open spec fn nbr_id(
    reg: Seq<BlockView>,
    own: Seq<int>,
    res: Map<(int, int, int), ChunkView>,
    store: Map<(int, int, int), Seq<u8>>,
    c: (int, int, int),
    l: (int, int, int),
    d: (int, int, int),
) -> int {
    let l2 = add_delta(l, d);
    if local_in_range(l2) {
        own[cell_index(l2)]
    } else {
        world_block(reg, res, store, add_delta(cell_pos(c, l), d))
    }
}

/// The face exposure of local cell `l` of chunk `c`: a face is exposed
/// exactly when the block next to it is not solid.
pub open spec fn cell_sides_spec(
    reg: Seq<BlockView>,
    own: Seq<int>,
    res: Map<(int, int, int), ChunkView>,
    store: Map<(int, int, int), Seq<u8>>,
    c: (int, int, int),
    l: (int, int, int),
) -> BlockSides {
    BlockSides {
        top: !solid_id(reg, nbr_id(reg, own, res, store, c, l, (0, 1, 0))),
        bottom: !solid_id(reg, nbr_id(reg, own, res, store, c, l, (0, -1, 0))),
        left: !solid_id(reg, nbr_id(reg, own, res, store, c, l, (-1, 0, 0))),
        right: !solid_id(reg, nbr_id(reg, own, res, store, c, l, (1, 0, 0))),
        front: !solid_id(reg, nbr_id(reg, own, res, store, c, l, (0, 0, 1))),
        back: !solid_id(reg, nbr_id(reg, own, res, store, c, l, (0, 0, -1))),
    }
}

/// The mesh `m` extended by the faces of local cell `l` of chunk `c`,
/// according to the cell's block model and exposure.
pub open spec fn cell_mesh(
    m: MeshView,
    reg: Seq<BlockView>,
    own: Seq<int>,
    res: Map<(int, int, int), ChunkView>,
    store: Map<(int, int, int), Seq<u8>>,
    c: (int, int, int),
    l: (int, int, int),
) -> MeshView {
    let id = own[cell_index(l)];
    if 0 <= id < reg.len() {
        let sides = cell_sides_spec(reg, own, res, store, c, l);
        let p = cell_pos(c, l);
        match reg[id].model {
            BlockModel::Invisible => m,
            BlockModel::Cube { texture } => shape_mesh(
                m,
                p,
                sides,
                rect_of(texture),
                rect_of(texture),
                rect_of(texture),
                2,
            ),
            BlockModel::Sided { side, top, bottom } => shape_mesh(
                m,
                p,
                sides,
                rect_of(side),
                rect_of(top),
                rect_of(bottom),
                2,
            ),
            BlockModel::Slab { side, top, bottom } => shape_mesh(
                m,
                p,
                sides,
                rect_of(side),
                rect_of(top),
                rect_of(bottom),
                1,
            ),
        }
    } else {
        m
    }
}

/// The mesh of the first `n` cells of chunk `c`, in dense index order.
#[verifier::opaque]
pub open spec fn chunk_mesh_upto(
    reg: Seq<BlockView>,
    own: Seq<int>,
    res: Map<(int, int, int), ChunkView>,
    store: Map<(int, int, int), Seq<u8>>,
    c: (int, int, int),
    n: int,
) -> MeshView
    decreases n,
{
    if n <= 0 {
        MeshView::empty()
    } else {
        cell_mesh(
            chunk_mesh_upto(reg, own, res, store, c, n - 1),
            reg,
            own,
            res,
            store,
            c,
            cell_of_index(n - 1),
        )
    }
}

/// The full mesh of a chunk with grid `own` at coordinate `c`: every cell's
/// exposed faces, cells in dense index order. This is the one definition of
/// chunk geometry; it reads the world — a single seamless volume — for
/// every out-of-chunk neighbour.
pub open spec fn chunk_mesh(
    reg: Seq<BlockView>,
    own: Seq<int>,
    res: Map<(int, int, int), ChunkView>,
    store: Map<(int, int, int), Seq<u8>>,
    c: (int, int, int),
) -> MeshView {
    chunk_mesh_upto(reg, own, res, store, c, 4096)
}

/// Splitting a world axis value as sixteen times a chunk coordinate plus an
/// offset in `0..16` is the chunk/local split.
pub proof fn lemma_axis_split(a: int, r: int)
    requires
        0 <= r < 16,
    ensures
        crate::pos::chunk_axis(16 * a + r) == a,
        crate::pos::local_axis(16 * a + r) == r,
{
    lemma_fundamental_div_mod_converse(16 * a + r, 16, a, r);
}

/// A dense cell index names an in-range local cell.
pub proof fn lemma_cell_of_index_range(n: int)
    requires
        0 <= n < 4096,
    ensures
        local_in_range(cell_of_index(n)),
{
    lemma_fundamental_div_mod(n, 256);
    lemma_fundamental_div_mod(n / 16, 16);
    lemma_fundamental_div_mod(n, 16);
}

/// Stepping out of a chunk across face `s` lands in the face-neighbour
/// chunk, on its facing boundary plane.
pub proof fn lemma_step_chunk(c: (int, int, int), l: (int, int, int), s: BlockSide)
    requires
        local_in_range(l),
        !local_in_range(add_delta(l, side_delta(s))),
    ensures
        chunk_of(add_delta(cell_pos(c, l), side_delta(s))) == add_delta(c, side_delta(s)),
        chunk_of(add_delta(cell_pos(c, l), side_delta(s))) != c,
{
    let d = side_delta(s);
    let q = add_delta(cell_pos(c, l), d);
    match s {
        BlockSide::Top => {
            lemma_axis_split(c.1 + 1, 0);
            lemma_axis_split(c.0, l.0);
            lemma_axis_split(c.2, l.2);
        },
        BlockSide::Bottom => {
            lemma_axis_split(c.1 - 1, 15);
            lemma_axis_split(c.0, l.0);
            lemma_axis_split(c.2, l.2);
        },
        BlockSide::Left => {
            lemma_axis_split(c.0 - 1, 15);
            lemma_axis_split(c.1, l.1);
            lemma_axis_split(c.2, l.2);
        },
        BlockSide::Right => {
            lemma_axis_split(c.0 + 1, 0);
            lemma_axis_split(c.1, l.1);
            lemma_axis_split(c.2, l.2);
        },
        BlockSide::Front => {
            lemma_axis_split(c.2 + 1, 0);
            lemma_axis_split(c.0, l.0);
            lemma_axis_split(c.1, l.1);
        },
        BlockSide::Back => {
            lemma_axis_split(c.2 - 1, 15);
            lemma_axis_split(c.0, l.0);
            lemma_axis_split(c.1, l.1);
        },
    }
}

/// One of the six unit offsets towards a face neighbour.
pub open spec fn is_unit_delta(d: (int, int, int)) -> bool {
    ||| d == (0int, 1int, 0int)
    ||| d == (0int, -1int, 0int)
    ||| d == (-1int, 0int, 0int)
    ||| d == (1int, 0int, 0int)
    ||| d == (0int, 0int, 1int)
    ||| d == (0int, 0int, -1int)
}

/// `lemma_step_chunk`, phrased over the offset rather than the face.
pub proof fn lemma_step_chunk_delta(c: (int, int, int), l: (int, int, int), d: (int, int, int))
    requires
        local_in_range(l),
        is_unit_delta(d),
        !local_in_range(add_delta(l, d)),
    ensures
        chunk_of(add_delta(cell_pos(c, l), d)) == add_delta(c, d),
        chunk_of(add_delta(cell_pos(c, l), d)) != c,
{
    if d == (0int, 1int, 0int) {
        lemma_step_chunk(c, l, BlockSide::Top);
    } else if d == (0int, -1int, 0int) {
        lemma_step_chunk(c, l, BlockSide::Bottom);
    } else if d == (-1int, 0int, 0int) {
        lemma_step_chunk(c, l, BlockSide::Left);
    } else if d == (1int, 0int, 0int) {
        lemma_step_chunk(c, l, BlockSide::Right);
    } else if d == (0int, 0int, 1int) {
        lemma_step_chunk(c, l, BlockSide::Front);
    } else {
        lemma_step_chunk(c, l, BlockSide::Back);
    }
}

/// A chunk's mesh depends on the world only outside the chunk itself: two
/// worlds that agree on every position of other chunks give the same mesh
/// for the same grid.
pub proof fn lemma_chunk_mesh_frame(
    reg: Seq<BlockView>,
    own: Seq<int>,
    res1: Map<(int, int, int), ChunkView>,
    store1: Map<(int, int, int), Seq<u8>>,
    res2: Map<(int, int, int), ChunkView>,
    store2: Map<(int, int, int), Seq<u8>>,
    c: (int, int, int),
)
    requires
        forall|p: (int, int, int)|
            chunk_of(p) != c ==> #[trigger] world_block(reg, res1, store1, p) == world_block(
                reg,
                res2,
                store2,
                p,
            ),
    ensures
        chunk_mesh(reg, own, res1, store1, c) == chunk_mesh(reg, own, res2, store2, c),
{
    lemma_chunk_mesh_upto_frame(reg, own, res1, store1, res2, store2, c, 4096);
}

proof fn lemma_step_sides_equal(
    reg: Seq<BlockView>,
    own: Seq<int>,
    res1: Map<(int, int, int), ChunkView>,
    store1: Map<(int, int, int), Seq<u8>>,
    res2: Map<(int, int, int), ChunkView>,
    store2: Map<(int, int, int), Seq<u8>>,
    c: (int, int, int),
    l: (int, int, int),
    s: BlockSide,
)
    requires
        local_in_range(l),
        forall|p: (int, int, int)|
            chunk_of(p) != c ==> #[trigger] world_block(reg, res1, store1, p) == world_block(
                reg,
                res2,
                store2,
                p,
            ),
    ensures
        nbr_id(reg, own, res1, store1, c, l, side_delta(s)) == nbr_id(
            reg,
            own,
            res2,
            store2,
            c,
            l,
            side_delta(s),
        ),
{
    let d = side_delta(s);
    if !local_in_range(add_delta(l, d)) {
        lemma_step_chunk(c, l, s);
        let q = add_delta(cell_pos(c, l), d);
        assert(world_block(reg, res1, store1, q) == world_block(reg, res2, store2, q));
    }
}

proof fn lemma_chunk_mesh_upto_frame(
    reg: Seq<BlockView>,
    own: Seq<int>,
    res1: Map<(int, int, int), ChunkView>,
    store1: Map<(int, int, int), Seq<u8>>,
    res2: Map<(int, int, int), ChunkView>,
    store2: Map<(int, int, int), Seq<u8>>,
    c: (int, int, int),
    n: int,
)
    requires
        n <= 4096,
        forall|p: (int, int, int)|
            chunk_of(p) != c ==> #[trigger] world_block(reg, res1, store1, p) == world_block(
                reg,
                res2,
                store2,
                p,
            ),
    ensures
        chunk_mesh_upto(reg, own, res1, store1, c, n) == chunk_mesh_upto(
            reg,
            own,
            res2,
            store2,
            c,
            n,
        ),
    decreases n,
{
    reveal(chunk_mesh_upto);
    if n > 0 {
        lemma_chunk_mesh_upto_frame(reg, own, res1, store1, res2, store2, c, n - 1);
        let l = cell_of_index(n - 1);
        lemma_cell_of_index_range(n - 1);
        lemma_step_sides_equal(reg, own, res1, store1, res2, store2, c, l, BlockSide::Top);
        lemma_step_sides_equal(reg, own, res1, store1, res2, store2, c, l, BlockSide::Bottom);
        lemma_step_sides_equal(reg, own, res1, store1, res2, store2, c, l, BlockSide::Left);
        lemma_step_sides_equal(reg, own, res1, store1, res2, store2, c, l, BlockSide::Right);
        lemma_step_sides_equal(reg, own, res1, store1, res2, store2, c, l, BlockSide::Front);
        lemma_step_sides_equal(reg, own, res1, store1, res2, store2, c, l, BlockSide::Back);
        assert(cell_sides_spec(reg, own, res1, store1, c, l) == cell_sides_spec(
            reg,
            own,
            res2,
            store2,
            c,
            l,
        ));
    }
}

/// The spatial cache and pipeline controller: tracks resident chunks,
/// schedules generation and meshing, evicts chunks outside the view radius
/// with a hysteresis margin, and routes block reads and writes.
pub struct ChunkServer {
    chunks: AssocMap<Chunk>,
    texture: Texture,
    gen_queue: Vec<BlockPos>,
    view_distance: i32,
    pos: BlockPos,
    block_manager: BlockManager,
    saves: SaveStore,
    dirty: Vec<BlockPos>,
}

impl ChunkServer {
    /// The block catalogue.
    pub closed spec fn registry(&self) -> Seq<BlockView> {
        self.block_manager@
    }

    /// The resident chunks.
    pub closed spec fn residents(&self) -> Map<(int, int, int), ChunkView> {
        self.chunks@
    }

    /// The save images.
    pub closed spec fn store(&self) -> Map<(int, int, int), Seq<u8>> {
        self.saves@
    }

    /// Coordinates waiting to be generated and meshed, oldest first.
    pub closed spec fn queue(&self) -> Seq<(int, int, int)> {
        self.gen_queue@.map_values(|p: BlockPos| p@)
    }

    /// The observer's chunk coordinate at the last `update`.
    pub closed spec fn obs(&self) -> (int, int, int) {
        self.pos@
    }

    /// The view radius, in chunks.
    pub closed spec fn vd(&self) -> int {
        self.view_distance as int
    }

    /// The handle of the atlas texture bound before chunk draws.
    pub closed spec fn tex_id(&self) -> int {
        self.texture.id as int
    }

    /// Save images written since the host last drained them.
    pub closed spec fn dirty_list(&self) -> Seq<(int, int, int)> {
        self.dirty@.map_values(|p: BlockPos| p@)
    }

    /// The backing maps keep their shape.
    pub closed spec fn maps_wf(&self) -> bool {
        self.chunks.wf() && self.saves.wf()
    }

    /// The block the world shows at `p` under this server's state.
    pub open spec fn world_at(&self, p: (int, int, int)) -> int {
        world_block(self.registry(), self.residents(), self.store(), p)
    }

    /// What must hold of one resident chunk: it sits under its own
    /// coordinate, holds a full in-range grid, and — unless it carries
    /// unsaved edits — shows exactly what loading or generating its
    /// coordinate would show.
    pub open spec fn resident_ok(&self, c: (int, int, int)) -> bool {
        let v = self.residents()[c];
        &&& v.pos == c
        &&& in_chunk_bounds(c)
        &&& blocks_wf(v.blocks, self.registry().len() as int)
        &&& (!v.modified ==> v.blocks == stored_or_gen(self.store(), self.registry(), c))
    }

    /// The server invariant.
    pub open spec fn inv(&self) -> bool {
        &&& self.maps_wf()
        &&& registry_wf(self.registry())
        &&& self.registry().len() >= 1
        &&& 1 <= self.vd() <= 64
        &&& forall|c: (int, int, int)|
            #[trigger] self.residents().contains_key(c) ==> self.resident_ok(c)
        &&& forall|c: (int, int, int)|
            #[trigger] self.store().contains_key(c) ==> stored_wf(
                self.store()[c],
                self.registry().len() as int,
            )
        &&& forall|i: int| 0 <= i < self.queue().len() ==> in_mesh_bounds(#[trigger] self.queue()[i])
        &&& forall|i: int, j: int|
            0 <= i < j < self.queue().len() ==> #[trigger] self.queue()[i] != #[trigger] self.queue()[j]
        &&& forall|i: int|
            0 <= i < self.dirty_list().len() ==> self.store().contains_key(
                #[trigger] self.dirty_list()[i],
            )
    }
}

/// A chunk view as `Chunk::new` produces it for coordinate `c`: fresh from
/// the store or the generator, unmodified, without geometry.
pub open spec fn fresh_chunk(pre: ChunkServer, c: (int, int, int), v: ChunkView) -> bool {
    &&& v.pos == c
    &&& v.blocks == stored_or_gen(pre.store(), pre.registry(), c)
    &&& !v.modified
    &&& v.mesh is None
    &&& v.revision == 0
}

/// The only difference between `pre` and `post` is that chunks may have
/// become resident, each fresh from the store or the generator. Everything
/// else — registry, store, queue, observer, view distance, dirty list —
/// is untouched, and so is every chunk resident before.
pub open spec fn caches_only(pre: ChunkServer, post: ChunkServer) -> bool {
    &&& post.registry() == pre.registry()
    &&& post.store() == pre.store()
    &&& post.queue() == pre.queue()
    &&& post.obs() == pre.obs()
    &&& post.vd() == pre.vd()
    &&& post.tex_id() == pre.tex_id()
    &&& post.dirty_list() == pre.dirty_list()
    &&& forall|c: (int, int, int)|
        #[trigger] pre.residents().contains_key(c) ==> post.residents().contains_key(c)
            && post.residents()[c] == pre.residents()[c]
    &&& forall|c: (int, int, int)|
        #[trigger] post.residents().contains_key(c) && !pre.residents().contains_key(c)
            ==> fresh_chunk(pre, c, post.residents()[c])
}

/// Caching chunks never changes what the world shows anywhere: a chunk
/// becomes resident with exactly the content the world already ascribed to
/// its coordinate.
pub proof fn lemma_caches_only_world(pre: ChunkServer, post: ChunkServer)
    requires
        caches_only(pre, post),
    ensures
        forall|p: (int, int, int)| #[trigger] post.world_at(p) == pre.world_at(p),
{
    assert forall|p: (int, int, int)| #[trigger] post.world_at(p) == pre.world_at(p) by {
        let c = chunk_of(p);
        if pre.residents().contains_key(c) {
            assert(post.residents().contains_key(c));
        } else if post.residents().contains_key(c) {
            assert(fresh_chunk(pre, c, post.residents()[c]));
        }
    }
}

/// `caches_only` composes.
pub proof fn lemma_caches_only_trans(a: ChunkServer, b: ChunkServer, c: ChunkServer)
    requires
        caches_only(a, b),
        caches_only(b, c),
    ensures
        caches_only(a, c),
{
    assert forall|k: (int, int, int)|
        #[trigger] c.residents().contains_key(k) && !a.residents().contains_key(k) implies fresh_chunk(
        a,
        k,
        c.residents()[k],
    ) by {
        if b.residents().contains_key(k) {
            assert(fresh_chunk(b, k, b.residents()[k]));
            assert(c.residents()[k] == b.residents()[k]);
        } else {
            assert(fresh_chunk(b, k, c.residents()[k]));
        }
    }
}

impl ChunkServer {
    /// A cache around `block_manager`, drawing with `texture`, with the
    /// standard view radius of 12 chunks. No chunk is resident, nothing is
    /// stored, queued or dirty, and the observer sits at a sentinel no
    /// in-bounds camera maps to, so the first `update` always runs the full
    /// evict-and-enqueue pass.
    pub fn new(texture: Texture, block_manager: BlockManager) -> (r: ChunkServer)
        requires
            block_manager.wf(),
            block_manager@.len() >= 1,
        ensures
            r.inv(),
            r.registry() == block_manager@,
            r.residents() == Map::<(int, int, int), ChunkView>::empty(),
            r.store() == Map::<(int, int, int), Seq<u8>>::empty(),
            r.queue() == Seq::<(int, int, int)>::empty(),
            r.dirty_list() == Seq::<(int, int, int)>::empty(),
            r.vd() == 12,
            r.tex_id() == texture.id as int,
            r.obs() == (i32::MAX as int, i32::MAX as int, i32::MAX as int),
    {
        Self::with_view_distance(texture, block_manager, 12)
    }

    /// As `new`, with an explicit view radius.
    pub fn with_view_distance(texture: Texture, block_manager: BlockManager, view_distance: i32) -> (r:
        ChunkServer)
        requires
            block_manager.wf(),
            block_manager@.len() >= 1,
            1 <= view_distance <= 64,
        ensures
            r.inv(),
            r.registry() == block_manager@,
            r.residents() == Map::<(int, int, int), ChunkView>::empty(),
            r.store() == Map::<(int, int, int), Seq<u8>>::empty(),
            r.queue() == Seq::<(int, int, int)>::empty(),
            r.dirty_list() == Seq::<(int, int, int)>::empty(),
            r.vd() == view_distance as int,
            r.tex_id() == texture.id as int,
            r.obs() == (i32::MAX as int, i32::MAX as int, i32::MAX as int),
    {
        let r = ChunkServer {
            chunks: AssocMap::new(),
            texture,
            gen_queue: Vec::new(),
            view_distance,
            pos: BlockPos::new(i32::MAX, i32::MAX, i32::MAX),
            block_manager,
            saves: AssocMap::new(),
            dirty: Vec::new(),
        };
        proof {
            assert(r.queue() =~= Seq::<(int, int, int)>::empty());
            assert(r.dirty_list() =~= Seq::<(int, int, int)>::empty());
        }
        r
    }

    /// Installs one save image, as read from disk, before play: the image
    /// must be exactly one byte per cell, every byte a valid id. A short,
    /// long or alien image is rejected as corrupt and nothing changes;
    /// the host then treats the coordinate as having no save.
    pub fn install_save(&mut self, pos: BlockPos, bytes: Vec<u8>) -> (r: Result<(), CorruptSave>)
        requires
            old(self).inv(),
            old(self).residents() == Map::<(int, int, int), ChunkView>::empty(),
            in_chunk_bounds(pos@),
        ensures
            final(self).inv(),
            r is Ok <==> stored_wf(bytes@, old(self).registry().len() as int),
            r is Ok ==> final(self).store() == old(self).store().insert(pos@, bytes@),
            r is Err ==> final(self).store() == old(self).store(),
            final(self).residents() == old(self).residents(),
            final(self).registry() == old(self).registry(),
            final(self).queue() == old(self).queue(),
            final(self).obs() == old(self).obs(),
            final(self).vd() == old(self).vd(),
            final(self).tex_id() == old(self).tex_id(),
            final(self).dirty_list() == old(self).dirty_list(),
    {
        if bytes.len() != 4096 {
            return Err(CorruptSave);
        }
        let limit: usize = self.block_manager.block_count();
        let mut i: usize = 0;
        while i < 4096
            invariant
                self == old(self),
                old(self).inv(),
                old(self).residents() == Map::<(int, int, int), ChunkView>::empty(),
                bytes@.len() == 4096,
                limit == self.registry().len(),
                i <= 4096,
                forall|j: int| 0 <= j < i ==> (#[trigger] bytes@[j]) < limit,
            decreases 4096 - i,
        {
            if bytes[i] as usize >= limit {
                return Err(CorruptSave);
            }
            i = i + 1;
        }
        self.saves.insert(pos, bytes);
        proof {
            assert(self.queue() == old(self).queue());
            assert forall|i: int|
                0 <= i < self.queue().len() implies in_mesh_bounds(
                #[trigger] self.queue()[i],
            ) by {
                assert(in_mesh_bounds(old(self).queue()[i]));
            }
            assert forall|i: int|
                0 <= i < self.dirty_list().len() implies self.store().contains_key(
                #[trigger] self.dirty_list()[i],
            ) by {
                assert(self.dirty_list()[i] == old(self).dirty_list()[i]);
                assert(old(self).store().contains_key(old(self).dirty_list()[i]));
            }
            assert forall|c: (int, int, int)|
                #[trigger] self.store().contains_key(c) implies stored_wf(
                self.store()[c],
                self.registry().len() as int,
            ) by {
                if c != pos@ {
                    assert(old(self).store().contains_key(c));
                }
            }
        }
        Ok(())
    }

    /// Hands out every save image written since the last drain, clearing
    /// the dirty list. The host writes each to its chunk's file.
    pub fn take_dirty_saves(&mut self) -> (r: Vec<(BlockPos, Vec<u8>)>)
        requires
            old(self).inv(),
        ensures
            final(self).inv(),
            final(self).dirty_list() == Seq::<(int, int, int)>::empty(),
            final(self).residents() == old(self).residents(),
            final(self).registry() == old(self).registry(),
            final(self).store() == old(self).store(),
            final(self).queue() == old(self).queue(),
            final(self).obs() == old(self).obs(),
            final(self).vd() == old(self).vd(),
            final(self).tex_id() == old(self).tex_id(),
            r@.len() == old(self).dirty_list().len(),
            forall|i: int|
                0 <= i < r@.len() ==> (#[trigger] r@[i]).0@ == old(self).dirty_list()[i] && old(
                    self,
                ).store().contains_key(r@[i].0@) && r@[i].1@ == old(self).store()[r@[i].0@],
    {
        let n: usize = self.dirty.len();
        let mut out: Vec<(BlockPos, Vec<u8>)> = Vec::new();
        let mut i: usize = 0;
        while i < n
            invariant
                self == old(self),
                self.inv(),
                n == self.dirty@.len(),
                i <= n,
                out@.len() == i,
                forall|j: int|
                    0 <= j < i ==> (#[trigger] out@[j]).0@ == self.dirty_list()[j]
                        && self.store().contains_key(out@[j].0@) && out@[j].1@
                        == self.store()[out@[j].0@],
            decreases n - i,
        {
            let p: BlockPos = self.dirty[i];
            proof {
                assert(self.dirty_list()[i as int] == p@);
            }
            match self.saves.get(p) {
                Some(bytes) => {
                    let copy = copy_bytes(bytes);
                    out.push((p, copy));
                },
                None => {
                    proof {
                        assert(false);
                    }
                },
            }
            i = i + 1;
        }
        self.dirty = Vec::new();
        proof {
            assert(self.dirty_list() =~= Seq::<(int, int, int)>::empty());
            assert(self.residents() == old(self).residents());
            assert(self.store() == old(self).store());
            assert(self.registry() == old(self).registry());
            assert forall|c: (int, int, int)|
                #[trigger] self.residents().contains_key(c) implies self.resident_ok(c) by {
                assert(old(self).residents().contains_key(c));
                assert(old(self).resident_ok(c));
            }
            assert forall|c: (int, int, int)|
                #[trigger] self.store().contains_key(c) implies stored_wf(
                self.store()[c],
                self.registry().len() as int,
            ) by {
                assert(old(self).store().contains_key(c));
            }
            assert(self.queue() == old(self).queue());
            assert forall|i: int|
                0 <= i < self.queue().len() implies in_mesh_bounds(
                #[trigger] self.queue()[i],
            ) by {
                assert(in_mesh_bounds(old(self).queue()[i]));
            }
        }
        out
    }

    /// Loads a chunk at `pos` without building its geometry: from its save
    /// image if stored, else generated. The chunk becomes resident as-is;
    /// it will get a mesh when the queue or an edit reaches it.
    fn cache_chunk(&mut self, pos: BlockPos)
        requires
            old(self).inv(),
            in_chunk_bounds(pos@),
            !old(self).residents().contains_key(pos@),
        ensures
            final(self).inv(),
            caches_only(*old(self), *final(self)),
            final(self).residents() == old(self).residents().insert(
                pos@,
                final(self).residents()[pos@],
            ),
            final(self).residents().contains_key(pos@),
            fresh_chunk(*old(self), pos@, final(self).residents()[pos@]),
    {
        proof {
            if self.saves@.contains_key(pos@) {
                assert(self.store().contains_key(pos@));
                assert(stored_wf(self.store()[pos@], self.registry().len() as int));
            }
        }
        let c = Chunk::new(pos, &self.block_manager, &self.saves);
        self.chunks.insert(pos, c);
        proof {
            let post = self;
            assert(caches_only(*old(self), *post));
            lemma_caches_only_world(*old(self), *post);
            assert forall|k: (int, int, int)|
                #[trigger] post.residents().contains_key(k) implies post.resident_ok(k) by {
                if k != pos@ {
                    assert(old(self).residents().contains_key(k));
                    assert(old(self).resident_ok(k));
                }
            }
        }
    }

    /// The id of the block at world position `p`: resident chunks answer
    /// directly; a missing chunk is loaded or generated on the spot, so an
    /// answer is always produced. Never changes what any position shows.
    pub fn get_block(&mut self, pos: BlockPos) -> (r: Option<BlockID>)
        requires
            old(self).inv(),
            in_world_bounds(pos@),
        ensures
            final(self).inv(),
            caches_only(*old(self), *final(self)),
            final(self).residents().contains_key(chunk_of(pos@)),
            final(self).residents() == old(self).residents().insert(
                chunk_of(pos@),
                final(self).residents()[chunk_of(pos@)],
            ),
            old(self).residents().contains_key(chunk_of(pos@)) ==> *final(self) == *old(self),
            match r {
                Some(id) => id as int == old(self).world_at(pos@),
                None => false,
            },
    {
        let p = pos.chunk();
        proof {
            lemma_chunk_axis_in_bounds(pos@.0);
            lemma_chunk_axis_in_bounds(pos@.1);
            lemma_chunk_axis_in_bounds(pos@.2);
        }
        if self.chunks.get(p).is_none() {
            self.cache_chunk(p);
        }
        proof {
            lemma_caches_only_world(*old(self), *self);
            assert(self.residents() =~= old(self).residents().insert(
                p@,
                self.residents()[p@],
            ));
        }
        let local = pos.local();
        match self.chunks.get(p) {
            Some(c) => {
                proof {
                    assert(self.resident_ok(p@));
                    assert(blocks_wf(c@.blocks, 256));
                    crate::chunk::lemma_cell_index_roundtrip(local@);
                }
                c.get_block(local)
            },
            None => {
                proof {
                    assert(false);
                }
                None
            },
        }
    }

    /// The block catalogue, read-only.
    pub fn manager(&self) -> (r: &BlockManager)
        ensures
            r@ == self.registry(),
    {
        &self.block_manager
    }

    /// Every id the world shows is a valid registry index.
    pub proof fn lemma_world_in_range(&self, p: (int, int, int))
        requires
            self.inv(),
        ensures
            0 <= self.world_at(p) < self.registry().len(),
    {
        let c = chunk_of(p);
        let l = local_of(p);
        crate::pos::lemma_local_in_range(p.0);
        crate::pos::lemma_local_in_range(p.1);
        crate::pos::lemma_local_in_range(p.2);
        crate::chunk::lemma_cell_index_roundtrip(l);
        let n = cell_index(l);
        if self.residents().contains_key(c) {
            assert(self.resident_ok(c));
        } else if self.store().contains_key(c) {
            assert(stored_wf(self.store()[c], self.registry().len() as int));
            assert(crate::chunk::decode_blocks(self.store()[c])[n] == self.store()[c][n] as int);
        } else {
            reveal(crate::chunk::gen_blocks);
            assert(stored_or_gen(self.store(), self.registry(), c) == crate::chunk::gen_blocks(
                self.registry(),
                c,
            ));
            assert(crate::chunk::gen_blocks(self.registry(), c)[n]
                == crate::chunk::spec_gen_block(self.registry(), c, cell_of_index(n)));
            lemma_lookup_or_zero_range(self.registry(), "air"@);
            lemma_lookup_or_zero_range(self.registry(), "grass"@);
            lemma_lookup_or_zero_range(self.registry(), "dirt"@);
            lemma_lookup_or_zero_range(self.registry(), "stone"@);
        }
    }

    /// Whether the world shows a solid block at `p`: the answer `get_block`
    /// gives, tested against the registry. May make the owning chunk
    /// resident; never changes what any position shows.
    pub fn solid_at(&mut self, p: BlockPos) -> (r: bool)
        requires
            old(self).inv(),
            in_world_bounds(p@),
        ensures
            final(self).inv(),
            caches_only(*old(self), *final(self)),
            final(self).residents().contains_key(chunk_of(p@)),
            final(self).residents() == old(self).residents().insert(
                chunk_of(p@),
                final(self).residents()[chunk_of(p@)],
            ),
            old(self).residents().contains_key(chunk_of(p@)) ==> *final(self) == *old(self),
            r == solid_id(old(self).registry(), old(self).world_at(p@)),
    {
        proof {
            old(self).lemma_world_in_range(p@);
        }
        match self.get_block(p) {
            Some(id) => self.block_manager.describe(id).solid,
            None => {
                proof {
                    assert(false);
                }
                false
            },
        }
    }

    /// Makes the six face neighbours of chunk `pos` resident, loading or
    /// generating the missing ones, so that a following mesh build reads
    /// their content without changing the cache.
    /// Makes two chunks resident: those owning `p1` and `p2`.
    fn cache_two(&mut self, p1: BlockPos, p2: BlockPos)
        requires
            old(self).inv(),
            in_world_bounds(p1@),
            in_world_bounds(p2@),
        ensures
            final(self).inv(),
            caches_only(*old(self), *final(self)),
            final(self).residents().contains_key(chunk_of(p1@)),
            final(self).residents().contains_key(chunk_of(p2@)),
    {
        let _ = self.get_block(p1);
        let ghost w = *self;
        let _ = self.get_block(p2);
        proof {
            lemma_caches_only_trans(*old(self), w, *self);
        }
    }

    /// Makes the six face neighbours of chunk `pos` resident, loading or
    /// generating the missing ones, so that a following mesh build reads
    /// their content without changing the cache.
    pub fn cache_neighbors(&mut self, pos: BlockPos)
        requires
            old(self).inv(),
            in_mesh_bounds(pos@),
        ensures
            final(self).inv(),
            caches_only(*old(self), *final(self)),
            final(self).residents().contains_key((pos@.0 - 1, pos@.1, pos@.2)),
            final(self).residents().contains_key((pos@.0 + 1, pos@.1, pos@.2)),
            final(self).residents().contains_key((pos@.0, pos@.1 - 1, pos@.2)),
            final(self).residents().contains_key((pos@.0, pos@.1 + 1, pos@.2)),
            final(self).residents().contains_key((pos@.0, pos@.1, pos@.2 - 1)),
            final(self).residents().contains_key((pos@.0, pos@.1, pos@.2 + 1)),
    {
        let ghost c: (int, int, int) = pos@;
        let px: i32 = pos.x * 16;
        let py: i32 = pos.y * 16;
        let pz: i32 = pos.z * 16;
        proof {
            lemma_axis_split(c.0 - 1, 15);
            lemma_axis_split(c.0 + 1, 0);
            lemma_axis_split(c.1 - 1, 15);
            lemma_axis_split(c.1 + 1, 0);
            lemma_axis_split(c.2 - 1, 15);
            lemma_axis_split(c.2 + 1, 0);
            lemma_axis_split(c.0, 0);
            lemma_axis_split(c.1, 0);
            lemma_axis_split(c.2, 0);
        }
        self.cache_two(BlockPos::new(px - 1, py, pz), BlockPos::new(px + 16, py, pz));
        let ghost w1 = *self;
        self.cache_two(BlockPos::new(px, py - 1, pz), BlockPos::new(px, py + 16, pz));
        proof {
            lemma_caches_only_trans(*old(self), w1, *self);
        }
        let ghost w2 = *self;
        self.cache_two(BlockPos::new(px, py, pz - 1), BlockPos::new(px, py, pz + 16));
        proof {
            lemma_caches_only_trans(*old(self), w2, *self);
            assert(self.residents().contains_key((c.0 - 1, c.1, c.2)));
            assert(self.residents().contains_key((c.0 + 1, c.1, c.2)));
            assert(self.residents().contains_key((c.0, c.1 - 1, c.2)));
            assert(self.residents().contains_key((c.0, c.1 + 1, c.2)));
            assert(self.residents().contains_key((c.0, c.1, c.2 - 1)));
            assert(self.residents().contains_key((c.0, c.1, c.2 + 1)));
        }
    }

    /// `inv` is stable when at most the chunk under `k` changed, the rest
    /// of the residents are untouched, and the changed one is in order.
    proof fn lemma_inv_update_one(pre: ChunkServer, post: ChunkServer, k: (int, int, int))
        requires
            pre.inv(),
            post.maps_wf(),
            same_settings(pre, post),
            forall|j: (int, int, int)|
                j != k ==> (#[trigger] post.residents().contains_key(j) <==> pre.residents().contains_key(
                    j,
                )),
            forall|j: (int, int, int)|
                j != k && #[trigger] post.residents().contains_key(j) ==> post.residents()[j]
                    == pre.residents()[j],
            post.residents().contains_key(k) ==> post.resident_ok(k),
        ensures
            post.inv(),
    {
        assert forall|j: (int, int, int)|
            #[trigger] post.residents().contains_key(j) implies post.resident_ok(j) by {
            if j != k {
                assert(pre.residents().contains_key(j));
                assert(pre.resident_ok(j));
            }
        }
        assert forall|j: (int, int, int)|
            #[trigger] post.store().contains_key(j) implies stored_wf(
            post.store()[j],
            post.registry().len() as int,
        ) by {
            assert(pre.store().contains_key(j));
        }
        assert forall|i: int| 0 <= i < post.queue().len() implies in_mesh_bounds(
            #[trigger] post.queue()[i],
        ) by {
            assert(in_mesh_bounds(pre.queue()[i]));
        }
        assert forall|i: int|
            0 <= i < post.dirty_list().len() implies post.store().contains_key(
            #[trigger] post.dirty_list()[i],
        ) by {
            assert(pre.store().contains_key(pre.dirty_list()[i]));
        }
    }

    /// Takes the chunk at `p` out of the cache — loading or generating it
    /// if absent — rebuilds its geometry against the current world, and
    /// puts it back. What the world shows is untouched everywhere.
    fn update_chunk(&mut self, p: BlockPos) -> (r: Option<()>)
        requires
            old(self).inv(),
            in_mesh_bounds(p@),
        ensures
            final(self).inv(),
            r is Some,
            same_settings(*old(self), *final(self)),
            same_world(*old(self), *final(self)),
            touches_only(*old(self), *final(self), set![p@]),
            rebuilt_at(*old(self), *final(self), p@),
    {
        if self.chunks.get(p).is_none() {
            self.cache_chunk(p);
            proof {
                lemma_caches_only_world(*old(self), *self);
            }
        }
        let ghost s1 = *self;
        proof {
            assert(same_world(*old(self), s1));
            assert(s1.residents().contains_key(p@));
            assert(s1.resident_ok(p@));
            assert(s1.residents()[p@].blocks == effective_blocks(*old(self), p@));
            assert(s1.residents()[p@].revision == effective_rev(*old(self), p@));
            assert(s1.residents()[p@].modified == effective_mod(*old(self), p@));
        }
        let mut c: Chunk = match self.chunks.remove(p) {
            Some(x) => x,
            None => {
                proof {
                    assert(false);
                }
                return None;
            },
        };
        let ghost s2 = *self;
        proof {
            assert(c@ == s1.residents()[p@]);
            assert(s2.residents() == s1.residents().remove(p@));
            Self::lemma_inv_update_one(s1, s2, p@);
            assert(blocks_wf(c@.blocks, s2.registry().len() as int));
        }
        c.update(self);
        let ghost s3 = *self;
        self.chunks.insert(p, c);
        proof {
            let fin = *self;
            assert(fin.residents() == s3.residents().insert(p@, c@));
            assert(fin.resident_ok(p@));
            Self::lemma_inv_update_one(s3, fin, p@);
            // the freshly built mesh matches the final world
            assert forall|q: (int, int, int)|
                chunk_of(q) != p@ implies #[trigger] world_block(
                fin.registry(),
                s3.residents(),
                s3.store(),
                q,
            ) == world_block(fin.registry(), fin.residents(), fin.store(), q) by {}
            lemma_chunk_mesh_frame(
                fin.registry(),
                c@.blocks,
                s3.residents(),
                s3.store(),
                fin.residents(),
                fin.store(),
                p@,
            );
            assert(rebuilt_at(*old(self), fin, p@));
            // nothing the world shows moved
            lemma_caches_only_world(s2, s3);
            assert forall|q: (int, int, int)| #[trigger] fin.world_at(q) == old(self).world_at(
                q,
            ) by {
                crate::pos::lemma_local_in_range(q.0);
                crate::pos::lemma_local_in_range(q.1);
                crate::pos::lemma_local_in_range(q.2);
                crate::chunk::lemma_cell_index_roundtrip(local_of(q));
                if chunk_of(q) == p@ {
                    assert(fin.world_at(q) == c@.blocks[cell_index(local_of(q))]);
                    assert(s1.world_at(q) == s1.residents()[p@].blocks[cell_index(local_of(q))]);
                } else {
                    assert(fin.world_at(q) == s3.world_at(q));
                    assert(s3.world_at(q) == s2.world_at(q));
                    assert(s2.world_at(q) == s1.world_at(q));
                }
            }
            // untouched residents stay, new ones are fresh
            assert forall|k: (int, int, int)|
                #[trigger] fin.residents().contains_key(k) && !old(self).residents().contains_key(
                    k,
                ) && !set![p@].contains(k) implies fresh_chunk(*old(self), k, fin.residents()[k]) by {
                if s2.residents().contains_key(k) {
                    assert(fresh_chunk(*old(self), k, s1.residents()[k]));
                } else {
                    assert(fresh_chunk(s2, k, s3.residents()[k]));
                }
            }
        }
        Some(())
    }

    /// Writes `block` at world position `pos`: resolves the owning chunk
    /// (loading or generating it if absent), writes the cell, marks the
    /// chunk modified, and rebuilds its geometry on the spot. If the cell
    /// lies on a chunk boundary, the neighbour across that boundary is
    /// rebuilt too, since its boundary faces may have changed. Afterwards
    /// the world shows `block` at `pos` and exactly what it showed before
    /// everywhere else.
    /// Writes the cell and rebuilds the owning chunk; the boundary
    /// neighbours are dealt with by the caller.
    #[verifier::rlimit(100)]
    #[verifier::spinoff_prover]
    fn set_block_owner(&mut self, pos: BlockPos, block: BlockID) -> (r: Option<()>)
        requires
            old(self).inv(),
            in_edit_bounds(pos@),
            0 <= block < old(self).registry().len(),
        ensures
            final(self).inv(),
            r is Some,
            same_settings(*old(self), *final(self)),
            forall|q: (int, int, int)| #[trigger]
                final(self).world_at(q) == (if q == pos@ {
                    block as int
                } else {
                    old(self).world_at(q)
                }),
            final(self).residents().contains_key(chunk_of(pos@)),
            placed(
                *final(self),
                chunk_of(pos@),
                final(self).residents()[chunk_of(pos@)],
            ),
            ({
                let co = chunk_of(pos@);
                let v = final(self).residents()[co];
                &&& v.pos == co
                &&& v.blocks == effective_blocks(*old(self), co).update(
                    cell_index(local_of(pos@)),
                    block as int,
                )
                &&& v.modified
                &&& v.revision == next_rev(effective_rev(*old(self), co))
            }),
            forall|k: (int, int, int)| edit_neighbor(pos@, k) ==> #[trigger] effective_blocks(
                *final(self),
                k,
            ) == effective_blocks(*old(self), k) && effective_rev(*final(self), k)
                == effective_rev(*old(self), k) && effective_mod(*final(self), k)
                == effective_mod(*old(self), k),
            forall|k: (int, int, int)| #[trigger]
                old(self).residents().contains_key(k) ==> final(self).residents().contains_key(k),
            touches_only(*old(self), *final(self), set![chunk_of(pos@)]),
    {
        let p = pos.chunk();
        let inner = pos.local();
        proof {
            lemma_edit_axis_bounds(pos@.0);
            lemma_edit_axis_bounds(pos@.1);
            lemma_edit_axis_bounds(pos@.2);
            crate::chunk::lemma_cell_index_roundtrip(inner@);
        }
        if self.chunks.get(p).is_none() {
            self.cache_chunk(p);
            proof {
                lemma_caches_only_world(*old(self), *self);
            }
        }
        let ghost s1 = *self;
        proof {
            assert(same_world(*old(self), s1));
            assert(s1.residents().contains_key(p@));
            assert(s1.resident_ok(p@));
            assert(s1.residents()[p@].blocks == effective_blocks(*old(self), p@));
            assert(s1.residents()[p@].revision == effective_rev(*old(self), p@));
        }
        let mut c: Chunk = match self.chunks.remove(p) {
            Some(x) => x,
            None => {
                proof {
                    assert(false);
                }
                return None;
            },
        };
        let ghost s2 = *self;
        proof {
            assert(c@ == s1.residents()[p@]);
            Self::lemma_inv_update_one(s1, s2, p@);
            assert(blocks_wf(c@.blocks, 256)) by {
                assert(blocks_wf(c@.blocks, s1.registry().len() as int));
            }
        }
        c.set_block(inner, block);
        proof {
            assert(blocks_wf(c@.blocks, s2.registry().len() as int)) by {
                assert(forall|i: int|
                    0 <= i < c@.blocks.len() ==> #[trigger] c@.blocks[i]
                        == if i == cell_index(inner@) {
                        block as int
                    } else {
                        s1.residents()[p@].blocks[i]
                    });
            }
        }
        c.update(self);
        let ghost s3 = *self;
        let ghost cv = c@;
        self.chunks.insert(p, c);
        let ghost s4 = *self;
        proof {
            assert(s4.residents() == s3.residents().insert(p@, cv));
            assert(s4.resident_ok(p@));
            Self::lemma_inv_update_one(s3, s4, p@);
            lemma_caches_only_world(s2, s3);
            assert(same_settings(*old(self), s4));
            // the world after the owner went back: the edit at pos, and
            // nothing else
            assert forall|q: (int, int, int)| #[trigger] s4.world_at(q) == (if q == pos@ {
                block as int
            } else {
                old(self).world_at(q)
            }) by {
                crate::pos::lemma_local_in_range(q.0);
                crate::pos::lemma_local_in_range(q.1);
                crate::pos::lemma_local_in_range(q.2);
                crate::chunk::lemma_cell_index_roundtrip(local_of(q));
                if chunk_of(q) == p@ {
                    assert(s4.world_at(q) == cv.blocks[cell_index(local_of(q))]);
                    assert(s1.world_at(q) == s1.residents()[p@].blocks[cell_index(local_of(q))]);
                    if q != pos@ {
                        assert(cell_index(local_of(q)) != cell_index(inner@)) by {
                            crate::chunk::lemma_cell_index_roundtrip(local_of(q));
                            crate::chunk::lemma_cell_index_roundtrip(inner@);
                            if cell_index(local_of(q)) == cell_index(inner@) {
                                assert(local_of(q) == local_of(pos@));
                                crate::pos::lemma_axis_recompose(q.0);
                                crate::pos::lemma_axis_recompose(q.1);
                                crate::pos::lemma_axis_recompose(q.2);
                                crate::pos::lemma_axis_recompose(pos@.0);
                                crate::pos::lemma_axis_recompose(pos@.1);
                                crate::pos::lemma_axis_recompose(pos@.2);
                            }
                        }
                    }
                } else {
                    assert(s4.world_at(q) == s3.world_at(q));
                    assert(s3.world_at(q) == s2.world_at(q));
                    assert(s2.world_at(q) == s1.world_at(q));
                }
            }
        }
        proof {
            // the owner is placed: its fresh mesh also matches the world
            // with itself inserted, which only moved cells of its own chunk
            assert forall|q: (int, int, int)|
                chunk_of(q) != p@ implies #[trigger] world_block(
                s4.registry(),
                s3.residents(),
                s3.store(),
                q,
            ) == world_block(s4.registry(), s4.residents(), s4.store(), q) by {
                assert(world_block(s4.registry(), s3.residents(), s3.store(), q) == s3.world_at(
                    q,
                ));
            }
            lemma_chunk_mesh_frame(
                s4.registry(),
                cv.blocks,
                s3.residents(),
                s3.store(),
                s4.residents(),
                s4.store(),
                p@,
            );
            assert(placed(s4, p@, cv));
            // a boundary neighbour still holds (or would load or generate)
            // exactly what it did before the edit began
            assert forall|k: (int, int, int)| edit_neighbor(pos@, k) implies #[trigger] effective_blocks(
                s4,
                k,
            ) == effective_blocks(*old(self), k) && effective_rev(s4, k) == effective_rev(
                *old(self),
                k,
            ) && effective_mod(s4, k) == effective_mod(*old(self), k) by {
                assert(k != p@);
                if s4.residents().contains_key(k) {
                    assert(s3.residents().contains_key(k));
                    if old(self).residents().contains_key(k) {
                        assert(s1.residents().contains_key(k));
                        assert(s1.residents()[k] == old(self).residents()[k]);
                        assert(s2.residents().contains_key(k));
                        assert(s2.residents()[k] == s1.residents()[k]);
                        assert(s3.residents()[k] == s2.residents()[k]);
                    } else {
                        if s2.residents().contains_key(k) {
                            assert(s1.residents().contains_key(k));
                            assert(fresh_chunk(*old(self), k, s1.residents()[k]));
                            assert(s3.residents()[k] == s2.residents()[k]);
                        } else {
                            assert(fresh_chunk(s2, k, s3.residents()[k]));
                        }
                    }
                } else {
                    if old(self).residents().contains_key(k) {
                        assert(s1.residents().contains_key(k));
                        assert(s2.residents().contains_key(k));
                        assert(s3.residents().contains_key(k));
                        assert(s4.residents().contains_key(k));
                        assert(false);
                    }
                }
            }
        }
        proof {
            let fin = *self;
            assert forall|k: (int, int, int)|
                #[trigger] old(self).residents().contains_key(k) implies fin.residents().contains_key(
                k,
            ) by {
                assert(s1.residents().contains_key(k));
                if k != p@ {
                    assert(s2.residents().contains_key(k));
                    assert(s3.residents().contains_key(k));
                }
                assert(s4.residents().contains_key(k));
            }
            assert forall|k: (int, int, int)|
                #[trigger] old(self).residents().contains_key(k) && !set![p@].contains(
                    k,
                ) implies fin.residents().contains_key(k) && fin.residents()[k] == old(
                self,
            ).residents()[k] by {
                assert(k != p@);
                assert(s1.residents().contains_key(k));
                assert(s1.residents()[k] == old(self).residents()[k]);
                assert(s2.residents().contains_key(k));
                assert(s2.residents()[k] == s1.residents()[k]);
                assert(s3.residents().contains_key(k));
                assert(s3.residents()[k] == s2.residents()[k]);
                assert(fin.residents()[k] == s3.residents()[k]);
            }
            assert forall|k: (int, int, int)|
                #[trigger] fin.residents().contains_key(k) && !old(self).residents().contains_key(
                    k,
                ) && !set![p@].contains(k) implies fresh_chunk(*old(self), k, fin.residents()[k]) by {
                assert(k != p@);
                assert(s3.residents().contains_key(k));
                assert(fin.residents()[k] == s3.residents()[k]);
                if s2.residents().contains_key(k) {
                    assert(s1.residents().contains_key(k));
                    assert(fresh_chunk(*old(self), k, s1.residents()[k]));
                    assert(s3.residents()[k] == s2.residents()[k]);
                    assert(s2.residents()[k] == s1.residents()[k]);
                } else {
                    assert(fresh_chunk(s2, k, s3.residents()[k]));
                }
            }
        }
        Some(())
    }

    #[verifier::rlimit(100)]
    #[verifier::spinoff_prover]
    pub fn set_block(&mut self, pos: BlockPos, block: BlockID) -> (r: Option<()>)
        requires
            old(self).inv(),
            in_edit_bounds(pos@),
            0 <= block < old(self).registry().len(),
        ensures
            final(self).inv(),
            r is Some,
            same_settings(*old(self), *final(self)),
            forall|q: (int, int, int)| #[trigger]
                final(self).world_at(q) == (if q == pos@ {
                    block as int
                } else {
                    old(self).world_at(q)
                }),
            forall|k: (int, int, int)| #[trigger]
                old(self).residents().contains_key(k) ==> final(self).residents().contains_key(k),
            touches_only(*old(self), *final(self), edit_chunks(pos@)),
            ({
                let co = chunk_of(pos@);
                let v = final(self).residents()[co];
                &&& final(self).residents().contains_key(co)
                &&& v.pos == co
                &&& v.blocks == effective_blocks(*old(self), co).update(
                    cell_index(local_of(pos@)),
                    block as int,
                )
                &&& v.modified
                &&& v.revision == next_rev(effective_rev(*old(self), co))
                &&& v.mesh == Some(
                    chunk_mesh(
                        final(self).registry(),
                        v.blocks,
                        final(self).residents(),
                        final(self).store(),
                        co,
                    ),
                )
            }),
            local_of(pos@).0 == 0 ==> rebuilt_at(
                *old(self),
                *final(self),
                (chunk_of(pos@).0 - 1, chunk_of(pos@).1, chunk_of(pos@).2),
            ),
            local_of(pos@).0 == 15 ==> rebuilt_at(
                *old(self),
                *final(self),
                (chunk_of(pos@).0 + 1, chunk_of(pos@).1, chunk_of(pos@).2),
            ),
            local_of(pos@).1 == 0 ==> rebuilt_at(
                *old(self),
                *final(self),
                (chunk_of(pos@).0, chunk_of(pos@).1 - 1, chunk_of(pos@).2),
            ),
            local_of(pos@).1 == 15 ==> rebuilt_at(
                *old(self),
                *final(self),
                (chunk_of(pos@).0, chunk_of(pos@).1 + 1, chunk_of(pos@).2),
            ),
            local_of(pos@).2 == 0 ==> rebuilt_at(
                *old(self),
                *final(self),
                (chunk_of(pos@).0, chunk_of(pos@).1, chunk_of(pos@).2 - 1),
            ),
            local_of(pos@).2 == 15 ==> rebuilt_at(
                *old(self),
                *final(self),
                (chunk_of(pos@).0, chunk_of(pos@).1, chunk_of(pos@).2 + 1),
            ),
    {
        let p = pos.chunk();
        let inner = pos.local();
        proof {
            lemma_edit_axis_bounds(pos@.0);
            lemma_edit_axis_bounds(pos@.1);
            lemma_edit_axis_bounds(pos@.2);
            crate::chunk::lemma_cell_index_roundtrip(inner@);
        }
        let r0 = self.set_block_owner(pos, block);
        if r0.is_none() {
            proof {
                assert(false);
            }
            return None;
        }
        let ghost cv: ChunkView = self.residents()[p@];
        let ghost m1 = *self;
        if inner.x == 0 {
            let _ = self.update_chunk(BlockPos::new(p.x - 1, p.y, p.z));
            proof {
                let k = (p@.0 - 1, p@.1, p@.2);
                lemma_placed_step(m1, *self, p@, cv, set![k]);
                assert(edit_neighbor(pos@, k));
                assert(rebuilt_core(*old(self), *self, k));
                assert(placed(*self, k, self.residents()[k]));
            }
        } else if inner.x == 15 {
            let _ = self.update_chunk(BlockPos::new(p.x + 1, p.y, p.z));
            proof {
                let k = (p@.0 + 1, p@.1, p@.2);
                lemma_placed_step(m1, *self, p@, cv, set![k]);
                assert(edit_neighbor(pos@, k));
                assert(rebuilt_core(*old(self), *self, k));
                assert(placed(*self, k, self.residents()[k]));
            }
        }
        let ghost m2 = *self;
        proof {
            assert(self.inv());
            assert(same_world(m1, m2));
            assert(same_settings(m1, m2));
            assert(placed(m2, p@, cv));
            assert forall|k: (int, int, int)|
                edit_neighbor(pos@, k) && k.0 == chunk_of(pos@).0 implies #[trigger] effective_blocks(
                m2,
                k,
            ) == effective_blocks(m1, k) && effective_rev(m2, k) == effective_rev(m1, k)
                && effective_mod(m2, k) == effective_mod(m1, k) by {
                assert(k != (p@.0 - 1, p@.1, p@.2) && k != (p@.0 + 1, p@.1, p@.2));
                if m2.residents().contains_key(k) {
                    if m1.residents().contains_key(k) {
                        assert(m2.residents()[k] == m1.residents()[k]);
                    } else {
                        assert(fresh_chunk(m1, k, m2.residents()[k]));
                    }
                } else {
                    if m1.residents().contains_key(k) {
                        assert(m2.residents().contains_key(k));
                        assert(false);
                    }
                }
            }
        }
        if inner.y == 0 {
            let _ = self.update_chunk(BlockPos::new(p.x, p.y - 1, p.z));
            proof {
                let k = (p@.0, p@.1 - 1, p@.2);
                lemma_placed_step(m2, *self, p@, cv, set![k]);
                assert(edit_neighbor(pos@, k));
                assert(rebuilt_core(*old(self), *self, k));
                assert(placed(*self, k, self.residents()[k]));
                if local_of(pos@).0 == 0 {
                    let k0 = (p@.0 - 1, p@.1, p@.2);
                    lemma_placed_step(m2, *self, k0, m2.residents()[k0], set![k]);
                }
                if local_of(pos@).0 == 15 {
                    let k0 = (p@.0 + 1, p@.1, p@.2);
                    lemma_placed_step(m2, *self, k0, m2.residents()[k0], set![k]);
                }
            }
        } else if inner.y == 15 {
            let _ = self.update_chunk(BlockPos::new(p.x, p.y + 1, p.z));
            proof {
                let k = (p@.0, p@.1 + 1, p@.2);
                lemma_placed_step(m2, *self, p@, cv, set![k]);
                assert(edit_neighbor(pos@, k));
                assert(rebuilt_core(*old(self), *self, k));
                assert(placed(*self, k, self.residents()[k]));
                if local_of(pos@).0 == 0 {
                    let k0 = (p@.0 - 1, p@.1, p@.2);
                    lemma_placed_step(m2, *self, k0, m2.residents()[k0], set![k]);
                }
                if local_of(pos@).0 == 15 {
                    let k0 = (p@.0 + 1, p@.1, p@.2);
                    lemma_placed_step(m2, *self, k0, m2.residents()[k0], set![k]);
                }
            }
        }
        let ghost m3 = *self;
        proof {
            assert(self.inv());
            assert(same_world(m2, m3));
            assert(same_settings(m2, m3));
            assert(placed(m3, p@, cv));
            if local_of(pos@).0 == 0 {
                let k0 = (p@.0 - 1, p@.1, p@.2);
                assert(placed(m3, k0, m3.residents()[k0]));
                assert(rebuilt_core(*old(self), m3, k0));
            }
            if local_of(pos@).0 == 15 {
                let k0 = (p@.0 + 1, p@.1, p@.2);
                assert(placed(m3, k0, m3.residents()[k0]));
                assert(rebuilt_core(*old(self), m3, k0));
            }
            if local_of(pos@).1 == 0 {
                let k0 = (p@.0, p@.1 - 1, p@.2);
                assert(placed(m3, k0, m3.residents()[k0]));
                assert(rebuilt_core(*old(self), m3, k0));
            }
            if local_of(pos@).1 == 15 {
                let k0 = (p@.0, p@.1 + 1, p@.2);
                assert(placed(m3, k0, m3.residents()[k0]));
                assert(rebuilt_core(*old(self), m3, k0));
            }
            assert forall|k: (int, int, int)|
                edit_neighbor(pos@, k) && k.0 == chunk_of(pos@).0 && k.1 == chunk_of(
                    pos@,
                ).1 implies #[trigger] effective_blocks(m3, k) == effective_blocks(m2, k)
                && effective_rev(m3, k) == effective_rev(m2, k) && effective_mod(m3, k)
                == effective_mod(m2, k) by {
                assert(k != (p@.0, p@.1 - 1, p@.2) && k != (p@.0, p@.1 + 1, p@.2));
                if m3.residents().contains_key(k) {
                    if m2.residents().contains_key(k) {
                        assert(m3.residents()[k] == m2.residents()[k]);
                    } else {
                        assert(fresh_chunk(m2, k, m3.residents()[k]));
                    }
                } else {
                    if m2.residents().contains_key(k) {
                        assert(m3.residents().contains_key(k));
                        assert(false);
                    }
                }
            }
        }
        if inner.z == 0 {
            let _ = self.update_chunk(BlockPos::new(p.x, p.y, p.z - 1));
            proof {
                let k = (p@.0, p@.1, p@.2 - 1);
                lemma_placed_step(m3, *self, p@, cv, set![k]);
                assert(edit_neighbor(pos@, k));
                assert(rebuilt_core(*old(self), *self, k));
                assert(placed(*self, k, self.residents()[k]));
                if local_of(pos@).0 == 0 {
                    let k0 = (p@.0 - 1, p@.1, p@.2);
                    lemma_placed_step(m3, *self, k0, m3.residents()[k0], set![k]);
                }
                if local_of(pos@).0 == 15 {
                    let k0 = (p@.0 + 1, p@.1, p@.2);
                    lemma_placed_step(m3, *self, k0, m3.residents()[k0], set![k]);
                }
                if local_of(pos@).1 == 0 {
                    let k0 = (p@.0, p@.1 - 1, p@.2);
                    lemma_placed_step(m3, *self, k0, m3.residents()[k0], set![k]);
                }
                if local_of(pos@).1 == 15 {
                    let k0 = (p@.0, p@.1 + 1, p@.2);
                    lemma_placed_step(m3, *self, k0, m3.residents()[k0], set![k]);
                }
            }
        } else if inner.z == 15 {
            let _ = self.update_chunk(BlockPos::new(p.x, p.y, p.z + 1));
            proof {
                let k = (p@.0, p@.1, p@.2 + 1);
                lemma_placed_step(m3, *self, p@, cv, set![k]);
                assert(edit_neighbor(pos@, k));
                assert(rebuilt_core(*old(self), *self, k));
                assert(placed(*self, k, self.residents()[k]));
                if local_of(pos@).0 == 0 {
                    let k0 = (p@.0 - 1, p@.1, p@.2);
                    lemma_placed_step(m3, *self, k0, m3.residents()[k0], set![k]);
                }
                if local_of(pos@).0 == 15 {
                    let k0 = (p@.0 + 1, p@.1, p@.2);
                    lemma_placed_step(m3, *self, k0, m3.residents()[k0], set![k]);
                }
                if local_of(pos@).1 == 0 {
                    let k0 = (p@.0, p@.1 - 1, p@.2);
                    lemma_placed_step(m3, *self, k0, m3.residents()[k0], set![k]);
                }
                if local_of(pos@).1 == 15 {
                    let k0 = (p@.0, p@.1 + 1, p@.2);
                    lemma_placed_step(m3, *self, k0, m3.residents()[k0], set![k]);
                }
            }
        }
        proof {
            let fin = *self;
            assert(fin.inv());
            assert(same_world(m3, fin));
            assert(same_settings(*old(self), fin));
            assert forall|q: (int, int, int)| #[trigger] fin.world_at(q) == (if q == pos@ {
                block as int
            } else {
                old(self).world_at(q)
            }) by {
                assert(fin.world_at(q) == m3.world_at(q));
                assert(m3.world_at(q) == m2.world_at(q));
                assert(m2.world_at(q) == m1.world_at(q));
            }
            assert(placed(fin, p@, cv));
            if local_of(pos@).0 == 0 {
                let k0 = (p@.0 - 1, p@.1, p@.2);
                assert(placed(fin, k0, fin.residents()[k0]));
                assert(rebuilt_at(*old(self), fin, k0));
            }
            if local_of(pos@).0 == 15 {
                let k0 = (p@.0 + 1, p@.1, p@.2);
                assert(placed(fin, k0, fin.residents()[k0]));
                assert(rebuilt_at(*old(self), fin, k0));
            }
            if local_of(pos@).1 == 0 {
                let k0 = (p@.0, p@.1 - 1, p@.2);
                assert(placed(fin, k0, fin.residents()[k0]));
                assert(rebuilt_at(*old(self), fin, k0));
            }
            if local_of(pos@).1 == 15 {
                let k0 = (p@.0, p@.1 + 1, p@.2);
                assert(placed(fin, k0, fin.residents()[k0]));
                assert(rebuilt_at(*old(self), fin, k0));
            }
            if local_of(pos@).2 == 0 {
                let k0 = (p@.0, p@.1, p@.2 - 1);
                assert(placed(fin, k0, fin.residents()[k0]));
                assert(rebuilt_at(*old(self), fin, k0));
            }
            if local_of(pos@).2 == 15 {
                let k0 = (p@.0, p@.1, p@.2 + 1);
                assert(placed(fin, k0, fin.residents()[k0]));
                assert(rebuilt_at(*old(self), fin, k0));
            }
            assert forall|k: (int, int, int)|
                #[trigger] old(self).residents().contains_key(k) implies fin.residents().contains_key(
                k,
            ) by {
                assert(m1.residents().contains_key(k));
                assert(m2.residents().contains_key(k));
                assert(m3.residents().contains_key(k));
            }
            // chunks outside the edit set are left exactly as they were
            assert forall|k: (int, int, int)|
                #[trigger] old(self).residents().contains_key(k) && !edit_chunks(pos@).contains(
                    k,
                ) implies fin.residents().contains_key(k) && fin.residents()[k] == old(
                self,
            ).residents()[k] by {
                assert(k != p@ && !edit_neighbor(pos@, k));
                assert(!set![p@].contains(k));
                assert(m1.residents().contains_key(k) && m1.residents()[k] == old(
                    self,
                ).residents()[k]);
                if local_of(pos@).0 == 0 {
                    assert(!set![(p@.0 - 1, p@.1, p@.2)].contains(k));
                }
                if local_of(pos@).0 == 15 {
                    assert(!set![(p@.0 + 1, p@.1, p@.2)].contains(k));
                }
                assert(m2.residents().contains_key(k) && m2.residents()[k] == m1.residents()[k]);
                if local_of(pos@).1 == 0 {
                    assert(!set![(p@.0, p@.1 - 1, p@.2)].contains(k));
                }
                if local_of(pos@).1 == 15 {
                    assert(!set![(p@.0, p@.1 + 1, p@.2)].contains(k));
                }
                assert(m3.residents().contains_key(k) && m3.residents()[k] == m2.residents()[k]);
                if local_of(pos@).2 == 0 {
                    assert(!set![(p@.0, p@.1, p@.2 - 1)].contains(k));
                }
                if local_of(pos@).2 == 15 {
                    assert(!set![(p@.0, p@.1, p@.2 + 1)].contains(k));
                }
                assert(fin.residents().contains_key(k) && fin.residents()[k]
                    == m3.residents()[k]);
            }
            // and chunks that appeared outside the edit set are fresh
            assert forall|k: (int, int, int)|
                #[trigger] fin.residents().contains_key(k) && !old(self).residents().contains_key(
                    k,
                ) && !edit_chunks(pos@).contains(k) implies fresh_chunk(
                *old(self),
                k,
                fin.residents()[k],
            ) by {
                assert(k != p@ && !edit_neighbor(pos@, k));
                assert(!set![p@].contains(k));
                if local_of(pos@).0 == 0 {
                    assert(!set![(p@.0 - 1, p@.1, p@.2)].contains(k));
                }
                if local_of(pos@).0 == 15 {
                    assert(!set![(p@.0 + 1, p@.1, p@.2)].contains(k));
                }
                if local_of(pos@).1 == 0 {
                    assert(!set![(p@.0, p@.1 - 1, p@.2)].contains(k));
                }
                if local_of(pos@).1 == 15 {
                    assert(!set![(p@.0, p@.1 + 1, p@.2)].contains(k));
                }
                if local_of(pos@).2 == 0 {
                    assert(!set![(p@.0, p@.1, p@.2 - 1)].contains(k));
                }
                if local_of(pos@).2 == 15 {
                    assert(!set![(p@.0, p@.1, p@.2 + 1)].contains(k));
                }
                if m3.residents().contains_key(k) {
                    assert(fin.residents()[k] == m3.residents()[k]);
                    if m2.residents().contains_key(k) {
                        assert(m3.residents()[k] == m2.residents()[k]);
                        if m1.residents().contains_key(k) {
                            assert(m2.residents()[k] == m1.residents()[k]);
                            assert(fresh_chunk(*old(self), k, m1.residents()[k]));
                        } else {
                            assert(fresh_chunk(m1, k, m2.residents()[k]));
                            assert(m1.store() == old(self).store());
                            assert(m1.registry() == old(self).registry());
                        }
                    } else {
                        assert(fresh_chunk(m2, k, m3.residents()[k]));
                        assert(m2.store() == old(self).store());
                        assert(m2.registry() == old(self).registry());
                    }
                } else {
                    assert(fresh_chunk(m3, k, fin.residents()[k]));
                    assert(m3.store() == old(self).store());
                    assert(m3.registry() == old(self).registry());
                }
            }
        }
        Some(())
    }


    /// Whether `k` lies within `view_distance` of `camera` on every axis:
    /// the symmetric view cube, whose side is `2 * view_distance + 1`.
    fn keep_chunk(camera: BlockPos, view_distance: i32, k: &BlockPos) -> (r: bool)
        ensures
            r == in_window(k@, camera@, view_distance as int),
    {
        (k.x as i64) >= (camera.x as i64) - (view_distance as i64) && (k.x as i64) <= (camera.x
            as i64) + (view_distance as i64) && (k.y as i64) >= (camera.y as i64) - (view_distance
            as i64) && (k.y as i64) <= (camera.y as i64) + (view_distance as i64) && (k.z as i64)
            >= (camera.z as i64) - (view_distance as i64) && (k.z as i64) <= (camera.z as i64) + (
        view_distance as i64)
    }

    /// Adds a coordinate to the generation queue. The coordinate must not
    /// be queued already: the queue never holds a coordinate twice.
    fn request_generation(&mut self, pos: BlockPos)
        requires
            old(self).inv(),
            in_mesh_bounds(pos@),
            !old(self).queue().contains(pos@),
        ensures
            final(self).inv(),
            final(self).queue() == old(self).queue().push(pos@),
            final(self).residents() == old(self).residents(),
            final(self).store() == old(self).store(),
            final(self).registry() == old(self).registry(),
            final(self).obs() == old(self).obs(),
            final(self).vd() == old(self).vd(),
            final(self).tex_id() == old(self).tex_id(),
            final(self).dirty_list() == old(self).dirty_list(),
            same_world(*old(self), *final(self)),
    {
        self.gen_queue.push(pos);
        proof {
            assert(self.queue() =~= old(self).queue().push(pos@));
            assert forall|i: int| 0 <= i < self.queue().len() implies in_mesh_bounds(
                #[trigger] self.queue()[i],
            ) by {
                if i < old(self).queue().len() {
                    assert(in_mesh_bounds(old(self).queue()[i]));
                }
            }
            assert forall|i: int, j: int|
                0 <= i < j < self.queue().len() implies #[trigger] self.queue()[i]
                != #[trigger] self.queue()[j] by {
                if j < old(self).queue().len() {
                    assert(old(self).queue()[i] != old(self).queue()[j]);
                } else {
                    assert(self.queue()[j] == pos@);
                    assert(self.queue()[i] == old(self).queue()[i]);
                    if old(self).queue()[i] == pos@ {
                        assert(old(self).queue().contains(pos@));
                    }
                }
            }
            assert forall|c: (int, int, int)|
                #[trigger] self.residents().contains_key(c) implies self.resident_ok(c) by {
                assert(old(self).resident_ok(c));
            }
            assert forall|c: (int, int, int)|
                #[trigger] self.store().contains_key(c) implies stored_wf(
                self.store()[c],
                self.registry().len() as int,
            ) by {
                assert(old(self).store().contains_key(c));
            }
            assert forall|i: int|
                0 <= i < self.dirty_list().len() implies self.store().contains_key(
                #[trigger] self.dirty_list()[i],
            ) by {
                assert(old(self).store().contains_key(old(self).dirty_list()[i]));
            }
        }
    }

    /// Whether a coordinate is already waiting in the generation queue.
    fn is_queued(&self, pos: BlockPos) -> (r: bool)
        ensures
            r == self.queue().contains(pos@),
    {
        let n: usize = self.gen_queue.len();
        let mut i: usize = 0;
        while i < n
            invariant
                n == self.gen_queue@.len(),
                i <= n,
                forall|j: int| 0 <= j < i ==> #[trigger] self.queue()[j] != pos@,
            decreases n - i,
        {
            let q = self.gen_queue[i];
            proof {
                assert(self.queue()[i as int] == q@);
            }
            if q.x == pos.x && q.y == pos.y && q.z == pos.z {
                proof {
                    assert(self.queue()[i as int] == pos@);
                }
                return true;
            }
            i = i + 1;
        }
        proof {
            if self.queue().contains(pos@) {
                let j = choose|j: int| 0 <= j < self.queue().len() && self.queue()[j] == pos@;
                assert(self.queue()[j] != pos@);
            }
        }
        false
    }

    /// Generates, loads and meshes up to `count` queued chunks, oldest
    /// first, dropping queued coordinates that have left the view radius.
    /// Nothing the world shows changes.
    fn handle_generation(&mut self, count: i32)
        requires
            old(self).inv(),
            count >= 0,
        ensures
            final(self).inv(),
            same_world(*old(self), *final(self)),
            final(self).registry() == old(self).registry(),
            final(self).store() == old(self).store(),
            final(self).obs() == old(self).obs(),
            final(self).vd() == old(self).vd(),
            final(self).tex_id() == old(self).tex_id(),
            final(self).dirty_list() == old(self).dirty_list(),
            final(self).queue() == old(self).queue().skip(
                old(self).queue().len() - final(self).queue().len(),
            ),
            ({
                let popped = old(self).queue().len() - final(self).queue().len();
                let want = if count as int <= old(self).queue().len() {
                    count as int
                } else {
                    old(self).queue().len() as int
                };
                popped >= want
            }),
            forall|c: (int, int, int)| #[trigger]
                old(self).residents().contains_key(c)
                    ==> final(self).residents().contains_key(c)
                    && final(self).residents()[c].blocks == old(self).residents()[c].blocks
                    && final(self).residents()[c].modified == old(self).residents()[c].modified,
            forall|c: (int, int, int)| #[trigger]
                final(self).residents().contains_key(c)
                    && !old(self).residents().contains_key(c)
                    ==> final(self).residents()[c].blocks
                    == stored_or_gen(old(self).store(), old(self).registry(), c)
                    && !final(self).residents()[c].modified,
            forall|c: (int, int, int)| #[trigger]
                old(self).residents().contains_key(c) && !in_window(
                    c,
                    old(self).obs(),
                    old(self).vd(),
                ) ==> final(self).residents()[c] == old(self).residents()[c],
            forall|c: (int, int, int)| #[trigger]
                final(self).residents().contains_key(c)
                    && !old(self).residents().contains_key(c) && !in_window(
                    c,
                    old(self).obs(),
                    old(self).vd(),
                ) ==> final(self).residents()[c].mesh is None && final(self).residents()[c].revision
                    == 0,
    {
        let mut generated: i32 = 0;
        loop
            invariant
                self.inv(),
                count >= 0,
                0 <= generated <= count,
                same_world(*old(self), *self),
                self.registry() == old(self).registry(),
                self.store() == old(self).store(),
                self.obs() == old(self).obs(),
                self.vd() == old(self).vd(),
                self.tex_id() == old(self).tex_id(),
                self.dirty_list() == old(self).dirty_list(),
                self.queue().len() <= old(self).queue().len(),
                self.queue() == old(self).queue().skip(
                    old(self).queue().len() - self.queue().len(),
                ),
                old(self).queue().len() - self.queue().len() >= generated,
                forall|c: (int, int, int)| #[trigger]
                    old(self).residents().contains_key(c)
                        ==> self.residents().contains_key(c)
                        && self.residents()[c].blocks == old(self).residents()[c].blocks
                        && self.residents()[c].modified == old(self).residents()[c].modified,
                forall|c: (int, int, int)| #[trigger]
                    self.residents().contains_key(c)
                        && !old(self).residents().contains_key(c)
                        ==> self.residents()[c].blocks
                        == stored_or_gen(old(self).store(), old(self).registry(), c)
                        && !self.residents()[c].modified,
                forall|c: (int, int, int)| #[trigger]
                    old(self).residents().contains_key(c) && !in_window(
                        c,
                        old(self).obs(),
                        old(self).vd(),
                    ) ==> self.residents()[c] == old(self).residents()[c],
                forall|c: (int, int, int)| #[trigger]
                    self.residents().contains_key(c) && !old(self).residents().contains_key(c)
                        && !in_window(c, old(self).obs(), old(self).vd())
                        ==> self.residents()[c].mesh is None && self.residents()[c].revision == 0,
            ensures
                self.queue().len() == 0 || generated >= count,
            decreases self.gen_queue@.len(),
        {
            if self.gen_queue.len() == 0 {
                break;
            }
            let ghost it = *self;
            let x = self.gen_queue.remove(0);
            proof {
                assert(self.queue() =~= it.queue().skip(1));
                assert(self.queue() =~= old(self).queue().skip(
                    old(self).queue().len() - self.queue().len(),
                ));
                assert(in_mesh_bounds(it.queue()[0]));
                Self::lemma_inv_queue_shrink(it, *self, 1);
            }
            if Self::keep_chunk(self.pos, self.view_distance, &x) {
                let ghost mid = *self;
                let _ = self.update_chunk(x);
                proof {
                    assert forall|c: (int, int, int)| #[trigger]
                        old(self).residents().contains_key(c) implies self.residents().contains_key(c)
                        && self.residents()[c].blocks == old(self).residents()[c].blocks
                        && self.residents()[c].modified == old(self).residents()[c].modified by {
                        assert(mid.residents().contains_key(c));
                        if c == x@ {
                            assert(rebuilt_at(mid, *self, c));
                        }
                    }
                    assert forall|c: (int, int, int)| #[trigger]
                        self.residents().contains_key(c)
                        && !old(self).residents().contains_key(c) implies self.residents()[c].blocks
                        == stored_or_gen(old(self).store(), old(self).registry(), c)
                        && !self.residents()[c].modified by {
                        if c == x@ {
                            assert(rebuilt_at(mid, *self, c));
                        } else {
                            if mid.residents().contains_key(c) {
                                assert(self.residents()[c] == mid.residents()[c]);
                            } else {
                                assert(fresh_chunk(mid, c, self.residents()[c]));
                            }
                        }
                    }
                    assert(in_window(x@, old(self).obs(), old(self).vd()));
                    assert forall|c: (int, int, int)| #[trigger]
                        old(self).residents().contains_key(c) && !in_window(
                            c,
                            old(self).obs(),
                            old(self).vd(),
                        ) implies self.residents()[c] == old(self).residents()[c] by {
                        assert(c != x@);
                        assert(mid.residents().contains_key(c));
                        assert(self.residents()[c] == mid.residents()[c]);
                    }
                    assert forall|c: (int, int, int)| #[trigger]
                        self.residents().contains_key(c)
                        && !old(self).residents().contains_key(c) && !in_window(
                            c,
                            old(self).obs(),
                            old(self).vd(),
                        ) implies self.residents()[c].mesh is None && self.residents()[c].revision
                        == 0 by {
                        assert(c != x@);
                        if mid.residents().contains_key(c) {
                            assert(self.residents()[c] == mid.residents()[c]);
                        } else {
                            assert(fresh_chunk(mid, c, self.residents()[c]));
                        }
                    }
                }
                if generated < count {
                    generated = generated + 1;
                }
            }
            if generated >= count {
                break;
            }
        }
    }

    /// `inv` is stable when the queue merely loses entries and nothing else
    /// moves.
    proof fn lemma_inv_queue_shrink(pre: ChunkServer, post: ChunkServer, k: int)
        requires
            pre.inv(),
            post.maps_wf(),
            post.registry() == pre.registry(),
            post.store() == pre.store(),
            post.residents() == pre.residents(),
            post.obs() == pre.obs(),
            post.vd() == pre.vd(),
            post.dirty_list() == pre.dirty_list(),
            0 <= k <= pre.queue().len(),
            post.queue() == pre.queue().skip(k),
        ensures
            post.inv(),
    {
        assert forall|c: (int, int, int)|
            #[trigger] post.residents().contains_key(c) implies post.resident_ok(c) by {
            assert(pre.resident_ok(c));
        }
        assert forall|c: (int, int, int)|
            #[trigger] post.store().contains_key(c) implies stored_wf(
            post.store()[c],
            post.registry().len() as int,
        ) by {
            assert(pre.store().contains_key(c));
        }
        assert forall|i: int| 0 <= i < post.queue().len() implies in_mesh_bounds(
            #[trigger] post.queue()[i],
        ) by {
            assert(post.queue()[i] == pre.queue()[i + k]);
            assert(in_mesh_bounds(pre.queue()[i + k]));
        }
        assert forall|i: int, j: int|
            0 <= i < j < post.queue().len() implies #[trigger] post.queue()[i]
            != #[trigger] post.queue()[j] by {
            assert(post.queue()[i] == pre.queue()[i + k]);
            assert(post.queue()[j] == pre.queue()[j + k]);
            assert(pre.queue()[i + k] != pre.queue()[j + k]);
        }
        assert forall|i: int|
            0 <= i < post.dirty_list().len() implies post.store().contains_key(
            #[trigger] post.dirty_list()[i],
        ) by {
            assert(pre.store().contains_key(pre.dirty_list()[i]));
        }
    }

    /// The per-frame pump: loads new and unloads old chunks; safe to call
    /// every frame. First a bounded batch of queued build work runs. If the
    /// observer's chunk moved, chunks outside the view radius plus a
    /// hysteresis margin of two are retired — modified ones written to the
    /// save store first — and every in-view coordinate that lacks geometry
    /// and is not already queued is enqueued. Nothing the world shows
    /// changes, so a retired chunk comes back exactly as it left.
    #[verifier::rlimit(100)]
    #[verifier::spinoff_prover]
    pub fn update(&mut self, camera: BlockPos)
        requires
            old(self).inv(),
            in_edit_bounds(camera@),
        ensures
            final(self).inv(),
            final(self).obs() == chunk_of(camera@),
            same_world(*old(self), *final(self)),
            final(self).registry() == old(self).registry(),
            final(self).vd() == old(self).vd(),
            final(self).tex_id() == old(self).tex_id(),
            forall|c: (int, int, int)| #[trigger]
                old(self).residents().contains_key(c) && (chunk_of(camera@) == old(self).obs()
                    || in_window(c, chunk_of(camera@), old(self).vd() + 2))
                    ==> final(self).residents().contains_key(c)
                    && final(self).residents()[c].blocks == old(self).residents()[c].blocks
                    && final(self).residents()[c].modified == old(self).residents()[c].modified,
            chunk_of(camera@) != old(self).obs() ==> forall|c: (int, int, int)| #[trigger]
                final(self).residents().contains_key(c) ==> in_window(
                    c,
                    chunk_of(camera@),
                    old(self).vd() + 2,
                ),
            chunk_of(camera@) != old(self).obs() ==> forall|c: (int, int, int)|
                #[trigger] in_window(c, chunk_of(camera@), old(self).vd())
                    ==> (final(self).residents().contains_key(c)
                    && final(self).residents()[c].mesh is Some) || final(self).queue().contains(c),
            chunk_of(camera@) != old(self).obs() ==> forall|c: (int, int, int)| #[trigger]
                old(self).residents().contains_key(c) && !in_window(
                    c,
                    chunk_of(camera@),
                    old(self).vd() + 2,
                ) && old(self).residents()[c].modified ==> final(self).dirty_list().contains(c)
                    && final(self).store().contains_key(c),
            forall|c: (int, int, int)| #[trigger]
                old(self).residents().contains_key(c) && !in_window(
                    c,
                    old(self).obs(),
                    old(self).vd(),
                ) && (chunk_of(camera@) == old(self).obs() || in_window(
                    c,
                    chunk_of(camera@),
                    old(self).vd() + 2,
                )) ==> final(self).residents().contains_key(c) && final(self).residents()[c]
                    == old(self).residents()[c],
            forall|c: (int, int, int)| #[trigger]
                final(self).residents().contains_key(c) && !old(self).residents().contains_key(c)
                    && !in_window(c, old(self).obs(), old(self).vd())
                    ==> final(self).residents()[c].mesh is None,
            chunk_of(camera@) != old(self).obs() ==> ({
                let od = old(self).dirty_list();
                let nd = final(self).dirty_list();
                &&& od.len() <= nd.len()
                &&& forall|i: int| 0 <= i < od.len() ==> #[trigger] nd[i] == od[i]
                &&& forall|i: int|
                    od.len() <= i < nd.len() ==> ({
                        let c = #[trigger] nd[i];
                        &&& old(self).residents().contains_key(c)
                        &&& !in_window(c, chunk_of(camera@), old(self).vd() + 2)
                        &&& old(self).residents()[c].modified
                    })
            }),
            chunk_of(camera@) != old(self).obs() ==> forall|k: (int, int, int)|
                !(#[trigger] old(self).residents().contains_key(k) && !in_window(
                    k,
                    chunk_of(camera@),
                    old(self).vd() + 2,
                ) && old(self).residents()[k].modified) ==> ((final(self).store().contains_key(k)
                    <==> #[trigger] old(self).store().contains_key(k)) && (old(
                    self,
                ).store().contains_key(k) ==> final(self).store()[k] == old(self).store()[k])),
            chunk_of(camera@) == old(self).obs() ==> ({
                let drained = old(self).queue().len() - final(self).queue().len();
                &&& final(self).queue() == old(self).queue().skip(drained)
                &&& drained >= (if 16 <= old(self).queue().len() {
                    16int
                } else {
                    old(self).queue().len() as int
                })
                &&& final(self).store() == old(self).store()
                &&& final(self).dirty_list() == old(self).dirty_list()
            }),
    {
        self.handle_generation(16);
        let new_pos = camera.chunk();
        proof {
            lemma_edit_axis_bounds(camera@.0);
            lemma_edit_axis_bounds(camera@.1);
            lemma_edit_axis_bounds(camera@.2);
        }
        if new_pos.x != self.pos.x || new_pos.y != self.pos.y || new_pos.z != self.pos.z {
            let ghost g1 = *self;
            self.pos = new_pos;
            let ghost g2 = *self;
            proof {
                assert(g2.inv()) by {
                    assert forall|c: (int, int, int)|
                        #[trigger] g2.residents().contains_key(c) implies g2.resident_ok(c) by {
                        assert(g1.resident_ok(c));
                    }
                    assert forall|c: (int, int, int)|
                        #[trigger] g2.store().contains_key(c) implies stored_wf(
                        g2.store()[c],
                        g2.registry().len() as int,
                    ) by {
                        assert(g1.store().contains_key(c));
                    }
                    assert forall|j: int|
                        0 <= j < g2.queue().len() implies in_mesh_bounds(
                        #[trigger] g2.queue()[j],
                    ) by {
                        assert(in_mesh_bounds(g1.queue()[j]));
                    }
                    assert forall|j: int|
                        0 <= j < g2.dirty_list().len() implies g2.store().contains_key(
                        #[trigger] g2.dirty_list()[j],
                    ) by {
                        assert(g1.store().contains_key(g1.dirty_list()[j]));
                    }
                }
            }
            self.evict_outside();
            let ghost g3 = *self;
            self.fill_view();
            proof {
                let fin = *self;
                assert(same_world(*old(self), fin));
                assert forall|c: (int, int, int)| #[trigger]
                    old(self).residents().contains_key(c) && in_window(
                        c,
                        chunk_of(camera@),
                        old(self).vd() + 2,
                    ) implies fin.residents().contains_key(c) && fin.residents()[c].blocks == old(
                    self,
                ).residents()[c].blocks && fin.residents()[c].modified == old(
                    self,
                ).residents()[c].modified by {
                    assert(g2.residents().contains_key(c));
                    assert(g2.residents()[c].blocks == old(self).residents()[c].blocks);
                    assert(g2.residents()[c].modified == old(self).residents()[c].modified);
                    assert(g3.residents().contains_key(c));
                    assert(g3.residents()[c] == g2.residents()[c]);
                    assert(fin.residents()[c] == g3.residents()[c]);
                }
                assert forall|c: (int, int, int)| #[trigger]
                    fin.residents().contains_key(c) && !old(self).residents().contains_key(c)
                    && !in_window(c, old(self).obs(), old(self).vd()) implies fin.residents()[c].mesh
                    is None by {
                    assert(g3.residents().contains_key(c));
                    assert(g2.residents().contains_key(c));
                    assert(g3.residents()[c] == g2.residents()[c]);
                    assert(fin.residents()[c] == g3.residents()[c]);
                    assert(g1.residents().contains_key(c));
                    assert(g1.residents()[c].mesh is None);
                }
                assert forall|c: (int, int, int)| #[trigger]
                    old(self).residents().contains_key(c) && !in_window(
                        c,
                        old(self).obs(),
                        old(self).vd(),
                    ) && in_window(c, chunk_of(camera@), old(self).vd() + 2) implies fin.residents().contains_key(
                    c,
                ) && fin.residents()[c] == old(self).residents()[c] by {
                    assert(g1.residents()[c] == old(self).residents()[c]);
                    assert(g2.residents().contains_key(c));
                    assert(g2.residents()[c] == g1.residents()[c]);
                    assert(g3.residents().contains_key(c));
                    assert(g3.residents()[c] == g2.residents()[c]);
                    assert(fin.residents()[c] == g3.residents()[c]);
                }
                assert forall|c: (int, int, int)| #[trigger]
                    old(self).residents().contains_key(c) && !in_window(
                        c,
                        chunk_of(camera@),
                        old(self).vd() + 2,
                    ) && old(self).residents()[c].modified implies fin.dirty_list().contains(c)
                    && fin.store().contains_key(c) by {
                    assert(g2.residents().contains_key(c));
                    assert(g2.residents()[c].modified);
                    assert(g3.dirty_list().contains(c));
                    assert(g3.store().contains_key(c));
                    assert(fin.dirty_list() == g3.dirty_list());
                    assert(fin.store() == g3.store());
                }
                // the dirty list grew only by the modified evictees
                assert(g2.dirty_list() == old(self).dirty_list());
                assert forall|i: int|
                    0 <= i < old(self).dirty_list().len() implies #[trigger] fin.dirty_list()[i]
                    == old(self).dirty_list()[i] by {
                    assert(g3.dirty_list()[i] == g2.dirty_list()[i]);
                }
                assert forall|i: int|
                    old(self).dirty_list().len() <= i < fin.dirty_list().len() implies ({
                        let c = #[trigger] fin.dirty_list()[i];
                        &&& old(self).residents().contains_key(c)
                        &&& !in_window(c, chunk_of(camera@), old(self).vd() + 2)
                        &&& old(self).residents()[c].modified
                    }) by {
                    let c = fin.dirty_list()[i];
                    assert(g3.dirty_list()[i] == c);
                    assert(g2.residents().contains_key(c) && !in_window(
                        c,
                        g2.obs(),
                        g2.vd() + 2,
                    ) && g2.residents()[c].modified);
                    if !old(self).residents().contains_key(c) {
                        assert(!g2.residents()[c].modified);
                    }
                    assert(g2.residents()[c].modified == old(self).residents()[c].modified);
                }
                // and the store changed only at those evictees
                assert forall|k: (int, int, int)|
                    !(#[trigger] old(self).residents().contains_key(k) && !in_window(
                        k,
                        chunk_of(camera@),
                        old(self).vd() + 2,
                    ) && old(self).residents()[k].modified) implies ((fin.store().contains_key(k)
                    <==> #[trigger] old(self).store().contains_key(k)) && (old(
                    self,
                ).store().contains_key(k) ==> fin.store()[k] == old(self).store()[k])) by {
                    if g2.residents().contains_key(k) && !in_window(k, g2.obs(), g2.vd() + 2)
                        && g2.residents()[k].modified {
                        assert(old(self).residents().contains_key(k));
                        assert(g2.residents()[k].modified == old(self).residents()[k].modified);
                        assert(false);
                    }
                    assert(g2.store() == old(self).store());
                    assert(fin.store() == g3.store());
                    if g3.store().contains_key(k) {
                        assert(g2.store().contains_key(k) || (g2.residents().contains_key(k)
                            && !in_window(k, g2.obs(), g2.vd() + 2)
                            && g2.residents()[k].modified));
                        assert(g3.store()[k] == g2.store()[k]);
                    }
                    if g2.store().contains_key(k) {
                        assert(g3.store().contains_key(k));
                    }
                }
            }
        }
    }

    /// Retires every resident chunk outside the view radius plus the
    /// hysteresis margin around the observer, writing modified ones to the
    /// save store. What the world shows stays put.
    #[verifier::rlimit(100)]
    #[verifier::spinoff_prover]
    fn evict_outside(&mut self)
        requires
            old(self).inv(),
        ensures
            final(self).inv(),
            same_world(*old(self), *final(self)),
            final(self).registry() == old(self).registry(),
            final(self).obs() == old(self).obs(),
            final(self).vd() == old(self).vd(),
            final(self).tex_id() == old(self).tex_id(),
            final(self).queue() == old(self).queue(),
            forall|c: (int, int, int)| #[trigger]
                final(self).residents().contains_key(c) ==> old(self).residents().contains_key(c)
                    && final(self).residents()[c] == old(self).residents()[c] && in_window(
                    c,
                    old(self).obs(),
                    old(self).vd() + 2,
                ),
            forall|c: (int, int, int)| #[trigger]
                old(self).residents().contains_key(c) && in_window(
                    c,
                    old(self).obs(),
                    old(self).vd() + 2,
                ) ==> final(self).residents().contains_key(c),
            forall|c: (int, int, int)| #[trigger]
                old(self).residents().contains_key(c) && !in_window(
                    c,
                    old(self).obs(),
                    old(self).vd() + 2,
                ) && old(self).residents()[c].modified ==> final(self).dirty_list().contains(c)
                    && final(self).store().contains_key(c) && final(self).store()[c]
                    == crate::chunk::encode_blocks(old(self).residents()[c].blocks),
            old(self).dirty_list().len() <= final(self).dirty_list().len(),
            forall|i: int|
                0 <= i < old(self).dirty_list().len() ==> #[trigger] final(self).dirty_list()[i]
                    == old(self).dirty_list()[i],
            forall|i: int|
                old(self).dirty_list().len() <= i < final(self).dirty_list().len() ==> ({
                    let c = #[trigger] final(self).dirty_list()[i];
                    &&& old(self).residents().contains_key(c)
                    &&& !in_window(c, old(self).obs(), old(self).vd() + 2)
                    &&& old(self).residents()[c].modified
                }),
            forall|k: (int, int, int)| #[trigger]
                final(self).store().contains_key(k) ==> old(self).store().contains_key(k) || (old(
                    self,
                ).residents().contains_key(k) && !in_window(k, old(self).obs(), old(self).vd() + 2)
                    && old(self).residents()[k].modified),
            forall|k: (int, int, int)| #[trigger]
                old(self).store().contains_key(k) ==> final(self).store().contains_key(k),
            forall|k: (int, int, int)| #[trigger]
                old(self).store().contains_key(k) && !(old(self).residents().contains_key(k)
                    && !in_window(k, old(self).obs(), old(self).vd() + 2) && old(
                    self,
                ).residents()[k].modified) ==> final(self).store()[k] == old(self).store()[k],
    {
        let ks = self.chunks.keys();
        let ghost ksq = self.chunks.key_seq();
        proof {
            self.chunks.lemma_dom();
        }
        let n: usize = ks.len();
        let mut i: usize = 0;
        while i < n
            invariant
                self.inv(),
                n == ks@.len(),
                n == ksq.len(),
                forall|j: int| 0 <= j < n ==> (#[trigger] ks@[j])@ == ksq[j],
                forall|a: int, b: int| 0 <= a < b < n ==> ksq[a] != ksq[b],
                forall|c: (int, int, int)|
                    #[trigger] old(self).residents().contains_key(c) ==> ksq.contains(c),
                i <= n,
                self.registry() == old(self).registry(),
                self.obs() == old(self).obs(),
                self.vd() == old(self).vd(),
                self.tex_id() == old(self).tex_id(),
                self.queue() == old(self).queue(),
                same_world(*old(self), *self),
                forall|c: (int, int, int)| #[trigger]
                    self.residents().contains_key(c) ==> old(self).residents().contains_key(c)
                        && self.residents()[c] == old(self).residents()[c],
                forall|j: int|
                    0 <= j < i ==> (in_window(#[trigger] ksq[j], old(self).obs(), old(self).vd() + 2)
                        <==> self.residents().contains_key(ksq[j])),
                forall|j: int| i <= j < n ==> self.residents().contains_key(#[trigger] ksq[j]),
                forall|j: int|
                    0 <= j < i && !in_window(#[trigger] ksq[j], old(self).obs(), old(self).vd() + 2)
                        && old(self).residents()[ksq[j]].modified ==> self.dirty_list().contains(
                        ksq[j],
                    ) && self.store().contains_key(ksq[j]) && self.store()[ksq[j]]
                        == crate::chunk::encode_blocks(old(self).residents()[ksq[j]].blocks),
                old(self).dirty_list().len() <= self.dirty_list().len(),
                forall|jd: int|
                    0 <= jd < old(self).dirty_list().len() ==> #[trigger] self.dirty_list()[jd]
                        == old(self).dirty_list()[jd],
                forall|jd: int|
                    old(self).dirty_list().len() <= jd < self.dirty_list().len() ==> ({
                        let c = #[trigger] self.dirty_list()[jd];
                        &&& old(self).residents().contains_key(c)
                        &&& !in_window(c, old(self).obs(), old(self).vd() + 2)
                        &&& old(self).residents()[c].modified
                    }),
                forall|k2: (int, int, int)|
                    !(#[trigger] old(self).residents().contains_key(k2) && !in_window(
                        k2,
                        old(self).obs(),
                        old(self).vd() + 2,
                    ) && old(self).residents()[k2].modified) ==> ((self.store().contains_key(k2)
                        <==> #[trigger] old(self).store().contains_key(k2)) && (old(
                        self,
                    ).store().contains_key(k2) ==> self.store()[k2] == old(self).store()[k2])),
            decreases n - i,
        {
            let k = ks[i];
            proof {
                assert((ks@[i as int])@ == ksq[i as int]);
                assert(self.residents().contains_key(k@));
            }
            let ghost pre = *self;
            if !Self::keep_chunk(self.pos, self.view_distance + 2, &k) {
                match self.chunks.remove(k) {
                    Some(c) => {
                        proof {
                            assert(c@ == pre.residents()[k@]);
                            assert(pre.resident_ok(k@));
                            assert(blocks_wf(c@.blocks, 256)) by {
                                assert(blocks_wf(c@.blocks, pre.registry().len() as int));
                            }
                        }
                        if c.is_modified() {
                            let bytes = c.save();
                            self.saves.insert(k, bytes);
                            self.dirty.push(k);
                            proof {
                                crate::chunk::lemma_save_load_roundtrip(c@.blocks);
                            }
                        }
                    },
                    None => {
                        proof {
                            assert(false);
                        }
                    },
                }
                proof {
                    let cur = *self;
                    assert(old(self).residents().contains_key(k@));
                    assert(old(self).residents()[k@] == pre.residents()[k@]);
                    assert(!in_window(k@, old(self).obs(), old(self).vd() + 2));
                    if pre.residents()[k@].modified {
                        assert(cur.dirty_list() == pre.dirty_list().push(k@));
                        assert(cur.dirty_list()[pre.dirty_list().len() as int] == k@);
                        assert(cur.dirty_list().contains(k@));
                        assert(cur.store()[k@] == crate::chunk::encode_blocks(
                            pre.residents()[k@].blocks,
                        ));
                    }
                    assert forall|j: int|
                        0 <= j < i && !in_window(
                            #[trigger] ksq[j],
                            old(self).obs(),
                            old(self).vd() + 2,
                        ) && old(self).residents()[ksq[j]].modified implies cur.dirty_list().contains(
                        ksq[j],
                    ) && cur.store().contains_key(ksq[j]) && cur.store()[ksq[j]]
                        == crate::chunk::encode_blocks(old(self).residents()[ksq[j]].blocks) by {
                        assert(pre.dirty_list().contains(ksq[j]));
                        let jj = choose|jj: int|
                            0 <= jj < pre.dirty_list().len() && #[trigger] pre.dirty_list()[jj]
                                == ksq[j];
                        assert(cur.dirty_list()[jj] == ksq[j]);
                        assert(ksq[j] != k@);
                    }
                    assert(cur.inv()) by {
                        assert forall|c2: (int, int, int)|
                            #[trigger] cur.residents().contains_key(c2) implies cur.resident_ok(
                            c2,
                        ) by {
                            assert(pre.resident_ok(c2));
                            assert(c2 != k@);
                        }
                        assert forall|c2: (int, int, int)|
                            #[trigger] cur.store().contains_key(c2) implies stored_wf(
                            cur.store()[c2],
                            cur.registry().len() as int,
                        ) by {
                            if c2 != k@ || !pre.residents()[k@].modified {
                                assert(pre.store().contains_key(c2));
                            }
                        }
                        assert forall|j: int|
                            0 <= j < cur.queue().len() implies in_mesh_bounds(
                            #[trigger] cur.queue()[j],
                        ) by {
                            assert(in_mesh_bounds(pre.queue()[j]));
                        }
                        assert forall|j: int|
                            0 <= j < cur.dirty_list().len() implies cur.store().contains_key(
                            #[trigger] cur.dirty_list()[j],
                        ) by {
                            if j < pre.dirty_list().len() {
                                assert(pre.store().contains_key(pre.dirty_list()[j]));
                            }
                        }
                    }
                    assert forall|q: (int, int, int)| #[trigger] cur.world_at(q) == pre.world_at(
                        q,
                    ) by {
                        crate::pos::lemma_local_in_range(q.0);
                        crate::pos::lemma_local_in_range(q.1);
                        crate::pos::lemma_local_in_range(q.2);
                        crate::chunk::lemma_cell_index_roundtrip(local_of(q));
                        if chunk_of(q) == k@ {
                            assert(pre.world_at(q) == pre.residents()[k@].blocks[cell_index(
                                local_of(q),
                            )]);
                            if pre.residents()[k@].modified {
                                assert(cur.store()[k@] == crate::chunk::encode_blocks(
                                    pre.residents()[k@].blocks,
                                ));
                            } else {
                                assert(pre.residents()[k@].blocks == stored_or_gen(
                                    pre.store(),
                                    pre.registry(),
                                    k@,
                                ));
                            }
                        }
                    }
                }
            }
            proof {
                assert forall|k2: (int, int, int)|
                    !(#[trigger] old(self).residents().contains_key(k2) && !in_window(
                        k2,
                        old(self).obs(),
                        old(self).vd() + 2,
                    ) && old(self).residents()[k2].modified) implies ((self.store().contains_key(
                    k2,
                ) <==> #[trigger] old(self).store().contains_key(k2)) && (old(
                    self,
                ).store().contains_key(k2) ==> self.store()[k2] == old(self).store()[k2])) by {
                    assert(!(old(self).residents().contains_key(k2) && !in_window(
                        k2,
                        old(self).obs(),
                        old(self).vd() + 2,
                    ) && old(self).residents()[k2].modified) ==> ((pre.store().contains_key(k2)
                        <==> old(self).store().contains_key(k2)) && (old(
                        self,
                    ).store().contains_key(k2) ==> pre.store()[k2] == old(self).store()[k2])));
                    if !in_window(k@, old(self).obs(), old(self).vd() + 2) && k2 == k@ {
                        assert(old(self).residents().contains_key(k@));
                        assert(old(self).residents()[k@] == pre.residents()[k@]);
                        assert(!pre.residents()[k@].modified);
                    }
                }
                assert(forall|k2: (int, int, int)|
                    !(#[trigger] old(self).residents().contains_key(k2) && !in_window(
                        k2,
                        old(self).obs(),
                        old(self).vd() + 2,
                    ) && old(self).residents()[k2].modified) ==> ((self.store().contains_key(k2)
                        <==> #[trigger] old(self).store().contains_key(k2)) && (old(
                        self,
                    ).store().contains_key(k2) ==> self.store()[k2] == old(self).store()[k2])));
            }
            i = i + 1;
        }
        proof {
            assert forall|c: (int, int, int)| #[trigger]
                self.residents().contains_key(c) implies in_window(
                c,
                old(self).obs(),
                old(self).vd() + 2,
            ) by {
                assert(old(self).residents().contains_key(c));
                let j = choose|j: int| 0 <= j < ksq.len() && #[trigger] ksq[j] == c;
                assert(in_window(ksq[j], old(self).obs(), old(self).vd() + 2)
                    <==> self.residents().contains_key(ksq[j]));
            }
            assert forall|c: (int, int, int)| #[trigger]
                old(self).residents().contains_key(c) && in_window(
                    c,
                    old(self).obs(),
                    old(self).vd() + 2,
                ) implies self.residents().contains_key(c) by {
                let j = choose|j: int| 0 <= j < ksq.len() && #[trigger] ksq[j] == c;
                assert(in_window(ksq[j], old(self).obs(), old(self).vd() + 2)
                    <==> self.residents().contains_key(ksq[j]));
            }
            assert forall|k: (int, int, int)| #[trigger]
                self.store().contains_key(k) implies old(self).store().contains_key(k) || (old(
                self,
            ).residents().contains_key(k) && !in_window(k, old(self).obs(), old(self).vd() + 2)
                && old(self).residents()[k].modified) by {
                assert(!(old(self).residents().contains_key(k) && !in_window(
                    k,
                    old(self).obs(),
                    old(self).vd() + 2,
                ) && old(self).residents()[k].modified) ==> ((self.store().contains_key(k)
                    <==> old(self).store().contains_key(k)) && (old(
                    self,
                ).store().contains_key(k) ==> self.store()[k] == old(self).store()[k])));
            }
            assert forall|k: (int, int, int)| #[trigger]
                old(self).store().contains_key(k) implies self.store().contains_key(k) by {
                assert(!(old(self).residents().contains_key(k) && !in_window(
                    k,
                    old(self).obs(),
                    old(self).vd() + 2,
                ) && old(self).residents()[k].modified) ==> ((self.store().contains_key(k)
                    <==> old(self).store().contains_key(k)) && (old(
                    self,
                ).store().contains_key(k) ==> self.store()[k] == old(self).store()[k])));
                if old(self).residents().contains_key(k) && !in_window(
                    k,
                    old(self).obs(),
                    old(self).vd() + 2,
                ) && old(self).residents()[k].modified {
                    assert(self.dirty_list().contains(k) && self.store().contains_key(k));
                }
            }
            assert forall|k: (int, int, int)| #[trigger]
                old(self).store().contains_key(k) && !(old(self).residents().contains_key(k)
                    && !in_window(k, old(self).obs(), old(self).vd() + 2) && old(
                    self,
                ).residents()[k].modified) implies self.store()[k] == old(self).store()[k] by {
                assert(!(old(self).residents().contains_key(k) && !in_window(
                    k,
                    old(self).obs(),
                    old(self).vd() + 2,
                ) && old(self).residents()[k].modified) ==> ((self.store().contains_key(k)
                    <==> old(self).store().contains_key(k)) && (old(
                    self,
                ).store().contains_key(k) ==> self.store()[k] == old(self).store()[k])));
            }
        }
    }

    /// Enqueues every coordinate of the view cube around the observer that
    /// is neither resident with geometry nor already queued.
    #[verifier::rlimit(100)]
    #[verifier::spinoff_prover]
    fn fill_view(&mut self)
        requires
            old(self).inv(),
            -0x400_0000 <= old(self).obs().0 <= 0x400_0000,
            -0x400_0000 <= old(self).obs().1 <= 0x400_0000,
            -0x400_0000 <= old(self).obs().2 <= 0x400_0000,
        ensures
            final(self).inv(),
            same_world(*old(self), *final(self)),
            final(self).registry() == old(self).registry(),
            final(self).store() == old(self).store(),
            final(self).residents() == old(self).residents(),
            final(self).obs() == old(self).obs(),
            final(self).vd() == old(self).vd(),
            final(self).tex_id() == old(self).tex_id(),
            final(self).dirty_list() == old(self).dirty_list(),
            forall|c: (int, int, int)|
                #[trigger] in_window(c, old(self).obs(), old(self).vd())
                    ==> (final(self).residents().contains_key(c)
                    && final(self).residents()[c].mesh is Some) || final(self).queue().contains(c),
    {
        let x0: i32 = self.pos.x - self.view_distance;
        let x1: i32 = self.pos.x + self.view_distance;
        let y0: i32 = self.pos.y - self.view_distance;
        let y1: i32 = self.pos.y + self.view_distance;
        let z0: i32 = self.pos.z - self.view_distance;
        let z1: i32 = self.pos.z + self.view_distance;
        let ghost o: (int, int, int) = self.obs();
        let ghost m: int = self.vd();
        let mut i: i32 = x0;
        while i <= x1
            invariant
                self.inv(),
                o == self.obs(),
                m == self.vd(),
                -0x400_0000 <= o.0 <= 0x400_0000,
                -0x400_0000 <= o.1 <= 0x400_0000,
                -0x400_0000 <= o.2 <= 0x400_0000,
                x0 as int == o.0 - m,
                x1 as int == o.0 + m,
                y0 as int == o.1 - m,
                y1 as int == o.1 + m,
                z0 as int == o.2 - m,
                z1 as int == o.2 + m,
                x0 <= i <= x1 + 1,
                -0x400_0041 <= i <= 0x400_0041,
                same_world(*old(self), *self),
                self.registry() == old(self).registry(),
                self.store() == old(self).store(),
                self.residents() == old(self).residents(),
                self.obs() == old(self).obs(),
                self.vd() == old(self).vd(),
                self.tex_id() == old(self).tex_id(),
                self.dirty_list() == old(self).dirty_list(),
                forall|j: int| 0 <= j < old(self).queue().len() ==> self.queue().contains(
                    #[trigger] old(self).queue()[j],
                ),
                forall|c: (int, int, int)|
                    #[trigger] in_window(c, o, m) && c.0 < i ==> (self.residents().contains_key(c)
                        && self.residents()[c].mesh is Some) || self.queue().contains(c),
            decreases x1 + 1 - i,
        {
            let mut j: i32 = y0;
            while j <= y1
                invariant
                    self.inv(),
                    o == self.obs(),
                    m == self.vd(),
                    -0x400_0000 <= o.0 <= 0x400_0000,
                    -0x400_0000 <= o.1 <= 0x400_0000,
                    -0x400_0000 <= o.2 <= 0x400_0000,
                    x0 as int == o.0 - m,
                    x1 as int == o.0 + m,
                    y0 as int == o.1 - m,
                    y1 as int == o.1 + m,
                    z0 as int == o.2 - m,
                    z1 as int == o.2 + m,
                    x0 <= i <= x1,
                    y0 <= j <= y1 + 1,
                    -0x400_0041 <= j <= 0x400_0041,
                    same_world(*old(self), *self),
                    self.registry() == old(self).registry(),
                    self.store() == old(self).store(),
                    self.residents() == old(self).residents(),
                    self.obs() == old(self).obs(),
                    self.vd() == old(self).vd(),
                    self.tex_id() == old(self).tex_id(),
                    self.dirty_list() == old(self).dirty_list(),
                    forall|jq: int| 0 <= jq < old(self).queue().len() ==> self.queue().contains(
                        #[trigger] old(self).queue()[jq],
                    ),
                    forall|c: (int, int, int)|
                        #[trigger] in_window(c, o, m) && c.0 < i ==> (
                        self.residents().contains_key(c) && self.residents()[c].mesh is Some)
                            || self.queue().contains(c),
                    forall|c: (int, int, int)|
                        #[trigger] in_window(c, o, m) && c.0 == i && c.1 < j ==> (
                        self.residents().contains_key(c) && self.residents()[c].mesh is Some)
                            || self.queue().contains(c),
                decreases y1 + 1 - j,
            {
                let mut kz: i32 = z0;
                while kz <= z1
                    invariant
                        self.inv(),
                        o == self.obs(),
                        m == self.vd(),
                        -0x400_0000 <= o.0 <= 0x400_0000,
                        -0x400_0000 <= o.1 <= 0x400_0000,
                        -0x400_0000 <= o.2 <= 0x400_0000,
                        x0 as int == o.0 - m,
                        x1 as int == o.0 + m,
                        y0 as int == o.1 - m,
                        y1 as int == o.1 + m,
                        z0 as int == o.2 - m,
                        z1 as int == o.2 + m,
                        x0 <= i <= x1,
                        y0 <= j <= y1,
                        z0 <= kz <= z1 + 1,
                        -0x400_0041 <= kz <= 0x400_0041,
                        same_world(*old(self), *self),
                        self.registry() == old(self).registry(),
                        self.store() == old(self).store(),
                        self.residents() == old(self).residents(),
                        self.obs() == old(self).obs(),
                        self.vd() == old(self).vd(),
                        self.tex_id() == old(self).tex_id(),
                        self.dirty_list() == old(self).dirty_list(),
                        forall|jq: int|
                            0 <= jq < old(self).queue().len() ==> self.queue().contains(
                                #[trigger] old(self).queue()[jq],
                            ),
                        forall|c: (int, int, int)|
                            #[trigger] in_window(c, o, m) && c.0 < i ==> (
                            self.residents().contains_key(c) && self.residents()[c].mesh is Some)
                                || self.queue().contains(c),
                        forall|c: (int, int, int)|
                            #[trigger] in_window(c, o, m) && c.0 == i && c.1 < j ==> (
                            self.residents().contains_key(c) && self.residents()[c].mesh is Some)
                                || self.queue().contains(c),
                        forall|c: (int, int, int)|
                            #[trigger] in_window(c, o, m) && c.0 == i && c.1 == j && c.2 < kz ==> (
                            self.residents().contains_key(c) && self.residents()[c].mesh is Some)
                                || self.queue().contains(c),
                    decreases z1 + 1 - kz,
                {
                    let cpos = BlockPos::new(i, j, kz);
                    let needs: bool = match self.chunks.get(cpos) {
                        Some(c) => c.model.is_none(),
                        None => true,
                    };
                    if needs && !self.is_queued(cpos) {
                        let ghost preq = *self;
                        self.request_generation(cpos);
                        proof {
                            assert forall|jq: int|
                                0 <= jq < old(self).queue().len() implies self.queue().contains(
                                #[trigger] old(self).queue()[jq],
                            ) by {
                                assert(preq.queue().contains(old(self).queue()[jq]));
                                let jj = choose|jj: int|
                                    0 <= jj < preq.queue().len() && #[trigger] preq.queue()[jj]
                                        == old(self).queue()[jq];
                                assert(self.queue()[jj] == old(self).queue()[jq]);
                            }
                            assert forall|c: (int, int, int)| #[trigger]
                                preq.queue().contains(c) implies self.queue().contains(c) by {
                                let jj = choose|jj: int|
                                    0 <= jj < preq.queue().len() && #[trigger] preq.queue()[jj]
                                        == c;
                                assert(self.queue()[jj] == c);
                            }
                            assert(self.queue()[preq.queue().len() as int] == cpos@);
                            assert(self.queue().contains(cpos@));
                        }
                    }
                    proof {
                        assert forall|c: (int, int, int)|
                            #[trigger] in_window(c, o, m) && c.0 == i && c.1 == j && c.2 < kz
                                + 1 implies (self.residents().contains_key(c)
                            && self.residents()[c].mesh is Some) || self.queue().contains(c) by {
                            if c.2 == kz as int {
                                assert(c == cpos@);
                            }
                        }
                    }
                    kz = kz + 1;
                }
                j = j + 1;
            }
            i = i + 1;
        }
    }

    /// One frame's draw list: the atlas texture first, then one draw
    /// command for every resident chunk with built geometry, each exactly
    /// once, at its current revision. Chunks still waiting for their mesh
    /// are skipped; nothing blocks.
    pub fn render(&self) -> (cmds: Vec<DrawCmd>)
        requires
            self.inv(),
        ensures
            cmds@.len() >= 1,
            cmds@[0] == DrawCmd::BindTexture(self.tex_id() as u32),
            forall|i: int|
                1 <= i < cmds@.len() ==> {
                    let p = cmd_chunk_pos(#[trigger] cmds@[i]);
                    &&& p is Some
                    &&& self.residents().contains_key(p->Some_0)
                    &&& self.residents()[p->Some_0].mesh is Some
                    &&& cmd_revision(cmds@[i]) == self.residents()[p->Some_0].revision
                },
            forall|c: (int, int, int)| #[trigger]
                self.residents().contains_key(c) && self.residents()[c].mesh is Some ==> exists|
                    i: int,
                |
                    1 <= i < cmds@.len() && cmd_chunk_pos(#[trigger] cmds@[i]) == Some(c),
            forall|i: int, j: int|
                1 <= i < j < cmds@.len() ==> cmd_chunk_pos(#[trigger] cmds@[i]) != cmd_chunk_pos(
                    #[trigger] cmds@[j],
                ),
    {
        let mut cmds: Vec<DrawCmd> = Vec::new();
        self.texture.bind(&mut cmds);
        let ks = self.chunks.keys();
        let ghost ksq = self.chunks.key_seq();
        proof {
            self.chunks.lemma_dom();
        }
        let n: usize = ks.len();
        let mut i: usize = 0;
        while i < n
            invariant
                self.inv(),
                n == ks@.len(),
                n == ksq.len(),
                forall|j: int| 0 <= j < n ==> (#[trigger] ks@[j])@ == ksq[j],
                forall|a: int, b: int| 0 <= a < b < n ==> ksq[a] != ksq[b],
                forall|c: (int, int, int)|
                    #[trigger] self.residents().contains_key(c) ==> ksq.contains(c),
                forall|j: int| 0 <= j < n ==> self.residents().contains_key(#[trigger] ksq[j]),
                i <= n,
                cmds@.len() >= 1,
                cmds@[0] == DrawCmd::BindTexture(self.tex_id() as u32),
                forall|idx: int|
                    1 <= idx < cmds@.len() ==> {
                        let p = cmd_chunk_pos(#[trigger] cmds@[idx]);
                        &&& p is Some
                        &&& self.residents().contains_key(p->Some_0)
                        &&& self.residents()[p->Some_0].mesh is Some
                        &&& cmd_revision(cmds@[idx]) == self.residents()[p->Some_0].revision
                    },
                forall|idx: int|
                    1 <= idx < cmds@.len() ==> exists|j: int|
                        0 <= j < i && cmd_chunk_pos(#[trigger] cmds@[idx]) == Some(ksq[j]),
                forall|j: int|
                    0 <= j < i && self.residents()[#[trigger] ksq[j]].mesh is Some ==> exists|
                        idx: int,
                    |
                        1 <= idx < cmds@.len() && cmd_chunk_pos(#[trigger] cmds@[idx]) == Some(
                            ksq[j],
                        ),
                forall|a: int, b: int|
                    1 <= a < b < cmds@.len() ==> cmd_chunk_pos(#[trigger] cmds@[a])
                        != cmd_chunk_pos(#[trigger] cmds@[b]),
            decreases n - i,
        {
            let k = ks[i];
            proof {
                assert((ks@[i as int])@ == ksq[i as int]);
                assert(self.residents().contains_key(k@));
            }
            let ghost pre = cmds@;
            match self.chunks.get(k) {
                Some(c) => {
                    proof {
                        assert(c@ == self.residents()[k@]);
                        assert(self.resident_ok(k@));
                        assert(c@.pos == k@);
                    }
                    c.render(&mut cmds);
                    proof {
                        if c@.mesh is Some {
                            assert(cmds@ == pre.push(
                                DrawCmd::Chunk { pos: c.pos, revision: c.revision },
                            ));
                            assert(cmd_chunk_pos(cmds@[cmds@.len() - 1]) == Some(ksq[i as int]));
                            assert forall|j: int|
                                0 <= j < i + 1 && self.residents()[#[trigger] ksq[j]].mesh
                                is Some implies exists|idx: int|
                                1 <= idx < cmds@.len() && cmd_chunk_pos(#[trigger] cmds@[idx])
                                    == Some(ksq[j]) by {
                                if j < i {
                                    let idx = choose|idx: int|
                                        1 <= idx < pre.len() && cmd_chunk_pos(#[trigger] pre[idx])
                                            == Some(ksq[j]);
                                    assert(cmds@[idx] == pre[idx]);
                                } else {
                                    assert(cmd_chunk_pos(cmds@[cmds@.len() - 1]) == Some(ksq[j]));
                                }
                            }
                        } else {
                            assert(cmds@ == pre);
                        }
                    }
                },
                None => {
                    proof {
                        assert(false);
                    }
                },
            }
            i = i + 1;
        }
        proof {
            assert forall|c: (int, int, int)| #[trigger]
                self.residents().contains_key(c) && self.residents()[c].mesh is Some implies exists|
                i: int,
            |
                1 <= i < cmds@.len() && cmd_chunk_pos(#[trigger] cmds@[i]) == Some(c) by {
                assert(ksq.contains(c));
                let j = choose|j: int| 0 <= j < ksq.len() && #[trigger] ksq[j] == c;
                assert(self.residents()[ksq[j]].mesh is Some);
            }
        }
        cmds
    }

    /// Whether the chunk at coordinate `pos` is resident.
    pub fn is_resident(&self, pos: BlockPos) -> (r: bool)
        requires
            self.inv(),
        ensures
            r == self.residents().contains_key(pos@),
    {
        self.chunks.get(pos).is_some()
    }

    /// The built geometry of the resident chunk at `pos`, if both exist.
    pub fn chunk_model(&self, pos: BlockPos) -> (r: Option<&Model>)
        requires
            self.inv(),
        ensures
            match r {
                Some(m) => self.residents().contains_key(pos@) && self.residents()[pos@].mesh
                    == Some(m.data@),
                None => !self.residents().contains_key(pos@) || self.residents()[pos@].mesh
                    is None,
            },
    {
        match self.chunks.get(pos) {
            Some(c) => {
                match &c.model {
                    Some(m) => Some(m),
                    None => None,
                }
            },
            None => None,
        }
    }

    /// The mesh revision counter of the resident chunk at `pos`.
    pub fn chunk_revision(&self, pos: BlockPos) -> (r: Option<u64>)
        requires
            self.inv(),
        ensures
            match r {
                Some(v) => self.residents().contains_key(pos@) && v as int
                    == self.residents()[pos@].revision,
                None => !self.residents().contains_key(pos@),
            },
    {
        match self.chunks.get(pos) {
            Some(c) => Some(c.revision),
            None => None,
        }
    }
}

/// The grid a chunk at `c` holds or would hold: the resident chunk's
/// blocks, else its save image or generated terrain.
pub open spec fn effective_blocks(s: ChunkServer, c: (int, int, int)) -> Seq<int> {
    if s.residents().contains_key(c) {
        s.residents()[c].blocks
    } else {
        stored_or_gen(s.store(), s.registry(), c)
    }
}

/// The revision counter of the chunk at `c`, or 0 if not resident.
pub open spec fn effective_rev(s: ChunkServer, c: (int, int, int)) -> int {
    if s.residents().contains_key(c) {
        s.residents()[c].revision
    } else {
        0
    }
}

/// The modified flag of the chunk at `c`, or false if not resident.
pub open spec fn effective_mod(s: ChunkServer, c: (int, int, int)) -> bool {
    if s.residents().contains_key(c) {
        s.residents()[c].modified
    } else {
        false
    }
}

/// Registry, save store, queue, observer, view distance, texture and dirty
/// list all unchanged between `pre` and `post`.
pub open spec fn same_settings(pre: ChunkServer, post: ChunkServer) -> bool {
    &&& post.registry() == pre.registry()
    &&& post.store() == pre.store()
    &&& post.queue() == pre.queue()
    &&& post.obs() == pre.obs()
    &&& post.vd() == pre.vd()
    &&& post.tex_id() == pre.tex_id()
    &&& post.dirty_list() == pre.dirty_list()
}

/// Every position of the world shows the same block in `post` as in `pre`.
pub open spec fn same_world(pre: ChunkServer, post: ChunkServer) -> bool {
    forall|q: (int, int, int)| #[trigger] post.world_at(q) == pre.world_at(q)
}

/// Whether chunk `c` lies in the symmetric cubic window of half-width `m`
/// around `o`: `o - m <= c <= o + m` per axis.
pub open spec fn in_window(c: (int, int, int), o: (int, int, int), m: int) -> bool {
    &&& o.0 - m <= c.0 <= o.0 + m
    &&& o.1 - m <= c.1 <= o.1 + m
    &&& o.2 - m <= c.2 <= o.2 + m
}

/// Residents outside `ks` are untouched, and residents that appeared
/// outside `ks` are fresh from the store or the generator.
pub open spec fn touches_only(pre: ChunkServer, post: ChunkServer, ks: Set<(int, int, int)>) -> bool {
    &&& forall|k: (int, int, int)|
        #[trigger] pre.residents().contains_key(k) && !ks.contains(k) ==> post.residents().contains_key(
            k,
        ) && post.residents()[k] == pre.residents()[k]
    &&& forall|k: (int, int, int)|
        #[trigger] post.residents().contains_key(k) && !pre.residents().contains_key(k)
            && !ks.contains(k) ==> fresh_chunk(pre, k, post.residents()[k])
}

/// The chunk at `k` has just been rebuilt: resident, its grid exactly what
/// it held (or would have loaded or generated) before, its geometry the
/// mesh of that grid against the current world, its revision moved on.
pub open spec fn rebuilt_at(pre: ChunkServer, post: ChunkServer, k: (int, int, int)) -> bool {
    &&& rebuilt_core(pre, post, k)
    &&& post.residents()[k].mesh == Some(
        chunk_mesh(
            post.registry(),
            post.residents()[k].blocks,
            post.residents(),
            post.store(),
            k,
        ),
    )
}

/// Whether `k` is the chunk across the boundary face that the cell at
/// world position `p` touches: the neighbour that an edit at `p` also
/// re-meshes.
pub open spec fn edit_neighbor(p: (int, int, int), k: (int, int, int)) -> bool {
    let c = chunk_of(p);
    let l = local_of(p);
    ||| (l.0 == 0 && k == (c.0 - 1, c.1, c.2))
    ||| (l.0 == 15 && k == (c.0 + 1, c.1, c.2))
    ||| (l.1 == 0 && k == (c.0, c.1 - 1, c.2))
    ||| (l.1 == 15 && k == (c.0, c.1 + 1, c.2))
    ||| (l.2 == 0 && k == (c.0, c.1, c.2 - 1))
    ||| (l.2 == 15 && k == (c.0, c.1, c.2 + 1))
}

/// The chunks an edit at `p` rebuilds: the owner and the boundary
/// neighbours the cell touches.
pub open spec fn edit_chunks(p: (int, int, int)) -> Set<(int, int, int)> {
    Set::new(|k: (int, int, int)| k == chunk_of(p) || edit_neighbor(p, k))
}

/// The chunk coordinate of an editable world axis value leaves room for a
/// neighbour on either side within mesh bounds.
pub proof fn lemma_edit_axis_bounds(v: int)
    requires
        -(crate::pos::EDIT_LIMIT as int) <= v <= crate::pos::EDIT_LIMIT as int,
    ensures
        -0x400_0000 <= crate::pos::chunk_axis(v) <= 0x400_0000,
{
    lemma_fundamental_div_mod(v, 16);
}

/// Chunk `k` is resident with value `v`, whose geometry is the mesh of its
/// grid against the current world.
pub open spec fn placed(cur: ChunkServer, k: (int, int, int), v: ChunkView) -> bool {
    &&& cur.residents().contains_key(k)
    &&& cur.residents()[k] == v
    &&& v.mesh == Some(chunk_mesh(cur.registry(), v.blocks, cur.residents(), cur.store(), k))
}

/// A placed chunk stays placed across a step that shows the same world,
/// keeps the registry, and does not touch it.
pub proof fn lemma_placed_step(
    a: ChunkServer,
    b: ChunkServer,
    k: (int, int, int),
    v: ChunkView,
    ks: Set<(int, int, int)>,
)
    requires
        placed(a, k, v),
        same_world(a, b),
        b.registry() == a.registry(),
        touches_only(a, b, ks),
        !ks.contains(k),
    ensures
        placed(b, k, v),
{
    assert(b.residents().contains_key(k) && b.residents()[k] == v);
    assert forall|q: (int, int, int)|
        chunk_of(q) != k implies #[trigger] world_block(
        a.registry(),
        a.residents(),
        a.store(),
        q,
    ) == world_block(a.registry(), b.residents(), b.store(), q) by {
        assert(b.world_at(q) == a.world_at(q));
    }
    lemma_chunk_mesh_frame(
        a.registry(),
        v.blocks,
        a.residents(),
        a.store(),
        b.residents(),
        b.store(),
        k,
    );
}

/// The value-level part of a rebuild: chunk `k` is resident, its grid and
/// modified flag are what the chunk held (or would have loaded or
/// generated) in `pre`, and its revision has moved on once.
pub open spec fn rebuilt_core(pre: ChunkServer, post: ChunkServer, k: (int, int, int)) -> bool {
    &&& post.residents().contains_key(k)
    &&& post.residents()[k].pos == k
    &&& post.residents()[k].blocks == effective_blocks(pre, k)
    &&& post.residents()[k].modified == effective_mod(pre, k)
    &&& post.residents()[k].revision == next_rev(effective_rev(pre, k))
}

/// The chunk coordinate a draw command names, if it draws a chunk.
pub open spec fn cmd_chunk_pos(c: DrawCmd) -> Option<(int, int, int)> {
    match c {
        DrawCmd::Chunk { pos, revision } => Some(pos@),
        _ => None,
    }
}

/// The mesh revision a chunk draw command carries.
pub open spec fn cmd_revision(c: DrawCmd) -> int {
    match c {
        DrawCmd::Chunk { pos, revision } => revision as int,
        _ => 0,
    }
}

/// The mesh revision counter after one rebuild.
pub open spec fn next_rev(r: int) -> int {
    if r < u64::MAX {
        r + 1
    } else {
        0
    }
}

/// `lookup_or_zero` always yields a valid id of a non-empty registry.
pub proof fn lemma_lookup_or_zero_range(reg: Seq<BlockView>, name: Seq<char>)
    requires
        reg.len() >= 1,
    ensures
        0 <= crate::chunk::lookup_or_zero(reg, name) < reg.len(),
{
    if crate::registry::contains_name(reg, name) {
        let i = choose|i: int| 0 <= i < reg.len() && (#[trigger] reg[i]).name == name;
        assert(0 <= i < reg.len());
    }
}

/// The chunk coordinate of an in-bounds world axis value is in chunk
/// bounds.
pub proof fn lemma_chunk_axis_in_bounds(v: int)
    requires
        -(crate::pos::WORLD_LIMIT as int) <= v <= crate::pos::WORLD_LIMIT as int,
    ensures
        -(crate::pos::CHUNK_LIMIT as int) <= crate::pos::chunk_axis(v) <= crate::pos::CHUNK_LIMIT
            as int,
{
    lemma_fundamental_div_mod(v, 16);
}

fn copy_bytes(v: &Vec<u8>) -> (r: Vec<u8>)
    ensures
        r@ == v@,
{
    let n: usize = v.len();
    let mut out: Vec<u8> = Vec::new();
    let mut i: usize = 0;
    while i < n
        invariant
            n == v@.len(),
            i <= n,
            out@.len() == i,
            forall|j: int| 0 <= j < i ==> #[trigger] out@[j] == v@[j],
        decreases n - i,
    {
        out.push(v[i]);
        i = i + 1;
    }
    proof {
        assert(out@ =~= v@);
    }
    out
}

} // verus!
