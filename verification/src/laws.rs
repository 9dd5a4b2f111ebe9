use crate::chunk::{cell_pos, stored_or_gen};
use crate::pos::{add_delta, cell_index, chunk_of, local_in_range, side_delta, BlockSide};
use crate::registry::BlockView;
use crate::server::{
    chunk_mesh, in_window, lemma_axis_split, lemma_chunk_mesh_frame, lemma_step_chunk, nbr_id,
    world_block, ChunkServer,
};
use vstd::prelude::*;

verus! {

/// Writing the same id at the same cell twice is idempotent in its visible
/// effect: the grid after the second write equals the grid after the first,
/// the world shows the same block everywhere, and the rebuilt mesh is the
/// same mesh. The hypotheses are exactly what two identical `set_block`
/// calls ensure for the owning chunk.
pub proof fn lemma_set_block_idempotent(
    s1: ChunkServer,
    s2: ChunkServer,
    p: (int, int, int),
    id: int,
)
    requires
        s2.registry() == s1.registry(),
        // the second write hits a world already showing `id` at `p`
        s1.world_at(p) == id,
        forall|q: (int, int, int)| #[trigger]
            s2.world_at(q) == (if q == p {
                id
            } else {
                s1.world_at(q)
            }),
        // both states hold the owner resident, the second write's grid is
        // the first one's with the same cell set again, and each mesh is
        // the mesh of its grid against its world
        s1.residents().contains_key(chunk_of(p)),
        s2.residents().contains_key(chunk_of(p)),
        s2.residents()[chunk_of(p)].blocks == s1.residents()[chunk_of(p)].blocks.update(
            cell_index(crate::pos::local_of(p)),
            id,
        ),
        s1.residents()[chunk_of(p)].blocks.len() == 4096,
        s1.residents()[chunk_of(p)].blocks[cell_index(crate::pos::local_of(p))] == id,
        s1.residents()[chunk_of(p)].mesh == Some(
            chunk_mesh(
                s1.registry(),
                s1.residents()[chunk_of(p)].blocks,
                s1.residents(),
                s1.store(),
                chunk_of(p),
            ),
        ),
        s2.residents()[chunk_of(p)].mesh == Some(
            chunk_mesh(
                s2.registry(),
                s2.residents()[chunk_of(p)].blocks,
                s2.residents(),
                s2.store(),
                chunk_of(p),
            ),
        ),
    ensures
        s2.residents()[chunk_of(p)].blocks == s1.residents()[chunk_of(p)].blocks,
        s2.residents()[chunk_of(p)].mesh == s1.residents()[chunk_of(p)].mesh,
{
    let c = chunk_of(p);
    crate::pos::lemma_local_in_range(p.0);
    crate::pos::lemma_local_in_range(p.1);
    crate::pos::lemma_local_in_range(p.2);
    crate::chunk::lemma_cell_index_roundtrip(crate::pos::local_of(p));
    assert(s2.residents()[c].blocks =~= s1.residents()[c].blocks);
    assert forall|q: (int, int, int)|
        chunk_of(q) != c implies #[trigger] world_block(
        s1.registry(),
        s1.residents(),
        s1.store(),
        q,
    ) == world_block(s1.registry(), s2.residents(), s2.store(), q) by {
        assert(s2.world_at(q) == s1.world_at(q));
    }
    lemma_chunk_mesh_frame(
        s1.registry(),
        s1.residents()[c].blocks,
        s1.residents(),
        s1.store(),
        s2.residents(),
        s2.store(),
        c,
    );
}

/// Boundary consistency: when a chunk builds its mesh, the neighbour it
/// consults for a boundary face — its own grid for in-chunk cells, the
/// cache's lookup for out-of-chunk ones — is exactly the block of the one
/// seamless world volume at that position. Face exposure across a chunk
/// boundary therefore equals the exposure a single larger volume holding
/// both chunks would give.
pub proof fn lemma_boundary_consistency(
    reg: Seq<BlockView>,
    res: Map<(int, int, int), crate::chunk::ChunkView>,
    store: Map<(int, int, int), Seq<u8>>,
    c: (int, int, int),
    l: (int, int, int),
    s: BlockSide,
)
    requires
        local_in_range(l),
        res.contains_key(c),
        res[c].blocks.len() == 4096,
    ensures
        nbr_id(reg, res[c].blocks, res, store, c, l, side_delta(s)) == world_block(
            reg,
            res,
            store,
            add_delta(cell_pos(c, l), side_delta(s)),
        ),
{
    let d = side_delta(s);
    let l2 = add_delta(l, d);
    let q = add_delta(cell_pos(c, l), d);
    if local_in_range(l2) {
        lemma_axis_split(c.0, l2.0);
        lemma_axis_split(c.1, l2.1);
        lemma_axis_split(c.2, l2.2);
        assert(chunk_of(q) == c);
        assert(crate::pos::local_of(q) == l2);
        crate::chunk::lemma_cell_index_roundtrip(l2);
    } else {
        lemma_step_chunk(c, l, s);
    }
}

/// Eviction with hysteresis: a resident chunk at the rim of the view stays
/// resident, with its content untouched, when the observer steps away and
/// back within the retention margin — retention reaches two chunks past
/// the view radius, so no eviction, regeneration or data loss happens. The
/// hypotheses are exactly the retention clause `update` ensures for two
/// consecutive calls.
pub proof fn lemma_eviction_hysteresis(
    s0: ChunkServer,
    s1: ChunkServer,
    s2: ChunkServer,
    cam1: (int, int, int),
    cam2: (int, int, int),
    c: (int, int, int),
)
    requires
        s0.residents().contains_key(c),
        s1.vd() == s0.vd(),
        s1.obs() == chunk_of(cam1),
        forall|k: (int, int, int)| #[trigger]
            s0.residents().contains_key(k) && (chunk_of(cam1) == s0.obs() || in_window(
                k,
                chunk_of(cam1),
                s0.vd() + 2,
            )) ==> s1.residents().contains_key(k) && s1.residents()[k].blocks
                == s0.residents()[k].blocks,
        forall|k: (int, int, int)| #[trigger]
            s1.residents().contains_key(k) && (chunk_of(cam2) == s1.obs() || in_window(
                k,
                chunk_of(cam2),
                s1.vd() + 2,
            )) ==> s2.residents().contains_key(k) && s2.residents()[k].blocks
                == s1.residents()[k].blocks,
        in_window(c, chunk_of(cam1), s0.vd() + 2),
        in_window(c, chunk_of(cam2), s0.vd() + 2),
    ensures
        s2.residents().contains_key(c),
        s2.residents()[c].blocks == s0.residents()[c].blocks,
{
}

/// Evict then re-request: after an eviction pass — which never changes
/// what the world shows — a coordinate that is no longer resident reloads
/// to exactly the content the world held before: its saved image if one
/// was flushed, else the deterministic generation of its coordinate. The
/// hypothesis is the world-preservation clause `update` ensures.
pub proof fn lemma_evict_then_reload(s0: ChunkServer, s1: ChunkServer, c: (int, int, int))
    requires
        forall|q: (int, int, int)| #[trigger] s1.world_at(q) == s0.world_at(q),
        !s1.residents().contains_key(c),
    ensures
        forall|l: (int, int, int)|
            local_in_range(l) ==> #[trigger] stored_or_gen(s1.store(), s1.registry(), c)[cell_index(
                l,
            )] == s0.world_at(cell_pos(c, l)),
{
    assert forall|l: (int, int, int)| local_in_range(l) implies #[trigger] stored_or_gen(
        s1.store(),
        s1.registry(),
        c,
    )[cell_index(l)] == s0.world_at(cell_pos(c, l)) by {
        lemma_axis_split(c.0, l.0);
        lemma_axis_split(c.1, l.1);
        lemma_axis_split(c.2, l.2);
        assert(chunk_of(cell_pos(c, l)) == c);
        assert(crate::pos::local_of(cell_pos(c, l)) == l);
        assert(s1.world_at(cell_pos(c, l)) == stored_or_gen(s1.store(), s1.registry(), c)[cell_index(
            l,
        )]);
    }
}

} // verus!
