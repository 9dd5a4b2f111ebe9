use voxel_core::chunk::Chunk;
use voxel_core::gpu::{DrawCmd, Texture};
use voxel_core::meshgen::TexRect;
use voxel_core::pos::BlockPos;
use voxel_core::registry::{BlockManager, BlockModel, BlockType};
use voxel_core::server::ChunkServer;

fn plain(name: &str, solid: bool, model: BlockModel) -> BlockType {
    BlockType { name: name.to_string(), solid, model, collider: Vec::new() }
}

fn cube(l: u32, t: u32) -> BlockModel {
    BlockModel::Cube { texture: TexRect { left: l, top: t, right: l + 16, bottom: t + 16 } }
}

/// air:0, grass:1, dirt:2, stone:3 — the names terrain generation uses.
fn terrain_registry() -> BlockManager {
    let mut mgr = BlockManager::new();
    mgr.add_block(plain("air", false, BlockModel::Invisible));
    mgr.add_block(plain("grass", true, cube(32, 0)));
    mgr.add_block(plain("dirt", true, cube(48, 0)));
    mgr.add_block(plain("stone", true, cube(16, 0)));
    mgr
}

/// air:0 and one plain solid block, and nothing else: terrain generation
/// falls back to the empty block for the missing names, so generated
/// chunks are all air.
fn flat_registry() -> BlockManager {
    let mut mgr = BlockManager::new();
    mgr.add_block(plain("air", false, BlockModel::Invisible));
    mgr.add_block(plain("solid", true, cube(0, 0)));
    mgr
}

fn server(mgr: BlockManager) -> ChunkServer {
    ChunkServer::new(Texture { id: 7 }, mgr)
}

#[test]
fn terrain_bands_follow_the_height_formula() {
    let mut srv = server(terrain_registry());
    // at column (3, 5) the height formula gives -9
    assert_eq!(srv.get_block(BlockPos::new(3, 0, 5)), Some(0)); // air above
    assert_eq!(srv.get_block(BlockPos::new(3, -9, 5)), Some(1)); // grass at the surface
    assert_eq!(srv.get_block(BlockPos::new(3, -10, 5)), Some(2)); // dirt just below
    assert_eq!(srv.get_block(BlockPos::new(3, -13, 5)), Some(2)); // dirt band is four deep
    assert_eq!(srv.get_block(BlockPos::new(3, -14, 5)), Some(3)); // stone below that
    assert_eq!(srv.get_block(BlockPos::new(3, -50, 5)), Some(3));
}

#[test]
fn generation_is_deterministic() {
    let mut a = server(terrain_registry());
    let mut b = server(terrain_registry());
    for y in -20..5 {
        assert_eq!(
            a.get_block(BlockPos::new(100, y, -37)),
            b.get_block(BlockPos::new(100, y, -37))
        );
    }
}

#[test]
fn save_then_load_round_trips() {
    // generate a chunk, scribble on it, and push its image through the codec
    let mut written = Chunk::new(
        BlockPos::new(0, 0, 0),
        &terrain_registry(),
        &voxel_core::server::SaveStore::new(),
    );
    written.set_block(BlockPos::new(3, 4, 5), 3);
    written.set_block(BlockPos::new(0, 0, 0), 1);
    let bytes = written.save();
    assert_eq!(bytes.len(), 4096);
    let mut reloaded = Chunk::new(
        BlockPos::new(0, 0, 0),
        &terrain_registry(),
        &voxel_core::server::SaveStore::new(),
    );
    reloaded.load(&bytes).unwrap();
    for x in 0..16 {
        for y in 0..16 {
            for z in 0..16 {
                let p = BlockPos::new(x, y, z);
                assert_eq!(reloaded.get_block(p), written.get_block(p));
            }
        }
    }
}

#[test]
fn short_save_image_is_corrupt() {
    let mut c = Chunk::new(
        BlockPos::new(0, 0, 0),
        &terrain_registry(),
        &voxel_core::server::SaveStore::new(),
    );
    assert!(c.load(&vec![0u8; 4095]).is_err());
    assert!(c.load(&vec![0u8; 4096]).is_ok());
}

#[test]
fn set_block_is_visible_to_get_block() {
    let mut srv = server(terrain_registry());
    let p = BlockPos::new(5, 40, 5);
    assert_eq!(srv.get_block(p), Some(0));
    srv.set_block(p, 3).unwrap();
    assert_eq!(srv.get_block(p), Some(3));
    // and the cell next to it is untouched
    assert_eq!(srv.get_block(BlockPos::new(5, 41, 5)), Some(0));
}

#[test]
fn set_block_twice_gives_the_same_mesh() {
    let mut srv = server(terrain_registry());
    let p = BlockPos::new(5, 40, 5);
    srv.set_block(p, 3).unwrap();
    let chunk_pos = BlockPos::new(0, 2, 0);
    let first = srv.chunk_model(chunk_pos).unwrap().data.vertices.clone();
    let first_uvs = srv.chunk_model(chunk_pos).unwrap().data.texcoords.clone();
    srv.set_block(p, 3).unwrap();
    let second = &srv.chunk_model(chunk_pos).unwrap().data;
    assert_eq!(second.vertices, first);
    assert_eq!(second.texcoords, first_uvs);
}

#[test]
fn lone_solid_cell_gets_six_faces() {
    let mut srv = server(terrain_registry());
    let p = BlockPos::new(5, 40, 5);
    srv.set_block(p, 3).unwrap();
    let model = srv.chunk_model(BlockPos::new(0, 2, 0)).unwrap();
    // the only solid cell of the chunk, all six faces exposed
    assert_eq!(model.data.vertices.len(), 24);
    assert_eq!(model.data.indices.len(), 12);
}

#[test]
fn boundary_face_against_air_neighbour() {
    // registry of just air and one solid block; all generated terrain is air
    let mut srv = server(flat_registry());
    // a fully solid chunk below y = 0, installed as its save image
    assert!(srv.install_save(BlockPos::new(0, -1, 0), vec![1u8; 4096]).is_ok());
    // rewrite one interior cell with its own value: content is unchanged
    // but the chunk becomes resident and gets its geometry built
    srv.set_block(BlockPos::new(5, -11, 5), 1).unwrap();
    let model = srv.chunk_model(BlockPos::new(0, -1, 0)).unwrap();
    // the cell at world (5, -1, 5) sits on the chunk's top boundary; the
    // neighbour above is air, so exactly one top face is emitted for it,
    // and no bottom face, since the cell below is solid
    let mut top_faces = 0;
    let mut bottom_faces = 0;
    let quads = model.data.vertices.len() / 4;
    for q in 0..quads {
        let v = model.data.vertices[4 * q];
        let n = model.data.normals[4 * q];
        if n == (0, 1, 0) && v == (10, 0, 10) {
            top_faces += 1;
        }
        if n == (0, -1, 0) && v == (10, -2, 10) {
            bottom_faces += 1;
        }
    }
    assert_eq!(top_faces, 1);
    assert_eq!(bottom_faces, 0);
}

#[test]
fn boundary_edit_rebuilds_the_neighbour() {
    let mut srv = server(flat_registry());
    // make chunk (1,0,0) resident, without geometry
    srv.get_block(BlockPos::new(20, 5, 5));
    assert_eq!(srv.chunk_revision(BlockPos::new(1, 0, 0)), Some(0));
    // edit at local x = 0 of chunk (2,0,0): the face towards (1,0,0)
    srv.set_block(BlockPos::new(32, 5, 5), 1).unwrap();
    // the neighbour across x = 32 was rebuilt: its revision moved on
    assert_eq!(srv.chunk_revision(BlockPos::new(1, 0, 0)), Some(1));
    assert_eq!(srv.chunk_revision(BlockPos::new(2, 0, 0)), Some(1));
    // the chunk on the far side was not
    assert_eq!(srv.chunk_revision(BlockPos::new(3, 0, 0)), Some(0));
}

#[test]
fn interior_edit_rebuilds_no_neighbour() {
    let mut srv = server(flat_registry());
    // make the two x-neighbours resident, without geometry
    srv.get_block(BlockPos::new(20, 5, 5));
    srv.get_block(BlockPos::new(52, 5, 5));
    // edit at local (8, 5, 5) of chunk (2,0,0): no boundary is touched
    srv.set_block(BlockPos::new(40, 5, 5), 1).unwrap();
    assert_eq!(srv.chunk_revision(BlockPos::new(2, 0, 0)), Some(1));
    // neither neighbour was rebuilt
    assert_eq!(srv.chunk_revision(BlockPos::new(1, 0, 0)), Some(0));
    assert_eq!(srv.chunk_revision(BlockPos::new(3, 0, 0)), Some(0));
}

#[test]
fn rim_chunk_survives_a_step_away_and_back() {
    let mgr = terrain_registry();
    let mut srv = ChunkServer::with_view_distance(Texture { id: 7 }, mgr, 2);
    // a marked cell in the chunk at the rim of the view
    let wp = BlockPos::new(-29, 4, 5);
    srv.set_block(wp, 3).unwrap();
    assert!(srv.is_resident(BlockPos::new(-2, 0, 0)));
    srv.update(BlockPos::new(0, 0, 0));
    // one step away and back: within the hysteresis margin
    srv.update(BlockPos::new(16, 0, 0));
    assert!(srv.is_resident(BlockPos::new(-2, 0, 0)));
    srv.update(BlockPos::new(0, 0, 0));
    assert!(srv.is_resident(BlockPos::new(-2, 0, 0)));
    // the edit is still there: no eviction, no regeneration
    assert_eq!(srv.get_block(wp), Some(3));
}

#[test]
fn evicted_chunk_reloads_from_its_save() {
    let mgr = terrain_registry();
    let mut srv = ChunkServer::with_view_distance(Texture { id: 7 }, mgr, 2);
    let wp = BlockPos::new(-29, 4, 5);
    srv.set_block(wp, 3).unwrap();
    srv.update(BlockPos::new(0, 0, 0));
    // walk far away: the modified chunk leaves the retention window and is
    // flushed to the save store
    srv.update(BlockPos::new(320, 0, 0));
    assert!(!srv.is_resident(BlockPos::new(-2, 0, 0)));
    let saved = srv.take_dirty_saves();
    assert!(saved.iter().any(|(p, bytes)| {
        *p == BlockPos::new(-2, 0, 0) && bytes.len() == 4096
    }));
    // re-requesting the coordinate yields the saved content, not fresh
    // terrain
    assert_eq!(srv.get_block(wp), Some(3));
}

#[test]
fn unmodified_chunk_regenerates_after_eviction() {
    let mgr = terrain_registry();
    let mut srv = ChunkServer::with_view_distance(Texture { id: 7 }, mgr, 2);
    let wp = BlockPos::new(3, -9, 5);
    assert_eq!(srv.get_block(wp), Some(1));
    srv.update(BlockPos::new(0, 0, 0));
    srv.update(BlockPos::new(320, 0, 0));
    assert!(!srv.is_resident(BlockPos::new(0, -1, 0)));
    // nothing was modified, so nothing was flushed; the content comes back
    // from the deterministic generator
    assert_eq!(srv.get_block(wp), Some(1));
}

#[test]
fn install_save_validates_the_image() {
    let mut srv = server(flat_registry());
    assert!(srv.install_save(BlockPos::new(0, 0, 0), vec![1u8; 4096]).is_ok());
    assert!(srv.install_save(BlockPos::new(0, 1, 0), vec![1u8; 4095]).is_err());
    // a byte that is no id of this registry marks the image corrupt
    assert!(srv.install_save(BlockPos::new(0, 2, 0), vec![9u8; 4096]).is_err());
    // the installed save is what block reads see
    assert_eq!(srv.get_block(BlockPos::new(0, 0, 0)), Some(1));
}

#[test]
fn render_lists_each_meshed_chunk_once() {
    let mut srv = server(flat_registry());
    srv.set_block(BlockPos::new(5, 5, 5), 1).unwrap();
    srv.set_block(BlockPos::new(40, 5, 5), 1).unwrap();
    let cmds = srv.render();
    assert_eq!(cmds[0], DrawCmd::BindTexture(7));
    let mut drawn: Vec<BlockPos> = Vec::new();
    for cmd in cmds.iter().skip(1) {
        match cmd {
            DrawCmd::Chunk { pos, revision: _ } => {
                assert!(!drawn.contains(pos));
                drawn.push(*pos);
            },
            _ => panic!("only chunk draws after the texture bind"),
        }
    }
    assert!(drawn.contains(&BlockPos::new(0, 0, 0)));
    assert!(drawn.contains(&BlockPos::new(2, 0, 0)));
}

#[test]
fn sided_and_slab_blocks_mesh_through_the_cache() {
    let mut mgr = BlockManager::new();
    mgr.add_block(plain("air", false, BlockModel::Invisible));
    let r = |l: u32| TexRect { left: l, top: 0, right: l + 16, bottom: 16 };
    mgr.add_block(plain(
        "turf",
        true,
        BlockModel::Sided { side: r(0), top: r(16), bottom: r(32) },
    ));
    mgr.add_block(plain(
        "step",
        true,
        BlockModel::Slab { side: r(48), top: r(64), bottom: r(80) },
    ));
    let mut srv = server(mgr);
    srv.set_block(BlockPos::new(5, 40, 5), 1).unwrap();
    let sided = srv.chunk_model(BlockPos::new(0, 2, 0)).unwrap();
    assert_eq!(sided.data.vertices.len(), 24);
    // the top face of the sided cube samples its top rectangle
    assert_eq!(sided.data.texcoords[16], (16, 0));
    srv.set_block(BlockPos::new(5, 40, 5), 2).unwrap();
    let slab = srv.chunk_model(BlockPos::new(0, 2, 0)).unwrap();
    // the slab's top face sits half a block up: y = 40.5 in half-units
    assert_eq!(slab.data.vertices[16], (10, 81, 10));
    assert_eq!(slab.data.texcoords[16], (64, 0));
}

#[test]
fn render_carries_current_revisions() {
    let mut srv = server(flat_registry());
    srv.set_block(BlockPos::new(5, 5, 5), 1).unwrap();
    srv.set_block(BlockPos::new(5, 6, 5), 1).unwrap();
    let cmds = srv.render();
    for cmd in cmds.iter().skip(1) {
        if let DrawCmd::Chunk { pos, revision } = cmd {
            assert_eq!(srv.chunk_revision(*pos), Some(*revision));
        }
    }
    // the twice-edited chunk is at revision two
    assert_eq!(srv.chunk_revision(BlockPos::new(0, 0, 0)), Some(2));
}

#[test]
fn update_meshes_chunks_in_view() {
    let mgr = terrain_registry();
    let mut srv = ChunkServer::with_view_distance(Texture { id: 7 }, mgr, 1);
    srv.update(BlockPos::new(0, 0, 0));
    // drain the whole queue: 27 coordinates, 16 builds per call
    srv.update(BlockPos::new(0, 0, 0));
    srv.update(BlockPos::new(0, 0, 0));
    let cmds = srv.render();
    // every coordinate of the symmetric 3x3x3 view cube is drawn,
    // the positive faces included
    assert_eq!(cmds.len(), 1 + 27);
    assert!(srv.chunk_model(BlockPos::new(1, 1, 1)).is_some());
    assert!(srv.chunk_model(BlockPos::new(-1, -1, -1)).is_some());
}
