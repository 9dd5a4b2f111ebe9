use voxel_core::builtin::{Air, Block, Grass, Stone};
use voxel_core::meshdata::MeshData;
use voxel_core::meshgen::{append_cube, append_slab, TexRect};
use voxel_core::pos::{BlockPos, BlockSides};

fn no_sides() -> BlockSides {
    BlockSides { top: false, bottom: false, left: false, right: false, front: false, back: false }
}

fn all_sides() -> BlockSides {
    BlockSides { top: true, bottom: true, left: true, right: true, front: true, back: true }
}

#[test]
fn no_face_without_exposure() {
    let mut data = MeshData::new();
    append_cube(
        &mut data,
        BlockPos::new(0, 0, 0),
        no_sides(),
        TexRect { left: 0, top: 0, right: 16, bottom: 16 },
    );
    assert!(data.vertices.is_empty());
    assert!(data.indices.is_empty());
    assert!(data.texcoords.is_empty());
    assert!(data.normals.is_empty());
}

#[test]
fn single_top_face_geometry() {
    let mut data = MeshData::new();
    let mut sides = no_sides();
    sides.top = true;
    append_cube(
        &mut data,
        BlockPos::new(0, 0, 0),
        sides,
        TexRect { left: 0, top: 0, right: 16, bottom: 16 },
    );
    // four corners of the y = 1 plane, in half-block units
    assert_eq!(data.vertices, vec![(0, 2, 0), (2, 2, 0), (0, 2, 2), (2, 2, 2)]);
    // the fixed winding: (0,1,2) then (1,2,3)
    assert_eq!(data.indices, vec![(0, 1, 2), (1, 2, 3)]);
    // upright texture orientation for the top face
    assert_eq!(data.texcoords, vec![(0, 0), (0, 16), (16, 0), (16, 16)]);
    // four copies of the outward unit normal
    assert_eq!(data.normals, vec![(0, 1, 0); 4]);
}

#[test]
fn front_face_has_unit_z_normal() {
    let mut data = MeshData::new();
    let mut sides = no_sides();
    sides.front = true;
    append_cube(
        &mut data,
        BlockPos::new(0, 0, 0),
        sides,
        TexRect { left: 0, top: 0, right: 16, bottom: 16 },
    );
    assert_eq!(data.vertices, vec![(0, 0, 2), (2, 0, 2), (0, 2, 2), (2, 2, 2)]);
    assert_eq!(data.normals, vec![(0, 0, 1); 4]);
    assert_eq!(data.texcoords, vec![(16, 16), (0, 16), (16, 0), (0, 0)]);
}

#[test]
fn full_cube_emits_six_faces() {
    let mut data = MeshData::new();
    append_cube(
        &mut data,
        BlockPos::new(3, -2, 5),
        all_sides(),
        TexRect { left: 0, top: 0, right: 16, bottom: 16 },
    );
    assert_eq!(data.vertices.len(), 24);
    assert_eq!(data.indices.len(), 12);
    assert_eq!(data.texcoords.len(), 24);
    assert_eq!(data.normals.len(), 24);
    // positions are offset by the cell's world position, in half-blocks
    assert_eq!(data.vertices[0], (6, -4, 10));
}

#[test]
fn slab_top_sits_at_half_height() {
    let mut data = MeshData::new();
    let mut sides = no_sides();
    sides.top = true;
    append_slab(
        &mut data,
        BlockPos::new(0, 0, 0),
        sides,
        TexRect { left: 0, top: 0, right: 16, bottom: 16 },
        TexRect { left: 16, top: 0, right: 32, bottom: 16 },
        TexRect { left: 32, top: 0, right: 48, bottom: 16 },
    );
    // one half-block up instead of two
    assert_eq!(data.vertices, vec![(0, 1, 0), (2, 1, 0), (0, 1, 2), (2, 1, 2)]);
    // the top face samples the top rectangle
    assert_eq!(data.texcoords, vec![(16, 0), (16, 16), (32, 0), (32, 16)]);
}

#[test]
fn append_shifts_indices() {
    let mut a = MeshData::new();
    let mut sides = no_sides();
    sides.top = true;
    append_cube(&mut a, BlockPos::new(0, 0, 0), sides, TexRect {
        left: 0,
        top: 0,
        right: 16,
        bottom: 16,
    });
    let mut b = MeshData::new();
    append_cube(&mut b, BlockPos::new(1, 0, 0), sides, TexRect {
        left: 0,
        top: 0,
        right: 16,
        bottom: 16,
    });
    a.append(b);
    assert_eq!(a.vertices.len(), 8);
    assert_eq!(a.indices, vec![(0, 1, 2), (1, 2, 3), (4, 5, 6), (5, 6, 7)]);
}

#[test]
fn translate_moves_only_vertices() {
    let mut data = MeshData::new();
    let mut sides = no_sides();
    sides.top = true;
    append_cube(&mut data, BlockPos::new(0, 0, 0), sides, TexRect {
        left: 0,
        top: 0,
        right: 16,
        bottom: 16,
    });
    let uvs = data.texcoords.clone();
    data.translate((2, -4, 6));
    assert_eq!(data.vertices, vec![(2, -2, 6), (4, -2, 6), (2, -2, 8), (4, -2, 8)]);
    assert_eq!(data.texcoords, uvs);
}

#[test]
fn unit_cube_has_full_geometry() {
    let data = MeshData::cube();
    assert_eq!(data.vertices.len(), 24);
    assert_eq!(data.indices.len(), 12);
    assert_eq!(data.texcoords.len(), 24);
    assert_eq!(data.normals.len(), 24);
    assert_eq!(data.vertices[0], (0, 0, 0));
    assert_eq!(data.indices[11], (21, 22, 23));
}

#[test]
fn builtin_blocks_report_fullness() {
    assert!(!Air.is_full());
    assert!(Stone.is_full());
    assert!(Grass.is_full());
}

#[test]
fn builtin_air_draws_nothing() {
    let mut data = MeshData::new();
    Air.gen_mesh(&mut data, BlockPos::new(0, 0, 0), all_sides());
    assert!(data.vertices.is_empty());
}

#[test]
fn builtin_stone_uses_its_atlas_slot() {
    let mut data = MeshData::new();
    Stone.gen_mesh(&mut data, BlockPos::new(0, 0, 0), all_sides());
    assert_eq!(data.vertices.len(), 24);
    // the back face comes first and samples the stone rectangle
    assert_eq!(data.texcoords[0], (16, 16));
    assert_eq!(data.texcoords[3], (32, 0));
    let mut grass = MeshData::new();
    Grass.gen_mesh(&mut grass, BlockPos::new(0, 0, 0), all_sides());
    assert_eq!(grass.texcoords[0], (32, 16));
}
