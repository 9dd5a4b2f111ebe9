use voxel_core::registry::{
    BlockManager, BlockModel, BlockType, ConfigError, RawBlockDef, RawCollider, RawFaceTextures,
    RawTexRect,
};

fn rect(l: i32, t: i32, r: i32, b: i32) -> RawTexRect {
    RawTexRect { left: Some(l), top: Some(t), right: Some(r), bottom: Some(b) }
}

fn air_def() -> RawBlockDef {
    RawBlockDef {
        name: Some("air".to_string()),
        solid: Some(false),
        model: None,
        texture: None,
        textures: None,
        collider: Vec::new(),
    }
}

fn block_def(name: &str) -> RawBlockDef {
    RawBlockDef {
        name: Some(name.to_string()),
        solid: Some(true),
        model: Some("block".to_string()),
        texture: Some(rect(16, 0, 32, 16)),
        textures: None,
        collider: vec![RawCollider {
            x: Some(0),
            y: Some(0),
            z: Some(0),
            w: Some(1000),
            h: Some(1000),
            d: Some(1000),
        }],
    }
}

#[test]
fn load_assigns_ids_in_order() {
    let defs = vec![air_def(), block_def("stone")];
    let mgr = BlockManager::load(&defs).unwrap();
    assert_eq!(mgr.block_count(), 2);
    assert_eq!(mgr.lookup_by_name(&"air".to_string()), Ok(0));
    assert_eq!(mgr.lookup_by_name(&"stone".to_string()), Ok(1));
    let stone = mgr.describe(1);
    assert_eq!(stone.name, "stone");
    assert!(stone.solid);
    match stone.model {
        BlockModel::Cube { texture } => {
            assert_eq!(texture.left, 16);
            assert_eq!(texture.top, 0);
            assert_eq!(texture.right, 32);
            assert_eq!(texture.bottom, 16);
        },
        _ => panic!("expected a cube"),
    }
    assert_eq!(stone.collider.len(), 1);
    assert_eq!(stone.collider[0].w, 1000);
}

#[test]
fn lookup_miss_is_unknown_block() {
    let mgr = BlockManager::load(&vec![air_def()]).unwrap();
    assert!(mgr.lookup_by_name(&"lava".to_string()).is_err());
}

#[test]
fn missing_name_is_rejected() {
    let mut d = air_def();
    d.name = None;
    assert_eq!(BlockManager::load(&vec![d]).err(), Some(ConfigError::MissingName));
}

#[test]
fn missing_solid_is_rejected() {
    let mut d = air_def();
    d.solid = None;
    assert_eq!(BlockManager::load(&vec![d]).err(), Some(ConfigError::MissingSolid));
}

#[test]
fn incomplete_texture_is_rejected() {
    let mut d = block_def("stone");
    d.texture = Some(RawTexRect { left: Some(0), top: None, right: Some(16), bottom: Some(16) });
    assert_eq!(BlockManager::load(&vec![d]).err(), Some(ConfigError::BadTexture));
}

#[test]
fn negative_texture_is_rejected() {
    let mut d = block_def("stone");
    d.texture = Some(rect(-1, 0, 16, 16));
    assert_eq!(BlockManager::load(&vec![d]).err(), Some(ConfigError::BadTexture));
}

#[test]
fn missing_texture_for_cube_is_rejected() {
    let mut d = block_def("stone");
    d.texture = None;
    assert_eq!(BlockManager::load(&vec![d]).err(), Some(ConfigError::BadTexture));
}

#[test]
fn incomplete_collider_is_rejected() {
    let mut d = block_def("stone");
    d.collider = vec![RawCollider {
        x: Some(0),
        y: Some(0),
        z: Some(0),
        w: Some(1000),
        h: None,
        d: Some(1000),
    }];
    assert_eq!(BlockManager::load(&vec![d]).err(), Some(ConfigError::BadCollider));
}

#[test]
fn duplicate_name_is_rejected() {
    let defs = vec![air_def(), air_def()];
    assert_eq!(BlockManager::load(&defs).err(), Some(ConfigError::DuplicateName));
}

#[test]
fn first_error_wins() {
    let mut bad = block_def("stone");
    bad.solid = None;
    let mut worse = block_def("grass");
    worse.name = None;
    let defs = vec![bad, worse];
    assert_eq!(BlockManager::load(&defs).err(), Some(ConfigError::MissingSolid));
}

#[test]
fn unknown_shape_name_is_invisible() {
    let mut d = air_def();
    d.model = Some("prism".to_string());
    let mgr = BlockManager::load(&vec![d]).unwrap();
    assert!(matches!(mgr.describe(0).model, BlockModel::Invisible));
}

#[test]
fn sided_and_slab_shapes_parse() {
    let mut grass = block_def("grass");
    grass.model = Some("sided".to_string());
    grass.texture = None;
    grass.textures = Some(RawFaceTextures {
        side: Some(rect(0, 0, 16, 16)),
        top: Some(rect(16, 0, 32, 16)),
        bottom: Some(rect(32, 0, 48, 16)),
    });
    let mut slab = block_def("slab");
    slab.model = Some("slab".to_string());
    slab.texture = None;
    slab.textures = Some(RawFaceTextures {
        side: Some(rect(0, 16, 16, 32)),
        top: Some(rect(16, 16, 32, 32)),
        bottom: Some(rect(32, 16, 48, 32)),
    });
    let mgr = BlockManager::load(&vec![grass, slab]).unwrap();
    match mgr.describe(0).model {
        BlockModel::Sided { side, top, bottom } => {
            assert_eq!(side.right, 16);
            assert_eq!(top.left, 16);
            assert_eq!(bottom.left, 32);
        },
        _ => panic!("expected a sided cube"),
    }
    assert!(matches!(mgr.describe(1).model, BlockModel::Slab { .. }));
}

#[test]
fn sided_without_textures_is_rejected() {
    let mut d = block_def("grass");
    d.model = Some("sided".to_string());
    d.texture = None;
    d.textures = None;
    assert_eq!(BlockManager::load(&vec![d]).err(), Some(ConfigError::BadTexture));
}

#[test]
fn add_block_returns_the_new_id() {
    let mut mgr = BlockManager::new();
    let a = mgr.add_block(BlockType {
        name: "air".to_string(),
        solid: false,
        model: BlockModel::Invisible,
        collider: Vec::new(),
    });
    let b = mgr.add_block(BlockType {
        name: "stone".to_string(),
        solid: true,
        model: BlockModel::Invisible,
        collider: Vec::new(),
    });
    assert_eq!(a, 0);
    assert_eq!(b, 1);
    assert_eq!(mgr.lookup_by_name(&"stone".to_string()), Ok(1));
}
