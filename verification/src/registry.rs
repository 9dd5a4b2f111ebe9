use crate::meshgen::TexRect;
use vstd::prelude::*;

verus! {

/// Identifier of a block type: the position of its definition in the ordered
/// definition list the registry was loaded from. Id 0 is the non-solid empty
/// block by convention. Ids stay below 256 so a block fits one byte in a
/// chunk save image.
pub type BlockID = i32;

/// An axis-aligned collision box in unit-cube-local coordinates: offset
/// `(x, y, z)` and extents `(w, h, d)`, all in thousandths of a block.
#[derive(Clone, Copy, PartialEq, Eq, Structural, Debug)]
pub struct BlockCollider {
    pub x: i32,
    pub y: i32,
    pub z: i32,
    pub w: i32,
    pub h: i32,
    pub d: i32,
}

/// How a block turns into geometry: one of a small closed set of shapes,
/// each carrying its texture rectangles.
#[derive(Clone, Copy, PartialEq, Eq, Structural, Debug)]
pub enum BlockModel {
    /// Draws nothing (the empty block, or an unrecognised shape name).
    Invisible,
    /// A full cube, one rectangle for all six faces.
    Cube { texture: TexRect },
    /// A full cube with distinct side, top and bottom rectangles.
    Sided { side: TexRect, top: TexRect, bottom: TexRect },
    /// A half-height slab with distinct side, top and bottom rectangles.
    Slab { side: TexRect, top: TexRect, bottom: TexRect },
}

/// One block type: immutable after registry construction.
pub struct BlockType {
    pub name: String,
    pub solid: bool,
    pub model: BlockModel,
    pub collider: Vec<BlockCollider>,
}

/// The mathematical content of a `BlockType`.
#[verifier::ext_equal]
pub ghost struct BlockView {
    pub name: Seq<char>,
    pub solid: bool,
    pub model: BlockModel,
    pub collider: Seq<BlockCollider>,
}

impl View for BlockType {
    type V = BlockView;

    open spec fn view(&self) -> BlockView {
        BlockView {
            name: self.name@,
            solid: self.solid,
            model: self.model,
            collider: self.collider@,
        }
    }
}

/// Why a definition list was rejected.
#[derive(Clone, Copy, PartialEq, Eq, Structural, Debug)]
pub enum ConfigError {
    /// A definition has no name.
    MissingName,
    /// A definition has no solidity flag.
    MissingSolid,
    /// A texture rectangle required by the shape is absent, incomplete, or
    /// has a negative coordinate.
    BadTexture,
    /// A collider box is missing one of its six fields.
    BadCollider,
    /// Two definitions share a name.
    DuplicateName,
    /// More definitions than ids that fit a one-byte save cell.
    TooManyBlocks,
}

/// A name lookup miss.
#[derive(Clone, Copy, PartialEq, Eq, Structural, Debug)]
pub struct UnknownBlock;

/// A texture rectangle as it came out of the definition document, fields
/// possibly absent.
#[derive(Clone, Copy, PartialEq, Eq, Structural, Debug)]
pub struct RawTexRect {
    pub left: Option<i32>,
    pub top: Option<i32>,
    pub right: Option<i32>,
    pub bottom: Option<i32>,
}

/// The per-face texture rectangles of a sided shape, fields possibly absent.
#[derive(Clone, Copy, PartialEq, Eq, Structural, Debug)]
pub struct RawFaceTextures {
    pub side: Option<RawTexRect>,
    pub top: Option<RawTexRect>,
    pub bottom: Option<RawTexRect>,
}

/// A collider box as it came out of the definition document, in thousandths
/// of a block, fields possibly absent.
#[derive(Clone, Copy, PartialEq, Eq, Structural, Debug)]
pub struct RawCollider {
    pub x: Option<i32>,
    pub y: Option<i32>,
    pub z: Option<i32>,
    pub w: Option<i32>,
    pub h: Option<i32>,
    pub d: Option<i32>,
}

/// One block definition as read from the definition document, before
/// validation. The host parses the document into this plain shape.
pub struct RawBlockDef {
    pub name: Option<String>,
    pub solid: Option<bool>,
    pub model: Option<String>,
    pub texture: Option<RawTexRect>,
    pub textures: Option<RawFaceTextures>,
    pub collider: Vec<RawCollider>,
}

/// The mathematical content of a `RawBlockDef`.
#[verifier::ext_equal]
pub ghost struct RawDefView {
    pub name: Option<Seq<char>>,
    pub solid: Option<bool>,
    pub model: Option<Seq<char>>,
    pub texture: Option<RawTexRect>,
    pub textures: Option<RawFaceTextures>,
    pub collider: Seq<RawCollider>,
}

impl View for RawBlockDef {
    type V = RawDefView;

    open spec fn view(&self) -> RawDefView {
        RawDefView {
            name: match self.name {
                Some(ref n) => Some(n@),
                None => None,
            },
            solid: self.solid,
            model: match self.model {
                Some(ref m) => Some(m@),
                None => None,
            },
            texture: self.texture,
            textures: self.textures,
            collider: self.collider@,
        }
    }
}

/// The checked form of a raw rectangle: present iff all four fields are
/// there and none is negative.
pub open spec fn spec_rect(t: RawTexRect) -> Option<TexRect> {
    match (t.left, t.top, t.right, t.bottom) {
        (Some(l), Some(tt), Some(r), Some(b)) => if l >= 0 && tt >= 0 && r >= 0 && b >= 0 {
            Some(TexRect { left: l as u32, top: tt as u32, right: r as u32, bottom: b as u32 })
        } else {
            None
        },
        _ => None,
    }
}

/// The three checked rectangles of a sided shape, present iff all three are.
pub open spec fn spec_face_rects(t: RawFaceTextures) -> Option<(TexRect, TexRect, TexRect)> {
    match (t.side, t.top, t.bottom) {
        (Some(s), Some(tp), Some(b)) => match (spec_rect(s), spec_rect(tp), spec_rect(b)) {
            (Some(rs), Some(rt), Some(rb)) => Some((rs, rt, rb)),
            _ => None,
        },
        _ => None,
    }
}

/// The checked form of a raw collider box: present iff all six fields are.
pub open spec fn spec_collider(c: RawCollider) -> Option<BlockCollider> {
    match (c.x, c.y, c.z, c.w, c.h, c.d) {
        (Some(x), Some(y), Some(z), Some(w), Some(h), Some(d)) => Some(
            BlockCollider { x, y, z, w, h, d },
        ),
        _ => None,
    }
}

/// Every collider box of the definition is complete.
pub open spec fn colliders_ok(s: Seq<RawCollider>) -> bool {
    forall|i: int| 0 <= i < s.len() ==> (#[trigger] spec_collider(s[i])) is Some
}

/// The checked collider boxes, assuming `colliders_ok`.
pub open spec fn collider_views(s: Seq<RawCollider>) -> Seq<BlockCollider> {
    Seq::new(
        s.len(),
        |i: int|
            match spec_collider(s[i]) {
                Some(c) => c,
                None => BlockCollider { x: 0, y: 0, z: 0, w: 0, h: 0, d: 0 },
            },
    )
}

/// The checked shape of a definition: which `BlockModel` it yields, or why
/// its textures are unusable. An absent or unrecognised shape name yields
/// `Invisible`, as the mesh of such a block simply draws nothing.
pub open spec fn spec_model(d: RawDefView) -> Result<BlockModel, ConfigError> {
    match d.model {
        None => Ok(BlockModel::Invisible),
        Some(m) => if m == "block"@ {
            match d.texture {
                None => Err(ConfigError::BadTexture),
                Some(t) => match spec_rect(t) {
                    Some(r) => Ok(BlockModel::Cube { texture: r }),
                    None => Err(ConfigError::BadTexture),
                },
            }
        } else if m == "sided"@ || m == "slab"@ {
            match d.textures {
                None => Err(ConfigError::BadTexture),
                Some(t) => match spec_face_rects(t) {
                    Some((rs, rt, rb)) => if m == "sided"@ {
                        Ok(BlockModel::Sided { side: rs, top: rt, bottom: rb })
                    } else {
                        Ok(BlockModel::Slab { side: rs, top: rt, bottom: rb })
                    },
                    None => Err(ConfigError::BadTexture),
                },
            }
        } else {
            Ok(BlockModel::Invisible)
        },
    }
}

/// The checked form of one whole definition: name, then solidity, then
/// shape and textures, then collider boxes.
pub open spec fn spec_from_raw(d: RawDefView) -> Result<BlockView, ConfigError> {
    match d.name {
        None => Err(ConfigError::MissingName),
        Some(name) => match d.solid {
            None => Err(ConfigError::MissingSolid),
            Some(solid) => match spec_model(d) {
                Err(e) => Err(e),
                Ok(model) => if colliders_ok(d.collider) {
                    Ok(
                        BlockView {
                            name,
                            solid,
                            model,
                            collider: collider_views(d.collider),
                        },
                    )
                } else {
                    Err(ConfigError::BadCollider)
                },
            },
        },
    }
}

/// `Ok` contents viewed mathematically; errors kept as they are.
pub open spec fn result_view(r: Result<BlockType, ConfigError>) -> Result<BlockView, ConfigError> {
    match r {
        Ok(t) => Ok(t@),
        Err(e) => Err(e),
    }
}

/// Checks a raw rectangle: all four fields present and non-negative.
fn checked_rect(t: &RawTexRect) -> (r: Option<TexRect>)
    ensures
        r == spec_rect(*t),
{
    match (t.left, t.top, t.right, t.bottom) {
        (Some(l), Some(tt), Some(rr), Some(b)) => {
            if l >= 0 && tt >= 0 && rr >= 0 && b >= 0 {
                Some(TexRect { left: l as u32, top: tt as u32, right: rr as u32, bottom: b as u32 })
            } else {
                None
            }
        },
        _ => None,
    }
}

impl BlockType {
    /// Builds one block type from a raw definition, rejecting incomplete
    /// ones: exactly the checks of `spec_from_raw`.
    pub fn from_raw(def: &RawBlockDef) -> (r: Result<BlockType, ConfigError>)
        ensures
            result_view(r) == spec_from_raw(def@),
    {
        let name: String = match &def.name {
            Some(n) => n.clone(),
            None => {
                return Err(ConfigError::MissingName);
            },
        };
        let solid: bool = match def.solid {
            Some(b) => b,
            None => {
                return Err(ConfigError::MissingSolid);
            },
        };
        let model: BlockModel = match &def.model {
            None => BlockModel::Invisible,
            Some(m) => {
                if *m == "block".to_owned() {
                    let t = match &def.texture {
                        Some(t) => t,
                        None => {
                            return Err(ConfigError::BadTexture);
                        },
                    };
                    match checked_rect(t) {
                        Some(r) => BlockModel::Cube { texture: r },
                        None => {
                            return Err(ConfigError::BadTexture);
                        },
                    }
                } else if *m == "sided".to_owned() || *m == "slab".to_owned() {
                    let t = match &def.textures {
                        Some(t) => t,
                        None => {
                            return Err(ConfigError::BadTexture);
                        },
                    };
                    let (rside, rtop, rbottom) = match (&t.side, &t.top, &t.bottom) {
                        (Some(s), Some(tp), Some(b)) => {
                            match (checked_rect(s), checked_rect(tp), checked_rect(b)) {
                                (Some(rs), Some(rt), Some(rb)) => (rs, rt, rb),
                                _ => {
                                    return Err(ConfigError::BadTexture);
                                },
                            }
                        },
                        _ => {
                            return Err(ConfigError::BadTexture);
                        },
                    };
                    if *m == "sided".to_owned() {
                        BlockModel::Sided { side: rside, top: rtop, bottom: rbottom }
                    } else {
                        BlockModel::Slab { side: rside, top: rtop, bottom: rbottom }
                    }
                } else {
                    BlockModel::Invisible
                }
            },
        };
        let mut collider: Vec<BlockCollider> = Vec::new();
        let n: usize = def.collider.len();
        let mut i: usize = 0;
        while i < n
            invariant
                n == def.collider@.len(),
                i <= n,
                def@.name == Some(name@),
                def@.solid == Some(solid),
                spec_model(def@) == Ok::<BlockModel, ConfigError>(model),
                forall|j: int| 0 <= j < i ==> (#[trigger] spec_collider(def.collider@[j])) is Some,
                collider@.len() == i,
                forall|j: int|
                    0 <= j < i ==> #[trigger] collider@[j] == collider_views(def.collider@)[j],
            decreases n - i,
        {
            let c: RawCollider = def.collider[i];
            match (c.x, c.y, c.z, c.w, c.h, c.d) {
                (Some(x), Some(y), Some(z), Some(w), Some(h), Some(d)) => {
                    collider.push(BlockCollider { x, y, z, w, h, d });
                },
                _ => {
                    proof {
                        assert(spec_collider(def.collider@[i as int]) is None);
                        assert(!colliders_ok(def.collider@));
                        assert(spec_model(def@) == Ok::<BlockModel, ConfigError>(model));
                    }
                    return Err(ConfigError::BadCollider);
                },
            }
            i = i + 1;
        }
        let t = BlockType { name, solid, model, collider };
        proof {
            assert(t@.collider =~= collider_views(def.collider@));
            assert(spec_from_raw(def@) == Ok::<BlockView, ConfigError>(t@));
        }
        Ok(t)
    }
}

/// The static catalogue of block types, addressed by id and by unique name.
/// Read-only after loading.
pub struct BlockManager {
    blocks: Vec<BlockType>,
}

impl View for BlockManager {
    type V = Seq<BlockView>;

    closed spec fn view(&self) -> Seq<BlockView> {
        self.blocks@.map_values(|b: BlockType| b@)
    }
}

/// Some block of `v` is named `name`.
pub open spec fn contains_name(v: Seq<BlockView>, name: Seq<char>) -> bool {
    exists|i: int| 0 <= i < v.len() && #[trigger] v[i].name == name
}

/// A well-formed catalogue: no two blocks share a name, and every id fits
/// the one-byte save cell.
pub open spec fn registry_wf(reg: Seq<BlockView>) -> bool {
    &&& reg.len() <= 256
    &&& forall|i: int, j: int|
        0 <= i < j < reg.len() ==> (#[trigger] reg[i]).name != (#[trigger] reg[j]).name
}

impl BlockManager {
    /// Well-formed: see `registry_wf`.
    pub open spec fn wf(&self) -> bool {
        registry_wf(self@)
    }

    /// An empty catalogue.
    pub fn new() -> (r: BlockManager)
        ensures
            r@ == Seq::<BlockView>::empty(),
            r.wf(),
    {
        let r = BlockManager { blocks: Vec::new() };
        proof {
            assert(r@ =~= Seq::<BlockView>::empty());
        }
        r
    }

    pub fn block_count(&self) -> (r: usize)
        ensures
            r == self@.len(),
    {
        self.blocks.len()
    }

    /// Appends a block type under the next id, which it returns. The name
    /// must be fresh and the catalogue must still have room for an id that
    /// fits a save byte.
    pub fn add_block(&mut self, t: BlockType) -> (id: BlockID)
        requires
            old(self).wf(),
            old(self)@.len() < 256,
            !contains_name(old(self)@, t@.name),
        ensures
            final(self)@ == old(self)@.push(t@),
            id == old(self)@.len(),
            final(self).wf(),
    {
        let id = self.blocks.len() as i32;
        self.blocks.push(t);
        proof {
            assert(self@ =~= old(self)@.push(t@));
        }
        id
    }

    /// The id of the block named `name`, or `UnknownBlock` if no block of
    /// the catalogue carries that name.
    pub fn lookup_by_name(&self, name: &String) -> (r: Result<BlockID, UnknownBlock>)
        requires
            self.wf(),
        ensures
            match r {
                Ok(id) => 0 <= id < self@.len() && self@[id as int].name == name@,
                Err(_) => !contains_name(self@, name@),
            },
    {
        let n: usize = self.blocks.len();
        let mut i: usize = 0;
        while i < n
            invariant
                self.wf(),
                n == self@.len(),
                i <= n,
                forall|j: int| 0 <= j < i ==> (#[trigger] self@[j]).name != name@,
            decreases n - i,
        {
            if self.blocks[i].name == *name {
                return Ok(i as i32);
            }
            i = i + 1;
        }
        Err(UnknownBlock)
    }

    /// The block type registered under `id`. Ids come only from this
    /// registry or the terrain generator, so an out-of-range id is a caller
    /// bug, excluded by contract.
    pub fn describe(&self, id: BlockID) -> (r: &BlockType)
        requires
            0 <= id < self@.len(),
        ensures
            r@ == self@[id as int],
    {
        &self.blocks[id as usize]
    }
}

/// The views of a list of raw definitions.
pub open spec fn defs_view(s: Seq<RawBlockDef>) -> Seq<RawDefView> {
    s.map_values(|d: RawBlockDef| d@)
}

/// The catalogue a definition list loads to, or the first error in it:
/// definitions are checked in order; a valid one is rejected if its name is
/// already taken or if its id would not fit a save byte.
pub open spec fn spec_load(ds: Seq<RawDefView>) -> Result<Seq<BlockView>, ConfigError>
    decreases ds.len(),
{
    if ds.len() == 0 {
        Ok(Seq::empty())
    } else {
        match spec_load(ds.drop_last()) {
            Err(e) => Err(e),
            Ok(v) => match spec_from_raw(ds.last()) {
                Err(e) => Err(e),
                Ok(b) => if contains_name(v, b.name) {
                    Err(ConfigError::DuplicateName)
                } else if v.len() >= 256 {
                    Err(ConfigError::TooManyBlocks)
                } else {
                    Ok(v.push(b))
                },
            },
        }
    }
}

/// Once a prefix of the definition list is bad, every longer prefix reports
/// the same first error.
proof fn lemma_load_err_persists(ds: Seq<RawDefView>, k: int, m: int, e: ConfigError)
    requires
        0 <= k <= m <= ds.len(),
        spec_load(ds.subrange(0, k)) == Err::<Seq<BlockView>, ConfigError>(e),
    ensures
        spec_load(ds.subrange(0, m)) == Err::<Seq<BlockView>, ConfigError>(e),
    decreases m - k,
{
    if m > k {
        lemma_load_err_persists(ds, k, m - 1, e);
        assert(ds.subrange(0, m).drop_last() =~= ds.subrange(0, m - 1));
    }
}

impl BlockManager {
    /// Loads a catalogue from an ordered definition list, assigning ids from
    /// zero in list order: exactly `spec_load`.
    pub fn load(defs: &Vec<RawBlockDef>) -> (r: Result<BlockManager, ConfigError>)
        ensures
            match r {
                Ok(m) => spec_load(defs_view(defs@)) == Ok::<Seq<BlockView>, ConfigError>(m@)
                    && m.wf(),
                Err(e) => spec_load(defs_view(defs@)) == Err::<Seq<BlockView>, ConfigError>(e),
            },
    {
        let ghost dv: Seq<RawDefView> = defs_view(defs@);
        let mut mgr = BlockManager::new();
        let n: usize = defs.len();
        let mut i: usize = 0;
        proof {
            assert(dv.subrange(0, 0) =~= Seq::<RawDefView>::empty());
        }
        while i < n
            invariant
                dv == defs_view(defs@),
                n == defs@.len(),
                n == dv.len(),
                i <= n,
                mgr.wf(),
                spec_load(dv.subrange(0, i as int)) == Ok::<Seq<BlockView>, ConfigError>(mgr@),
            decreases n - i,
        {
            let ghost pre = mgr@;
            proof {
                assert(dv[i as int] == defs@[i as int]@);
                assert(dv.subrange(0, i + 1 as int).drop_last() =~= dv.subrange(0, i as int));
                assert(dv.subrange(0, i + 1 as int).last() == dv[i as int]);
            }
            let t = match BlockType::from_raw(&defs[i]) {
                Ok(t) => t,
                Err(e) => {
                    proof {
                        assert(spec_load(dv.subrange(0, i + 1 as int)) == Err::<
                            Seq<BlockView>,
                            ConfigError,
                        >(e));
                        lemma_load_err_persists(dv, i + 1 as int, n as int, e);
                        assert(dv.subrange(0, n as int) =~= dv);
                    }
                    return Err(e);
                },
            };
            if mgr.lookup_by_name(&t.name).is_ok() {
                proof {
                    lemma_load_err_persists(dv, i + 1 as int, n as int, ConfigError::DuplicateName);
                    assert(dv.subrange(0, n as int) =~= dv);
                }
                return Err(ConfigError::DuplicateName);
            }
            if mgr.block_count() >= 256 {
                proof {
                    lemma_load_err_persists(dv, i + 1 as int, n as int, ConfigError::TooManyBlocks);
                    assert(dv.subrange(0, n as int) =~= dv);
                }
                return Err(ConfigError::TooManyBlocks);
            }
            mgr.add_block(t);
            i = i + 1;
        }
        proof {
            assert(dv.subrange(0, n as int) =~= dv);
        }
        Ok(mgr)
    }
}

} // verus!
