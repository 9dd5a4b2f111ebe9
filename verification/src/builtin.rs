use crate::meshdata::MeshData;
use crate::meshgen::{append_cube, shape_mesh, TexRect};
use crate::pos::{BlockPos, BlockSides};
use vstd::prelude::*;

verus! {

/// A fixed, built-in block kind with a hard-wired atlas slot. The data-driven
/// registry is the usual source of block types; these stand in where no
/// definition document is loaded.
pub trait Block {
    /// Whether the block fills its whole cell and occludes its neighbours.
    spec fn spec_is_full(&self) -> bool;

    /// Whether `gen_mesh` emits any geometry at all.
    spec fn emits_mesh(&self) -> bool;

    /// The atlas rectangle `(left, top, right, bottom)` its faces sample.
    spec fn tex(&self) -> (int, int, int, int);

    fn is_full(&self) -> (r: bool)
        ensures
            r == self.spec_is_full(),
    ;

    /// Appends the exposed faces of this block at world cell `pos`, or
    /// nothing when the block has no visible shape.
    fn gen_mesh(&self, data: &mut MeshData, pos: BlockPos, sides: BlockSides)
        requires
            old(data)@.wf(),
            old(data)@.verts.len() + 24 <= u32::MAX,
        ensures
            final(data)@ == if self.emits_mesh() {
                shape_mesh(old(data)@, pos@, sides, self.tex(), self.tex(), self.tex(), 2)
            } else {
                old(data)@
            },
            final(data)@.wf(),
    ;
}

/// The empty block: not solid, draws nothing.
pub struct Air;

/// A plain full cube of rock.
#[derive(Clone)]
pub struct Stone;

/// A plain full cube of turf.
pub struct Grass;

impl Block for Air {
    open spec fn spec_is_full(&self) -> bool {
        false
    }

    open spec fn emits_mesh(&self) -> bool {
        false
    }

    open spec fn tex(&self) -> (int, int, int, int) {
        (0, 0, 0, 0)
    }

    fn is_full(&self) -> (r: bool) {
        false
    }

    fn gen_mesh(&self, data: &mut MeshData, pos: BlockPos, sides: BlockSides) {
    }
}

impl Block for Stone {
    open spec fn spec_is_full(&self) -> bool {
        true
    }

    open spec fn emits_mesh(&self) -> bool {
        true
    }

    open spec fn tex(&self) -> (int, int, int, int) {
        (16, 0, 32, 16)
    }

    fn is_full(&self) -> (r: bool) {
        true
    }

    fn gen_mesh(&self, data: &mut MeshData, pos: BlockPos, sides: BlockSides) {
        append_cube(data, pos, sides, TexRect { left: 16, top: 0, right: 32, bottom: 16 });
    }
}

impl Block for Grass {
    open spec fn spec_is_full(&self) -> bool {
        true
    }

    open spec fn emits_mesh(&self) -> bool {
        true
    }

    open spec fn tex(&self) -> (int, int, int, int) {
        (32, 0, 48, 16)
    }

    fn is_full(&self) -> (r: bool) {
        true
    }

    fn gen_mesh(&self, data: &mut MeshData, pos: BlockPos, sides: BlockSides) {
        append_cube(data, pos, sides, TexRect { left: 32, top: 0, right: 48, bottom: 16 });
    }
}

} // verus!
