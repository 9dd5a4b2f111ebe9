use crate::meshdata::{quad_view, MeshData, MeshView, QuadView};
use crate::pos::{BlockPos, BlockSide, BlockSides};
use vstd::prelude::*;

verus! {

/// A texture rectangle in atlas pixels: the corners of the region of the
/// atlas that a face samples.
#[derive(Clone, Copy, PartialEq, Eq, Structural, Debug)]
pub struct TexRect {
    pub left: u32,
    pub top: u32,
    pub right: u32,
    pub bottom: u32,
}

/// The rectangle as an integer tuple `(left, top, right, bottom)`.
pub open spec fn rect_of(t: TexRect) -> (int, int, int, int) {
    (t.left as int, t.top as int, t.right as int, t.bottom as int)
}

/// The four corners of face `side` of the cell at world position `p`, in
/// emission order, in half-block units. `h` is the cell's top height above
/// its base in half-blocks: 2 for a full cube, 1 for a half-height slab.
pub open spec fn face_verts(p: (int, int, int), side: BlockSide, h: int) -> Seq<(int, int, int)> {
    let x0 = 2 * p.0;
    let x1 = 2 * p.0 + 2;
    let y0 = 2 * p.1;
    let yh = 2 * p.1 + h;
    let z0 = 2 * p.2;
    let z1 = 2 * p.2 + 2;
    match side {
        BlockSide::Back => seq![(x0, y0, z0), (x1, y0, z0), (x0, yh, z0), (x1, yh, z0)],
        BlockSide::Left => seq![(x0, y0, z0), (x0, yh, z0), (x0, y0, z1), (x0, yh, z1)],
        BlockSide::Front => seq![(x0, y0, z1), (x1, y0, z1), (x0, yh, z1), (x1, yh, z1)],
        BlockSide::Right => seq![(x1, y0, z0), (x1, yh, z0), (x1, y0, z1), (x1, yh, z1)],
        BlockSide::Top => seq![(x0, yh, z0), (x1, yh, z0), (x0, yh, z1), (x1, yh, z1)],
        BlockSide::Bottom => seq![(x0, y0, z0), (x1, y0, z0), (x0, y0, z1), (x1, y0, z1)],
    }
}

/// The texture coordinates of the four corners of face `side`, sampling
/// rectangle `r = (left, top, right, bottom)`, oriented so the image stands
/// upright on the face.
pub open spec fn face_uvs(side: BlockSide, r: (int, int, int, int)) -> Seq<(int, int)> {
    let (l, t, rr, b) = r;
    match side {
        BlockSide::Back => seq![(l, b), (rr, b), (l, t), (rr, t)],
        BlockSide::Left => seq![(rr, b), (rr, t), (l, b), (l, t)],
        BlockSide::Front => seq![(rr, b), (l, b), (rr, t), (l, t)],
        BlockSide::Right => seq![(l, b), (l, t), (rr, b), (rr, t)],
        BlockSide::Top => seq![(l, t), (l, b), (rr, t), (rr, b)],
        BlockSide::Bottom => seq![(l, t), (l, b), (rr, t), (rr, b)],
    }
}

/// The outward unit normal of face `side`.
pub open spec fn face_normal(side: BlockSide) -> (int, int, int) {
    match side {
        BlockSide::Back => (0, 0, -1),
        BlockSide::Left => (-1, 0, 0),
        BlockSide::Front => (0, 0, 1),
        BlockSide::Right => (1, 0, 0),
        BlockSide::Top => (0, 1, 0),
        BlockSide::Bottom => (0, -1, 0),
    }
}

/// The quad emitted for face `side` of the cell at `p`, textured with `r`.
pub open spec fn face_quad(
    p: (int, int, int),
    side: BlockSide,
    r: (int, int, int, int),
    h: int,
) -> QuadView {
    QuadView { v: face_verts(p, side, h), uv: face_uvs(side, r), n: face_normal(side) }
}

/// The mesh `m` extended by the faces of the cell at `p` whose exposure flag
/// is set, in the fixed order back, left, front, right, top, bottom. No face
/// is ever emitted for a cleared flag. Side faces sample `side_r`, the top
/// face `top_r`, the bottom face `bottom_r`; `h` is the cell's height in
/// half-blocks.
pub open spec fn shape_mesh(
    m: MeshView,
    p: (int, int, int),
    sides: BlockSides,
    side_r: (int, int, int, int),
    top_r: (int, int, int, int),
    bottom_r: (int, int, int, int),
    h: int,
) -> MeshView {
    let m1 = if sides.back {
        m.push_quad(face_quad(p, BlockSide::Back, side_r, h))
    } else {
        m
    };
    let m2 = if sides.left {
        m1.push_quad(face_quad(p, BlockSide::Left, side_r, h))
    } else {
        m1
    };
    let m3 = if sides.front {
        m2.push_quad(face_quad(p, BlockSide::Front, side_r, h))
    } else {
        m2
    };
    let m4 = if sides.right {
        m3.push_quad(face_quad(p, BlockSide::Right, side_r, h))
    } else {
        m3
    };
    let m5 = if sides.top {
        m4.push_quad(face_quad(p, BlockSide::Top, top_r, h))
    } else {
        m4
    };
    if sides.bottom {
        m5.push_quad(face_quad(p, BlockSide::Bottom, bottom_r, h))
    } else {
        m5
    }
}

/// Emits the exposed faces of one cell. Shared worker for the cube, the
/// per-side textured cube and the half-height slab.
fn append_shape(
    data: &mut MeshData,
    pos: BlockPos,
    sides: BlockSides,
    side_r: TexRect,
    top_r: TexRect,
    bottom_r: TexRect,
    half: bool,
)
    requires
        old(data)@.wf(),
        old(data)@.verts.len() + 24 <= u32::MAX,
    ensures
        final(data)@ == shape_mesh(
            old(data)@,
            pos@,
            sides,
            rect_of(side_r),
            rect_of(top_r),
            rect_of(bottom_r),
            if half {
                1int
            } else {
                2int
            },
        ),
        final(data)@.wf(),
{
    let ghost h: int = if half { 1int } else { 2int };
    let x0: i64 = 2 * (pos.x as i64);
    let x1: i64 = x0 + 2;
    let y0: i64 = 2 * (pos.y as i64);
    let yh: i64 = y0 + if half { 1 } else { 2 };
    let z0: i64 = 2 * (pos.z as i64);
    let z1: i64 = z0 + 2;
    if sides.back {
        data.append_quad(
            (x0, y0, z0),
            (x1, y0, z0),
            (x0, yh, z0),
            (x1, yh, z0),
            (side_r.left, side_r.bottom),
            (side_r.right, side_r.bottom),
            (side_r.left, side_r.top),
            (side_r.right, side_r.top),
            (0, 0, -1),
        );
        proof {
            assert(quad_view(
                (x0, y0, z0),
                (x1, y0, z0),
                (x0, yh, z0),
                (x1, yh, z0),
                (side_r.left, side_r.bottom),
                (side_r.right, side_r.bottom),
                (side_r.left, side_r.top),
                (side_r.right, side_r.top),
                (0i64, 0i64, -1i64),
            ) =~~= face_quad(pos@, BlockSide::Back, rect_of(side_r), h));
        }
    }
    if sides.left {
        data.append_quad(
            (x0, y0, z0),
            (x0, yh, z0),
            (x0, y0, z1),
            (x0, yh, z1),
            (side_r.right, side_r.bottom),
            (side_r.right, side_r.top),
            (side_r.left, side_r.bottom),
            (side_r.left, side_r.top),
            (-1, 0, 0),
        );
        proof {
            assert(quad_view(
                (x0, y0, z0),
                (x0, yh, z0),
                (x0, y0, z1),
                (x0, yh, z1),
                (side_r.right, side_r.bottom),
                (side_r.right, side_r.top),
                (side_r.left, side_r.bottom),
                (side_r.left, side_r.top),
                (-1i64, 0i64, 0i64),
            ) =~~= face_quad(pos@, BlockSide::Left, rect_of(side_r), h));
        }
    }
    if sides.front {
        data.append_quad(
            (x0, y0, z1),
            (x1, y0, z1),
            (x0, yh, z1),
            (x1, yh, z1),
            (side_r.right, side_r.bottom),
            (side_r.left, side_r.bottom),
            (side_r.right, side_r.top),
            (side_r.left, side_r.top),
            (0, 0, 1),
        );
        proof {
            assert(quad_view(
                (x0, y0, z1),
                (x1, y0, z1),
                (x0, yh, z1),
                (x1, yh, z1),
                (side_r.right, side_r.bottom),
                (side_r.left, side_r.bottom),
                (side_r.right, side_r.top),
                (side_r.left, side_r.top),
                (0, 0, 1),
            ) =~~= face_quad(pos@, BlockSide::Front, rect_of(side_r), h));
        }
    }
    if sides.right {
        data.append_quad(
            (x1, y0, z0),
            (x1, yh, z0),
            (x1, y0, z1),
            (x1, yh, z1),
            (side_r.left, side_r.bottom),
            (side_r.left, side_r.top),
            (side_r.right, side_r.bottom),
            (side_r.right, side_r.top),
            (1, 0, 0),
        );
        proof {
            assert(quad_view(
                (x1, y0, z0),
                (x1, yh, z0),
                (x1, y0, z1),
                (x1, yh, z1),
                (side_r.left, side_r.bottom),
                (side_r.left, side_r.top),
                (side_r.right, side_r.bottom),
                (side_r.right, side_r.top),
                (1, 0, 0),
            ) =~~= face_quad(pos@, BlockSide::Right, rect_of(side_r), h));
        }
    }
    if sides.top {
        data.append_quad(
            (x0, yh, z0),
            (x1, yh, z0),
            (x0, yh, z1),
            (x1, yh, z1),
            (top_r.left, top_r.top),
            (top_r.left, top_r.bottom),
            (top_r.right, top_r.top),
            (top_r.right, top_r.bottom),
            (0, 1, 0),
        );
        proof {
            assert(quad_view(
                (x0, yh, z0),
                (x1, yh, z0),
                (x0, yh, z1),
                (x1, yh, z1),
                (top_r.left, top_r.top),
                (top_r.left, top_r.bottom),
                (top_r.right, top_r.top),
                (top_r.right, top_r.bottom),
                (0, 1, 0),
            ) =~~= face_quad(pos@, BlockSide::Top, rect_of(top_r), h));
        }
    }
    if sides.bottom {
        data.append_quad(
            (x0, y0, z0),
            (x1, y0, z0),
            (x0, y0, z1),
            (x1, y0, z1),
            (bottom_r.left, bottom_r.top),
            (bottom_r.left, bottom_r.bottom),
            (bottom_r.right, bottom_r.top),
            (bottom_r.right, bottom_r.bottom),
            (0, -1, 0),
        );
        proof {
            assert(quad_view(
                (x0, y0, z0),
                (x1, y0, z0),
                (x0, y0, z1),
                (x1, y0, z1),
                (bottom_r.left, bottom_r.top),
                (bottom_r.left, bottom_r.bottom),
                (bottom_r.right, bottom_r.top),
                (bottom_r.right, bottom_r.bottom),
                (0i64, -1i64, 0i64),
            ) =~~= face_quad(pos@, BlockSide::Bottom, rect_of(bottom_r), h));
        }
    }
}

/// Appends the exposed faces of a full unit cube at world cell `pos`, every
/// face sampling the one rectangle `texture`.
pub fn append_cube(data: &mut MeshData, pos: BlockPos, sides: BlockSides, texture: TexRect)
    requires
        old(data)@.wf(),
        old(data)@.verts.len() + 24 <= u32::MAX,
    ensures
        final(data)@ == shape_mesh(
            old(data)@,
            pos@,
            sides,
            rect_of(texture),
            rect_of(texture),
            rect_of(texture),
            2,
        ),
        final(data)@.wf(),
{
    append_shape(data, pos, sides, texture, texture, texture, false)
}

/// Appends the exposed faces of a full unit cube at world cell `pos` whose
/// top, bottom and side faces sample distinct rectangles.
pub fn append_cube_sided(
    data: &mut MeshData,
    pos: BlockPos,
    sides: BlockSides,
    side: TexRect,
    top: TexRect,
    bottom: TexRect,
)
    requires
        old(data)@.wf(),
        old(data)@.verts.len() + 24 <= u32::MAX,
    ensures
        final(data)@ == shape_mesh(
            old(data)@,
            pos@,
            sides,
            rect_of(side),
            rect_of(top),
            rect_of(bottom),
            2,
        ),
        final(data)@.wf(),
{
    append_shape(data, pos, sides, side, top, bottom, false)
}

/// Appends the exposed faces of a half-height slab at world cell `pos`: side
/// faces and the top stop at half a block.
pub fn append_slab(
    data: &mut MeshData,
    pos: BlockPos,
    sides: BlockSides,
    side: TexRect,
    top: TexRect,
    bottom: TexRect,
)
    requires
        old(data)@.wf(),
        old(data)@.verts.len() + 24 <= u32::MAX,
    ensures
        final(data)@ == shape_mesh(
            old(data)@,
            pos@,
            sides,
            rect_of(side),
            rect_of(top),
            rect_of(bottom),
            1,
        ),
        final(data)@.wf(),
{
    append_shape(data, pos, sides, side, top, bottom, true)
}

} // verus!
