use vstd::prelude::*;

verus! {

/// Pixel width and height of the texture atlas that texture rectangles are
/// addressed against.
pub const ATLAS_SIZE: u32 = 1024;

/// A geometry buffer under construction: parallel lists of vertex positions,
/// per-vertex texture coordinates, per-vertex outward normals, and triangle
/// index triples.
///
/// Positions are integers in half-block units (a full cube spans 2 on each
/// axis), so that half-height shapes need no fractions. Texture coordinates
/// are atlas pixels. The host divides by two and by `ATLAS_SIZE` when it
/// uploads the buffer to the GPU.
pub struct MeshData {
    pub vertices: Vec<(i64, i64, i64)>,
    pub indices: Vec<(u32, u32, u32)>,
    pub texcoords: Vec<(u32, u32)>,
    pub normals: Vec<(i64, i64, i64)>,
}

/// The mathematical content of a `MeshData`.
#[verifier::ext_equal]
pub ghost struct MeshView {
    pub verts: Seq<(int, int, int)>,
    pub tris: Seq<(int, int, int)>,
    pub uvs: Seq<(int, int)>,
    pub norms: Seq<(int, int, int)>,
}

/// One quadrilateral face: four corners in emission order, their texture
/// coordinates, and the shared outward normal.
#[verifier::ext_equal]
pub ghost struct QuadView {
    pub v: Seq<(int, int, int)>,
    pub uv: Seq<(int, int)>,
    pub n: (int, int, int),
}

pub open spec fn v3(t: (i64, i64, i64)) -> (int, int, int) {
    (t.0 as int, t.1 as int, t.2 as int)
}

pub open spec fn v2(t: (u32, u32)) -> (int, int) {
    (t.0 as int, t.1 as int)
}

pub open spec fn tri3(t: (u32, u32, u32)) -> (int, int, int) {
    (t.0 as int, t.1 as int, t.2 as int)
}

impl View for MeshData {
    type V = MeshView;

    open spec fn view(&self) -> MeshView {
        MeshView {
            verts: self.vertices@.map_values(|t: (i64, i64, i64)| v3(t)),
            tris: self.indices@.map_values(|t: (u32, u32, u32)| tri3(t)),
            uvs: self.texcoords@.map_values(|t: (u32, u32)| v2(t)),
            norms: self.normals@.map_values(|t: (i64, i64, i64)| v3(t)),
        }
    }
}

impl MeshView {
    pub open spec fn empty() -> MeshView {
        MeshView { verts: seq![], tris: seq![], uvs: seq![], norms: seq![] }
    }

    /// Well-formed: the three per-vertex lists run in parallel and every
    /// triangle index points at a vertex.
    pub open spec fn wf(self) -> bool {
        &&& self.uvs.len() == self.verts.len()
        &&& self.norms.len() == self.verts.len()
        &&& forall|i: int|
            0 <= i < self.tris.len() ==> {
                &&& 0 <= #[trigger] self.tris[i].0 < self.verts.len()
                &&& 0 <= self.tris[i].1 < self.verts.len()
                &&& 0 <= self.tris[i].2 < self.verts.len()
            }
    }

    /// The mesh extended by one quad: its four corners, their texture
    /// coordinates, four copies of the normal, and two triangles over the new
    /// corners — (0,1,2) and (1,2,3) relative to the first new vertex.
    pub open spec fn push_quad(self, q: QuadView) -> MeshView {
        let s = self.verts.len() as int;
        MeshView {
            verts: self.verts + q.v,
            tris: self.tris.push((s, s + 1, s + 2)).push((s + 1, s + 2, s + 3)),
            uvs: self.uvs + q.uv,
            norms: self.norms + seq![q.n, q.n, q.n, q.n],
        }
    }

    /// `other` laid after `self`: triangle indices of `other` shift up by the
    /// number of vertices of `self`.
    pub open spec fn concat(self, other: MeshView) -> MeshView {
        let s = self.verts.len() as int;
        MeshView {
            verts: self.verts + other.verts,
            tris: self.tris + other.tris.map_values(
                |t: (int, int, int)| (t.0 + s, t.1 + s, t.2 + s),
            ),
            uvs: self.uvs + other.uvs,
            norms: self.norms + other.norms,
        }
    }

    /// Every vertex moved by `d`; connectivity, texture coordinates and
    /// normals unchanged.
    pub open spec fn translated(self, d: (int, int, int)) -> MeshView {
        MeshView {
            verts: self.verts.map_values(
                |t: (int, int, int)| (t.0 + d.0, t.1 + d.1, t.2 + d.2),
            ),
            tris: self.tris,
            uvs: self.uvs,
            norms: self.norms,
        }
    }
}

/// Vertex `v` can move by `d` without leaving the `i64` range.
pub open spec fn can_translate(v: (int, int, int), d: (int, int, int)) -> bool {
    &&& i64::MIN <= v.0 + d.0 <= i64::MAX
    &&& i64::MIN <= v.1 + d.1 <= i64::MAX
    &&& i64::MIN <= v.2 + d.2 <= i64::MAX
}

pub open spec fn quad_view(
    v0: (i64, i64, i64),
    v1: (i64, i64, i64),
    v2c: (i64, i64, i64),
    v3c: (i64, i64, i64),
    t0: (u32, u32),
    t1: (u32, u32),
    t2: (u32, u32),
    t3: (u32, u32),
    n: (i64, i64, i64),
) -> QuadView {
    QuadView {
        v: seq![v3(v0), v3(v1), v3(v2c), v3(v3c)],
        uv: seq![v2(t0), v2(t1), v2(t2), v2(t3)],
        n: v3(n),
    }
}

impl MeshData {
    pub fn new() -> (r: MeshData)
        ensures
            r@ == MeshView::empty(),
            r@.wf(),
    {
        let r = MeshData {
            vertices: Vec::new(),
            indices: Vec::new(),
            texcoords: Vec::new(),
            normals: Vec::new(),
        };
        proof {
            assert(r@ =~~= MeshView::empty());
        }
        r
    }

    /// Appends one quad: four corners in order, their texture coordinates,
    /// and the face normal, plus the two triangles (0,1,2), (1,2,3) over the
    /// new corners.
    pub fn append_quad(
        &mut self,
        v0: (i64, i64, i64),
        v1: (i64, i64, i64),
        v2c: (i64, i64, i64),
        v3c: (i64, i64, i64),
        t0: (u32, u32),
        t1: (u32, u32),
        t2: (u32, u32),
        t3: (u32, u32),
        n: (i64, i64, i64),
    )
        requires
            old(self)@.wf(),
            old(self)@.verts.len() + 4 <= u32::MAX,
        ensures
            final(self)@ == old(self)@.push_quad(quad_view(v0, v1, v2c, v3c, t0, t1, t2, t3, n)),
            final(self)@.wf(),
    {
        let s: u32 = self.vertices.len() as u32;
        self.vertices.push(v0);
        self.vertices.push(v1);
        self.vertices.push(v2c);
        self.vertices.push(v3c);
        self.indices.push((s, s + 1, s + 2));
        self.indices.push((s + 1, s + 2, s + 3));
        self.texcoords.push(t0);
        self.texcoords.push(t1);
        self.texcoords.push(t2);
        self.texcoords.push(t3);
        self.normals.push(n);
        self.normals.push(n);
        self.normals.push(n);
        self.normals.push(n);
        proof {
            assert(self@ =~~= old(self)@.push_quad(
                quad_view(v0, v1, v2c, v3c, t0, t1, t2, t3, n),
            ));
        }
    }

    /// Appends the whole content of `other` after `self`, shifting `other`'s
    /// triangle indices past `self`'s vertices.
    pub fn append(&mut self, mut other: MeshData)
        requires
            old(self)@.wf(),
            other@.wf(),
            old(self)@.verts.len() + other@.verts.len() <= u32::MAX,
        ensures
            final(self)@ == old(self)@.concat(other@),
            final(self)@.wf(),
    {
        let ghost og: MeshView = other@;
        let offset: u32 = self.vertices.len() as u32;
        let n: usize = other.indices.len();
        let mut i: usize = 0;
        while i < n
            invariant
                og == other@,
                n == og.tris.len(),
                og.wf(),
                old(self)@.verts.len() + og.verts.len() <= u32::MAX,
                offset == old(self)@.verts.len(),
                i <= n,
                self.vertices == old(self).vertices,
                self.texcoords == old(self).texcoords,
                self.normals == old(self).normals,
                self@.tris.len() == old(self)@.tris.len() + i,
                forall|j: int|
                    0 <= j < old(self)@.tris.len() ==> #[trigger] self@.tris[j] == old(
                        self,
                    )@.tris[j],
                forall|j: int|
                    0 <= j < i ==> #[trigger] self@.tris[old(self)@.tris.len() + j] == (
                        og.tris[j].0 + offset,
                        og.tris[j].1 + offset,
                        og.tris[j].2 + offset,
                    ),
            decreases n - i,
        {
            let t: (u32, u32, u32) = other.indices[i];
            let ghost prev_idx: Seq<(u32, u32, u32)> = self.indices@;
            let ghost prev_tris: Seq<(int, int, int)> = self@.tris;
            proof {
                assert(og.tris[i as int] == tri3(t));
                assert(0 <= og.tris[i as int].0 < og.verts.len());
                assert(0 <= og.tris[i as int].1 < og.verts.len());
                assert(0 <= og.tris[i as int].2 < og.verts.len());
            }
            self.indices.push((t.0 + offset, t.1 + offset, t.2 + offset));
            proof {
                assert forall|j: int| 0 <= j < prev_tris.len() implies #[trigger] self@.tris[j]
                    == prev_tris[j] by {
                    assert(self.indices@[j] == prev_idx[j]);
                    assert(self@.tris[j] == tri3(self.indices@[j]));
                    assert(prev_tris[j] == tri3(prev_idx[j]));
                }
                assert(self@.tris[prev_tris.len() as int] == tri3(
                    ((t.0 + offset) as u32, (t.1 + offset) as u32, (t.2 + offset) as u32),
                ));
            }
            i = i + 1;
        }
        self.vertices.append(&mut other.vertices);
        self.texcoords.append(&mut other.texcoords);
        self.normals.append(&mut other.normals);
        proof {
            let target = old(self)@.concat(og);
            assert(self@.tris.len() == old(self)@.tris.len() + og.tris.len());
            assert(target.tris.len() == old(self)@.tris.len() + og.tris.len());
            assert forall|k: int| 0 <= k < self@.tris.len() implies self@.tris[k]
                == target.tris[k] by {
                let shifted = og.tris.map_values(
                    |t: (int, int, int)| (
                        t.0 + old(self)@.verts.len() as int,
                        t.1 + old(self)@.verts.len() as int,
                        t.2 + old(self)@.verts.len() as int,
                    ),
                );
                assert(target.tris =~= old(self)@.tris + shifted);
                if k < old(self)@.tris.len() {
                    assert(self@.tris[k] == old(self)@.tris[k]);
                    assert(target.tris[k] == old(self)@.tris[k]);
                } else {
                    let j = k - old(self)@.tris.len();
                    assert(shifted[j] == (
                        og.tris[j].0 + offset,
                        og.tris[j].1 + offset,
                        og.tris[j].2 + offset,
                    ));
                    assert(target.tris[k] == shifted[j]);
                    assert(self@.tris[old(self)@.tris.len() + j] == (
                        og.tris[j].0 + offset,
                        og.tris[j].1 + offset,
                        og.tris[j].2 + offset,
                    ));
                    assert(self@.tris[k] == (
                        og.tris[j].0 + offset,
                        og.tris[j].1 + offset,
                        og.tris[j].2 + offset,
                    ));
                }
            }
            assert(self@.tris =~= target.tris);
            assert(self@ =~~= target);
        }
    }

    /// Moves every vertex by `d` half-units per axis; everything else is
    /// unchanged.
    pub fn translate(&mut self, d: (i64, i64, i64))
        requires
            forall|i: int|
                0 <= i < old(self)@.verts.len() ==> can_translate(
                    #[trigger] old(self)@.verts[i],
                    (d.0 as int, d.1 as int, d.2 as int),
                ),
        ensures
            final(self)@ == old(self)@.translated((d.0 as int, d.1 as int, d.2 as int)),
    {
        let ghost dd: (int, int, int) = (d.0 as int, d.1 as int, d.2 as int);
        let n: usize = self.vertices.len();
        let mut out: Vec<(i64, i64, i64)> = Vec::new();
        let mut i: usize = 0;
        while i < n
            invariant
                n == self@.verts.len(),
                self == old(self),
                dd == (d.0 as int, d.1 as int, d.2 as int),
                i <= n,
                forall|j: int| 0 <= j < n ==> can_translate(#[trigger] self@.verts[j], dd),
                out@.len() == i,
                forall|j: int|
                    0 <= j < i ==> #[trigger] v3(out@[j]) == (
                        self@.verts[j].0 + dd.0,
                        self@.verts[j].1 + dd.1,
                        self@.verts[j].2 + dd.2,
                    ),
            decreases n - i,
        {
            let t: (i64, i64, i64) = self.vertices[i];
            proof {
                assert(can_translate(self@.verts[i as int], dd));
                assert(self@.verts[i as int] == v3(t));
            }
            out.push((t.0 + d.0, t.1 + d.1, t.2 + d.2));
            i = i + 1;
        }
        self.vertices = out;
        proof {
            assert(self@.verts =~= old(self)@.translated(dd).verts);
            assert(self@ =~~= old(self)@.translated(dd));
        }
    }
}

/// The mesh of one unit cube at the origin with all six faces present,
/// each sampling the whole atlas: four side quads, then top and bottom.
pub open spec fn unit_cube_view() -> MeshView {
    MeshView::empty().push_quad(
        quad_view(
            (0, 0, 0),
            (2, 0, 0),
            (0, 2, 0),
            (2, 2, 0),
            (0, 0),
            (0, 1024),
            (1024, 0),
            (1024, 1024),
            (0i64, 0i64, -1i64),
        ),
    ).push_quad(
        quad_view(
            (0, 0, 0),
            (0, 2, 0),
            (0, 0, 2),
            (0, 2, 2),
            (0, 0),
            (0, 1024),
            (1024, 0),
            (1024, 1024),
            (-1i64, 0i64, 0i64),
        ),
    ).push_quad(
        quad_view(
            (2, 0, 2),
            (0, 0, 2),
            (2, 2, 2),
            (0, 2, 2),
            (0, 0),
            (0, 1024),
            (1024, 0),
            (1024, 1024),
            (0, 0, 1),
        ),
    ).push_quad(
        quad_view(
            (2, 0, 0),
            (2, 0, 2),
            (2, 2, 0),
            (2, 2, 2),
            (0, 0),
            (0, 1024),
            (1024, 0),
            (1024, 1024),
            (1, 0, 0),
        ),
    ).push_quad(
        quad_view(
            (0, 2, 0),
            (2, 2, 0),
            (0, 2, 2),
            (2, 2, 2),
            (0, 0),
            (0, 1024),
            (1024, 0),
            (1024, 1024),
            (0, 1, 0),
        ),
    ).push_quad(
        quad_view(
            (0, 0, 0),
            (2, 0, 0),
            (0, 0, 2),
            (2, 0, 2),
            (0, 0),
            (0, 1024),
            (1024, 0),
            (1024, 1024),
            (0i64, -1i64, 0i64),
        ),
    )
}

impl MeshData {
    /// A unit cube at the origin with every face present, sampling the
    /// whole atlas: a convenience mesh for previews and tests.
    pub fn cube() -> (r: MeshData)
        ensures
            r@ == unit_cube_view(),
            r@.wf(),
    {
        let mut r = MeshData::new();
        r.append_quad(
            (0, 0, 0),
            (2, 0, 0),
            (0, 2, 0),
            (2, 2, 0),
            (0, 0),
            (0, 1024),
            (1024, 0),
            (1024, 1024),
            (0, 0, -1),
        );
        r.append_quad(
            (0, 0, 0),
            (0, 2, 0),
            (0, 0, 2),
            (0, 2, 2),
            (0, 0),
            (0, 1024),
            (1024, 0),
            (1024, 1024),
            (-1, 0, 0),
        );
        r.append_quad(
            (2, 0, 2),
            (0, 0, 2),
            (2, 2, 2),
            (0, 2, 2),
            (0, 0),
            (0, 1024),
            (1024, 0),
            (1024, 1024),
            (0, 0, 1),
        );
        r.append_quad(
            (2, 0, 0),
            (2, 0, 2),
            (2, 2, 0),
            (2, 2, 2),
            (0, 0),
            (0, 1024),
            (1024, 0),
            (1024, 1024),
            (1, 0, 0),
        );
        r.append_quad(
            (0, 2, 0),
            (2, 2, 0),
            (0, 2, 2),
            (2, 2, 2),
            (0, 0),
            (0, 1024),
            (1024, 0),
            (1024, 1024),
            (0, 1, 0),
        );
        r.append_quad(
            (0, 0, 0),
            (2, 0, 0),
            (0, 0, 2),
            (2, 0, 2),
            (0, 0),
            (0, 1024),
            (1024, 0),
            (1024, 1024),
            (0, -1, 0),
        );
        r
    }
}

/// A finished, immutable piece of geometry, ready for the host to upload.
/// Consumes the builder that produced it.
pub struct Model {
    pub data: MeshData,
}

impl Model {
    pub fn new(data: MeshData) -> (r: Model)
        requires
            data@.wf(),
        ensures
            r.data == data,
    {
        Model { data }
    }

    /// How many triangle-list indices a draw of this model covers.
    pub fn index_count(&self) -> (r: usize)
        requires
            self.data@.tris.len() * 3 <= usize::MAX,
        ensures
            r == self.data@.tris.len() * 3,
    {
        self.data.indices.len() * 3
    }
}

} // verus!
