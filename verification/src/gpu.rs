use crate::pos::BlockPos;
use vstd::prelude::*;

verus! {

/// One step of a render pass. The library decides what to draw; the host
/// executes the commands against the GPU in order.
#[derive(Clone, Copy, PartialEq, Eq, Structural, Debug)]
pub enum DrawCmd {
    /// Make the shader program with this handle current.
    UseProgram(u32),
    /// Make the texture with this handle current.
    BindTexture(u32),
    /// Draw the geometry of the resident chunk at `pos`, at revision
    /// `revision` of its mesh.
    Chunk { pos: BlockPos, revision: u64 },
}

/// Handle of a texture object the host created on the GPU.
#[derive(Clone, Copy, PartialEq, Eq, Structural, Debug)]
pub struct Texture {
    pub id: u32,
}

impl Texture {
    /// Records that this texture becomes current.
    pub fn bind(&self, out: &mut Vec<DrawCmd>)
        ensures
            final(out)@ == old(out)@.push(DrawCmd::BindTexture(self.id)),
    {
        out.push(DrawCmd::BindTexture(self.id));
    }

    /// Records that no texture is current any more.
    pub fn unbind(&self, out: &mut Vec<DrawCmd>)
        ensures
            final(out)@ == old(out)@.push(DrawCmd::BindTexture(0)),
    {
        out.push(DrawCmd::BindTexture(0));
    }
}

/// Handle of a compiled and linked shader program the host created.
#[derive(Clone, Copy, PartialEq, Eq, Structural, Debug)]
pub struct Shader {
    pub id: u32,
}

impl Shader {
    /// Records that this program becomes current.
    pub fn bind(&self, out: &mut Vec<DrawCmd>)
        ensures
            final(out)@ == old(out)@.push(DrawCmd::UseProgram(self.id)),
    {
        out.push(DrawCmd::UseProgram(self.id));
    }
}

/// A shader program together with the locations of its view and model
/// matrix uniforms, which the host queried once at startup.
#[derive(Clone, Copy, PartialEq, Eq, Structural, Debug)]
pub struct RenderView {
    pub shader: Shader,
    pub view_matrix: i32,
    pub model_matrix: i32,
}

impl RenderView {
    pub fn new(shader: Shader, view_matrix: i32, model_matrix: i32) -> (r: RenderView)
        ensures
            r.shader == shader,
            r.view_matrix == view_matrix,
            r.model_matrix == model_matrix,
    {
        RenderView { shader, view_matrix, model_matrix }
    }

    /// Records that this view's program becomes current.
    pub fn bind(&self, out: &mut Vec<DrawCmd>)
        ensures
            final(out)@ == old(out)@.push(DrawCmd::UseProgram(self.shader.id)),
    {
        self.shader.bind(out);
    }
}

} // verus!
