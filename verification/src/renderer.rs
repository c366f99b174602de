//! GPU-side chunk meshes: the buffer handles and index counts of the three
//! passes (opaque, cutout, water).
use vstd::prelude::*;

verus! {

/// Buffer objects and index counts of one chunk's mesh, per pass.
pub struct ChunkMesh {
    pub vbo: u32,
    pub ibo: u32,
    pub n: usize,
    pub cvbo: u32,
    pub cibo: u32,
    pub cn: usize,
    pub wvbo: u32,
    pub wibo: u32,
    pub wn: usize,
}

impl ChunkMesh {
    /// A mesh with no buffers and nothing to draw.
    pub fn empty() -> (m: ChunkMesh)
        ensures
            m.vbo == 0 && m.ibo == 0 && m.n == 0,
            m.cvbo == 0 && m.cibo == 0 && m.cn == 0,
            m.wvbo == 0 && m.wibo == 0 && m.wn == 0,
    {
        ChunkMesh { vbo: 0, ibo: 0, n: 0, cvbo: 0, cibo: 0, cn: 0, wvbo: 0, wibo: 0, wn: 0 }
    }
}

} // verus!
