use vstd::prelude::*;

use crate::bits::{bits_get, bits_of};
use crate::block::{
    get_uv_of_every_face, face_layer, layer_of_face, uv_of_every_face, BlockFaces, BlockID,
    TextureLayer, UVFaces, BLOCK_KINDS,
};
use crate::chunk::Chunk;
use crate::coords::{coords_of_index, index_x, index_y, index_z};
use crate::occlusion::{corner_pos, face_corner};

verus! {

/// One mesh vertex: chunk-local corner position, texture layer, face
/// (0 to 5, standing for its normal) and corner occlusion weight.
#[derive(Debug, Clone, Copy, PartialEq, Eq, Structural)]
pub struct Vertex {
    pub x: u32,
    pub y: u32,
    pub z: u32,
    pub layer: TextureLayer,
    pub face: u8,
    pub ao: u8,
}

/// The texture of each block kind, looked up by the kind's index.
pub struct TexturePack {
    pub faces: Vec<Option<BlockFaces<TextureLayer>>>,
}

impl TexturePack {
    pub open spec fn wf(&self) -> bool {
        self.faces@.len() == BLOCK_KINDS
    }

    pub open spec fn entry(&self, b: BlockID) -> Option<BlockFaces<TextureLayer>> {
        self.faces@[b.index_spec()]
    }

    /// A pack with no textures.
    pub fn new() -> (r: TexturePack)
        ensures
            r.wf(),
            forall|b: BlockID| #[trigger] r.entry(b).is_none(),
    {
        let mut faces: Vec<Option<BlockFaces<TextureLayer>>> = Vec::new();
        let mut i: usize = 0;
        while i < BLOCK_KINDS
            invariant
                i <= BLOCK_KINDS,
                faces@.len() == i,
                forall|j: int| 0 <= j < i ==> (#[trigger] faces@[j]).is_none(),
            decreases BLOCK_KINDS - i,
        {
            faces.push(None);
            i += 1;
        }
        TexturePack { faces }
    }

    /// Registers the texture of a block kind, replacing any earlier one.
    pub fn insert(&mut self, block: BlockID, faces: BlockFaces<TextureLayer>)
        requires
            old(self).wf(),
        ensures
            final(self).wf(),
            final(self).entry(block) == Some(faces),
            forall|b: BlockID| b != block ==> #[trigger] final(self).entry(b) == old(self).entry(b),
    {
        let i = block.index();
        self.faces.set(i, Some(faces));
        proof {
            assert forall|b: BlockID| b != block implies #[trigger] self.entry(b) == old(self).entry(b) by {
                assert(b.index_spec() != block.index_spec());
            }
        }
    }

    pub fn get(&self, block: BlockID) -> (r: Option<BlockFaces<TextureLayer>>)
        requires
            self.wf(),
        ensures
            r == self.entry(block),
    {
        self.faces[block.index()]
    }
}

/// Corner of the quad that the k-th vertex of a face stands on: two
/// triangles, corners 0 1 2 and 2 3 0.
pub open spec fn quad_corner(k: int) -> int {
    if k == 0 { 0 } else if k == 1 { 1 } else if k == 2 { 2 } else if k == 3 { 2 } else if k == 4 { 3 } else { 0 }
}

pub open spec fn face_bit(c: &Chunk, i: int, f: int) -> bool {
    bits_of(c.active_faces)[6 * i + f]
}

pub open spec fn uv_of_block(pack: &TexturePack, b: BlockID) -> UVFaces {
    uv_of_every_face(pack.entry(b).unwrap())
}

pub open spec fn vertex_spec(c: &Chunk, pack: &TexturePack, i: int, f: int, k: int) -> Vertex {
    let q = quad_corner(k);
    let p = corner_pos(f, q);
    Vertex {
        x: (index_x(i) + p.0) as u32,
        y: (index_y(i) + p.1) as u32,
        z: (index_z(i) + p.2) as u32,
        layer: layer_of_face(uv_of_block(pack, c.blocks@[i]), f),
        face: f as u8,
        ao: c.ao_vertices@[24 * i + 4 * f + q],
    }
}

/// The six vertices of face `f` of block `i`, or none when the face is hidden.
pub open spec fn face_mesh(c: &Chunk, pack: &TexturePack, i: int, f: int) -> Seq<Vertex> {
    if face_bit(c, i, f) {
        Seq::new(6, |k: int| vertex_spec(c, pack, i, f, k))
    } else {
        Seq::empty()
    }
}

/// The vertices of the first `nf` faces of block `i`.
pub open spec fn block_mesh(c: &Chunk, pack: &TexturePack, i: int, nf: int) -> Seq<Vertex>
    decreases nf,
{
    if nf <= 0 {
        Seq::empty()
    } else {
        block_mesh(c, pack, i, nf - 1) + face_mesh(c, pack, i, nf - 1)
    }
}

/// The vertices of the first `n` blocks in scan order: air draws nothing.
pub open spec fn mesh_upto(c: &Chunk, pack: &TexturePack, n: int) -> Seq<Vertex>
    decreases n,
{
    if n <= 0 {
        Seq::empty()
    } else {
        mesh_upto(c, pack, n - 1) + if c.blocks@[n - 1].air() {
            Seq::empty()
        } else {
            block_mesh(c, pack, n - 1, 6)
        }
    }
}

/// Number of drawn faces among the first `nf` faces of block `i`.
pub open spec fn block_face_count(c: &Chunk, i: int, nf: int) -> nat
    decreases nf,
{
    if nf <= 0 {
        0
    } else {
        block_face_count(c, i, nf - 1) + if face_bit(c, i, nf - 1) { 1nat } else { 0nat }
    }
}

/// Number of drawn faces of the non-air blocks among the first `n`.
pub open spec fn face_count_upto(c: &Chunk, n: int) -> nat
    decreases n,
{
    if n <= 0 {
        0
    } else {
        face_count_upto(c, n - 1) + if c.blocks@[n - 1].air() { 0nat } else { block_face_count(c, n - 1, 6) }
    }
}

/// Number of drawn faces of the chunk's non-air blocks.
pub open spec fn visible_face_count(c: &Chunk) -> nat {
    face_count_upto(c, 4096)
}

/// Number of drawn faces among the first `n` blocks, air included.
pub open spec fn all_face_count_upto(c: &Chunk, n: int) -> nat
    decreases n,
{
    if n <= 0 {
        0
    } else {
        all_face_count_upto(c, n - 1) + block_face_count(c, n - 1, 6)
    }
}

/// No air block of the chunk has a face bit set.
pub open spec fn air_draws_nothing(c: &Chunk) -> bool {
    forall|i: int, f: int| 0 <= i < 4096 && 0 <= f < 6 && c.blocks@[i].air() ==> !#[trigger] face_bit(c, i, f)
}

pub proof fn lemma_block_face_count_zero(c: &Chunk, i: int, nf: int)
    requires
        forall|f: int| 0 <= f < nf ==> !#[trigger] face_bit(c, i, f),
    ensures
        block_face_count(c, i, nf) == 0,
    decreases nf,
{
    if nf > 0 {
        lemma_block_face_count_zero(c, i, nf - 1);
    }
}

pub proof fn lemma_face_counts_agree(c: &Chunk, n: int)
    requires
        air_draws_nothing(c),
        n <= 4096,
    ensures
        face_count_upto(c, n) == all_face_count_upto(c, n),
    decreases n,
{
    if n > 0 {
        lemma_face_counts_agree(c, n - 1);
        if c.blocks@[n - 1].air() {
            lemma_block_face_count_zero(c, n - 1, 6);
        }
    }
}

/// Where no air block carries a face bit (as after its faces were
/// recomputed), the mesh `upload_to_gpu` builds has six vertices for every
/// set face bit of the chunk.
pub proof fn lemma_vertices_cover_all_bits(c: &Chunk, pack: &TexturePack)
    requires
        air_draws_nothing(c),
    ensures
        mesh_upto(c, pack, 4096).len() == 6 * all_face_count_upto(c, 4096),
{
    lemma_mesh_len(c, pack, 4096);
    lemma_face_counts_agree(c, 4096);
}

/// Block `i` is drawn but its kind has no texture.
pub open spec fn needs_texture(c: &Chunk, pack: &TexturePack, i: int) -> bool {
    &&& !c.blocks@[i].air()
    &&& exists|f: int| 0 <= f < 6 && face_bit(c, i, f)
    &&& pack.entry(c.blocks@[i]).is_none()
}

pub proof fn lemma_block_mesh_same(c1: &Chunk, c2: &Chunk, pack: &TexturePack, i: int, nf: int)
    requires
        c1.blocks == c2.blocks,
        c1.active_faces == c2.active_faces,
        c1.ao_vertices == c2.ao_vertices,
    ensures
        block_mesh(c1, pack, i, nf) == block_mesh(c2, pack, i, nf),
    decreases nf,
{
    if nf > 0 {
        lemma_block_mesh_same(c1, c2, pack, i, nf - 1);
        assert(face_mesh(c1, pack, i, nf - 1) =~= face_mesh(c2, pack, i, nf - 1));
    }
}

/// A mesh depends on the blocks, face bits and corner weights alone.
pub proof fn lemma_mesh_same(c1: &Chunk, c2: &Chunk, pack: &TexturePack, n: int)
    requires
        c1.blocks == c2.blocks,
        c1.active_faces == c2.active_faces,
        c1.ao_vertices == c2.ao_vertices,
    ensures
        mesh_upto(c1, pack, n) == mesh_upto(c2, pack, n),
    decreases n,
{
    if n > 0 {
        lemma_mesh_same(c1, c2, pack, n - 1);
        lemma_block_mesh_same(c1, c2, pack, n - 1, 6);
    }
}

pub proof fn lemma_block_mesh_len(c: &Chunk, pack: &TexturePack, i: int, nf: int)
    ensures
        block_mesh(c, pack, i, nf).len() == 6 * block_face_count(c, i, nf),
    decreases nf,
{
    if nf > 0 {
        lemma_block_mesh_len(c, pack, i, nf - 1);
    }
}

pub proof fn lemma_block_mesh_hidden(c: &Chunk, pack: &TexturePack, i: int, nf: int)
    requires
        nf <= 6,
        forall|f: int| 0 <= f < 6 ==> !face_bit(c, i, f),
    ensures
        block_mesh(c, pack, i, nf) == Seq::<Vertex>::empty(),
    decreases nf,
{
    if nf > 0 {
        lemma_block_mesh_hidden(c, pack, i, nf - 1);
        assert(block_mesh(c, pack, i, nf) =~= Seq::<Vertex>::empty());
    }
}

/// Six vertices for each drawn face of a non-air block.
pub proof fn lemma_mesh_len(c: &Chunk, pack: &TexturePack, n: int)
    ensures
        mesh_upto(c, pack, n).len() == 6 * face_count_upto(c, n),
    decreases n,
{
    if n > 0 {
        lemma_mesh_len(c, pack, n - 1);
        lemma_block_mesh_len(c, pack, n - 1, 6);
    }
}

pub proof fn lemma_face_count_bound(c: &Chunk, n: int)
    requires
        0 <= n,
    ensures
        face_count_upto(c, n) <= 6 * n,
    decreases n,
{
    if n > 0 {
        lemma_face_count_bound(c, n - 1);
        assert(block_face_count(c, n - 1, 6) <= 6) by {
            lemma_block_face_count_bound(c, n - 1, 6);
        }
    }
}

pub proof fn lemma_block_face_count_bound(c: &Chunk, i: int, nf: int)
    requires
        0 <= nf,
    ensures
        block_face_count(c, i, nf) <= nf,
    decreases nf,
{
    if nf > 0 {
        lemma_block_face_count_bound(c, i, nf - 1);
    }
}

fn push_face(out: &mut Vec<Vertex>, c: &Chunk, pack: &TexturePack, i: usize, f: usize, uv: UVFaces)
    requires
        c.wf(),
        pack.wf(),
        i < 4096,
        f < 6,
        uv == uv_of_block(pack, c.blocks@[i as int]),
    ensures
        final(out)@ == old(out)@ + Seq::new(6, |k: int| vertex_spec(c, pack, i as int, f as int, k)),
{
    let ghost start = out@;
    let (bx, by, bz) = coords_of_index(i);
    let layer = face_layer(uv, f);
    let mut k: usize = 0;
    while k < 6
        invariant
            c.wf(),
            i < 4096,
            f < 6,
            k <= 6,
            bx < 16 && by < 16 && bz < 16,
            bx as int == index_x(i as int),
            by as int == index_y(i as int),
            bz as int == index_z(i as int),
            layer == layer_of_face(uv_of_block(pack, c.blocks@[i as int]), f as int),
            out@ == start + Seq::new(k as nat, |j: int| vertex_spec(c, pack, i as int, f as int, j)),
        decreases 6 - k,
    {
        let q: usize = if k == 0 { 0 } else if k == 1 { 1 } else if k == 2 { 2 } else if k == 3 { 2 } else if k == 4 { 3 } else { 0 };
        let p = face_corner(f, q);
        let v = Vertex {
            x: bx + p.0,
            y: by + p.1,
            z: bz + p.2,
            layer,
            face: f as u8,
            ao: c.ao_vertices[24 * i + 4 * f + q],
        };
        out.push(v);
        proof {
            assert(v == vertex_spec(c, pack, i as int, f as int, k as int));
            assert(out@ =~= start + Seq::new((k + 1) as nat, |j: int| vertex_spec(c, pack, i as int, f as int, j)));
        }
        k += 1;
    }
}

impl Chunk {
    /// Builds the chunk's mesh: for each non-air block in scan order, six
    /// vertices per drawn face, and records how many were emitted. Fails
    /// with the first drawn block kind that the pack has no texture for,
    /// leaving the chunk as it was.
    pub fn upload_to_gpu(&mut self, texture_pack: &TexturePack) -> (r: Result<Vec<Vertex>, BlockID>)
        requires
            old(self).wf(),
            texture_pack.wf(),
        ensures
            final(self).wf(),
            final(self).blocks == old(self).blocks,
            final(self).active_faces == old(self).active_faces,
            final(self).ao_vertices == old(self).ao_vertices,
            final(self).number_of_opaque_blocks == old(self).number_of_opaque_blocks,
            final(self).number_of_transparent_blocks == old(self).number_of_transparent_blocks,
            final(self).is_rendered == old(self).is_rendered,
            final(self).is_generated == old(self).is_generated,
            final(self).is_uploaded_to_gpu == old(self).is_uploaded_to_gpu,
            r.is_ok() == forall|i: int| 0 <= i < 4096 ==> !needs_texture(old(self), texture_pack, i),
            r matches Ok(v) ==> v@ == mesh_upto(old(self), texture_pack, 4096) && final(self).vertices_drawn
                == v@.len() && v@.len() == 6 * visible_face_count(old(self)),
            r matches Err(b) ==> final(self).vertices_drawn == old(self).vertices_drawn && exists|i: int|
                0 <= i < 4096 && needs_texture(old(self), texture_pack, i) && b == old(self).blocks@[i]
                    && forall|j: int| 0 <= j < i ==> !needs_texture(old(self), texture_pack, j),
    {
        let mut out: Vec<Vertex> = Vec::new();
        let mut i: usize = 0;
        while i < 4096
            invariant
                self.wf(),
                texture_pack.wf(),
                i <= 4096,
                out@ == mesh_upto(self, texture_pack, i as int),
                forall|j: int| 0 <= j < i ==> !needs_texture(self, texture_pack, j),
            decreases 4096 - i,
        {
            let block = self.blocks[i];
            if !block.is_air() {
                let mut any = false;
                let mut f: usize = 0;
                while f < 6
                    invariant
                        self.wf(),
                        i < 4096,
                        f <= 6,
                        any == exists|g: int| 0 <= g < f && face_bit(self, i as int, g),
                    decreases 6 - f,
                {
                    let b = bits_get(&self.active_faces, 6 * i + f);
                    proof {
                        assert(b == Some(face_bit(self, i as int, f as int)));
                    }
                    if b == Some(true) {
                        any = true;
                    }
                    proof {
                        if !face_bit(self, i as int, f as int) {
                            assert forall|g: int| 0 <= g < f + 1 && face_bit(self, i as int, g) implies 0 <= g < f by {}
                        }
                    }
                    f += 1;
                }
                if any {
                    let faces = match texture_pack.get(block) {
                        Some(faces) => faces,
                        None => {
                            proof {
                                assert(needs_texture(self, texture_pack, i as int));
                            }
                            return Err(block);
                        },
                    };
                    let uv = get_uv_of_every_face(faces);
                    let ghost before = out@;
                    let mut f: usize = 0;
                    while f < 6
                        invariant
                            self.wf(),
                            texture_pack.wf(),
                            i < 4096,
                            f <= 6,
                            uv == uv_of_block(texture_pack, self.blocks@[i as int]),
                            out@ == before + block_mesh(self, texture_pack, i as int, f as int),
                        decreases 6 - f,
                    {
                        if bits_get(&self.active_faces, 6 * i + f) == Some(true) {
                            push_face(&mut out, self, texture_pack, i, f, uv);
                        }
                        proof {
                            assert(out@ =~= before + block_mesh(self, texture_pack, i as int, f as int + 1));
                        }
                        f += 1;
                    }
                } else {
                    proof {
                        lemma_block_mesh_hidden(self, texture_pack, i as int, 6);
                    }
                }
            }
            proof {
                assert(out@ =~= mesh_upto(self, texture_pack, i as int + 1));
            }
            i += 1;
        }
        proof {
            lemma_mesh_len(self, texture_pack, 4096);
            lemma_face_count_bound(self, 4096);
        }
        self.vertices_drawn = out.len() as u32;
        Ok(out)
    }
}

} // verus!
