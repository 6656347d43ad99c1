use vstd::prelude::*;
use bit_vec::BitVec;

use crate::bits::{bits_of, bits_filled, bits_clear, bits_set};
use crate::block::{BlockID, block_from_sample};
use crate::coords::{block_index, index_of, lemma_block_index, CHUNK_VOLUME};

verus! {

/// Number of face bits a chunk keeps: six per block.
pub const FACE_BITS: usize = 24576;

/// Number of ambient occlusion weights a chunk keeps: four corners of six faces per block.
pub const AO_WEIGHTS: usize = 98304;

/// Relies on rand::thread_rng and rand::Rng::gen_range: a value drawn by
/// the thread's generator from `low` up to, not including, `high`. It
/// panics only when `low >= high`.
#[verifier::external_body]
fn sample_in_range(low: u32, high: u32) -> (r: u32)
    requires
        low < high,
    ensures
        low <= r < high,
{
    rand::Rng::gen_range(&mut rand::thread_rng(), low, high)
}

/// Number of opaque blocks in `s`.
pub open spec fn count_opaque(s: Seq<BlockID>) -> nat
    decreases s.len(),
{
    if s.len() == 0 {
        0
    } else {
        count_opaque(s.drop_last()) + if s.last().opaque() { 1nat } else { 0nat }
    }
}

/// Number of transparent blocks in `s` that are not air.
pub open spec fn count_transparent(s: Seq<BlockID>) -> nat
    decreases s.len(),
{
    if s.len() == 0 {
        0
    } else {
        count_transparent(s.drop_last()) + if s.last().transparent_not_air() { 1nat } else { 0nat }
    }
}

/// Number of blocks in `s` that are not air.
pub open spec fn count_non_air(s: Seq<BlockID>) -> nat
    decreases s.len(),
{
    if s.len() == 0 {
        0
    } else {
        count_non_air(s.drop_last()) + if !s.last().air() { 1nat } else { 0nat }
    }
}

pub open spec fn opaque_weight(b: BlockID) -> int {
    if b.opaque() { 1 } else { 0 }
}

pub open spec fn transparent_weight(b: BlockID) -> int {
    if b.transparent_not_air() { 1 } else { 0 }
}

pub proof fn lemma_count_update(s: Seq<BlockID>, i: int, b: BlockID)
    requires
        0 <= i < s.len(),
    ensures
        count_opaque(s.update(i, b)) == count_opaque(s) - opaque_weight(s[i]) + opaque_weight(b),
        count_transparent(s.update(i, b)) == count_transparent(s) - transparent_weight(s[i])
            + transparent_weight(b),
    decreases s.len(),
{
    let t = s.update(i, b);
    if i == s.len() - 1 {
        assert(t.drop_last() =~= s.drop_last());
    } else {
        lemma_count_update(s.drop_last(), i, b);
        assert(t.drop_last() =~= s.drop_last().update(i, b));
    }
}

pub proof fn lemma_count_bounds(s: Seq<BlockID>)
    ensures
        count_opaque(s) <= s.len(),
        count_transparent(s) <= s.len(),
        count_opaque(s) + count_transparent(s) == count_non_air(s),
    decreases s.len(),
{
    if s.len() > 0 {
        lemma_count_bounds(s.drop_last());
    }
}

pub proof fn lemma_count_uniform(s: Seq<BlockID>, b: BlockID)
    requires
        forall|i: int| 0 <= i < s.len() ==> s[i] == b,
    ensures
        count_opaque(s) == if b.opaque() { s.len() } else { 0 },
        count_transparent(s) == if b.transparent_not_air() { s.len() } else { 0 },
    decreases s.len(),
{
    if s.len() > 0 {
        lemma_count_uniform(s.drop_last(), b);
    }
}

pub proof fn lemma_count_all_opaque(s: Seq<BlockID>)
    requires
        forall|i: int| 0 <= i < s.len() ==> s[i].opaque(),
    ensures
        count_opaque(s) == s.len(),
        count_transparent(s) == 0,
    decreases s.len(),
{
    if s.len() > 0 {
        lemma_count_all_opaque(s.drop_last());
    }
}

/// `s` with the elements from `start` on replaced by `part`.
pub open spec fn splice<T>(s: Seq<T>, start: int, part: Seq<T>) -> Seq<T> {
    Seq::new(s.len(), |k: int| if start <= k < start + part.len() { part[k - start] } else { s[k] })
}

/// The opaque and transparent counts of a well-formed chunk add up to the
/// number of its non-air blocks; `set_block` keeps the chunk well-formed,
/// so this holds after any sequence of writes.
pub proof fn lemma_counts_track_non_air(c: &Chunk)
    requires
        c.wf(),
    ensures
        c.number_of_opaque_blocks + c.number_of_transparent_blocks == count_non_air(c.blocks@),
{
    lemma_count_bounds(c.blocks@);
}

/// A chunk of stone is fully opaque and not empty; a freshly reset chunk is empty.
pub proof fn lemma_opacity_predicates(stone: &Chunk, fresh: &Chunk)
    requires
        stone.wf(),
        forall|i: int| 0 <= i < 4096 ==> #[trigger] stone.blocks@[i] == BlockID::Stone,
        fresh.is_fresh(),
    ensures
        stone.fully_opaque(),
        !stone.empty_spec(),
        fresh.empty_spec(),
{
    lemma_count_uniform(stone.blocks@, BlockID::Stone);
    lemma_count_bounds(stone.blocks@);
    lemma_count_uniform(fresh.blocks@, BlockID::Air);
    lemma_count_bounds(fresh.blocks@);
}

/// A cube of 16 x 16 x 16 blocks with what meshing derives from them.
pub struct Chunk {
    /// Safe to draw.
    pub is_rendered: bool,
    /// Terrain writing and face computation have run.
    pub is_generated: bool,
    /// The mesh is present and current.
    pub is_uploaded_to_gpu: bool,
    /// Blocks in row-major order: index `y * 256 + z * 16 + x`.
    pub blocks: Vec<BlockID>,
    pub number_of_opaque_blocks: u32,
    pub number_of_transparent_blocks: u32,
    /// Bit `6 * i + f` is set when face `f` of block `i` is drawn.
    pub active_faces: BitVec,
    /// Weight `24 * i + 4 * f + c` darkens corner `c` of face `f` of block `i`.
    pub ao_vertices: Vec<u8>,
    /// Vertices in the current mesh.
    pub vertices_drawn: u32,
}

impl Chunk {
    pub open spec fn wf(&self) -> bool {
        &&& self.blocks@.len() == 4096
        &&& bits_of(self.active_faces).len() == FACE_BITS
        &&& self.ao_vertices@.len() == AO_WEIGHTS
        &&& self.number_of_opaque_blocks as nat == count_opaque(self.blocks@)
        &&& self.number_of_transparent_blocks as nat == count_transparent(self.blocks@)
    }

    pub open spec fn block_spec(&self, x: int, y: int, z: int) -> BlockID {
        self.blocks@[block_index(x, y, z)]
    }

    pub open spec fn fully_opaque(&self) -> bool {
        count_opaque(self.blocks@) == 4096
    }

    pub open spec fn empty_spec(&self) -> bool {
        count_non_air(self.blocks@) == 0
    }

    pub open spec fn is_fresh(&self) -> bool {
        &&& self.wf()
        &&& forall|i: int| 0 <= i < 4096 ==> #[trigger] self.blocks@[i] == BlockID::Air
        &&& self.number_of_opaque_blocks == 0
        &&& self.number_of_transparent_blocks == 0
        &&& bits_of(self.active_faces) == Seq::new(FACE_BITS as nat, |_i: int| false)
        &&& self.ao_vertices@ == Seq::new(AO_WEIGHTS as nat, |_i: int| 0u8)
        &&& !self.is_rendered && !self.is_generated && !self.is_uploaded_to_gpu
        &&& self.vertices_drawn == 0
    }

    pub fn new() -> (r: Chunk)
        ensures
            r.is_fresh(),
    {
        Chunk::empty()
    }

    /// A chunk where every block is `block`.
    pub fn full_of_block(block: BlockID) -> (r: Chunk)
        ensures
            r.wf(),
            forall|i: int| 0 <= i < 4096 ==> #[trigger] r.blocks@[i] == block,
            bits_of(r.active_faces) == Seq::new(FACE_BITS as nat, |_i: int| false),
            r.ao_vertices@ == Seq::new(AO_WEIGHTS as nat, |_i: int| 0u8),
            !r.is_rendered && !r.is_generated && !r.is_uploaded_to_gpu,
            r.vertices_drawn == 0,
    {
        let mut blocks: Vec<BlockID> = Vec::new();
        let mut i: usize = 0;
        while i < 4096
            invariant
                i <= 4096,
                blocks@.len() == i,
                forall|j: int| 0 <= j < i ==> #[trigger] blocks@[j] == block,
            decreases 4096 - i,
        {
            blocks.push(block);
            i += 1;
        }
        let mut ao: Vec<u8> = Vec::new();
        let mut k: usize = 0;
        while k < AO_WEIGHTS
            invariant
                k <= AO_WEIGHTS,
                ao@ == Seq::new(k as nat, |_i: int| 0u8),
            decreases AO_WEIGHTS - k,
        {
            ao.push(0);
            k += 1;
            assert(ao@ =~= Seq::new(k as nat, |_i: int| 0u8));
        }
        proof {
            lemma_count_uniform(blocks@, block);
        }
        let opaque: u32 = if block.is_opaque() { CHUNK_VOLUME } else { 0 };
        let transparent: u32 = if block.is_transparent_not_air() { CHUNK_VOLUME } else { 0 };
        Chunk {
            is_rendered: false,
            is_generated: false,
            is_uploaded_to_gpu: false,
            blocks,
            number_of_opaque_blocks: opaque,
            number_of_transparent_blocks: transparent,
            active_faces: bits_filled(FACE_BITS, false),
            ao_vertices: ao,
            vertices_drawn: 0,
        }
    }

    /// A chunk of air.
    pub fn empty() -> (r: Chunk)
        ensures
            r.is_fresh(),
    {
        let r = Chunk::full_of_block(BlockID::Air);
        proof {
            lemma_count_uniform(r.blocks@, BlockID::Air);
        }
        r
    }

    /// A chunk of random opaque blocks.
    pub fn random() -> (r: Chunk)
        ensures
            r.wf(),
            forall|i: int| 0 <= i < 4096 ==> (#[trigger] r.blocks@[i]).opaque(),
            r.number_of_opaque_blocks == 4096,
            r.number_of_transparent_blocks == 0,
    {
        let mut c = Chunk::empty();
        let mut i: usize = 0;
        while i < 4096
            invariant
                i <= 4096,
                c.wf(),
                forall|j: int| 0 <= j < i ==> (#[trigger] c.blocks@[j]).opaque(),
            decreases 4096 - i,
        {
            let sample: u32 = sample_in_range(1, 4);
            c.set_block_at(i, block_from_sample(sample));
            i += 1;
        }
        proof {
            lemma_count_all_opaque(c.blocks@);
        }
        c
    }

    /// Empties the chunk for reuse: air everywhere, counts, face bits, weights
    /// and flags cleared.
    pub fn reset(&mut self)
        requires
            old(self).wf(),
        ensures
            final(self).is_fresh(),
    {
        let mut i: usize = 0;
        while i < 4096
            invariant
                i <= 4096,
                self.blocks@.len() == 4096,
                self.ao_vertices@.len() == AO_WEIGHTS,
                bits_of(self.active_faces).len() == FACE_BITS,
                forall|j: int| 0 <= j < i ==> #[trigger] self.blocks@[j] == BlockID::Air,
            decreases 4096 - i,
        {
            self.blocks.set(i, BlockID::Air);
            i += 1;
        }
        let mut k: usize = 0;
        while k < AO_WEIGHTS
            invariant
                k <= AO_WEIGHTS,
                self.ao_vertices@.len() == AO_WEIGHTS,
                self.blocks@.len() == 4096,
                bits_of(self.active_faces).len() == FACE_BITS,
                forall|j: int| 0 <= j < 4096 ==> #[trigger] self.blocks@[j] == BlockID::Air,
                forall|j: int| 0 <= j < k ==> #[trigger] self.ao_vertices@[j] == 0u8,
            decreases AO_WEIGHTS - k,
        {
            self.ao_vertices.set(k, 0);
            k += 1;
        }
        assert(self.ao_vertices@ =~= Seq::new(AO_WEIGHTS as nat, |_i: int| 0u8));
        bits_clear(&mut self.active_faces);
        proof {
            lemma_count_uniform(self.blocks@, BlockID::Air);
        }
        self.number_of_opaque_blocks = 0;
        self.number_of_transparent_blocks = 0;
        self.unload_from_gpu();
        self.is_rendered = false;
        self.is_generated = false;
        self.is_uploaded_to_gpu = false;
    }

    pub fn is_fully_opaque(&self) -> (r: bool)
        requires
            self.wf(),
        ensures
            r == self.fully_opaque(),
    {
        self.number_of_opaque_blocks == CHUNK_VOLUME
    }

    pub fn is_empty(&self) -> (r: bool)
        requires
            self.wf(),
        ensures
            r == self.empty_spec(),
    {
        proof {
            lemma_count_bounds(self.blocks@);
        }
        self.number_of_opaque_blocks == 0 && self.number_of_transparent_blocks == 0
    }

    pub fn get_block(&self, x: u32, y: u32, z: u32) -> (r: BlockID)
        requires
            self.wf(),
            x < 16,
            y < 16,
            z < 16,
        ensures
            r == self.block_spec(x as int, y as int, z as int),
    {
        self.blocks[index_of(x, y, z)]
    }

    /// Writes a block by its index in the block array, keeping the counts.
    pub fn set_block_at(&mut self, index: usize, block: BlockID)
        requires
            old(self).wf(),
            index < 4096,
        ensures
            final(self).wf(),
            final(self).blocks@ == old(self).blocks@.update(index as int, block),
            final(self).active_faces == old(self).active_faces,
            final(self).ao_vertices == old(self).ao_vertices,
            final(self).is_rendered == old(self).is_rendered,
            final(self).is_generated == old(self).is_generated,
            final(self).is_uploaded_to_gpu == old(self).is_uploaded_to_gpu,
            final(self).vertices_drawn == old(self).vertices_drawn,
    {
        let target = self.blocks[index];
        proof {
            lemma_count_update(self.blocks@, index as int, block);
            lemma_count_bounds(self.blocks@);
            lemma_count_bounds(self.blocks@.update(index as int, block));
        }
        if target.is_air() {
            if block.is_transparent_not_air() {
                self.number_of_transparent_blocks = self.number_of_transparent_blocks + 1;
            } else if block.is_opaque() {
                self.number_of_opaque_blocks = self.number_of_opaque_blocks + 1;
            }
        } else if target.is_transparent_not_air() {
            if block.is_air() {
                self.number_of_transparent_blocks = self.number_of_transparent_blocks - 1;
            } else if block.is_opaque() {
                self.number_of_transparent_blocks = self.number_of_transparent_blocks - 1;
                self.number_of_opaque_blocks = self.number_of_opaque_blocks + 1;
            }
        } else if target.is_opaque() {
            if block.is_air() {
                self.number_of_opaque_blocks = self.number_of_opaque_blocks - 1;
            } else if block.is_transparent_not_air() {
                self.number_of_transparent_blocks = self.number_of_transparent_blocks + 1;
                self.number_of_opaque_blocks = self.number_of_opaque_blocks - 1;
            }
        }
        self.blocks.set(index, block);
    }

    /// Writes a block at chunk-local coordinates, keeping the counts.
    pub fn set_block(&mut self, block: BlockID, x: u32, y: u32, z: u32)
        requires
            old(self).wf(),
            x < 16,
            y < 16,
            z < 16,
        ensures
            final(self).wf(),
            final(self).blocks@ == old(self).blocks@.update(
                block_index(x as int, y as int, z as int),
                block,
            ),
            final(self).active_faces == old(self).active_faces,
            final(self).ao_vertices == old(self).ao_vertices,
            final(self).is_rendered == old(self).is_rendered,
            final(self).is_generated == old(self).is_generated,
            final(self).is_uploaded_to_gpu == old(self).is_uploaded_to_gpu,
            final(self).vertices_drawn == old(self).vertices_drawn,
    {
        let index = index_of(x, y, z);
        self.set_block_at(index, block);
    }

    /// The six face bits of block `i`.
    pub open spec fn faces_at(&self, i: int) -> Seq<bool> {
        bits_of(self.active_faces).subrange(6 * i, 6 * i + 6)
    }

    /// The 24 corner weights of block `i`.
    pub open spec fn ao_at(&self, i: int) -> Seq<u8> {
        self.ao_vertices@.subrange(24 * i, 24 * i + 24)
    }

    /// Replaces the face bits and corner weights of block `i`.
    pub fn write_block_derived(&mut self, i: usize, faces: &[bool; 6], ao: &Vec<u8>)
        requires
            old(self).wf(),
            i < 4096,
            ao@.len() == 24,
        ensures
            final(self).wf(),
            final(self).blocks == old(self).blocks,
            final(self).number_of_opaque_blocks == old(self).number_of_opaque_blocks,
            final(self).number_of_transparent_blocks == old(self).number_of_transparent_blocks,
            final(self).is_rendered == old(self).is_rendered,
            final(self).is_generated == old(self).is_generated,
            final(self).is_uploaded_to_gpu == old(self).is_uploaded_to_gpu,
            final(self).vertices_drawn == old(self).vertices_drawn,
            bits_of(final(self).active_faces) == splice(bits_of(old(self).active_faces), 6 * i as int, faces@),
            final(self).ao_vertices@ == splice(old(self).ao_vertices@, 24 * i as int, ao@),
    {
        let ghost bits0 = bits_of(self.active_faces);
        let ghost s0 = *self;
        let mut f: usize = 0;
        while f < 6
            invariant
                f <= 6,
                self.blocks == s0.blocks,
                self.ao_vertices == s0.ao_vertices,
                self.number_of_opaque_blocks == s0.number_of_opaque_blocks,
                self.number_of_transparent_blocks == s0.number_of_transparent_blocks,
                self.is_rendered == s0.is_rendered,
                self.is_generated == s0.is_generated,
                self.is_uploaded_to_gpu == s0.is_uploaded_to_gpu,
                self.vertices_drawn == s0.vertices_drawn,
                i < 4096,
                bits_of(self.active_faces).len() == FACE_BITS,
                forall|k: int| 0 <= k < FACE_BITS ==> #[trigger] bits_of(self.active_faces)[k] == if 6 * i <= k < 6 * i + f {
                    faces@[k - 6 * i]
                } else {
                    bits0[k]
                },
            decreases 6 - f,
        {
            bits_set(&mut self.active_faces, 6 * i + f, faces[f]);
            f += 1;
        }
        assert(bits_of(self.active_faces) =~= splice(bits0, 6 * i as int, faces@));
        let ghost ao0 = self.ao_vertices@;
        let ghost s1 = *self;
        let mut k: usize = 0;
        while k < 24
            invariant
                k <= 24,
                self.blocks == s1.blocks,
                self.active_faces == s1.active_faces,
                self.number_of_opaque_blocks == s1.number_of_opaque_blocks,
                self.number_of_transparent_blocks == s1.number_of_transparent_blocks,
                self.is_rendered == s1.is_rendered,
                self.is_generated == s1.is_generated,
                self.is_uploaded_to_gpu == s1.is_uploaded_to_gpu,
                self.vertices_drawn == s1.vertices_drawn,
                i < 4096,
                ao@.len() == 24,
                self.ao_vertices@.len() == AO_WEIGHTS,
                forall|j: int| 0 <= j < AO_WEIGHTS ==> #[trigger] self.ao_vertices@[j] == if 24 * i <= j < 24 * i + k {
                    ao@[j - 24 * i]
                } else {
                    ao0[j]
                },
            decreases 24 - k,
        {
            self.ao_vertices.set(24 * i + k, ao[k]);
            k += 1;
        }
        assert(self.ao_vertices@ =~= splice(ao0, 24 * i as int, ao@));
    }

    /// Forgets the mesh: nothing is drawn until the next upload.
    pub fn unload_from_gpu(&mut self)
        ensures
            final(self).vertices_drawn == 0,
            final(self).blocks == old(self).blocks,
            final(self).number_of_opaque_blocks == old(self).number_of_opaque_blocks,
            final(self).number_of_transparent_blocks == old(self).number_of_transparent_blocks,
            final(self).active_faces == old(self).active_faces,
            final(self).ao_vertices == old(self).ao_vertices,
            final(self).is_rendered == old(self).is_rendered,
            final(self).is_generated == old(self).is_generated,
            final(self).is_uploaded_to_gpu == old(self).is_uploaded_to_gpu,
    {
        self.vertices_drawn = 0;
    }
}


/// Sixteen chunks stacked along Y, with the column's height map and
/// whether trees were placed on it.
pub struct ChunkColumn {
    pub chunks: Vec<Chunk>,
    /// Highest non-air Y of each cell, at index `16 * z + x`.
    pub heighest_blocks: Vec<u32>,
    pub has_foliage: bool,
}

impl ChunkColumn {
    pub open spec fn wf(&self) -> bool {
        &&& self.chunks@.len() == 16
        &&& forall|i: int| 0 <= i < 16 ==> (#[trigger] self.chunks@[i]).wf()
        &&& self.heighest_blocks@.len() == 256
    }

    /// Every chunk fresh, heights zero, no foliage: ready for generation.
    pub open spec fn is_fresh(&self) -> bool {
        &&& self.wf()
        &&& forall|i: int| 0 <= i < 16 ==> (#[trigger] self.chunks@[i]).is_fresh()
        &&& forall|i: int| 0 <= i < 256 ==> #[trigger] self.heighest_blocks@[i] == 0
        &&& !self.has_foliage
    }

    pub open spec fn block_spec(&self, x: int, y: int, z: int) -> BlockID {
        self.chunks@[y / 16].block_spec(x, y % 16, z)
    }

    fn zero_heights() -> (r: Vec<u32>)
        ensures
            r@.len() == 256,
            forall|i: int| 0 <= i < 256 ==> #[trigger] r@[i] == 0,
    {
        let mut v: Vec<u32> = Vec::new();
        let mut i: usize = 0;
        while i < 256
            invariant
                i <= 256,
                v@.len() == i,
                forall|j: int| 0 <= j < i ==> #[trigger] v@[j] == 0,
            decreases 256 - i,
        {
            v.push(0);
            i += 1;
        }
        v
    }

    /// A column of air.
    pub fn new() -> (r: ChunkColumn)
        ensures
            r.is_fresh(),
    {
        let mut chunks: Vec<Chunk> = Vec::new();
        let mut i: usize = 0;
        while i < 16
            invariant
                i <= 16,
                chunks@.len() == i,
                forall|j: int| 0 <= j < i ==> (#[trigger] chunks@[j]).is_fresh(),
            decreases 16 - i,
        {
            chunks.push(Chunk::empty());
            i += 1;
        }
        ChunkColumn { chunks, heighest_blocks: ChunkColumn::zero_heights(), has_foliage: false }
    }

    /// A column where every block is `block`.
    pub fn full_of_block(block: BlockID) -> (r: ChunkColumn)
        ensures
            r.wf(),
            forall|c: int, i: int|
                0 <= c < 16 && 0 <= i < 4096 ==> #[trigger] r.chunks@[c].blocks@[i] == block,
    {
        let mut chunks: Vec<Chunk> = Vec::new();
        let mut i: usize = 0;
        while i < 16
            invariant
                i <= 16,
                chunks@.len() == i,
                forall|j: int| 0 <= j < i ==> (#[trigger] chunks@[j]).wf(),
                forall|c: int, j: int|
                    0 <= c < i && 0 <= j < 4096 ==> #[trigger] chunks@[c].blocks@[j] == block,
            decreases 16 - i,
        {
            chunks.push(Chunk::full_of_block(block));
            i += 1;
        }
        ChunkColumn { chunks, heighest_blocks: ChunkColumn::zero_heights(), has_foliage: false }
    }

    /// A column whose chunks are dirt and cobblestone in turn, dirt at the bottom.
    pub fn alternating() -> (r: ChunkColumn)
        ensures
            r.wf(),
            forall|c: int, i: int|
                0 <= c < 16 && 0 <= i < 4096 ==> #[trigger] r.chunks@[c].blocks@[i] == if c % 2
                    == 0 {
                    BlockID::Dirt
                } else {
                    BlockID::Cobblestone
                },
    {
        let mut chunks: Vec<Chunk> = Vec::new();
        let mut i: usize = 0;
        while i < 16
            invariant
                i <= 16,
                chunks@.len() == i,
                forall|j: int| 0 <= j < i ==> (#[trigger] chunks@[j]).wf(),
                forall|c: int, j: int|
                    0 <= c < i && 0 <= j < 4096 ==> #[trigger] chunks@[c].blocks@[j] == if c % 2
                        == 0 {
                        BlockID::Dirt
                    } else {
                        BlockID::Cobblestone
                    },
            decreases 16 - i,
        {
            let block = if i % 2 == 0 { BlockID::Dirt } else { BlockID::Cobblestone };
            chunks.push(Chunk::full_of_block(block));
            i += 1;
        }
        ChunkColumn { chunks, heighest_blocks: ChunkColumn::zero_heights(), has_foliage: false }
    }

    /// A column of random opaque blocks.
    pub fn random() -> (r: ChunkColumn)
        ensures
            r.wf(),
            forall|c: int, i: int|
                0 <= c < 16 && 0 <= i < 4096 ==> (#[trigger] r.chunks@[c].blocks@[i]).opaque(),
    {
        let mut chunks: Vec<Chunk> = Vec::new();
        let mut i: usize = 0;
        while i < 16
            invariant
                i <= 16,
                chunks@.len() == i,
                forall|j: int| 0 <= j < i ==> (#[trigger] chunks@[j]).wf(),
                forall|c: int, j: int|
                    0 <= c < i && 0 <= j < 4096 ==> (#[trigger] chunks@[c].blocks@[j]).opaque(),
            decreases 16 - i,
        {
            chunks.push(Chunk::random());
            i += 1;
        }
        ChunkColumn { chunks, heighest_blocks: ChunkColumn::zero_heights(), has_foliage: false }
    }

    pub fn get_chunk(&self, y: i32) -> (r: &Chunk)
        requires
            0 <= y < 16,
            self.wf(),
        ensures
            *r == self.chunks@[y as int],
    {
        &self.chunks[y as usize]
    }

    /// Writes a block at column-local coordinates, `y` up to 255.
    pub fn set_block(&mut self, block: BlockID, x: u32, y: u32, z: u32)
        requires
            old(self).wf(),
            x < 16,
            y < 256,
            z < 16,
        ensures
            final(self).wf(),
            final(self).heighest_blocks == old(self).heighest_blocks,
            final(self).has_foliage == old(self).has_foliage,
            final(self).chunks@ == old(self).chunks@.update(
                (y / 16) as int,
                final(self).chunks@[(y / 16) as int],
            ),
            final(self).chunks@[(y / 16) as int].blocks@ == old(self).chunks@[(y
                / 16) as int].blocks@.update(block_index(x as int, (y % 16) as int, z as int), block),
            final(self).chunks@[(y / 16) as int].is_uploaded_to_gpu == old(self).chunks@[(y
                / 16) as int].is_uploaded_to_gpu,
            forall|a: int, b: int, c: int|
                0 <= a < 16 && 0 <= b < 256 && 0 <= c < 16 ==> #[trigger] final(self).block_spec(a, b, c)
                    == if a == x && b == y && c == z {
                    block
                } else {
                    old(self).block_spec(a, b, c)
                },
    {
        let ch = (y / 16) as usize;
        self.chunks[ch].set_block(block, x, y % 16, z);
        proof {
            assert forall|a: int, b: int, c: int|
                0 <= a < 16 && 0 <= b < 256 && 0 <= c < 16 implies #[trigger] self.block_spec(a, b, c)
                    == if a == x && b == y && c == z {
                    block
                } else {
                    old(self).block_spec(a, b, c)
                } by {
                lemma_block_index(a, b % 16, c);
                lemma_block_index(x as int, (y % 16) as int, z as int);
                if b / 16 == ch as int && block_index(a, b % 16, c) == block_index(x as int, (y % 16) as int, z as int) {
                    assert(b == 16 * (b / 16) + b % 16);
                    assert(y == 16 * (y / 16) + y % 16);
                }
            }
        }
    }

    /// Empties the column for reuse.
    pub fn reset(&mut self)
        requires
            old(self).wf(),
        ensures
            final(self).is_fresh(),
    {
        let mut i: usize = 0;
        while i < 16
            invariant
                i <= 16,
                self.wf(),
                forall|j: int| 0 <= j < i ==> (#[trigger] self.chunks@[j]).is_fresh(),
            decreases 16 - i,
        {
            self.chunks[i].reset();
            i += 1;
        }
        let mut k: usize = 0;
        while k < 256
            invariant
                k <= 256,
                self.wf(),
                forall|j: int| 0 <= j < 16 ==> (#[trigger] self.chunks@[j]).is_fresh(),
                forall|j: int| 0 <= j < k ==> #[trigger] self.heighest_blocks@[j] == 0,
            decreases 256 - k,
        {
            self.heighest_blocks.set(k, 0);
            k += 1;
        }
        self.has_foliage = false;
    }
}

/// Walks all block coordinates of a chunk: x fastest, then z, then y.
pub struct BlockIterator {
    x: u32,
    y: u32,
    z: u32,
}

impl BlockIterator {
    pub closed spec fn wf(&self) -> bool {
        &&& self.x < 16
        &&& self.z < 16
        &&& self.y <= 16
        &&& self.y == 16 ==> self.x == 0 && self.z == 0
    }

    /// Index of the next coordinate to hand out; 4096 once done.
    pub closed spec fn position(&self) -> int {
        block_index(self.x as int, self.y as int, self.z as int)
    }

    pub fn new() -> (r: BlockIterator)
        ensures
            r.wf(),
            r.position() == 0,
    {
        BlockIterator { x: 0, y: 0, z: 0 }
    }

    /// The next coordinate, in row-major order, or `None` after the last.
    pub fn next(&mut self) -> (r: Option<(u32, u32, u32)>)
        requires
            old(self).wf(),
        ensures
            final(self).wf(),
            0 <= old(self).position() <= 4096,
            old(self).position() == 4096 ==> r.is_none() && final(self).position() == 4096,
            old(self).position() < 4096 ==> {
                &&& final(self).position() == old(self).position() + 1
                &&& r matches Some(t) && t.0 < 16 && t.1 < 16 && t.2 < 16
                    && block_index(t.0 as int, t.1 as int, t.2 as int) == old(self).position()
            },
    {
        if self.y == 16 {
            None
        } else {
            let to_return = (self.x, self.y, self.z);
            self.x = self.x + 1;
            if self.x >= 16 {
                self.x = 0;
                self.z = self.z + 1;
                if self.z >= 16 {
                    self.z = 0;
                    self.y = self.y + 1;
                }
            }
            Some(to_return)
        }
    }
}

} // verus!
