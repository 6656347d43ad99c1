use vstd::prelude::*;

use crate::bits::{bits_of, bits_set};
use crate::block::BlockID;
use crate::chunk::{splice, Chunk, ChunkColumn, BlockIterator};
use crate::mesh::{mesh_upto, needs_texture, TexturePack, Vertex};
use crate::occlusion::{compute_ao_of_block, face_normal, normal, ao_block, offset_of_index};
use crate::coords::{
    block_index, chunk_coord, chunk_of, coords_of_index, index_of, index_x, index_y, index_z,
    lemma_block_index, lemma_index_decompose, local_coord, local_of, world_of,
};

verus! {

/// An edit waiting to be propagated: priority, block written, world x, y, z.
pub type BlockChange = (i32, BlockID, i32, i32, i32);

/// The loaded world: columns by horizontal chunk coordinate, and the edits
/// whose faces and shading are still to be recomputed.
pub struct ChunkManager {
    /// Loaded columns; the one at index `i` stands at `column_keys[i]`.
    pub loaded_chunk_columns: Vec<ChunkColumn>,
    pub column_keys: Vec<(i32, i32)>,
    /// Edits of uploaded chunks, each listed once.
    pub block_changelist: Vec<BlockChange>,
}

pub proof fn lemma_coord_injective(a: int, b: int)
    requires
        chunk_of(a) == chunk_of(b),
        local_of(a) == local_of(b),
    ensures
        a == b,
{
    vstd::arithmetic::div_mod::lemma_fundamental_div_mod(a, 16);
    vstd::arithmetic::div_mod::lemma_fundamental_div_mod(b, 16);
}

pub proof fn lemma_local_bounds(a: int)
    ensures
        0 <= local_of(a) < 16,
        world_of(chunk_of(a), local_of(a)) == a,
{
    vstd::arithmetic::div_mod::lemma_fundamental_div_mod(a, 16);
}

pub open spec fn key_matches(keys: Seq<(i32, i32)>, i: int, x: int, z: int) -> bool {
    &&& 0 <= i < keys.len()
    &&& keys[i].0 == x
    &&& keys[i].1 == z
}

pub open spec fn key_index(keys: Seq<(i32, i32)>, x: int, z: int) -> int {
    choose|i: int| key_matches(keys, i, x, z)
}

/// Occupancy of the neighbourhood of a block, read from the chunk itself.
pub open spec fn occ_chunk(c: &Chunk, x: int, y: int, z: int) -> Seq<bool> {
    Seq::new(
        27,
        |j: int|
            !c.block_spec(
                x + offset_of_index(j).0,
                y + offset_of_index(j).1,
                z + offset_of_index(j).2,
            ).transparent_no_leaves(),
    )
}

/// Occupancy of the neighbourhood of a block away from the chunk's faces,
/// read from the chunk's own array: no lookup through the world.
pub fn neighbourhood_in_chunk(c: &Chunk, x: u32, y: u32, z: u32) -> (r: Vec<bool>)
    requires
        c.wf(),
        1 <= x <= 14,
        1 <= y <= 14,
        1 <= z <= 14,
    ensures
        r@ == occ_chunk(c, x as int, y as int, z as int),
{
    let mut out: Vec<bool> = Vec::new();
    let mut j: usize = 0;
    while j < 27
        invariant
            c.wf(),
            1 <= x <= 14,
            1 <= y <= 14,
            1 <= z <= 14,
            j <= 27,
            out@.len() == j,
            forall|k: int| 0 <= k < j ==> #[trigger] out@[k] == occ_chunk(c, x as int, y as int, z as int)[k],
        decreases 27 - j,
    {
        proof {
            assert(0 <= j / 9 <= 2) by (nonlinear_arith)
                requires 0 <= j < 27;
        }
        let nx = x + (j / 9) as u32 - 1;
        let ny = y + ((j / 3) % 3) as u32 - 1;
        let nz = z + (j % 3) as u32 - 1;
        out.push(!c.get_block(nx, ny, nz).is_transparent_no_leaves());
        j += 1;
    }
    assert(out@ =~= occ_chunk(c, x as int, y as int, z as int));
    out
}

/// Splitting world coordinates into chunk and local coordinates and joining
/// them again gives the coordinates back, for every `i32` triple.
pub proof fn lemma_coordinate_round_trip(x: i32, y: i32, z: i32)
    ensures
        world_of(chunk_of(x as int), local_of(x as int)) == x,
        world_of(chunk_of(y as int), local_of(y as int)) == y,
        world_of(chunk_of(z as int), local_of(z as int)) == z,
        0 <= local_of(x as int) < 16 && 0 <= local_of(y as int) < 16 && 0 <= local_of(z as int) < 16,
{
    lemma_local_bounds(x as int);
    lemma_local_bounds(y as int);
    lemma_local_bounds(z as int);
}

/// The face across from face `f`.
pub open spec fn opposite(f: int) -> int {
    if f % 2 == 0 { f + 1 } else { f - 1 }
}

/// Two adjacent opaque blocks hide the faces they turn to each other; a
/// block's face toward air, or toward a point that is not loaded, is drawn.
pub proof fn lemma_face_culling_symmetry(w: &ChunkManager, x: int, y: int, z: int, f: int)
    requires
        w.wf(),
        0 <= f < 6,
    ensures
        ({
            let n = normal(f);
            let (qx, qy, qz) = (x + n.0, y + n.1, z + n.2);
            &&& (w.block_at(x, y, z) matches Some(a) && a.opaque()) && (w.block_at(qx, qy, qz) matches Some(
                b,
            ) && b.opaque()) ==> !w.face_active(x, y, z, f) && !w.face_active(qx, qy, qz, opposite(f))
            &&& w.block_at(qx, qy, qz) == Some(BlockID::Air) ==> w.face_active(x, y, z, f)
            &&& w.block_at(qx, qy, qz).is_none() ==> w.face_active(x, y, z, f)
        }),
{
}

/// The fast path (neighbourhood read from the chunk's own array, for a block
/// away from the chunk's faces) and the slow path (neighbourhood read through
/// a world, anywhere, across chunk and column borders) give the same
/// occlusion weights whenever the two neighbourhoods hold the same content.
pub proof fn lemma_ao_fast_slow_agree(
    w1: &ChunkManager,
    ci: int,
    cx: int,
    cy: int,
    cz: int,
    bx: int,
    by: int,
    bz: int,
    w2: &ChunkManager,
    px: int,
    py: int,
    pz: int,
)
    requires
        w1.wf(),
        w1.key_at(ci, cx, cz),
        0 <= cy < 16,
        1 <= bx <= 14,
        1 <= by <= 14,
        1 <= bz <= 14,
        forall|j: int|
            0 <= j < 27 ==> w1.occludes(
                world_of(cx, bx) + #[trigger] offset_of_index(j).0,
                world_of(cy, by) + offset_of_index(j).1,
                world_of(cz, bz) + offset_of_index(j).2,
            ) == w2.occludes(px + offset_of_index(j).0, py + offset_of_index(j).1, pz + offset_of_index(j).2),
    ensures
        ao_block(occ_chunk(&w1.loaded_chunk_columns@[ci].chunks@[cy], bx, by, bz)) == ao_block(
            w2.occ_world(px, py, pz),
        ),
{
    w1.lemma_interior_neighbourhood(ci, cx, cy, cz, bx, by, bz);
    assert(w1.occ_world(world_of(cx, bx), world_of(cy, by), world_of(cz, bz)) =~= w2.occ_world(px, py, pz));
}

/// Chunk coordinates whose blocks, and the neighbours of those blocks, all
/// have world coordinates that fit an `i32`.
pub open spec fn chunk_in_range(c: int) -> bool {
    -134217727 <= c <= 134217726
}

pub fn is_chunk_in_range(c: i32) -> (r: bool)
    ensures
        r == chunk_in_range(c as int),
{
    -134217727 <= c && c <= 134217726
}

/// The corner weights of a block that draws nothing.
fn zero_weights() -> (r: Vec<u8>)
    ensures
        r@ == no_ao(),
{
    let mut v: Vec<u8> = Vec::new();
    let mut k: usize = 0;
    while k < 24
        invariant
            k <= 24,
            v@ == Seq::new(k as nat, |_j: int| 0u8),
        decreases 24 - k,
    {
        v.push(0);
        k += 1;
        assert(v@ =~= Seq::new(k as nat, |_j: int| 0u8));
    }
    v
}

/// The face bits of a block that draws nothing.
pub open spec fn no_faces() -> Seq<bool> {
    Seq::new(6, |_f: int| false)
}

/// The corner weights of a block that draws nothing.
pub open spec fn no_ao() -> Seq<u8> {
    Seq::new(24, |_k: int| 0u8)
}

/// Chunk `n` is chunk `o` of world `old` at (cx, cy, cz) with the face bits
/// and weights of its non-air blocks `i` for which `touched(cx, cy, cz, i)`
/// holds recomputed.
pub open spec fn chunk_refreshed(n: Chunk, o: Chunk, old: &ChunkManager, cx: int, cy: int, cz: int, touched: spec_fn(int, int, int, int) -> bool) -> bool {
    &&& n.blocks == o.blocks
    &&& n.number_of_opaque_blocks == o.number_of_opaque_blocks
    &&& n.number_of_transparent_blocks == o.number_of_transparent_blocks
    &&& n.is_rendered == o.is_rendered
    &&& n.is_generated == o.is_generated
    &&& n.is_uploaded_to_gpu == o.is_uploaded_to_gpu
    &&& n.vertices_drawn == o.vertices_drawn
    &&& forall|i: int|
        0 <= i < 4096 ==> #[trigger] n.faces_at(i) == if touched(cx, cy, cz, i) {
            if o.blocks@[i].air() { no_faces() } else { old.expected_faces(cx, cy, cz, i) }
        } else {
            o.faces_at(i)
        }
    &&& forall|i: int|
        0 <= i < 4096 ==> #[trigger] n.ao_at(i) == if touched(cx, cy, cz, i) {
            if o.blocks@[i].air() { no_ao() } else { old.expected_ao(cx, cy, cz, i) }
        } else {
            o.ao_at(i)
        }
}

/// What `render_loaded_chunks` lists from the first `n` chunk slots, slot
/// `n` being chunk `n % 16` of the column at index `n / 16`.
pub open spec fn render_list(w: &ChunkManager, n: int) -> Seq<((i32, i32, i32), u32)>
    decreases n,
{
    if n <= 0 {
        Seq::empty()
    } else {
        let i = (n - 1) / 16;
        let y = (n - 1) % 16;
        let c = w.loaded_chunk_columns@[i].chunks@[y];
        let key = w.column_keys@[i];
        render_list(w, n - 1) + if c.is_uploaded_to_gpu && !c.empty_spec() {
            seq![((key.0, y as i32, key.1), c.vertices_drawn)]
        } else {
            Seq::empty()
        }
    }
}

/// A column key whose blocks all have `i32` coordinates.
pub open spec fn column_key_in_range(k: (i32, i32)) -> bool {
    -134217728 <= k.0 <= 134217727 && -134217728 <= k.1 <= 134217727
}

pub fn is_column_key_in_range(k: (i32, i32)) -> (r: bool)
    ensures
        r == column_key_in_range(k),
{
    -134217728 <= k.0 && k.0 <= 134217727 && -134217728 <= k.1 && k.1 <= 134217727
}

/// Coordinates beyond the `i32` range lie in chunks beyond the range of
/// column keys.
pub proof fn lemma_chunk_of_outside(v: int)
    ensures
        v > i32::MAX ==> chunk_of(v) > 134217727,
        v < i32::MIN ==> chunk_of(v) < -134217728,
        i32::MIN <= v <= i32::MAX ==> -134217728 <= chunk_of(v) <= 134217727,
{
    if v > i32::MAX {
        vstd::arithmetic::div_mod::lemma_div_is_ordered(2147483648, v, 16);
    }
    if v < i32::MIN {
        vstd::arithmetic::div_mod::lemma_div_is_ordered(v, -2147483649, 16);
        assert((-2147483649int) / 16 == -134217729);
    }
    if i32::MIN <= v <= i32::MAX {
        vstd::arithmetic::div_mod::lemma_div_is_ordered(v, 2147483647, 16);
        vstd::arithmetic::div_mod::lemma_div_is_ordered(-2147483648, v, 16);
    }
}

impl ChunkManager {
    pub open spec fn wf(&self) -> bool {
        &&& self.column_keys@.len() == self.loaded_chunk_columns@.len()
        &&& forall|i: int|
            0 <= i < self.loaded_chunk_columns@.len() ==> (#[trigger] self.loaded_chunk_columns@[i]).wf()
        &&& forall|i: int, j: int|
            0 <= i < self.column_keys@.len() && 0 <= j < self.column_keys@.len() && i != j
                ==> #[trigger] self.column_keys@[i] != #[trigger] self.column_keys@[j]
        &&& forall|i: int| 0 <= i < self.column_keys@.len() ==> column_key_in_range(#[trigger] self.column_keys@[i])
    }

    /// Outside the `i32` range no block is loaded.
    pub proof fn lemma_outside_none(&self, x: int, y: int, z: int)
        requires
            self.wf(),
            !(i32::MIN <= x <= i32::MAX && i32::MIN <= y <= i32::MAX && i32::MIN <= z <= i32::MAX),
        ensures
            self.block_at(x, y, z).is_none(),
    {
        lemma_chunk_of_outside(x);
        lemma_chunk_of_outside(y);
        lemma_chunk_of_outside(z);
        if self.has_column(chunk_of(x), chunk_of(z)) {
            let i = self.column_index(chunk_of(x), chunk_of(z));
            assert(self.key_at(i, chunk_of(x), chunk_of(z)));
            assert(column_key_in_range(self.column_keys@[i]));
        }
    }

    pub open spec fn key_at(&self, i: int, x: int, z: int) -> bool {
        key_matches(self.column_keys@, i, x, z)
    }

    pub open spec fn has_column(&self, x: int, z: int) -> bool {
        exists|i: int| key_matches(self.column_keys@, i, x, z)
    }

    pub open spec fn column_index(&self, x: int, z: int) -> int {
        key_index(self.column_keys@, x, z)
    }

    pub open spec fn column_spec(&self, x: int, z: int) -> ChunkColumn {
        self.loaded_chunk_columns@[self.column_index(x, z)]
    }

    /// The chunk at chunk coordinates, if its column is loaded and `y` is in the world.
    pub open spec fn chunk_spec(&self, x: int, y: int, z: int) -> Option<Chunk> {
        if self.has_column(x, z) && 0 <= y < 16 {
            Some(self.column_spec(x, z).chunks@[y])
        } else {
            None
        }
    }

    /// The block at world coordinates, if its chunk is loaded.
    pub open spec fn block_at(&self, x: int, y: int, z: int) -> Option<BlockID> {
        match self.chunk_spec(chunk_of(x), chunk_of(y), chunk_of(z)) {
            Some(c) => Some(c.blocks@[block_index(local_of(x), local_of(y), local_of(z))]),
            None => None,
        }
    }

    /// The blocks of chunk `c` of the column at index `i`.
    pub open spec fn blocks_of(&self, i: int, c: int) -> Seq<BlockID> {
        self.loaded_chunk_columns@[i].chunks@[c].blocks@
    }

    /// World point (x, y, z) is stored at block `k` of chunk `c` of column `i`.
    pub open spec fn at_slot(&self, x: int, y: int, z: int, i: int, c: int, k: int) -> bool {
        &&& self.has_column(chunk_of(x), chunk_of(z))
        &&& self.column_index(chunk_of(x), chunk_of(z)) == i
        &&& chunk_of(y) == c
        &&& block_index(local_of(x), local_of(y), local_of(z)) == k
    }

    pub proof fn lemma_index_unique(&self, i: int, x: int, z: int)
        requires
            self.wf(),
            self.key_at(i, x, z),
        ensures
            self.has_column(x, z),
            self.column_index(x, z) == i,
    {
        assert(self.has_column(x, z));
        let j = self.column_index(x, z);
        assert(self.key_at(j, x, z));
        if i != j {
            assert(self.column_keys@[i] == self.column_keys@[j]);
        }
    }

    /// Where a world's blocks are those of another, except perhaps at one
    /// slot, every other point reads the same.
    pub proof fn lemma_block_frame(old_w: &ChunkManager, new_w: &ChunkManager, ci: int, cy: int, k: int)
        requires
            new_w.column_keys@ == old_w.column_keys@,
            new_w.loaded_chunk_columns@.len() == old_w.loaded_chunk_columns@.len(),
            forall|i: int| 0 <= i < old_w.loaded_chunk_columns@.len() ==>
                (#[trigger] new_w.loaded_chunk_columns@[i]).chunks@.len()
                    == old_w.loaded_chunk_columns@[i].chunks@.len(),
            forall|i: int, c: int|
                0 <= i < old_w.loaded_chunk_columns@.len() && 0 <= c < 16 && !(i == ci && c == cy)
                    ==> #[trigger] new_w.blocks_of(i, c) == old_w.blocks_of(i, c),
            forall|j: int| 0 <= j < 4096 && j != k ==> #[trigger] new_w.blocks_of(ci, cy)[j] == old_w.blocks_of(ci, cy)[j],
            old_w.wf(),
        ensures
            forall|x: int, y: int, z: int|
                !old_w.at_slot(x, y, z, ci, cy, k) ==> #[trigger] new_w.block_at(x, y, z)
                    == old_w.block_at(x, y, z),
    {
        assert forall|x: int, y: int, z: int|
            !old_w.at_slot(x, y, z, ci, cy, k) implies #[trigger] new_w.block_at(x, y, z)
                == old_w.block_at(x, y, z) by {
            let cx = chunk_of(x);
            let cz = chunk_of(z);
            assert(new_w.has_column(cx, cz) == old_w.has_column(cx, cz)) by {
                if old_w.has_column(cx, cz) {
                    let i = old_w.column_index(cx, cz);
                    assert(new_w.key_at(i, cx, cz));
                }
                if new_w.has_column(cx, cz) {
                    let i = new_w.column_index(cx, cz);
                    assert(old_w.key_at(i, cx, cz));
                }
            }
            assert(new_w.column_index(cx, cz) == old_w.column_index(cx, cz));
            lemma_local_bounds(x);
            lemma_local_bounds(y);
            lemma_local_bounds(z);
            lemma_block_index(local_of(x), local_of(y), local_of(z));
            if old_w.has_column(cx, cz) && 0 <= chunk_of(y) < 16 {
                let i = old_w.column_index(cx, cz);
                assert(old_w.key_at(i, cx, cz));
                assert(new_w.blocks_of(i, chunk_of(y)) == new_w.column_spec(cx, cz).chunks@[chunk_of(y)].blocks@);
            }
        }
    }

    pub fn new() -> (r: ChunkManager)
        ensures
            r.wf(),
            forall|x: int, z: int| !r.has_column(x, z),
            r.block_changelist@.len() == 0,
    {
        ChunkManager {
            loaded_chunk_columns: Vec::new(),
            column_keys: Vec::new(),
            block_changelist: Vec::new(),
        }
    }

    /// Index of the column at (x, z) in the store.
    pub fn find_column(&self, x: i32, z: i32) -> (r: Option<usize>)
        requires
            self.wf(),
        ensures
            r.is_some() == self.has_column(x as int, z as int),
            r matches Some(i) ==> self.key_at(i as int, x as int, z as int) && i as int
                == self.column_index(x as int, z as int),
    {
        let mut i: usize = 0;
        while i < self.column_keys.len()
            invariant
                self.wf(),
                i <= self.column_keys@.len(),
                forall|j: int| 0 <= j < i ==> !key_matches(self.column_keys@, j, x as int, z as int),
            decreases self.column_keys@.len() - i,
        {
            let k = self.column_keys[i];
            if k.0 == x && k.1 == z {
                proof {
                    self.lemma_index_unique(i as int, x as int, z as int);
                }
                return Some(i);
            }
            i += 1;
        }
        None
    }

    pub fn get_column(&self, x: i32, z: i32) -> (r: Option<&ChunkColumn>)
        requires
            self.wf(),
        ensures
            r.is_some() == self.has_column(x as int, z as int),
            r matches Some(c) ==> *c == self.column_spec(x as int, z as int),
    {
        match self.find_column(x, z) {
            Some(i) => Some(&self.loaded_chunk_columns[i]),
            None => None,
        }
    }

    /// The chunk at chunk coordinates; `None` when its column is absent or
    /// `y` is outside 0 to 15.
    pub fn get_chunk(&self, x: i32, y: i32, z: i32) -> (r: Option<&Chunk>)
        requires
            self.wf(),
        ensures
            r.is_some() == self.chunk_spec(x as int, y as int, z as int).is_some(),
            r matches Some(c) ==> Some(*c) == self.chunk_spec(x as int, y as int, z as int),
            r matches Some(c) ==> c.wf(),
    {
        if y < 0 || y >= 16 {
            return None;
        }
        match self.find_column(x, z) {
            Some(i) => Some(&self.loaded_chunk_columns[i].chunks[y as usize]),
            None => None,
        }
    }

    /// Inserts a column unless one is already loaded at `xz`.
    pub fn add_chunk_column(&mut self, xz: (i32, i32), chunk_column: ChunkColumn)
        requires
            old(self).wf(),
            chunk_column.wf(),
            column_key_in_range(xz),
        ensures
            final(self).wf(),
            final(self).block_changelist == old(self).block_changelist,
            old(self).has_column(xz.0 as int, xz.1 as int) ==> *final(self) == *old(self),
            !old(self).has_column(xz.0 as int, xz.1 as int) ==> {
                &&& final(self).column_keys@ == old(self).column_keys@.push(xz)
                &&& final(self).loaded_chunk_columns@ == old(self).loaded_chunk_columns@.push(
                    chunk_column,
                )
            },
            final(self).has_column(xz.0 as int, xz.1 as int),
            !old(self).has_column(xz.0 as int, xz.1 as int) ==> final(self).column_spec(xz.0 as int, xz.1 as int) == chunk_column,
            forall|x: int, z: int|
                !(x == xz.0 && z == xz.1) ==> #[trigger] final(self).has_column(x, z) == old(self).has_column(x, z)
                    && (old(self).has_column(x, z) ==> final(self).column_spec(x, z) == old(self).column_spec(x, z)),
            forall|a: int, b: int, c: int|
                !(chunk_of(a) == xz.0 && chunk_of(c) == xz.1) ==> #[trigger] final(self).block_at(a, b, c) == old(self).block_at(a, b, c),
    {
        match self.find_column(xz.0, xz.1) {
            Some(_) => {},
            None => {
                let ghost w0 = *self;
                proof {
                    assert forall|j: int| 0 <= j < self.column_keys@.len() implies self.column_keys@[j] != xz by {
                        assert(!self.key_at(j, xz.0 as int, xz.1 as int));
                    }
                }
                self.column_keys.push(xz);
                self.loaded_chunk_columns.push(chunk_column);
                proof {
                    let n = w0.column_keys@.len() as int;
                    assert(self.key_at(n, xz.0 as int, xz.1 as int));
                    self.lemma_index_unique(n, xz.0 as int, xz.1 as int);
                    assert forall|x: int, z: int|
                        !(x == xz.0 && z == xz.1) implies #[trigger] self.has_column(x, z) == w0.has_column(x, z)
                            && (w0.has_column(x, z) ==> self.column_spec(x, z) == w0.column_spec(x, z)) by {
                        if w0.has_column(x, z) {
                            let i = w0.column_index(x, z);
                            assert(w0.key_at(i, x, z));
                            assert(self.key_at(i, x, z));
                            self.lemma_index_unique(i, x, z);
                        }
                        if self.has_column(x, z) {
                            let i = self.column_index(x, z);
                            assert(self.key_at(i, x, z));
                            if i < n {
                                assert(w0.key_at(i, x, z));
                            }
                        }
                    }
                    assert forall|a: int, b: int, c: int|
                        !(chunk_of(a) == xz.0 && chunk_of(c) == xz.1) implies #[trigger] self.block_at(a, b, c) == w0.block_at(a, b, c) by {
                        assert(self.has_column(chunk_of(a), chunk_of(c)) == w0.has_column(chunk_of(a), chunk_of(c)));
                    }
                }
            },
        }
    }

    /// Takes the column at `xz` out of the store and hands it back.
    pub fn remove_chunk_column(&mut self, xz: &(i32, i32)) -> (r: Option<ChunkColumn>)
        requires
            old(self).wf(),
        ensures
            final(self).wf(),
            final(self).block_changelist == old(self).block_changelist,
            r.is_some() == old(self).has_column(xz.0 as int, xz.1 as int),
            r matches Some(c) ==> c == old(self).column_spec(xz.0 as int, xz.1 as int) && c.wf(),
            !final(self).has_column(xz.0 as int, xz.1 as int),
            forall|x: int, z: int|
                !(x == xz.0 && z == xz.1) ==> #[trigger] final(self).has_column(x, z) == old(
                    self,
                ).has_column(x, z) && (final(self).has_column(x, z) ==> final(self).column_spec(x, z)
                    == old(self).column_spec(x, z)),
    {
        match self.find_column(xz.0, xz.1) {
            None => None,
            Some(i) => {
                let ghost old_w = *self;
                self.column_keys.remove(i);
                let c = self.loaded_chunk_columns.remove(i);
                proof {
                    let n = old_w.column_keys@.len();
                    assert forall|a: int, b: int|
                        0 <= a < self.column_keys@.len() && 0 <= b < self.column_keys@.len() && a
                            != b implies #[trigger] self.column_keys@[a] != #[trigger] self.column_keys@[b] by {
                        let a0 = if a < i { a } else { a + 1 };
                        let b0 = if b < i { b } else { b + 1 };
                        assert(self.column_keys@[a] == old_w.column_keys@[a0]);
                        assert(self.column_keys@[b] == old_w.column_keys@[b0]);
                    }
                    assert forall|a: int|
                        0 <= a < self.loaded_chunk_columns@.len() implies (#[trigger] self.loaded_chunk_columns@[a]).wf() by {
                        let a0 = if a < i { a } else { a + 1 };
                        assert(self.loaded_chunk_columns@[a] == old_w.loaded_chunk_columns@[a0]);
                    }
                    if self.has_column(xz.0 as int, xz.1 as int) {
                        let a = self.column_index(xz.0 as int, xz.1 as int);
                        let a0 = if a < i { a } else { a + 1 };
                        assert(old_w.key_at(a0, xz.0 as int, xz.1 as int));
                        assert(self.column_keys@[a] == old_w.column_keys@[a0]);
                        assert(old_w.column_keys@[a0] == old_w.column_keys@[i as int]);
                    }
                    assert forall|x: int, z: int|
                        !(x == xz.0 && z == xz.1) implies #[trigger] self.has_column(x, z) == old_w.has_column(x, z)
                            && (self.has_column(x, z) ==> self.column_spec(x, z) == old_w.column_spec(x, z)) by {
                        if old_w.has_column(x, z) {
                            let a0 = old_w.column_index(x, z);
                            assert(old_w.key_at(a0, x, z));
                            assert(a0 != i);
                            let a = if a0 < i { a0 } else { a0 - 1 };
                            assert(self.column_keys@[a] == old_w.column_keys@[a0]);
                            assert(self.key_at(a, x, z));
                            self.lemma_index_unique(a, x, z);
                            assert(self.loaded_chunk_columns@[a] == old_w.loaded_chunk_columns@[a0]);
                        }
                        if self.has_column(x, z) {
                            let a = self.column_index(x, z);
                            let a0 = if a < i { a } else { a + 1 };
                            assert(self.column_keys@[a] == old_w.column_keys@[a0]);
                            assert(old_w.key_at(a0, x, z));
                        }
                    }
                }
                Some(c)
            },
        }
    }

    /// Splits world coordinates into chunk coordinates and coordinates inside the chunk.
    pub fn get_chunk_coords(x: i32, y: i32, z: i32) -> (r: (i32, i32, i32, u32, u32, u32))
        ensures
            r.0 as int == chunk_of(x as int),
            r.1 as int == chunk_of(y as int),
            r.2 as int == chunk_of(z as int),
            r.3 as int == local_of(x as int),
            r.4 as int == local_of(y as int),
            r.5 as int == local_of(z as int),
            r.3 < 16 && r.4 < 16 && r.5 < 16,
    {
        (chunk_coord(x), chunk_coord(y), chunk_coord(z), local_coord(x), local_coord(y), local_coord(z))
    }

    /// Joins chunk coordinates and coordinates inside the chunk into world coordinates.
    pub fn get_global_coords(coords: (i32, i32, i32, u32, u32, u32)) -> (r: (i32, i32, i32))
        requires
            coords.3 < 16 && coords.4 < 16 && coords.5 < 16,
            i32::MIN <= world_of(coords.0 as int, coords.3 as int) <= i32::MAX,
            i32::MIN <= world_of(coords.1 as int, coords.4 as int) <= i32::MAX,
            i32::MIN <= world_of(coords.2 as int, coords.5 as int) <= i32::MAX,
        ensures
            r.0 as int == world_of(coords.0 as int, coords.3 as int),
            r.1 as int == world_of(coords.1 as int, coords.4 as int),
            r.2 as int == world_of(coords.2 as int, coords.5 as int),
    {
        let (chunk_x, chunk_y, chunk_z, block_x, block_y, block_z) = coords;
        let x = (16 * chunk_x as i64 + block_x as i64) as i32;
        let y = (16 * chunk_y as i64 + block_y as i64) as i32;
        let z = (16 * chunk_z as i64 + block_z as i64) as i32;
        (x, y, z)
    }

    /// The block at world coordinates; `None` where nothing is loaded.
    pub fn get_block(&self, x: i32, y: i32, z: i32) -> (r: Option<BlockID>)
        requires
            self.wf(),
        ensures
            r == self.block_at(x as int, y as int, z as int),
    {
        let (chunk_x, chunk_y, chunk_z, block_x, block_y, block_z) = ChunkManager::get_chunk_coords(x, y, z);
        match self.get_chunk(chunk_x, chunk_y, chunk_z) {
            Some(chunk) => Some(chunk.get_block(block_x, block_y, block_z)),
            None => None,
        }
    }

    /// Whether a non-air block stands at world coordinates.
    pub fn is_solid_block_at(&self, x: i32, y: i32, z: i32) -> (r: bool)
        requires
            self.wf(),
        ensures
            r == (self.block_at(x as int, y as int, z as int) matches Some(b) && !b.air()),
    {
        match self.get_block(x, y, z) {
            Some(b) => !b.is_air(),
            None => false,
        }
    }

    /// Every chunk loaded in `old` is loaded here with the same blocks,
    /// face bits and corner weights, and no other chunk is loaded.
    pub open spec fn derived_kept(&self, old: &ChunkManager) -> bool {
        forall|a: int, b: int, c: int| #[trigger] self.chunk_spec(a, b, c).is_some() == old.chunk_spec(a, b, c).is_some()
            && (old.chunk_spec(a, b, c).is_some() ==> {
                let n = self.chunk_spec(a, b, c).unwrap();
                let o = old.chunk_spec(a, b, c).unwrap();
                n.blocks == o.blocks && n.active_faces == o.active_faces && n.ao_vertices == o.ao_vertices
            })
    }

    /// Column and chunk data other than blocks are the same in both worlds.
    pub open spec fn derived_same(&self, other: &ChunkManager) -> bool {
        &&& self.loaded_chunk_columns@.len() == other.loaded_chunk_columns@.len()
        &&& forall|i: int| 0 <= i < self.loaded_chunk_columns@.len() ==> {
            let a = #[trigger] self.loaded_chunk_columns@[i];
            let b = other.loaded_chunk_columns@[i];
            &&& a.heighest_blocks == b.heighest_blocks
            &&& a.has_foliage == b.has_foliage
            &&& a.chunks@.len() == b.chunks@.len()
            &&& forall|c: int| 0 <= c < a.chunks@.len() ==> {
                let p = #[trigger] a.chunks@[c];
                let q = b.chunks@[c];
                &&& p.active_faces == q.active_faces
                &&& p.ao_vertices == q.ao_vertices
                &&& p.is_rendered == q.is_rendered
                &&& p.is_generated == q.is_generated
                &&& p.is_uploaded_to_gpu == q.is_uploaded_to_gpu
                &&& p.vertices_drawn == q.vertices_drawn
            }
        }
    }

    /// Two points stored at the same slot are the same point.
    pub proof fn lemma_slot_unique(&self, x: int, y: int, z: int, a: int, b: int, c: int, i: int, cy: int, k: int)
        requires
            self.wf(),
            self.at_slot(x, y, z, i, cy, k),
            self.at_slot(a, b, c, i, cy, k),
        ensures
            a == x && b == y && c == z,
    {
        let i1 = self.column_index(chunk_of(x), chunk_of(z));
        assert(self.key_at(i1, chunk_of(x), chunk_of(z)));
        assert(self.key_at(i1, chunk_of(a), chunk_of(c)));
        lemma_local_bounds(x);
        lemma_local_bounds(y);
        lemma_local_bounds(z);
        lemma_local_bounds(a);
        lemma_local_bounds(b);
        lemma_local_bounds(c);
        lemma_block_index(local_of(x), local_of(y), local_of(z));
        lemma_block_index(local_of(a), local_of(b), local_of(c));
        lemma_coord_injective(x, a);
        lemma_coord_injective(y, b);
        lemma_coord_injective(z, c);
    }

    /// Writes a block at world coordinates, without recording an edit.
    /// Returns whether a loaded chunk received the write.
    pub fn set_block(&mut self, block: BlockID, x: i32, y: i32, z: i32) -> (r: bool)
        requires
            old(self).wf(),
        ensures
            final(self).wf(),
            r == old(self).block_at(x as int, y as int, z as int).is_some(),
            final(self).block_at(x as int, y as int, z as int) == if r { Some(block) } else { None },
            forall|a: int, b: int, c: int|
                !(a == x && b == y && c == z) ==> #[trigger] final(self).block_at(a, b, c) == old(
                    self,
                ).block_at(a, b, c),
            final(self).column_keys == old(self).column_keys,
            final(self).block_changelist == old(self).block_changelist,
            final(self).derived_same(old(self)),
    {
        let (cx, cy, cz, bx, by, bz) = ChunkManager::get_chunk_coords(x, y, z);
        if cy < 0 || cy >= 16 {
            return false;
        }
        match self.find_column(cx, cz) {
            None => false,
            Some(i) => {
                let ghost old_w = *self;
                let ghost k = block_index(bx as int, by as int, bz as int);
                self.loaded_chunk_columns[i].chunks[cy as usize].set_block(block, bx, by, bz);
                proof {
                    lemma_block_index(bx as int, by as int, bz as int);
                    assert forall|a: int|
                        0 <= a < self.loaded_chunk_columns@.len() implies (#[trigger] self.loaded_chunk_columns@[a]).wf() by {
                        if a == i {
                            assert forall|c: int| 0 <= c < 16 implies (#[trigger] self.loaded_chunk_columns@[a].chunks@[c]).wf() by {
                                if c != cy {
                                    assert(self.loaded_chunk_columns@[a].chunks@[c] == old_w.loaded_chunk_columns@[a].chunks@[c]);
                                }
                            }
                        }
                    }
                    ChunkManager::lemma_block_frame(&old_w, self, i as int, cy as int, k);
                    assert(old_w.at_slot(x as int, y as int, z as int, i as int, cy as int, k));
                    assert forall|a: int, b: int, c: int|
                        !(a == x && b == y && c == z) implies #[trigger] self.block_at(a, b, c) == old_w.block_at(a, b, c) by {
                        if old_w.at_slot(a, b, c, i as int, cy as int, k) {
                            old_w.lemma_slot_unique(x as int, y as int, z as int, a, b, c, i as int, cy as int, k);
                        }
                    }
                    assert(self.column_index(cx as int, cz as int) == i);
                }
                true
            },
        }
    }

    /// A player's edit: writes the block and, where the chunk already has a
    /// mesh, records the edit with priority 1 for the next scheduling tick.
    pub fn put_block(&mut self, block: BlockID, x: i32, y: i32, z: i32) -> (r: bool)
        requires
            old(self).wf(),
        ensures
            final(self).wf(),
            r == old(self).block_at(x as int, y as int, z as int).is_some(),
            final(self).block_at(x as int, y as int, z as int) == if r { Some(block) } else { None },
            forall|a: int, b: int, c: int|
                !(a == x && b == y && c == z) ==> #[trigger] final(self).block_at(a, b, c) == old(
                    self,
                ).block_at(a, b, c),
            final(self).column_keys == old(self).column_keys,
            final(self).derived_same(old(self)),
            ({
                let e: BlockChange = (1, block, x, y, z);
                let uploaded = old(self).chunk_spec(
                    chunk_of(x as int),
                    chunk_of(y as int),
                    chunk_of(z as int),
                ) matches Some(ch) && ch.is_uploaded_to_gpu;
                final(self).block_changelist@ == if uploaded && !old(self).block_changelist@.contains(e) {
                    old(self).block_changelist@.push(e)
                } else {
                    old(self).block_changelist@
                }
            }),
    {
        let (cx, cy, cz, _bx, _by, _bz) = ChunkManager::get_chunk_coords(x, y, z);
        let uploaded = match self.get_chunk(cx, cy, cz) {
            Some(chunk) => chunk.is_uploaded_to_gpu,
            None => false,
        };
        let r = self.set_block(block, x, y, z);
        if uploaded {
            let e: BlockChange = (1, block, x, y, z);
            let mut found = false;
            let mut i: usize = 0;
            while i < self.block_changelist.len()
                invariant
                    i <= self.block_changelist@.len(),
                    found == exists|j: int| 0 <= j < i && self.block_changelist@[j] == e,
                decreases self.block_changelist@.len() - i,
            {
                let c = self.block_changelist[i];
                if c.0 == e.0 && c.1 == e.1 && c.2 == e.2 && c.3 == e.3 && c.4 == e.4 {
                    found = true;
                }
                i += 1;
            }
            if !found {
                self.block_changelist.push(e);
            } else {
                proof {
                    let j = choose|j: int| 0 <= j < i && self.block_changelist@[j] == e;
                    assert(self.block_changelist@.contains(e));
                }
            }
        }
        r
    }


    /// Face `f` of the block at (x, y, z) is drawn: its neighbour across the
    /// face is not loaded, or is transparent.
    pub open spec fn face_active(&self, x: int, y: int, z: int, f: int) -> bool {
        let n = normal(f);
        match self.block_at(x + n.0, y + n.1, z + n.2) {
            Some(b) => b.transparent(),
            None => true,
        }
    }

    pub open spec fn faces_spec(&self, x: int, y: int, z: int) -> Seq<bool> {
        Seq::new(6, |f: int| self.face_active(x, y, z, f))
    }

    /// The block at (x, y, z) darkens corners: it is loaded and is neither air nor glass.
    pub open spec fn occludes(&self, x: int, y: int, z: int) -> bool {
        match self.block_at(x, y, z) {
            Some(b) => !b.transparent_no_leaves(),
            None => false,
        }
    }

    /// Occupancy of the neighbourhood of (x, y, z), read through the world.
    pub open spec fn occ_world(&self, x: int, y: int, z: int) -> Seq<bool> {
        Seq::new(
            27,
            |j: int| self.occludes(x + offset_of_index(j).0, y + offset_of_index(j).1, z + offset_of_index(j).2),
        )
    }

    /// The block at (x + dx, y + dy, z + dz); `None` where nothing is
    /// loaded, which includes every point beyond the `i32` range.
    pub fn block_near(&self, x: i32, y: i32, z: i32, dx: i32, dy: i32, dz: i32) -> (r: Option<BlockID>)
        requires
            self.wf(),
            -1 <= dx <= 1,
            -1 <= dy <= 1,
            -1 <= dz <= 1,
        ensures
            r == self.block_at(x + dx, y + dy, z + dz),
    {
        let px = x as i64 + dx as i64;
        let py = y as i64 + dy as i64;
        let pz = z as i64 + dz as i64;
        if px < i32::MIN as i64 || px > i32::MAX as i64 || py < i32::MIN as i64 || py > i32::MAX as i64
            || pz < i32::MIN as i64 || pz > i32::MAX as i64 {
            proof {
                self.lemma_outside_none(px as int, py as int, pz as int);
            }
            return None;
        }
        self.get_block(px as i32, py as i32, pz as i32)
    }

    /// Whether a face turned toward the neighbour (dx, dy, dz) of (x, y, z)
    /// is drawn: nothing is loaded there, or the block there is transparent.
    fn see_through(&self, x: i32, y: i32, z: i32, dx: i32, dy: i32, dz: i32) -> (r: bool)
        requires
            self.wf(),
            -1 <= dx <= 1,
            -1 <= dy <= 1,
            -1 <= dz <= 1,
        ensures
            r == match self.block_at(x + dx, y + dy, z + dz) {
                Some(b) => b.transparent(),
                None => true,
            },
    {
        match self.block_near(x, y, z, dx, dy, dz) {
            Some(b) => b.is_transparent(),
            None => true,
        }
    }

    /// Which faces of the block at world coordinates are drawn, in face order.
    pub fn get_active_faces_of_block(&self, x: i32, y: i32, z: i32) -> (r: [bool; 6])
        requires
            self.wf(),
        ensures
            r@ == self.faces_spec(x as int, y as int, z as int),
    {
        let right = self.see_through(x, y, z, 1, 0, 0);
        let left = self.see_through(x, y, z, -1, 0, 0);
        let top = self.see_through(x, y, z, 0, 1, 0);
        let bottom = self.see_through(x, y, z, 0, -1, 0);
        let front = self.see_through(x, y, z, 0, 0, 1);
        let back = self.see_through(x, y, z, 0, 0, -1);
        let r = [right, left, top, bottom, front, back];
        proof {
            let (xi, yi, zi) = (x as int, y as int, z as int);
            assert(right == self.face_active(xi, yi, zi, 0));
            assert(left == self.face_active(xi, yi, zi, 1));
            assert(top == self.face_active(xi, yi, zi, 2));
            assert(bottom == self.face_active(xi, yi, zi, 3));
            assert(front == self.face_active(xi, yi, zi, 4));
            assert(back == self.face_active(xi, yi, zi, 5));
            assert(r@ =~= self.faces_spec(xi, yi, zi));
        }
        r
    }

    /// Occupancy of the neighbourhood of a block, each neighbour looked up in the world.
    pub fn neighbourhood_in_world(&self, x: i32, y: i32, z: i32) -> (r: Vec<bool>)
        requires
            self.wf(),
        ensures
            r@ == self.occ_world(x as int, y as int, z as int),
    {
        let mut out: Vec<bool> = Vec::new();
        let mut j: usize = 0;
        while j < 27
            invariant
                self.wf(),
                j <= 27,
                out@.len() == j,
                forall|k: int| 0 <= k < j ==> #[trigger] out@[k] == self.occ_world(x as int, y as int, z as int)[k],
            decreases 27 - j,
        {
            let dx = (j / 9) as i32 - 1;
            let dy = ((j / 3) % 3) as i32 - 1;
            let dz = (j % 3) as i32 - 1;
            proof {
                assert(0 <= j / 9 <= 2) by (nonlinear_arith)
                    requires 0 <= j < 27;
            }
            let o = match self.block_near(x, y, z, dx, dy, dz) {
                Some(b) => !b.is_transparent_no_leaves(),
                None => false,
            };
            out.push(o);
            j += 1;
        }
        assert(out@ =~= self.occ_world(x as int, y as int, z as int));
        out
    }


    /// Face bits that block `i` of chunk (cx, cy, cz) should carry.
    pub open spec fn expected_faces(&self, cx: int, cy: int, cz: int, i: int) -> Seq<bool> {
        self.faces_spec(world_of(cx, index_x(i)), world_of(cy, index_y(i)), world_of(cz, index_z(i)))
    }

    /// Corner weights that block `i` of chunk (cx, cy, cz) should carry.
    pub open spec fn expected_ao(&self, cx: int, cy: int, cz: int, i: int) -> Seq<u8> {
        ao_block(self.occ_world(world_of(cx, index_x(i)), world_of(cy, index_y(i)), world_of(cz, index_z(i))))
    }

    /// `self` is `old` with the face bits and weights of the non-air blocks
    /// of chunk (cx, cy, cz) for which `touched` holds recomputed; nothing
    /// else differs.
    pub open spec fn refreshed(&self, old: &ChunkManager, cx: int, cy: int, cz: int, touched: spec_fn(int) -> bool) -> bool {
        &&& self.wf()
        &&& self.column_keys == old.column_keys
        &&& self.block_changelist == old.block_changelist
        &&& self.loaded_chunk_columns@.len() == old.loaded_chunk_columns@.len()
        &&& forall|x: int, y: int, z: int| #[trigger] self.block_at(x, y, z) == old.block_at(x, y, z)
        &&& forall|x: int, y: int, z: int|
            !(x == cx && y == cy && z == cz) ==> #[trigger] self.chunk_spec(x, y, z) == old.chunk_spec(x, y, z)
        &&& forall|x: int, z: int|
            old.has_column(x, z) ==> (#[trigger] self.column_spec(x, z)).heighest_blocks
                == old.column_spec(x, z).heighest_blocks && self.column_spec(x, z).has_foliage
                == old.column_spec(x, z).has_foliage
        &&& self.chunk_spec(cx, cy, cz).is_some() == old.chunk_spec(cx, cy, cz).is_some()
        &&& old.chunk_spec(cx, cy, cz) matches Some(o) ==> {
            let n = self.chunk_spec(cx, cy, cz).unwrap();
            &&& n.blocks == o.blocks
            &&& n.number_of_opaque_blocks == o.number_of_opaque_blocks
            &&& n.number_of_transparent_blocks == o.number_of_transparent_blocks
            &&& n.is_rendered == o.is_rendered
            &&& n.is_generated == o.is_generated
            &&& n.is_uploaded_to_gpu == o.is_uploaded_to_gpu
            &&& n.vertices_drawn == o.vertices_drawn
            &&& forall|i: int|
                0 <= i < 4096 ==> #[trigger] n.faces_at(i) == if touched(i) {
                    if o.blocks@[i].air() { no_faces() } else { old.expected_faces(cx, cy, cz, i) }
                } else {
                    o.faces_at(i)
                }
            &&& forall|i: int|
                0 <= i < 4096 ==> #[trigger] n.ao_at(i) == if touched(i) {
                    if o.blocks@[i].air() { no_ao() } else { old.expected_ao(cx, cy, cz, i) }
                } else {
                    o.ao_at(i)
                }
        }
    }

    /// Where two worlds hold the same blocks, every point reads the same.
    pub proof fn lemma_same_blocks(old_w: &ChunkManager, new_w: &ChunkManager)
        requires
            old_w.wf(),
            new_w.column_keys@ == old_w.column_keys@,
            new_w.loaded_chunk_columns@.len() == old_w.loaded_chunk_columns@.len(),
            forall|i: int| 0 <= i < old_w.loaded_chunk_columns@.len() ==>
                (#[trigger] new_w.loaded_chunk_columns@[i]).chunks@.len()
                    == old_w.loaded_chunk_columns@[i].chunks@.len(),
            forall|i: int, c: int|
                0 <= i < old_w.loaded_chunk_columns@.len() && 0 <= c < 16
                    ==> #[trigger] new_w.blocks_of(i, c) == old_w.blocks_of(i, c),
        ensures
            forall|x: int, y: int, z: int| #[trigger] new_w.block_at(x, y, z) == old_w.block_at(x, y, z),
    {
        assert forall|x: int, y: int, z: int| #[trigger] new_w.block_at(x, y, z) == old_w.block_at(x, y, z) by {
            let cx = chunk_of(x);
            let cz = chunk_of(z);
            assert(new_w.has_column(cx, cz) == old_w.has_column(cx, cz)) by {
                if old_w.has_column(cx, cz) {
                    let i = old_w.column_index(cx, cz);
                    assert(new_w.key_at(i, cx, cz));
                }
                if new_w.has_column(cx, cz) {
                    let i = new_w.column_index(cx, cz);
                    assert(old_w.key_at(i, cx, cz));
                }
            }
            if old_w.has_column(cx, cz) && 0 <= chunk_of(y) < 16 {
                let i = old_w.column_index(cx, cz);
                assert(old_w.key_at(i, cx, cz));
                assert(new_w.blocks_of(i, chunk_of(y)) == new_w.column_spec(cx, cz).chunks@[chunk_of(y)].blocks@);
            }
        }
    }

    /// Inside a chunk, away from its faces, reading the neighbourhood from the
    /// chunk's own array gives what reading it through the world gives.
    pub proof fn lemma_interior_neighbourhood(&self, ci: int, cx: int, cy: int, cz: int, bx: int, by: int, bz: int)
        requires
            self.wf(),
            self.key_at(ci, cx, cz),
            0 <= cy < 16,
            1 <= bx <= 14,
            1 <= by <= 14,
            1 <= bz <= 14,
        ensures
            occ_chunk(&self.loaded_chunk_columns@[ci].chunks@[cy], bx, by, bz) == self.occ_world(
                world_of(cx, bx),
                world_of(cy, by),
                world_of(cz, bz),
            ),
    {
        self.lemma_index_unique(ci, cx, cz);
        let ch = self.loaded_chunk_columns@[ci].chunks@[cy];
        assert forall|j: int| 0 <= j < 27 implies #[trigger] occ_chunk(&ch, bx, by, bz)[j] == self.occ_world(
            world_of(cx, bx),
            world_of(cy, by),
            world_of(cz, bz),
        )[j] by {
            let d = offset_of_index(j);
            assert(0 <= j / 9 <= 2) by (nonlinear_arith)
                requires 0 <= j < 27;
            let px = world_of(cx, bx) + d.0;
            let py = world_of(cy, by) + d.1;
            let pz = world_of(cz, bz) + d.2;
            vstd::arithmetic::div_mod::lemma_fundamental_div_mod_converse(px, 16, cx, bx + d.0);
            vstd::arithmetic::div_mod::lemma_fundamental_div_mod_converse(py, 16, cy, by + d.1);
            vstd::arithmetic::div_mod::lemma_fundamental_div_mod_converse(pz, 16, cz, bz + d.2);
        }
        assert(occ_chunk(&ch, bx, by, bz) =~= self.occ_world(world_of(cx, bx), world_of(cy, by), world_of(cz, bz)));
    }


    pub proof fn lemma_refresh_refl(&self, cx: int, cy: int, cz: int, t: spec_fn(int) -> bool)
        requires
            self.wf(),
            forall|j: int|
                0 <= j < 4096 && #[trigger] t(j) ==> (self.chunk_spec(cx, cy, cz) matches Some(c)
                    ==> c.blocks@[j].air() && c.faces_at(j) == no_faces() && c.ao_at(j) == no_ao()),
        ensures
            self.refreshed(self, cx, cy, cz, t),
    {
    }

    pub proof fn lemma_refresh_touch_eq(
        s: &ChunkManager,
        o: &ChunkManager,
        cx: int,
        cy: int,
        cz: int,
        t1: spec_fn(int) -> bool,
        t2: spec_fn(int) -> bool,
    )
        requires
            s.refreshed(o, cx, cy, cz, t1),
            forall|j: int| #[trigger] t1(j) == t2(j),
        ensures
            s.refreshed(o, cx, cy, cz, t2),
    {
    }

    pub proof fn lemma_refresh_compose(
        s1: &ChunkManager,
        s2: &ChunkManager,
        s3: &ChunkManager,
        cx: int,
        cy: int,
        cz: int,
        t1: spec_fn(int) -> bool,
        t2: spec_fn(int) -> bool,
        t3: spec_fn(int) -> bool,
    )
        requires
            s1.wf(),
            s2.refreshed(s1, cx, cy, cz, t1),
            s3.refreshed(s2, cx, cy, cz, t2),
            forall|j: int| #[trigger] t3(j) == (t1(j) || t2(j)),
        ensures
            s3.refreshed(s1, cx, cy, cz, t3),
    {
        assert forall|i: int| 0 <= i < 4096 implies s2.expected_faces(cx, cy, cz, i) == s1.expected_faces(cx, cy, cz, i)
            && s2.expected_ao(cx, cy, cz, i) == s1.expected_ao(cx, cy, cz, i) by {
            let x = world_of(cx, index_x(i));
            let y = world_of(cy, index_y(i));
            let z = world_of(cz, index_z(i));
            assert(s2.faces_spec(x, y, z) =~= s1.faces_spec(x, y, z));
            assert(s2.occ_world(x, y, z) =~= s1.occ_world(x, y, z));
        }
        assert forall|x: int, z: int| s1.has_column(x, z) implies (#[trigger] s3.column_spec(x, z)).heighest_blocks
            == s1.column_spec(x, z).heighest_blocks && s3.column_spec(x, z).has_foliage
            == s1.column_spec(x, z).has_foliage by {
            let i = s1.column_index(x, z);
            assert(s1.key_at(i, x, z));
            assert(s2.key_at(i, x, z));
        }
    }

    /// Recomputes the face bits and corner weights of block `i` of the chunk
    /// at height `cy` of the column at index `ci`.
    fn refresh_block(&mut self, ci: usize, cx: i32, cy: i32, cz: i32, i: usize)
        requires
            old(self).wf(),
            old(self).key_at(ci as int, cx as int, cz as int),
            0 <= cy < 16,
            chunk_in_range(cx as int),
            chunk_in_range(cz as int),
            i < 4096,
        ensures
            final(self).refreshed(old(self), cx as int, cy as int, cz as int, |j: int| j == i),
    {
        proof {
            self.lemma_index_unique(ci as int, cx as int, cz as int);
        }
        let ghost old_w = *self;
        let is_air = self.loaded_chunk_columns[ci].chunks[cy as usize].blocks[i].is_air();
        let (faces, ao) = if is_air {
            ([false, false, false, false, false, false], zero_weights())
        } else {
            self.block_derived(ci, cx, cy, cz, i)
        };
        proof {
            if is_air {
                assert(faces@ =~= no_faces());
                assert(ao@ =~= no_ao());
            }
        }
        self.loaded_chunk_columns[ci].chunks[cy as usize].write_block_derived(i, &faces, &ao);
        proof {
            self.lemma_refresh_frame(&old_w, ci as int, cx, cy, cz, i as int, faces@, ao@);
        }
    }

    /// Face bits and corner weights that block `i` of the chunk at height
    /// `cy` of the column at index `ci` should carry.
    fn block_derived(&self, ci: usize, cx: i32, cy: i32, cz: i32, i: usize) -> (r: ([bool; 6], Vec<u8>))
        requires
            self.wf(),
            self.key_at(ci as int, cx as int, cz as int),
            0 <= cy < 16,
            chunk_in_range(cx as int),
            chunk_in_range(cz as int),
            i < 4096,
        ensures
            r.0@ == self.expected_faces(cx as int, cy as int, cz as int, i as int),
            r.1@ == self.expected_ao(cx as int, cy as int, cz as int, i as int),
    {
        proof {
            self.lemma_index_unique(ci as int, cx as int, cz as int);
        }
        let (bx, by, bz) = coords_of_index(i);
        let (wx, wy, wz) = ChunkManager::get_global_coords((cx, cy, cz, bx, by, bz));
        let faces = self.get_active_faces_of_block(wx, wy, wz);
        let occ = if 1 <= bx && bx <= 14 && 1 <= by && by <= 14 && 1 <= bz && bz <= 14 {
            proof {
                self.lemma_interior_neighbourhood(ci as int, cx as int, cy as int, cz as int, bx as int, by as int, bz as int);
            }
            neighbourhood_in_chunk(&self.loaded_chunk_columns[ci].chunks[cy as usize], bx, by, bz)
        } else {
            self.neighbourhood_in_world(wx, wy, wz)
        };
        let ao = compute_ao_of_block(&occ);
        (faces, ao)
    }

    /// After block `i` of the chunk at height `cy` of the column at index
    /// `ci` received the face bits and weights it should carry, the world is
    /// `old_w` refreshed at that block.
    proof fn lemma_refresh_frame(&self, old_w: &ChunkManager, ci: int, cx: i32, cy: i32, cz: i32, i: int, faces: Seq<bool>, ao: Seq<u8>)
        requires
            old_w.wf(),
            old_w.key_at(ci, cx as int, cz as int),
            0 <= cy < 16,
            0 <= i < 4096,
            faces.len() == 6,
            ao.len() == 24,
            self.column_keys == old_w.column_keys,
            self.block_changelist == old_w.block_changelist,
            self.loaded_chunk_columns@.len() == old_w.loaded_chunk_columns@.len(),
            forall|a: int| 0 <= a < old_w.loaded_chunk_columns@.len() && a != ci ==>
                #[trigger] self.loaded_chunk_columns@[a] == old_w.loaded_chunk_columns@[a],
            self.loaded_chunk_columns@[ci].heighest_blocks == old_w.loaded_chunk_columns@[ci].heighest_blocks,
            self.loaded_chunk_columns@[ci].has_foliage == old_w.loaded_chunk_columns@[ci].has_foliage,
            self.loaded_chunk_columns@[ci].chunks@ == old_w.loaded_chunk_columns@[ci].chunks@.update(
                cy as int,
                self.loaded_chunk_columns@[ci].chunks@[cy as int],
            ),
            ({
                let n = self.loaded_chunk_columns@[ci].chunks@[cy as int];
                let o = old_w.loaded_chunk_columns@[ci].chunks@[cy as int];
                &&& n.wf()
                &&& n.blocks == o.blocks
                &&& n.number_of_opaque_blocks == o.number_of_opaque_blocks
                &&& n.number_of_transparent_blocks == o.number_of_transparent_blocks
                &&& n.is_rendered == o.is_rendered
                &&& n.is_generated == o.is_generated
                &&& n.is_uploaded_to_gpu == o.is_uploaded_to_gpu
                &&& n.vertices_drawn == o.vertices_drawn
                &&& bits_of(n.active_faces) == splice(bits_of(o.active_faces), 6 * i, faces)
                &&& n.ao_vertices@ == splice(o.ao_vertices@, 24 * i, ao)
                &&& faces == if o.blocks@[i].air() { no_faces() } else { old_w.expected_faces(cx as int, cy as int, cz as int, i) }
                &&& ao == if o.blocks@[i].air() { no_ao() } else { old_w.expected_ao(cx as int, cy as int, cz as int, i) }
            }),
        ensures
            self.refreshed(old_w, cx as int, cy as int, cz as int, |j: int| j == i),
    {
            let cyi = cy as int;
            assert forall|a: int|
                0 <= a < self.loaded_chunk_columns@.len() implies (#[trigger] self.loaded_chunk_columns@[a]).wf() by {
                if a == ci {
                    assert forall|c: int| 0 <= c < 16 implies (#[trigger] self.loaded_chunk_columns@[a].chunks@[c]).wf() by {
                        if c != cyi {
                            assert(self.loaded_chunk_columns@[a].chunks@[c] == old_w.loaded_chunk_columns@[a].chunks@[c]);
                        }
                    }
                }
            }
            assert forall|a: int, c: int|
                0 <= a < old_w.loaded_chunk_columns@.len() && 0 <= c < 16 implies #[trigger] self.blocks_of(a, c)
                    == old_w.blocks_of(a, c) by {
                if a == ci && c != cyi {
                    assert(self.loaded_chunk_columns@[a].chunks@[c] == old_w.loaded_chunk_columns@[a].chunks@[c]);
                }
            }
            ChunkManager::lemma_same_blocks(&old_w, self);
            assert forall|x: int, y: int, z: int|
                !(x == cx && y == cy && z == cz) implies #[trigger] self.chunk_spec(x, y, z) == old_w.chunk_spec(x, y, z) by {
                if old_w.has_column(x, z) {
                    let a = old_w.column_index(x, z);
                    assert(old_w.key_at(a, x, z));
                    assert(self.key_at(a, x, z));
                    if a == ci {
                        assert(old_w.column_keys@[a] == old_w.column_keys@[ci]);
                        if 0 <= y < 16 {
                            assert(self.loaded_chunk_columns@[a].chunks@[y] == old_w.loaded_chunk_columns@[a].chunks@[y]);
                        }
                    }
                }
                if self.has_column(x, z) {
                    let a = self.column_index(x, z);
                    assert(old_w.key_at(a, x, z));
                }
            }
            assert forall|x: int, z: int| old_w.has_column(x, z) implies (#[trigger] self.column_spec(x, z)).heighest_blocks
                == old_w.column_spec(x, z).heighest_blocks && self.column_spec(x, z).has_foliage
                == old_w.column_spec(x, z).has_foliage by {
                let a = old_w.column_index(x, z);
                assert(old_w.key_at(a, x, z));
            }
            assert(self.key_at(ci, cx as int, cz as int));
            self.lemma_index_unique(ci, cx as int, cz as int);
            let n = self.loaded_chunk_columns@[ci].chunks@[cyi];
            let o = old_w.loaded_chunk_columns@[ci].chunks@[cyi];
            assert(old_w.chunk_spec(cx as int, cyi, cz as int) == Some(o));
            assert(self.chunk_spec(cx as int, cyi, cz as int) == Some(n));
            assert forall|j: int| 0 <= j < 4096 implies #[trigger] n.faces_at(j) == if j == i {
                if o.blocks@[j].air() { no_faces() } else { old_w.expected_faces(cx as int, cyi, cz as int, j) }
            } else {
                o.faces_at(j)
            } by {
                if j == i {
                    assert(n.faces_at(j) =~= faces);
                } else {
                    assert(n.faces_at(j) =~= o.faces_at(j));
                }
            }
            assert forall|j: int| 0 <= j < 4096 implies #[trigger] n.ao_at(j) == if j == i {
                if o.blocks@[j].air() { no_ao() } else { old_w.expected_ao(cx as int, cyi, cz as int, j) }
            } else {
                o.ao_at(j)
            } by {
                if j == i {
                    assert(n.ao_at(j) =~= ao);
                } else {
                    assert(n.ao_at(j) =~= o.ao_at(j));
                }
            }
            }


    /// Recomputes the face bits and corner weights of the listed blocks of
    /// chunk (cx, cy, cz). Nothing happens where the chunk is not loaded.
    pub fn update_blocks(&mut self, c_x: i32, c_y: i32, c_z: i32, blocks: &Vec<(u32, u32, u32)>)
        requires
            old(self).wf(),
            chunk_in_range(c_x as int),
            chunk_in_range(c_z as int),
            forall|k: int| 0 <= k < blocks@.len() ==> (#[trigger] blocks@[k]).0 < 16 && blocks@[k].1 < 16 && blocks@[k].2 < 16,
        ensures
            final(self).refreshed(
                old(self),
                c_x as int,
                c_y as int,
                c_z as int,
                |j: int| exists|k: int| 0 <= k < blocks@.len() && block_index(blocks@[k].0 as int, blocks@[k].1 as int, blocks@[k].2 as int) == j,
            ),
    {
        let ghost old_w = *self;
        let ghost all = |j: int| exists|k: int| 0 <= k < blocks@.len() && block_index(blocks@[k].0 as int, blocks@[k].1 as int, blocks@[k].2 as int) == j;
        if c_y < 0 || c_y >= 16 {
            proof { self.lemma_refresh_refl(c_x as int, c_y as int, c_z as int, all); }
            return;
        }
        let ci = match self.find_column(c_x, c_z) {
            Some(ci) => ci,
            None => {
                proof { self.lemma_refresh_refl(c_x as int, c_y as int, c_z as int, all); }
                return;
            },
        };
        proof {
            self.lemma_refresh_refl(c_x as int, c_y as int, c_z as int, |j: int| false);
            assert(self.refreshed(&old_w, c_x as int, c_y as int, c_z as int,
                |j: int| exists|k: int| 0 <= k < 0 && block_index(blocks@[k].0 as int, blocks@[k].1 as int, blocks@[k].2 as int) == j));
        }
        let mut n: usize = 0;
        while n < blocks.len()
            invariant
                old_w.wf(),
                n <= blocks@.len(),
                old_w.key_at(ci as int, c_x as int, c_z as int),
                0 <= c_y < 16,
                chunk_in_range(c_x as int),
                chunk_in_range(c_z as int),
                forall|k: int| 0 <= k < blocks@.len() ==> (#[trigger] blocks@[k]).0 < 16 && blocks@[k].1 < 16 && blocks@[k].2 < 16,
                self.refreshed(&old_w, c_x as int, c_y as int, c_z as int,
                    |j: int| exists|k: int| 0 <= k < n && block_index(blocks@[k].0 as int, blocks@[k].1 as int, blocks@[k].2 as int) == j),
            decreases blocks@.len() - n,
        {
            let (b_x, b_y, b_z) = blocks[n];
            let i = index_of(b_x, b_y, b_z);
            let ghost s2 = *self;
            self.refresh_block(ci, c_x, c_y, c_z, i);
            proof {
                let t1 = |j: int| exists|k: int| 0 <= k < n && block_index(blocks@[k].0 as int, blocks@[k].1 as int, blocks@[k].2 as int) == j;
                let t2 = |j: int| j == i;
                let t3 = |j: int| exists|k: int| 0 <= k < n + 1 && block_index(blocks@[k].0 as int, blocks@[k].1 as int, blocks@[k].2 as int) == j;
                assert forall|j: int| #[trigger] t3(j) == (t1(j) || t2(j)) by {
                    if t3(j) {
                        let k = choose|k: int| 0 <= k < n + 1 && block_index(blocks@[k].0 as int, blocks@[k].1 as int, blocks@[k].2 as int) == j;
                        if k < n {
                            assert(t1(j));
                        }
                    }
                    if t2(j) {
                        assert(0 <= n < n + 1 && block_index(blocks@[n as int].0 as int, blocks@[n as int].1 as int, blocks@[n as int].2 as int) == j);
                    }
                    if t1(j) {
                        let k = choose|k: int| 0 <= k < n && block_index(blocks@[k].0 as int, blocks@[k].1 as int, blocks@[k].2 as int) == j;
                        assert(0 <= k < n + 1);
                    }
                }
                ChunkManager::lemma_refresh_compose(&old_w, &s2, self, c_x as int, c_y as int, c_z as int, t1, t2, t3);
            }
            n += 1;
        }
    }

    /// Recomputes the face bits and corner weights of one block of chunk (cx, cy, cz).
    pub fn update_block(&mut self, c_x: i32, c_y: i32, c_z: i32, b_x: u32, b_y: u32, b_z: u32)
        requires
            old(self).wf(),
            chunk_in_range(c_x as int),
            chunk_in_range(c_z as int),
            b_x < 16 && b_y < 16 && b_z < 16,
        ensures
            final(self).refreshed(
                old(self),
                c_x as int,
                c_y as int,
                c_z as int,
                |j: int| j == block_index(b_x as int, b_y as int, b_z as int),
            ),
    {
        let i = index_of(b_x, b_y, b_z);
        let ghost t = |j: int| j == block_index(b_x as int, b_y as int, b_z as int);
        if c_y < 0 || c_y >= 16 {
            proof { self.lemma_refresh_refl(c_x as int, c_y as int, c_z as int, t); }
            return;
        }
        match self.find_column(c_x, c_z) {
            Some(ci) => {
                self.refresh_block(ci, c_x, c_y, c_z, i);
                proof {
                    assert(forall|j: int| #[trigger] t(j) == (j == i));
                }
            },
            None => {
                proof { self.lemma_refresh_refl(c_x as int, c_y as int, c_z as int, t); }
            },
        }
    }

    /// Recomputes the face bits and corner weights of every block of chunk (cx, cy, cz).
    pub fn update_all_blocks(&mut self, c_x: i32, c_y: i32, c_z: i32)
        requires
            old(self).wf(),
            chunk_in_range(c_x as int),
            chunk_in_range(c_z as int),
        ensures
            final(self).refreshed(old(self), c_x as int, c_y as int, c_z as int, |j: int| 0 <= j < 4096),
    {
        let ghost old_w = *self;
        let ghost all = |j: int| 0 <= j < 4096;
        if c_y < 0 || c_y >= 16 {
            proof { self.lemma_refresh_refl(c_x as int, c_y as int, c_z as int, all); }
            return;
        }
        let ci = match self.find_column(c_x, c_z) {
            Some(ci) => ci,
            None => {
                proof { self.lemma_refresh_refl(c_x as int, c_y as int, c_z as int, all); }
                return;
            },
        };
        proof {
            self.lemma_refresh_refl(c_x as int, c_y as int, c_z as int, |j: int| 0 <= j < 0);
        }
        let mut it = BlockIterator::new();
        loop
            invariant
                old_w.wf(),
                old_w == *old(self),
                it.wf(),
                0 <= it.position() <= 4096,
                old_w.key_at(ci as int, c_x as int, c_z as int),
                0 <= c_y < 16,
                chunk_in_range(c_x as int),
                chunk_in_range(c_z as int),
                self.refreshed(&old_w, c_x as int, c_y as int, c_z as int, |j: int| 0 <= j < it.position()),
            ensures
                self.refreshed(&old_w, c_x as int, c_y as int, c_z as int, |j: int| 0 <= j < 4096),
            decreases 4096 - it.position(),
        {
            let ghost p = it.position();
            match it.next() {
                None => {
                    proof {
                        assert(p == 4096);
                        assert(it.position() == 4096);
                        ChunkManager::lemma_refresh_touch_eq(self, &old_w, c_x as int, c_y as int, c_z as int,
                            |j: int| 0 <= j < it.position(), |j: int| 0 <= j < 4096);

                    }
                    break;
                },
                Some((b_x, b_y, b_z)) => {
                    let i = index_of(b_x, b_y, b_z);
                    let ghost s2 = *self;
                    self.refresh_block(ci, c_x, c_y, c_z, i);
                    proof {
                        let t1 = |j: int| 0 <= j < p;
                        let t2 = |j: int| j == i;
                        let t3 = |j: int| 0 <= j < it.position();
                        assert(forall|j: int| #[trigger] t3(j) == (t1(j) || t2(j)));
                        ChunkManager::lemma_refresh_compose(&old_w, &s2, self, c_x as int, c_y as int, c_z as int, t1, t2, t3);
                    }
                },
            }
        }
    }


    /// `self` is `old` with the face bits and weights recomputed of every
    /// non-air block `i` of every chunk `(cx, cy, cz)` for which
    /// `touched(cx, cy, cz, i)` holds; nothing else differs.
    pub open spec fn refreshed_at(&self, old: &ChunkManager, touched: spec_fn(int, int, int, int) -> bool) -> bool {
        &&& self.wf()
        &&& self.column_keys == old.column_keys
        &&& self.loaded_chunk_columns@.len() == old.loaded_chunk_columns@.len()
        &&& forall|x: int, y: int, z: int| #[trigger] self.block_at(x, y, z) == old.block_at(x, y, z)
        &&& forall|x: int, z: int|
            old.has_column(x, z) ==> (#[trigger] self.column_spec(x, z)).heighest_blocks
                == old.column_spec(x, z).heighest_blocks && self.column_spec(x, z).has_foliage
                == old.column_spec(x, z).has_foliage
        &&& forall|cx: int, cy: int, cz: int|
            (#[trigger] self.chunk_spec(cx, cy, cz)).is_some() == old.chunk_spec(cx, cy, cz).is_some()
        &&& forall|cx: int, cy: int, cz: int|
            (#[trigger] old.chunk_spec(cx, cy, cz)).is_some() ==> chunk_refreshed(
                self.chunk_spec(cx, cy, cz).unwrap(),
                old.chunk_spec(cx, cy, cz).unwrap(),
                old,
                cx,
                cy,
                cz,
                touched,
            )
    }

    pub proof fn lemma_refreshed_at_touch_eq(
        s: &ChunkManager,
        o: &ChunkManager,
        t1: spec_fn(int, int, int, int) -> bool,
        t2: spec_fn(int, int, int, int) -> bool,
    )
        requires
            s.refreshed_at(o, t1),
            forall|cx: int, cy: int, cz: int, i: int| #[trigger] t1(cx, cy, cz, i) == t2(cx, cy, cz, i),
        ensures
            s.refreshed_at(o, t2),
    {
        assert forall|cx: int, cy: int, cz: int|
            (#[trigger] o.chunk_spec(cx, cy, cz)).is_some() implies chunk_refreshed(
                s.chunk_spec(cx, cy, cz).unwrap(),
                o.chunk_spec(cx, cy, cz).unwrap(),
                o,
                cx,
                cy,
                cz,
                t2,
            ) by {
            assert(chunk_refreshed(s.chunk_spec(cx, cy, cz).unwrap(), o.chunk_spec(cx, cy, cz).unwrap(), o, cx, cy, cz, t1));
        }
    }

    pub proof fn lemma_refreshed_at_refl(&self)
        requires
            self.wf(),
        ensures
            self.refreshed_at(self, |cx: int, cy: int, cz: int, i: int| false),
    {
    }

    /// One more single-chunk refresh extends a many-chunk refresh.
    pub proof fn lemma_refreshed_at_extend(
        s1: &ChunkManager,
        s2: &ChunkManager,
        s3: &ChunkManager,
        t1: spec_fn(int, int, int, int) -> bool,
        kx: int,
        ky: int,
        kz: int,
        t2: spec_fn(int) -> bool,
        t3: spec_fn(int, int, int, int) -> bool,
    )
        requires
            s1.wf(),
            s2.refreshed_at(s1, t1),
            s3.refreshed(s2, kx, ky, kz, t2),
            forall|cx: int, cy: int, cz: int, i: int|
                #[trigger] t3(cx, cy, cz, i) == (t1(cx, cy, cz, i) || (cx == kx && cy == ky && cz == kz && t2(i))),
        ensures
            s3.refreshed_at(s1, t3),
    {
        assert forall|cx: int, cy: int, cz: int, i: int| 0 <= i < 4096 implies s2.expected_faces(cx, cy, cz, i)
            == s1.expected_faces(cx, cy, cz, i) && s2.expected_ao(cx, cy, cz, i) == s1.expected_ao(cx, cy, cz, i) by {
            let x = world_of(cx, index_x(i));
            let y = world_of(cy, index_y(i));
            let z = world_of(cz, index_z(i));
            assert(s2.faces_spec(x, y, z) =~= s1.faces_spec(x, y, z));
            assert(s2.occ_world(x, y, z) =~= s1.occ_world(x, y, z));
        }
        assert forall|x: int, z: int| s1.has_column(x, z) implies (#[trigger] s3.column_spec(x, z)).heighest_blocks
            == s1.column_spec(x, z).heighest_blocks && s3.column_spec(x, z).has_foliage
            == s1.column_spec(x, z).has_foliage by {
            let i = s1.column_index(x, z);
            assert(s1.key_at(i, x, z));
            assert(s2.key_at(i, x, z));
        }
        assert forall|cx: int, cy: int, cz: int|
            (#[trigger] s3.chunk_spec(cx, cy, cz)).is_some() == s1.chunk_spec(cx, cy, cz).is_some() by {
            assert(s2.chunk_spec(cx, cy, cz).is_some() == s1.chunk_spec(cx, cy, cz).is_some());
        }
        assert forall|cx: int, cy: int, cz: int|
            (#[trigger] s1.chunk_spec(cx, cy, cz)).is_some() implies chunk_refreshed(
                s3.chunk_spec(cx, cy, cz).unwrap(),
                s1.chunk_spec(cx, cy, cz).unwrap(),
                s1,
                cx,
                cy,
                cz,
                t3,
            ) by {
            assert(s2.chunk_spec(cx, cy, cz).is_some());
            if !(cx == kx && cy == ky && cz == kz) {
                assert(s3.chunk_spec(cx, cy, cz) == s2.chunk_spec(cx, cy, cz));
            }
        }
    }


    /// Where only the chunk at height `cy` of the column at index `ci` has
    /// changed, and not its blocks, the world reads the same everywhere and
    /// every other chunk is as it was.
    pub proof fn lemma_chunk_frame(old_w: &ChunkManager, new_w: &ChunkManager, ci: int, cy: int)
        requires
            old_w.wf(),
            0 <= ci < old_w.loaded_chunk_columns@.len(),
            0 <= cy < 16,
            new_w.column_keys == old_w.column_keys,
            new_w.block_changelist == old_w.block_changelist,
            new_w.loaded_chunk_columns@.len() == old_w.loaded_chunk_columns@.len(),
            forall|a: int| 0 <= a < old_w.loaded_chunk_columns@.len() && a != ci ==>
                #[trigger] new_w.loaded_chunk_columns@[a] == old_w.loaded_chunk_columns@[a],
            new_w.loaded_chunk_columns@[ci].heighest_blocks == old_w.loaded_chunk_columns@[ci].heighest_blocks,
            new_w.loaded_chunk_columns@[ci].has_foliage == old_w.loaded_chunk_columns@[ci].has_foliage,
            new_w.loaded_chunk_columns@[ci].chunks@ == old_w.loaded_chunk_columns@[ci].chunks@.update(
                cy,
                new_w.loaded_chunk_columns@[ci].chunks@[cy],
            ),
            new_w.loaded_chunk_columns@[ci].chunks@[cy].wf(),
            new_w.loaded_chunk_columns@[ci].chunks@[cy].blocks == old_w.loaded_chunk_columns@[ci].chunks@[cy].blocks,
        ensures
            new_w.wf(),
            forall|x: int, y: int, z: int| #[trigger] new_w.block_at(x, y, z) == old_w.block_at(x, y, z),
            forall|x: int, y: int, z: int|
                !(old_w.has_column(x, z) && old_w.column_index(x, z) == ci && y == cy) ==> #[trigger] new_w.chunk_spec(x, y, z)
                    == old_w.chunk_spec(x, y, z),
            forall|x: int, z: int| #[trigger] new_w.has_column(x, z) == old_w.has_column(x, z),
            forall|x: int, z: int|
                old_w.has_column(x, z) ==> (#[trigger] new_w.column_spec(x, z)).heighest_blocks
                    == old_w.column_spec(x, z).heighest_blocks && new_w.column_spec(x, z).has_foliage
                    == old_w.column_spec(x, z).has_foliage,
    {
        assert forall|a: int|
            0 <= a < new_w.loaded_chunk_columns@.len() implies (#[trigger] new_w.loaded_chunk_columns@[a]).wf() by {
            if a == ci {
                assert forall|c: int| 0 <= c < 16 implies (#[trigger] new_w.loaded_chunk_columns@[a].chunks@[c]).wf() by {
                    if c != cy {
                        assert(new_w.loaded_chunk_columns@[a].chunks@[c] == old_w.loaded_chunk_columns@[a].chunks@[c]);
                    }
                }
            }
        }
        assert forall|a: int, c: int|
            0 <= a < old_w.loaded_chunk_columns@.len() && 0 <= c < 16 implies #[trigger] new_w.blocks_of(a, c)
                == old_w.blocks_of(a, c) by {
            if a == ci && c != cy {
                assert(new_w.loaded_chunk_columns@[a].chunks@[c] == old_w.loaded_chunk_columns@[a].chunks@[c]);
            }
        }
        ChunkManager::lemma_same_blocks(old_w, new_w);
        assert forall|x: int, z: int| #[trigger] new_w.has_column(x, z) == old_w.has_column(x, z) by {
            if old_w.has_column(x, z) {
                let a = old_w.column_index(x, z);
                assert(new_w.key_at(a, x, z));
            }
            if new_w.has_column(x, z) {
                let a = new_w.column_index(x, z);
                assert(old_w.key_at(a, x, z));
            }
        }
        assert forall|x: int, y: int, z: int|
            !(old_w.has_column(x, z) && old_w.column_index(x, z) == ci && y == cy) implies #[trigger] new_w.chunk_spec(x, y, z)
                == old_w.chunk_spec(x, y, z) by {
            if old_w.has_column(x, z) && 0 <= y < 16 {
                let a = old_w.column_index(x, z);
                assert(old_w.key_at(a, x, z));
                if a == ci {
                    assert(new_w.loaded_chunk_columns@[a].chunks@[y] == old_w.loaded_chunk_columns@[a].chunks@[y]);
                }
            }
        }
        assert forall|x: int, z: int| old_w.has_column(x, z) implies (#[trigger] new_w.column_spec(x, z)).heighest_blocks
            == old_w.column_spec(x, z).heighest_blocks && new_w.column_spec(x, z).has_foliage
            == old_w.column_spec(x, z).has_foliage by {
            let a = old_w.column_index(x, z);
            assert(old_w.key_at(a, x, z));
        }
    }

    /// Builds the mesh of the chunk at chunk coordinates and marks it
    /// uploaded and drawable. `None` when the chunk is not loaded; the
    /// missing texture when the pack lacks one, the world then unchanged.
    pub fn upload_chunk(&mut self, c_x: i32, c_y: i32, c_z: i32, texture_pack: &TexturePack) -> (r: Option<Result<Vec<Vertex>, BlockID>>)
        requires
            old(self).wf(),
            texture_pack.wf(),
        ensures
            final(self).wf(),
            final(self).column_keys == old(self).column_keys,
            final(self).block_changelist == old(self).block_changelist,
            forall|x: int, y: int, z: int| #[trigger] final(self).block_at(x, y, z) == old(self).block_at(x, y, z),
            forall|x: int, y: int, z: int|
                !(x == c_x && y == c_y && z == c_z) ==> #[trigger] final(self).chunk_spec(x, y, z)
                    == old(self).chunk_spec(x, y, z),
            r.is_none() == old(self).chunk_spec(c_x as int, c_y as int, c_z as int).is_none(),
            r.is_none() ==> final(self).chunk_spec(c_x as int, c_y as int, c_z as int) == old(self).chunk_spec(
                c_x as int,
                c_y as int,
                c_z as int,
            ),
            r matches Some(Err(_)) ==> final(self).chunk_spec(c_x as int, c_y as int, c_z as int) == old(self).chunk_spec(
                c_x as int,
                c_y as int,
                c_z as int,
            ),
            r matches Some(res) ==> (res.is_ok() <==> forall|i: int| 0 <= i < 4096 ==> !#[trigger] needs_texture(
                &old(self).chunk_spec(c_x as int, c_y as int, c_z as int).unwrap(),
                texture_pack,
                i,
            )),
            r matches Some(Err(b)) ==> {
                let o = old(self).chunk_spec(c_x as int, c_y as int, c_z as int).unwrap();
                exists|i: int| 0 <= i < 4096 && #[trigger] needs_texture(&o, texture_pack, i) && b == o.blocks@[i]
                    && forall|j: int| 0 <= j < i ==> !needs_texture(&o, texture_pack, j)
            },
            r matches Some(Ok(v)) ==> {
                let o = old(self).chunk_spec(c_x as int, c_y as int, c_z as int).unwrap();
                let n = final(self).chunk_spec(c_x as int, c_y as int, c_z as int).unwrap();
                &&& v@ == mesh_upto(&o, texture_pack, 4096)
                &&& n.vertices_drawn == v@.len()
                &&& n.is_uploaded_to_gpu && n.is_rendered
                &&& n.blocks == o.blocks
                &&& n.active_faces == o.active_faces
                &&& n.ao_vertices == o.ao_vertices
                &&& n.is_generated == o.is_generated
            },
    {
        if c_y < 0 || c_y >= 16 {
            return None;
        }
        let ci = match self.find_column(c_x, c_z) {
            Some(ci) => ci,
            None => return None,
        };
        let ghost old_w = *self;
        let ghost oc = self.loaded_chunk_columns@[ci as int].chunks@[c_y as int];
        let r = self.loaded_chunk_columns[ci].chunks[c_y as usize].upload_to_gpu(texture_pack);
        proof {
            if r.is_ok() {
                assert forall|i: int| 0 <= i < 4096 implies !#[trigger] needs_texture(&oc, texture_pack, i) by {}
            } else {
                assert(!forall|i: int| 0 <= i < 4096 ==> !#[trigger] needs_texture(&oc, texture_pack, i));
            }
        }
        match r {
            Ok(v) => {
                self.loaded_chunk_columns[ci].chunks[c_y as usize].is_uploaded_to_gpu = true;
                self.loaded_chunk_columns[ci].chunks[c_y as usize].is_rendered = true;
                proof {
                    assert(self.loaded_chunk_columns@[ci as int].chunks@ =~= old_w.loaded_chunk_columns@[ci as int].chunks@.update(
                        c_y as int, self.loaded_chunk_columns@[ci as int].chunks@[c_y as int]));
                    ChunkManager::lemma_chunk_frame(&old_w, self, ci as int, c_y as int);
                    old_w.lemma_index_unique(ci as int, c_x as int, c_z as int);
                    self.lemma_index_unique(ci as int, c_x as int, c_z as int);
                    assert(old_w.chunk_spec(c_x as int, c_y as int, c_z as int) == Some(old_w.loaded_chunk_columns@[ci as int].chunks@[c_y as int]));
                    assert(old_w.chunk_spec(c_x as int, c_y as int, c_z as int).unwrap() == oc);
                    assert(forall|i: int| 0 <= i < 4096 ==> !#[trigger] needs_texture(&old_w.chunk_spec(c_x as int, c_y as int, c_z as int).unwrap(), texture_pack, i));
                }
                Some(Ok(v))
            },
            Err(b) => {
                proof {
                    ChunkManager::lemma_chunk_frame(&old_w, self, ci as int, c_y as int);
                    old_w.lemma_index_unique(ci as int, c_x as int, c_z as int);
                    self.lemma_index_unique(ci as int, c_x as int, c_z as int);
                    assert(old_w.chunk_spec(c_x as int, c_y as int, c_z as int) == Some(old_w.loaded_chunk_columns@[ci as int].chunks@[c_y as int]));
                    assert(old_w.chunk_spec(c_x as int, c_y as int, c_z as int).unwrap() == oc);
                }
                Some(Err(b))
            },
        }
    }

    /// Records that the chunk at chunk coordinates has had its faces
    /// computed (`is_generated`) and, where it has nothing to draw, that its
    /// empty mesh is current.
    pub fn mark_generated(&mut self, c_x: i32, c_y: i32, c_z: i32, mesh_current: bool) -> (r: bool)
        requires
            old(self).wf(),
        ensures
            final(self).wf(),
            final(self).column_keys == old(self).column_keys,
            final(self).block_changelist == old(self).block_changelist,
            forall|x: int, y: int, z: int| #[trigger] final(self).block_at(x, y, z) == old(self).block_at(x, y, z),
            forall|x: int, y: int, z: int|
                !(x == c_x && y == c_y && z == c_z) ==> #[trigger] final(self).chunk_spec(x, y, z)
                    == old(self).chunk_spec(x, y, z),
            r == old(self).chunk_spec(c_x as int, c_y as int, c_z as int).is_some(),
            !r ==> *final(self) == *old(self),
            forall|x: int, z: int|
                old(self).has_column(x, z) ==> (#[trigger] final(self).column_spec(x, z)).heighest_blocks
                    == old(self).column_spec(x, z).heighest_blocks && final(self).column_spec(x, z).has_foliage
                    == old(self).column_spec(x, z).has_foliage,
            r ==> {
                let o = old(self).chunk_spec(c_x as int, c_y as int, c_z as int).unwrap();
                let n = final(self).chunk_spec(c_x as int, c_y as int, c_z as int).unwrap();
                &&& n.is_generated
                &&& n.is_uploaded_to_gpu == (o.is_uploaded_to_gpu || mesh_current)
                &&& n.blocks == o.blocks
                &&& n.active_faces == o.active_faces
                &&& n.ao_vertices == o.ao_vertices
                &&& n.vertices_drawn == o.vertices_drawn
                &&& n.is_rendered == o.is_rendered
            },
    {
        if c_y < 0 || c_y >= 16 {
            return false;
        }
        let ci = match self.find_column(c_x, c_z) {
            Some(ci) => ci,
            None => return false,
        };
        let ghost old_w = *self;
        self.loaded_chunk_columns[ci].chunks[c_y as usize].is_generated = true;
        if mesh_current {
            self.loaded_chunk_columns[ci].chunks[c_y as usize].is_uploaded_to_gpu = true;
        }
        proof {
            assert(self.loaded_chunk_columns@[ci as int].chunks@ =~= old_w.loaded_chunk_columns@[ci as int].chunks@.update(
                c_y as int, self.loaded_chunk_columns@[ci as int].chunks@[c_y as int]));
            ChunkManager::lemma_chunk_frame(&old_w, self, ci as int, c_y as int);
            old_w.lemma_index_unique(ci as int, c_x as int, c_z as int);
            self.lemma_index_unique(ci as int, c_x as int, c_z as int);
        }
        true
    }


    /// Loads four empty columns, at (0, 0), (1, 0), (0, 1) and (1, 1),
    /// where none is loaded yet.
    pub fn preload_some_chunks(&mut self)
        requires
            old(self).wf(),
        ensures
            final(self).wf(),
            final(self).block_changelist == old(self).block_changelist,
            forall|x: int, z: int| 0 <= x < 2 && 0 <= z < 2 ==> #[trigger] final(self).has_column(x, z),
            forall|x: int, z: int| 0 <= x < 2 && 0 <= z < 2 && !old(self).has_column(x, z) ==> (#[trigger] final(self).column_spec(x, z)).is_fresh(),
            forall|x: int, z: int| !(0 <= x < 2 && 0 <= z < 2) ==> #[trigger] final(self).has_column(x, z) == old(self).has_column(x, z)
                && (old(self).has_column(x, z) ==> final(self).column_spec(x, z) == old(self).column_spec(x, z)),
            forall|x: int, z: int| 0 <= x < 2 && 0 <= z < 2 && old(self).has_column(x, z) ==> #[trigger] final(self).column_spec(x, z)
                == old(self).column_spec(x, z),
    {
        let ghost w0 = *self;
        let mut n: i32 = 0;
        while n < 4
            invariant
                self.wf(),
                0 <= n <= 4,
                self.block_changelist == w0.block_changelist,
                forall|x: int, z: int| 0 <= x < 2 && 0 <= z < 2 && 2 * z + x < n ==> #[trigger] self.has_column(x, z),
                forall|x: int, z: int| 0 <= x < 2 && 0 <= z < 2 && 2 * z + x < n && !w0.has_column(x, z) ==> (#[trigger] self.column_spec(x, z)).is_fresh(),
                forall|x: int, z: int| !(0 <= x < 2 && 0 <= z < 2 && 2 * z + x < n) ==> #[trigger] self.has_column(x, z) == w0.has_column(x, z)
                    && (w0.has_column(x, z) ==> self.column_spec(x, z) == w0.column_spec(x, z)),
                forall|x: int, z: int| 0 <= x < 2 && 0 <= z < 2 && 2 * z + x < n && w0.has_column(x, z) ==> #[trigger] self.column_spec(x, z)
                    == w0.column_spec(x, z),
            decreases 4 - n,
        {
            let x = n % 2;
            let z = n / 2;
            let ghost w1 = *self;
            let col = ChunkColumn::new();
            let ghost colv = col;
            self.add_chunk_column((x, z), col);
            proof {
                assert(2 * z + x == n && 0 <= x < 2 && 0 <= z < 2);
                if w1.has_column(x as int, z as int) {
                    assert(*self == w1);
                }
                assert forall|xx: int, zz: int| 0 <= xx < 2 && 0 <= zz < 2 && 2 * zz + xx < n + 1 && !w0.has_column(xx, zz)
                    implies (#[trigger] self.column_spec(xx, zz)).is_fresh() by {
                    if xx == x && zz == z {
                        assert(!w1.has_column(xx, zz));
                        assert(self.column_spec(xx, zz) == colv);
                    } else {
                        assert(2 * zz + xx < n);
                        assert(w1.has_column(xx, zz));
                        assert(self.has_column(xx, zz) == w1.has_column(xx, zz));
                        assert(self.column_spec(xx, zz) == w1.column_spec(xx, zz));
                    }
                }
                assert forall|xx: int, zz: int| 0 <= xx < 2 && 0 <= zz < 2 && 2 * zz + xx < n + 1 && w0.has_column(xx, zz)
                    implies #[trigger] self.column_spec(xx, zz) == w0.column_spec(xx, zz) by {
                    if xx == x && zz == z {
                        assert(w1.has_column(xx, zz));
                        assert(w1.column_spec(xx, zz) == w0.column_spec(xx, zz));
                    } else {
                        assert(2 * zz + xx < n);
                        assert(w1.has_column(xx, zz));
                        assert(self.has_column(xx, zz) == w1.has_column(xx, zz));
                        assert(self.column_spec(xx, zz) == w1.column_spec(xx, zz));
                    }
                }
            }
            n += 1;
        }
    }

    /// A world whose column (0, 0), if it was not loaded, is air but for one
    /// cobblestone block at the origin.
    pub fn single(&mut self)
        requires
            old(self).wf(),
        ensures
            final(self).wf(),
            final(self).has_column(0, 0),
            forall|a: int, b: int, c: int|
                !(chunk_of(a) == 0 && chunk_of(c) == 0) ==> #[trigger] final(self).block_at(a, b, c) == old(self).block_at(a, b, c),
            !old(self).has_column(0, 0) ==> forall|a: int, b: int, c: int|
                chunk_of(a) == 0 && chunk_of(c) == 0 ==> #[trigger] final(self).block_at(a, b, c) == if 0 <= b < 256 {
                    if a == 0 && b == 0 && c == 0 {
                        Some(BlockID::Cobblestone)
                    } else {
                        Some(BlockID::Air)
                    }
                } else {
                    None
                },
    {
        let ghost w0 = *self;
        self.add_chunk_column((0, 0), ChunkColumn::new());
        let ghost w1 = *self;
        proof {
            let i = self.column_index(0, 0);
            assert(self.key_at(i, 0, 0));
            lemma_local_bounds(0);
            if !w0.has_column(0, 0) {
                assert forall|a: int, b: int, c: int|
                    chunk_of(a) == 0 && chunk_of(c) == 0 implies #[trigger] w1.block_at(a, b, c) == if 0 <= b < 256 {
                        Some(BlockID::Air)
                    } else {
                        None
                    } by {
                    lemma_local_bounds(a);
                    lemma_local_bounds(b);
                    lemma_local_bounds(c);
                    lemma_block_index(local_of(a), local_of(b), local_of(c));
                    let col = w1.column_spec(0, 0);
                    if 0 <= chunk_of(b) < 16 {
                        assert(col.chunks@[chunk_of(b)].is_fresh());
                    }
                }
            }
        }
        self.set_block(BlockID::Cobblestone, 0, 0, 0);
        proof {
            assert forall|a: int, b: int, c: int|
                !(chunk_of(a) == 0 && chunk_of(c) == 0) implies #[trigger] self.block_at(a, b, c) == w0.block_at(a, b, c) by {
                assert(w1.block_at(a, b, c) == w0.block_at(a, b, c));
            }
        }
    }

    /// A world whose column (0, 0), if it was not loaded, is cobblestone throughout.
    pub fn single_chunk(&mut self)
        requires
            old(self).wf(),
        ensures
            final(self).wf(),
            final(self).has_column(0, 0),
            forall|a: int, b: int, c: int|
                !(chunk_of(a) == 0 && chunk_of(c) == 0) ==> #[trigger] final(self).block_at(a, b, c) == old(self).block_at(a, b, c),
            !old(self).has_column(0, 0) ==> forall|a: int, b: int, c: int|
                chunk_of(a) == 0 && chunk_of(c) == 0 ==> #[trigger] final(self).block_at(a, b, c) == if 0 <= b < 256 {
                    Some(BlockID::Cobblestone)
                } else {
                    None
                },
    {
        let ghost w0 = *self;
        self.add_chunk_column((0, 0), ChunkColumn::full_of_block(BlockID::Cobblestone));
        proof {
            if !w0.has_column(0, 0) {
                assert forall|a: int, b: int, c: int|
                    chunk_of(a) == 0 && chunk_of(c) == 0 implies #[trigger] self.block_at(a, b, c) == if 0 <= b < 256 {
                        Some(BlockID::Cobblestone)
                    } else {
                        None
                    } by {
                    lemma_local_bounds(a);
                    lemma_local_bounds(b);
                    lemma_local_bounds(c);
                    lemma_block_index(local_of(a), local_of(b), local_of(c));
                }
            }
        }
    }

    /// The chunks to draw, column by column in store order and bottom to
    /// top: those whose mesh is current and that hold any block, with their
    /// chunk coordinates and vertex count.
    pub fn render_loaded_chunks(&self) -> (r: Vec<((i32, i32, i32), u32)>)
        requires
            self.wf(),
            16 * self.loaded_chunk_columns@.len() <= usize::MAX,
        ensures
            r@ == render_list(self, 16 * self.loaded_chunk_columns@.len() as int),
    {
        let total: usize = 16 * self.loaded_chunk_columns.len();
        let mut out: Vec<((i32, i32, i32), u32)> = Vec::new();
        let mut n: usize = 0;
        while n < total
            invariant
                self.wf(),
                total == 16 * self.loaded_chunk_columns@.len(),
                n <= total,
                out@ == render_list(self, n as int),
            decreases total - n,
        {
            let i = n / 16;
            let y = n % 16;
            let chunk = &self.loaded_chunk_columns[i].chunks[y];
            if chunk.is_uploaded_to_gpu && !chunk.is_empty() {
                let key = self.column_keys[i];
                out.push(((key.0, y as i32, key.1), chunk.vertices_drawn));
            }
            proof {
                assert(out@ =~= render_list(self, n as int + 1));
            }
            n += 1;
        }
        out
    }


    /// Empties the mesh of the chunk at chunk coordinates, if it is loaded,
    /// and marks it neither uploaded nor drawable, so that it is meshed
    /// again when it comes back into sight.
    pub fn unload_chunk(&mut self, c_x: i32, c_y: i32, c_z: i32) -> (r: bool)
        requires
            old(self).wf(),
        ensures
            final(self).wf(),
            final(self).column_keys == old(self).column_keys,
            final(self).block_changelist == old(self).block_changelist,
            forall|x: int, y: int, z: int| #[trigger] final(self).block_at(x, y, z) == old(self).block_at(x, y, z),
            forall|x: int, y: int, z: int|
                !(x == c_x && y == c_y && z == c_z) ==> #[trigger] final(self).chunk_spec(x, y, z)
                    == old(self).chunk_spec(x, y, z),
            r == old(self).chunk_spec(c_x as int, c_y as int, c_z as int).is_some(),
            forall|x: int, z: int|
                old(self).has_column(x, z) ==> (#[trigger] final(self).column_spec(x, z)).heighest_blocks
                    == old(self).column_spec(x, z).heighest_blocks && final(self).column_spec(x, z).has_foliage
                    == old(self).column_spec(x, z).has_foliage,
            !r ==> final(self).chunk_spec(c_x as int, c_y as int, c_z as int) == old(self).chunk_spec(c_x as int, c_y as int, c_z as int),
            r ==> {
                let o = old(self).chunk_spec(c_x as int, c_y as int, c_z as int).unwrap();
                let n = final(self).chunk_spec(c_x as int, c_y as int, c_z as int).unwrap();
                &&& n.vertices_drawn == 0
                &&& n.blocks == o.blocks
                &&& n.active_faces == o.active_faces
                &&& n.ao_vertices == o.ao_vertices
                &&& n.is_generated == o.is_generated
                &&& !n.is_uploaded_to_gpu
                &&& !n.is_rendered
                &&& n.number_of_opaque_blocks == o.number_of_opaque_blocks
                &&& n.number_of_transparent_blocks == o.number_of_transparent_blocks
            },
    {
        if c_y < 0 || c_y >= 16 {
            return false;
        }
        let ci = match self.find_column(c_x, c_z) {
            Some(ci) => ci,
            None => return false,
        };
        let ghost old_w = *self;
        self.loaded_chunk_columns[ci].chunks[c_y as usize].unload_from_gpu();
        self.loaded_chunk_columns[ci].chunks[c_y as usize].is_uploaded_to_gpu = false;
        self.loaded_chunk_columns[ci].chunks[c_y as usize].is_rendered = false;
        proof {
            assert(self.loaded_chunk_columns@[ci as int].chunks@ =~= old_w.loaded_chunk_columns@[ci as int].chunks@.update(
                c_y as int, self.loaded_chunk_columns@[ci as int].chunks@[c_y as int]));
            ChunkManager::lemma_chunk_frame(&old_w, self, ci as int, c_y as int);
            old_w.lemma_index_unique(ci as int, c_x as int, c_z as int);
            self.lemma_index_unique(ci as int, c_x as int, c_z as int);
        }
        true
    }

}

} // verus!
