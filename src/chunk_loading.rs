use vstd::prelude::*;

use crate::bits::{bits_filled, bits_get, bits_set, bits_of};
use crate::block::BlockID;
use crate::chunk::ChunkColumn;
use crate::chunk_manager::{chunk_refreshed, chunk_in_range, is_chunk_in_range, BlockChange, ChunkManager};
use crate::coords::{block_index, chunk_of, local_of};
use crate::occlusion::{face_normal, normal, offset_of_index};
use crate::mesh::{mesh_upto, needs_texture, TexturePack, Vertex};
use crate::terrain::{place_tree, tree_kind};

verus! {

/// Chunks drawn around the viewpoint, in each direction.
pub const RENDER_DISTANCE: i32 = 5;

/// Columns kept ready in a new scheduler's pool: the retention square,
/// `2 * (RENDER_DISTANCE + 2) + 1` columns on a side.
pub const POOL_COLUMNS: usize = 225;

/// Chunk meshes handed out per tick.
pub const CHUNK_UPLOADS_PER_FRAME: usize = 10;

/// A chunk waiting for its mesh: priority and chunk coordinates.
pub type PrioritizedChunk = (i32, (i32, i32, i32));

/// Scheduler state: recycled columns and chunks waiting for upload.
pub struct ChunkLoading {
    /// Columns taken out of the world, kept for reuse.
    pub chunk_column_pool: Vec<ChunkColumn>,
    /// Chunks ready for upload; the highest priority leaves first.
    pub chunk_upload_queue: Vec<PrioritizedChunk>,
}

impl ChunkLoading {
    pub open spec fn wf(&self) -> bool {
        forall|i: int| 0 <= i < self.chunk_column_pool@.len() ==> (#[trigger] self.chunk_column_pool@[i]).wf()
    }

    /// A scheduler with nothing to upload whose pool holds one empty column
    /// for each column of the retention square, so that streaming in the
    /// first view allocates nothing.
    pub fn new() -> (r: ChunkLoading)
        ensures
            r.wf(),
            r.chunk_column_pool@.len() == POOL_COLUMNS,
            r.chunk_upload_queue@.len() == 0,
    {
        ChunkLoading::with_pool(POOL_COLUMNS)
    }

    /// A scheduler whose pool holds `n` empty columns.
    pub fn with_pool(n: usize) -> (r: ChunkLoading)
        ensures
            r.wf(),
            r.chunk_column_pool@.len() == n,
            r.chunk_upload_queue@.len() == 0,
    {
        let mut pool: Vec<ChunkColumn> = Vec::new();
        let mut i: usize = 0;
        while i < n
            invariant
                i <= n,
                pool@.len() == i,
                forall|j: int| 0 <= j < i ==> (#[trigger] pool@[j]).wf(),
            decreases n - i,
        {
            pool.push(ChunkColumn::new());
            i += 1;
        }
        ChunkLoading { chunk_column_pool: pool, chunk_upload_queue: Vec::new() }
    }

    /// A column ready for generation: the last one recycled, reset, or a new
    /// one when the pool is empty.
    pub fn acquire_column(&mut self) -> (r: ChunkColumn)
        requires
            old(self).wf(),
        ensures
            final(self).wf(),
            r.is_fresh(),
            final(self).chunk_upload_queue == old(self).chunk_upload_queue,
            old(self).chunk_column_pool@.len() > 0 ==> final(self).chunk_column_pool@
                == old(self).chunk_column_pool@.drop_last(),
            old(self).chunk_column_pool@.len() == 0 ==> final(self).chunk_column_pool@.len() == 0,
    {
        match self.chunk_column_pool.pop() {
            Some(mut column) => {
                proof {
                    assert(column == old(self).chunk_column_pool@.last());
                }
                column.reset();
                column
            },
            None => ChunkColumn::new(),
        }
    }

    /// Keeps a column taken out of the world for reuse.
    pub fn recycle_column(&mut self, column: ChunkColumn)
        requires
            old(self).wf(),
            column.wf(),
        ensures
            final(self).wf(),
            final(self).chunk_column_pool@ == old(self).chunk_column_pool@.push(column),
            final(self).chunk_upload_queue == old(self).chunk_upload_queue,
    {
        self.chunk_column_pool.push(column);
    }

    /// Queues a chunk for upload.
    pub fn push_upload(&mut self, item: PrioritizedChunk)
        ensures
            final(self).chunk_upload_queue@ == old(self).chunk_upload_queue@.push(item),
            final(self).chunk_column_pool == old(self).chunk_column_pool,
    {
        self.chunk_upload_queue.push(item);
    }

    /// Takes out a queued chunk of the highest priority; among equals, the
    /// one queued first.
    pub fn pop_upload(&mut self) -> (r: Option<PrioritizedChunk>)
        ensures
            final(self).chunk_column_pool == old(self).chunk_column_pool,
            r.is_none() == (old(self).chunk_upload_queue@.len() == 0),
            r.is_none() ==> final(self).chunk_upload_queue@ == old(self).chunk_upload_queue@,
            r matches Some(item) ==> exists|i: int|
                0 <= i < old(self).chunk_upload_queue@.len() && old(self).chunk_upload_queue@[i] == item
                    && final(self).chunk_upload_queue@ == old(self).chunk_upload_queue@.remove(i)
                    && (forall|j: int| 0 <= j < old(self).chunk_upload_queue@.len() ==> #[trigger] old(self).chunk_upload_queue@[j].0 <= item.0)
                    && (forall|j: int| 0 <= j < i ==> #[trigger] old(self).chunk_upload_queue@[j].0 < item.0),
    {
        let n = self.chunk_upload_queue.len();
        if n == 0 {
            return None;
        }
        let mut best: usize = 0;
        let mut i: usize = 1;
        while i < n
            invariant
                n == self.chunk_upload_queue@.len(),
                1 <= i <= n,
                best < i,
                forall|j: int| 0 <= j < i ==> #[trigger] self.chunk_upload_queue@[j].0 <= self.chunk_upload_queue@[best as int].0,
                forall|j: int| 0 <= j < best ==> #[trigger] self.chunk_upload_queue@[j].0 < self.chunk_upload_queue@[best as int].0,
            decreases n - i,
        {
            if self.chunk_upload_queue[i].0 > self.chunk_upload_queue[best].0 {
                best = i;
            }
            i += 1;
        }
        let item = self.chunk_upload_queue.remove(best);
        Some(item)
    }
}

pub open spec fn abs(v: int) -> int {
    if v < 0 { -v } else { v }
}

pub open spec fn in_square(d: int, dx: int, dz: int) -> bool {
    -d <= dx <= d && -d <= dz <= d
}

/// What a ring scan looks for at column (x, z): a column that is not
/// loaded (mode 0), or a loaded column without trees whose four
/// neighbours are loaded too, so that its trees may spill into them
/// (mode 1).
pub open spec fn wanted(w: &ChunkManager, mode: int, x: int, z: int) -> bool {
    if mode == 0 {
        !w.has_column(x, z)
    } else {
        &&& w.has_column(x, z)
        &&& !w.column_spec(x, z).has_foliage
        &&& w.has_column(x + 1, z) && w.has_column(x - 1, z) && w.has_column(x, z + 1) && w.has_column(x, z - 1)
    }
}

/// Offset (dx, dz) from the centre lies in the square of half-side `d`, its
/// Manhattan length is between `lo` and `hi`, and its column is wanted.
pub open spec fn selected(w: &ChunkManager, mode: int, x: int, z: int, d: int, lo: int, hi: int, dx: int, dz: int) -> bool {
    &&& in_square(d, dx, dz)
    &&& lo <= abs(dx) + abs(dz) <= hi
    &&& wanted(w, mode, x + dx, z + dz)
}

pub open spec fn ring_nonempty(w: &ChunkManager, mode: int, x: int, z: int, d: int, lo: int, hi: int) -> bool {
    exists|dx: int, dz: int| selected(w, mode, x, z, d, lo, hi, dx, dz)
}

/// `r` lists, once each, exactly the selected columns of a ring.
pub open spec fn lists_ring(r: Seq<(i32, i32)>, w: &ChunkManager, mode: int, x: int, z: int, d: int, lo: int, hi: int) -> bool {
    &&& r.no_duplicates()
    &&& forall|i: int| 0 <= i < r.len() ==> in_square(d, (#[trigger] r[i]).0 - x, r[i].1 - z)
    &&& forall|dx: int, dz: int|
        in_square(d, dx, dz) ==> (#[trigger] selected(w, mode, x, z, d, lo, hi, dx, dz) <==> r.contains(
            ((x + dx) as i32, (z + dz) as i32),
        ))
}

/// Centre coordinates and ring sizes for which every scanned column has `i32` coordinates.
pub open spec fn scan_in_range(x: int, z: int, d: int) -> bool {
    &&& 0 <= d <= 1000000
    &&& -1000000000 <= x <= 1000000000
    &&& -1000000000 <= z <= 1000000000
}

fn iabs(v: i32) -> (r: i32)
    requires
        v > i32::MIN,
    ensures
        r as int == abs(v as int),
{
    if v < 0 { -v } else { v }
}

/// The wanted columns whose offset from (x, z) lies in the square of
/// half-side `d` and has a Manhattan length from `lo` to `hi`.
fn scan_ring(world: &ChunkManager, mode: u8, x: i32, z: i32, d: i32, lo: i32, hi: i32) -> (r: Vec<(i32, i32)>)
    requires
        world.wf(),
        scan_in_range(x as int, z as int, d as int),
    ensures
        lists_ring(r@, world, mode as int, x as int, z as int, d as int, lo as int, hi as int),
{
    let mut out: Vec<(i32, i32)> = Vec::new();
    let mut dx: i32 = -d;
    while dx <= d
        invariant
            world.wf(),
            scan_in_range(x as int, z as int, d as int),
            -d <= dx <= d + 1,
            out@.no_duplicates(),
            forall|i: int| 0 <= i < out@.len() ==> in_square(d as int, (#[trigger] out@[i]).0 - x, out@[i].1 - z)
                && out@[i].0 - x < dx,
            forall|a: int, b: int|
                in_square(d as int, a, b) && a < dx ==> (#[trigger] selected(world, mode as int, x as int, z as int, d as int, lo as int, hi as int, a, b)
                    <==> out@.contains(((x + a) as i32, (z + b) as i32))),
        decreases d + 1 - dx,
    {
        let mut dz: i32 = -d;
        while dz <= d
            invariant
                world.wf(),
                scan_in_range(x as int, z as int, d as int),
                -d <= dx <= d,
                -d <= dz <= d + 1,
                out@.no_duplicates(),
                forall|i: int| 0 <= i < out@.len() ==> in_square(d as int, (#[trigger] out@[i]).0 - x, out@[i].1 - z)
                    && (out@[i].0 - x < dx || (out@[i].0 - x == dx && out@[i].1 - z < dz)),
                forall|a: int, b: int|
                    in_square(d as int, a, b) && (a < dx || (a == dx && b < dz)) ==> (#[trigger] selected(world, mode as int, x as int, z as int, d as int, lo as int, hi as int, a, b)
                        <==> out@.contains(((x + a) as i32, (z + b) as i32))),
            decreases d + 1 - dz,
        {
            let m = iabs(dx) + iabs(dz);
            let cx = x + dx;
            let cz = z + dz;
            let want = if mode == 0 {
                world.find_column(cx, cz).is_none()
            } else {
                match world.get_column(cx, cz) {
                    Some(c) => !c.has_foliage && ChunkLoading::neighbours_generated(world, cx, cz),
                    None => false,
                }
            };
            let ghost before = out@;
            if lo <= m && m <= hi && want {
                out.push((cx, cz));
                proof {
                    assert forall|i: int, j: int| 0 <= i < j < out@.len() implies out@[i] != out@[j] by {
                        if j == out@.len() - 1 {
                            assert(out@[i] == before[i]);
                        } else {
                            assert(before[i] != before[j]);
                        }
                    }
                }
            }
            proof {
                assert forall|a: int, b: int|
                    in_square(d as int, a, b) && (a < dx || (a == dx && b < dz + 1)) implies (#[trigger] selected(world, mode as int, x as int, z as int, d as int, lo as int, hi as int, a, b)
                        <==> out@.contains(((x + a) as i32, (z + b) as i32))) by {
                    if a == dx && b == dz {
                        if out@.contains(((x + a) as i32, (z + b) as i32)) && !selected(world, mode as int, x as int, z as int, d as int, lo as int, hi as int, a, b) {
                            let i = choose|i: int| 0 <= i < out@.len() && out@[i] == ((x + a) as i32, (z + b) as i32);
                            assert(i == out@.len() - 1);
                        }
                        if selected(world, mode as int, x as int, z as int, d as int, lo as int, hi as int, a, b) {
                            assert(out@[out@.len() - 1] == ((x + a) as i32, (z + b) as i32));
                        }
                    } else {
                        if out@.contains(((x + a) as i32, (z + b) as i32)) {
                            let i = choose|i: int| 0 <= i < out@.len() && out@[i] == ((x + a) as i32, (z + b) as i32);
                            if i < before.len() {
                                assert(before[i] == out@[i]);
                            }
                        }
                        if before.contains(((x + a) as i32, (z + b) as i32)) {
                            let i = choose|i: int| 0 <= i < before.len() && before[i] == ((x + a) as i32, (z + b) as i32);
                            assert(out@[i] == before[i]);
                        }
                    }
                }
            }
            dz += 1;
        }
        dx += 1;
    }
    out
}

pub open spec fn unloaded_lo(k: int) -> int {
    if k == 2 { 0 } else { k }
}

impl ChunkLoading {
    /// The next batch of columns to generate: the columns that are not
    /// loaded in the first ring around (x, z) that has any, where the first
    /// ring holds everything within two steps and each later ring the
    /// columns one step further, inside the square of half-side `distance`.
    /// Empty when every column of the square is loaded.
    pub fn flood_fill_unloaded_columns(chunk_manager: &ChunkManager, x: i32, z: i32, distance: i32) -> (r: Vec<(i32, i32)>)
        requires
            chunk_manager.wf(),
            distance >= 2,
            scan_in_range(x as int, z as int, distance as int),
        ensures
            r@.len() == 0 <==> forall|k: int| 2 <= k <= 2 * distance ==> !#[trigger] ring_nonempty(chunk_manager, 0, x as int, z as int, distance as int, unloaded_lo(k), k),
            r@.len() > 0 ==> exists|k: int| 2 <= k <= 2 * distance
                && (forall|k2: int| 2 <= k2 < k ==> !#[trigger] ring_nonempty(chunk_manager, 0, x as int, z as int, distance as int, unloaded_lo(k2), k2))
                && lists_ring(r@, chunk_manager, 0, x as int, z as int, distance as int, unloaded_lo(k), k),
    {
        let mut k: i32 = 2;
        while k <= 2 * distance
            invariant
                chunk_manager.wf(),
                distance >= 2,
                scan_in_range(x as int, z as int, distance as int),
                2 <= k <= 2 * distance + 1,
                forall|k2: int| 2 <= k2 < k ==> !#[trigger] ring_nonempty(chunk_manager, 0, x as int, z as int, distance as int, unloaded_lo(k2), k2),
            decreases 2 * distance + 1 - k,
        {
            let lo = if k == 2 { 0 } else { k };
            let ring = scan_ring(chunk_manager, 0, x, z, distance, lo, k);
            if ring.len() > 0 {
                proof {
                    let e = ring@[0];
                    let dx = e.0 - x;
                    let dz = e.1 - z;
                    assert(ring@.contains(((x + dx) as i32, (z + dz) as i32)));
                    assert(selected(chunk_manager, 0, x as int, z as int, distance as int, unloaded_lo(k as int), k as int, dx, dz));
                    assert(ring_nonempty(chunk_manager, 0, x as int, z as int, distance as int, unloaded_lo(k as int), k as int));
                }
                return ring;
            }
            proof {
                if ring_nonempty(chunk_manager, 0, x as int, z as int, distance as int, lo as int, k as int) {
                    let (dx, dz) = choose|dx: int, dz: int| selected(chunk_manager, 0, x as int, z as int, distance as int, lo as int, k as int, dx, dz);
                    assert(ring@.contains(((x + dx) as i32, (z + dz) as i32)));
                }
            }
            k += 1;
        }
        Vec::new()
    }

    /// The columns where trees are to be placed next: the centre column if
    /// it can take them, else those of the first ring of equal Manhattan
    /// distance that has any, inside the square of half-side `distance`. A
    /// column can take trees when it is loaded, has none yet, and its four
    /// neighbours are loaded (trees spill over column borders).
    pub fn flood_fill_unfoliated_columns(chunk_manager: &ChunkManager, x: i32, z: i32, distance: i32) -> (r: Vec<(i32, i32)>)
        requires
            chunk_manager.wf(),
            distance >= 0,
            scan_in_range(x as int, z as int, distance as int),
        ensures
            r@.len() == 0 <==> forall|k: int| 0 <= k <= 2 * distance ==> !#[trigger] ring_nonempty(chunk_manager, 1, x as int, z as int, distance as int, k, k),
            r@.len() > 0 ==> exists|k: int| 0 <= k <= 2 * distance
                && (forall|k2: int| 0 <= k2 < k ==> !#[trigger] ring_nonempty(chunk_manager, 1, x as int, z as int, distance as int, k2, k2))
                && lists_ring(r@, chunk_manager, 1, x as int, z as int, distance as int, k, k),
    {
        let mut k: i32 = 0;
        while k <= 2 * distance
            invariant
                chunk_manager.wf(),
                distance >= 0,
                scan_in_range(x as int, z as int, distance as int),
                0 <= k <= 2 * distance + 1,
                forall|k2: int| 0 <= k2 < k ==> !#[trigger] ring_nonempty(chunk_manager, 1, x as int, z as int, distance as int, k2, k2),
            decreases 2 * distance + 1 - k,
        {
            let ring = scan_ring(chunk_manager, 1, x, z, distance, k, k);
            if ring.len() > 0 {
                proof {
                    let e = ring@[0];
                    let dx = e.0 - x;
                    let dz = e.1 - z;
                    assert(ring@.contains(((x + dx) as i32, (z + dz) as i32)));
                    assert(selected(chunk_manager, 1, x as int, z as int, distance as int, k as int, k as int, dx, dz));
                    assert(ring_nonempty(chunk_manager, 1, x as int, z as int, distance as int, k as int, k as int));
                }
                return ring;
            }
            proof {
                if ring_nonempty(chunk_manager, 1, x as int, z as int, distance as int, k as int, k as int) {
                    let (dx, dz) = choose|dx: int, dz: int| selected(chunk_manager, 1, x as int, z as int, distance as int, k as int, k as int, dx, dz);
                    assert(ring@.contains(((x + dx) as i32, (z + dz) as i32)));
                }
            }
            k += 1;
        }
        Vec::new()
    }
}

/// An edit whose neighbours all have `i32` coordinates.
pub open spec fn change_in_range(e: BlockChange) -> bool {
    &&& i32::MIN < e.2 < i32::MAX
    &&& i32::MIN < e.3 < i32::MAX
    &&& i32::MIN < e.4 < i32::MAX
}

/// Step `m` of a changelist walk: neighbour `m % 27` of edit `m / 27`.
pub open spec fn step_point(cl: Seq<BlockChange>, m: int) -> (int, int, int) {
    let e = cl[m / 27];
    let d = offset_of_index(m % 27);
    (e.2 + d.0, e.3 + d.1, e.4 + d.2)
}

/// Step `m` recomputes a block: its edit is in range and so is the chunk
/// of the neighbour it looks at.
pub open spec fn step_active(cl: Seq<BlockChange>, m: int) -> bool {
    let p = step_point(cl, m);
    &&& change_in_range(cl[m / 27])
    &&& chunk_in_range(chunk_of(p.0))
    &&& chunk_in_range(chunk_of(p.2))
}

/// Block `i` of chunk (cx, cy, cz) is the point of step `m`.
pub open spec fn step_touches(cl: Seq<BlockChange>, m: int, cx: int, cy: int, cz: int, i: int) -> bool {
    let p = step_point(cl, m);
    &&& step_active(cl, m)
    &&& chunk_of(p.0) == cx
    &&& chunk_of(p.1) == cy
    &&& chunk_of(p.2) == cz
    &&& block_index(local_of(p.0), local_of(p.1), local_of(p.2)) == i
}

/// Block `i` of chunk (cx, cy, cz) lies in the 3 x 3 x 3 neighbourhood of
/// one of the first `n` steps' edits.
pub open spec fn touched_by(cl: Seq<BlockChange>, n: int, cx: int, cy: int, cz: int, i: int) -> bool {
    exists|m: int| 0 <= m < n && #[trigger] step_touches(cl, m, cx, cy, cz, i)
}

/// The chunks that the first `n` steps recompute, with the priority of
/// their edit; a step that repeats the entry before it adds nothing.
pub open spec fn touched_chunks(cl: Seq<BlockChange>, n: int) -> Seq<PrioritizedChunk>
    decreases n,
{
    if n <= 0 {
        Seq::empty()
    } else {
        let p = step_point(cl, n - 1);
        let prev = touched_chunks(cl, n - 1);
        let item = (cl[(n - 1) / 27].0, (chunk_of(p.0) as i32, chunk_of(p.1) as i32, chunk_of(p.2) as i32));
        prev + if step_active(cl, n - 1) && (prev.len() == 0 || prev.last() != item) {
            seq![item]
        } else {
            Seq::empty()
        }
    }
}

/// Index of the entry of `m` for the chunk `k`, if any.
pub open spec fn key_slot(m: Seq<PrioritizedChunk>, k: (i32, i32, i32)) -> int {
    choose|j: int| 0 <= j < m.len() && m[j].1 == k
}

pub open spec fn has_key(m: Seq<PrioritizedChunk>, k: (i32, i32, i32)) -> bool {
    exists|j: int| 0 <= j < m.len() && #[trigger] m[j].1 == k
}

/// `s` with each chunk listed once, at its first place, with the highest
/// priority it has in `s`.
pub open spec fn merged(s: Seq<PrioritizedChunk>) -> Seq<PrioritizedChunk>
    decreases s.len(),
{
    if s.len() == 0 {
        Seq::empty()
    } else {
        let m = merged(s.drop_last());
        let e = s.last();
        if has_key(m, e.1) {
            let j = key_slot(m, e.1);
            m.update(j, (if m[j].0 >= e.0 { m[j].0 } else { e.0 }, e.1))
        } else {
            m.push(e)
        }
    }
}

pub open spec fn keys_distinct(m: Seq<PrioritizedChunk>) -> bool {
    forall|a: int, b: int| 0 <= a < b < m.len() ==> #[trigger] m[a].1 != #[trigger] m[b].1
}

/// Lists each chunk of `s` once with the highest priority it has there.
fn merge_priorities(s: &Vec<PrioritizedChunk>) -> (r: Vec<PrioritizedChunk>)
    ensures
        r@ == merged(s@),
        keys_distinct(r@),
{
    let mut m: Vec<PrioritizedChunk> = Vec::new();
    let mut i: usize = 0;
    while i < s.len()
        invariant
            i <= s@.len(),
            m@ == merged(s@.subrange(0, i as int)),
            keys_distinct(m@),
        decreases s@.len() - i,
    {
        let e = s[i];
        let ghost before = m@;
        proof {
            assert(s@.subrange(0, i as int + 1).drop_last() =~= s@.subrange(0, i as int));
            assert(s@.subrange(0, i as int + 1).last() == e);
        }
        let n_m = m.len();
        let mut j: usize = n_m;
        let mut l: usize = 0;
        while l < n_m
            invariant
                m@ == before,
                n_m == before.len(),
                l <= n_m,
                j <= n_m,
                j < n_m ==> before[j as int].1 == e.1,
                j == n_m ==> forall|q: int| 0 <= q < l ==> before[q].1 != e.1,
            decreases n_m - l,
        {
            if j == n_m && m[l].1.0 == e.1.0 && m[l].1.1 == e.1.1 && m[l].1.2 == e.1.2 {
                j = l;
            }
            l += 1;
        }
        let found = j < n_m;
        if found {
            proof {
                assert(m@[j as int].1 == e.1);
                assert(has_key(before, e.1));
                let k = key_slot(before, e.1);
                if k != j {
                    if k < j {
                        assert(before[k].1 != e.1);
                    } else {
                        assert(before[j as int].1 != before[k].1);
                    }
                }
            }
            let old_p = m[j].0;
            let p = if old_p >= e.0 { old_p } else { e.0 };
            m.set(j, (p, e.1));
            proof {
                assert forall|a: int, b: int| 0 <= a < b < m@.len() implies #[trigger] m@[a].1 != #[trigger] m@[b].1 by {
                    assert(before[a].1 != before[b].1);
                }
            }
        } else {
            proof {
                assert(!has_key(before, e.1)) by {
                    if has_key(before, e.1) {
                        let k = choose|k: int| 0 <= k < before.len() && #[trigger] before[k].1 == e.1;
                        assert(before[k].1 != e.1);
                    }

                }
            }
            m.push(e);
            proof {
                assert forall|a: int, b: int| 0 <= a < b < m@.len() implies #[trigger] m@[a].1 != #[trigger] m@[b].1 by {
                    if b == before.len() {
                        assert(m@[a] == before[a]);
                    } else {
                        assert(before[a].1 != before[b].1);
                    }
                }
            }
        }
        i += 1;
    }
    proof {
        assert(s@.subrange(0, s@.len() as int) =~= s@);
    }
    m
}

/// The entries of `s` whose chunk is loaded and has a mesh in `w`.
pub open spec fn uploaded_only(w: &ChunkManager, s: Seq<PrioritizedChunk>) -> Seq<PrioritizedChunk>
    decreases s.len(),
{
    if s.len() == 0 {
        Seq::empty()
    } else {
        let k = s.last().1;
        uploaded_only(w, s.drop_last()) + if w.chunk_spec(k.0 as int, k.1 as int, k.2 as int) matches Some(c)
            && c.is_uploaded_to_gpu {
            seq![s.last()]
        } else {
            Seq::empty()
        }
    }
}

impl ChunkLoading {
    /// Queues for upload, in order, the listed chunks that are loaded and
    /// already have a mesh.
    pub fn queue_uploaded(&mut self, world: &ChunkManager, touched: &Vec<PrioritizedChunk>)
        requires
            world.wf(),
        ensures
            final(self).chunk_upload_queue@ == old(self).chunk_upload_queue@ + uploaded_only(world, touched@),
            final(self).chunk_column_pool == old(self).chunk_column_pool,
    {
        let mut i: usize = 0;
        while i < touched.len()
            invariant
                world.wf(),
                i <= touched@.len(),
                self.chunk_upload_queue@ == old(self).chunk_upload_queue@ + uploaded_only(world, touched@.subrange(0, i as int)),
                self.chunk_column_pool == old(self).chunk_column_pool,
            decreases touched@.len() - i,
        {
            let item = touched[i];
            let k = item.1;
            let up = match world.get_chunk(k.0, k.1, k.2) {
                Some(c) => c.is_uploaded_to_gpu,
                None => false,
            };
            if up {
                self.chunk_upload_queue.push(item);
            }
            proof {
                assert(touched@.subrange(0, i as int + 1).drop_last() =~= touched@.subrange(0, i as int));
                assert(self.chunk_upload_queue@ =~= old(self).chunk_upload_queue@ + uploaded_only(world, touched@.subrange(0, i as int + 1)));
            }
            i += 1;
        }
        proof {
            assert(touched@.subrange(0, touched@.len() as int) =~= touched@);
        }
    }

    /// Propagates the recorded edits: recomputes the face bits and corner
    /// weights of every block in the 3 x 3 x 3 neighbourhood of each edit,
    /// clears the changelist, and queues the recomputed chunks that already
    /// had a mesh for upload with their edit's priority.
    pub fn process_changelist(&mut self, world: &mut ChunkManager)
        requires
            old(world).wf(),
            27 * old(world).block_changelist@.len() <= usize::MAX,
        ensures
            changelist_step(old(world), final(world), old(self).chunk_upload_queue@, final(self).chunk_upload_queue@),
            final(self).chunk_column_pool == old(self).chunk_column_pool,
    {
        let ghost w0 = *world;
        let ghost cl = world.block_changelist@;
        let total: usize = 27 * world.block_changelist.len();
        let mut touched: Vec<PrioritizedChunk> = Vec::new();
        proof {
            world.lemma_refreshed_at_refl();
            ChunkManager::lemma_refreshed_at_touch_eq(world, &w0, |cx: int, cy: int, cz: int, i: int| false,
                |cx: int, cy: int, cz: int, i: int| touched_by(cl, 0, cx, cy, cz, i));
        }
        let mut m: usize = 0;
        while m < total
            invariant
                w0.wf(),
                cl == w0.block_changelist@,
                total == 27 * cl.len(),
                m <= total,
                world.block_changelist@ == cl,
                world.refreshed_at(&w0, |cx: int, cy: int, cz: int, i: int| touched_by(cl, m as int, cx, cy, cz, i)),
                touched@ == touched_chunks(cl, m as int),
            decreases total - m,
        {
            let e = world.block_changelist[m / 27];
            let j = m % 27;
            let ghost s2 = *world;
            proof {
                assert(0 <= j / 9 <= 2) by (nonlinear_arith)
                    requires 0 <= j < 27;
            }
            let in_range = i32::MIN < e.2 && e.2 < i32::MAX && i32::MIN < e.3 && e.3 < i32::MAX
                && i32::MIN < e.4 && e.4 < i32::MAX;
            let mut active = false;
            if in_range {
                let px = e.2 + ((j / 9) as i32 - 1);
                let py = e.3 + (((j / 3) % 3) as i32 - 1);
                let pz = e.4 + ((j % 3) as i32 - 1);
                let (cx, cy, cz, bx, by, bz) = ChunkManager::get_chunk_coords(px, py, pz);
                if is_chunk_in_range(cx) && is_chunk_in_range(cz) {
                    active = true;
                    world.update_block(cx, cy, cz, bx, by, bz);
                    let item: PrioritizedChunk = (e.0, (cx, cy, cz));
                    let n_t = touched.len();
                    let repeat = n_t > 0 && touched[n_t - 1].0 == item.0 && touched[n_t - 1].1.0 == cx
                        && touched[n_t - 1].1.1 == cy && touched[n_t - 1].1.2 == cz;
                    if !repeat {
                        touched.push(item);
                    }
                    proof {
                        assert(step_point(cl, m as int) == (px as int, py as int, pz as int));
                        let t1 = |a: int, b: int, c: int, i: int| touched_by(cl, m as int, a, b, c, i);
                        let t2 = |i: int| i == block_index(bx as int, by as int, bz as int);
                        let t3 = |a: int, b: int, c: int, i: int| touched_by(cl, m as int + 1, a, b, c, i);
                        assert forall|a: int, b: int, c: int, i: int| #[trigger] t3(a, b, c, i) == (t1(a, b, c, i)
                            || (a == cx && b == cy && c == cz && t2(i))) by {
                            if t3(a, b, c, i) {
                                let mm = choose|mm: int| 0 <= mm < m + 1 && #[trigger] step_touches(cl, mm, a, b, c, i);
                                if mm < m {
                                    assert(t1(a, b, c, i));
                                }
                            }
                            if a == cx && b == cy && c == cz && t2(i) {
                                assert(step_touches(cl, m as int, a, b, c, i));
                            }
                        }
                        ChunkManager::lemma_refreshed_at_extend(&w0, &s2, world, t1, cx as int, cy as int, cz as int, t2, t3);
                        assert(touched@ =~= touched_chunks(cl, m as int + 1));
                    }
                }
            }
            if !active {
                proof {
                    assert(!step_active(cl, m as int));
                    assert forall|a: int, b: int, c: int, i: int| #[trigger] touched_by(cl, m as int, a, b, c, i)
                        == touched_by(cl, m as int + 1, a, b, c, i) by {
                        if touched_by(cl, m as int + 1, a, b, c, i) {
                            let mm = choose|mm: int| 0 <= mm < m + 1 && #[trigger] step_touches(cl, mm, a, b, c, i);
                            assert(mm != m);
                        }
                    }
                    ChunkManager::lemma_refreshed_at_touch_eq(world, &w0,
                        |a: int, b: int, c: int, i: int| touched_by(cl, m as int, a, b, c, i),
                        |a: int, b: int, c: int, i: int| touched_by(cl, m as int + 1, a, b, c, i));
                    assert(touched@ =~= touched_chunks(cl, m as int + 1));
                }
            }
            m += 1;
        }
        let ghost w1 = *world;
        world.block_changelist.clear();
        proof {
            assert forall|x: int, y: int, z: int| #[trigger] world.chunk_spec(x, y, z) == w1.chunk_spec(x, y, z) by {
                assert(world.has_column(x, z) == w1.has_column(x, z));
            }
            assert forall|x: int, y: int, z: int| #[trigger] world.block_at(x, y, z) == w1.block_at(x, y, z) by {
                assert(world.chunk_spec(chunk_of(x), chunk_of(y), chunk_of(z)) == w1.chunk_spec(chunk_of(x), chunk_of(y), chunk_of(z)));
            }
            assert forall|x: int, z: int| #[trigger] world.column_spec(x, z) == w1.column_spec(x, z) by {}
        }
        proof {
            assert forall|a: int, b: int, c: int|
                (#[trigger] w0.chunk_spec(a, b, c)).is_some() implies (w0.chunk_spec(a, b, c).unwrap().is_uploaded_to_gpu
                    == world.chunk_spec(a, b, c).unwrap().is_uploaded_to_gpu) && world.chunk_spec(a, b, c).is_some() by {
                assert(world.chunk_spec(a, b, c) == w1.chunk_spec(a, b, c));
            }
        }
        let merged_touched = merge_priorities(&touched);
        proof {
            lemma_uploaded_only_same(&w0, world, merged_touched@);
        }
        self.queue_uploaded(world, &merged_touched);
    }
}

/// Worlds that agree on which chunks are loaded and have a mesh keep the
/// same entries of a list.
pub proof fn lemma_uploaded_only_same(w1: &ChunkManager, w2: &ChunkManager, s: Seq<PrioritizedChunk>)
    requires
        forall|a: int, b: int, c: int|
            (#[trigger] w1.chunk_spec(a, b, c)).is_some() ==> (w1.chunk_spec(a, b, c).unwrap().is_uploaded_to_gpu
                == w2.chunk_spec(a, b, c).unwrap().is_uploaded_to_gpu) && w2.chunk_spec(a, b, c).is_some(),
        forall|a: int, b: int, c: int|
            (#[trigger] w2.chunk_spec(a, b, c)).is_some() ==> w1.chunk_spec(a, b, c).is_some(),
    ensures
        uploaded_only(w1, s) == uploaded_only(w2, s),
    decreases s.len(),
{
    if s.len() > 0 {
        lemma_uploaded_only_same(w1, w2, s.drop_last());
        let k = s.last().1;
        assert(w1.chunk_spec(k.0 as int, k.1 as int, k.2 as int).is_some() == w2.chunk_spec(k.0 as int, k.1 as int, k.2 as int).is_some());
    }
}

/// `r` lists, once each, exactly the chunks of the first breadth-first
/// layer round (x, y, z) that still need their faces or mesh.
pub open spec fn lists_first_wanted_layer(r: Seq<ChunkPos>, w: &ChunkManager, x: i32, y: i32, z: i32, d: int) -> bool {
    &&& r.no_duplicates()
    &&& forall|i: int| 0 <= i < r.len() ==> in_cube(d, x as int, y as int, z as int, #[trigger] r[i]) && needs_meshing_at(w, r[i])
    &&& r.len() > 0 ==> exists|k: nat| #[trigger] first_wanted(w, x, y, z, d, k)
        && (forall|q: ChunkPos| r.contains(q) <==> #[trigger] wanted_layer(w, x, y, z, d, k).contains(q))
    &&& r.len() == 0 ==> forall|k: nat| #[trigger] wanted_layer(w, x, y, z, d, k) =~= Set::<ChunkPos>::empty()
    &&& needs_meshing_at(w, (x, y, z)) ==> r == seq![(x, y, z)]
}

/// Block `k` of chunk (a, b, c) belongs to the `j`-th listed chunk, which
/// lies in coordinate range.
pub open spec fn mesh_slot(cs: Seq<ChunkPos>, j: int, a: int, b: int, c: int, k: int) -> bool {
    &&& 0 <= j < cs.len()
    &&& cs[j].0 == a && cs[j].1 == b && cs[j].2 == c
    &&& chunk_in_range(a) && chunk_in_range(c)
    &&& 0 <= k < 4096
}

pub open spec fn mesh_touched(cs: Seq<ChunkPos>, n: int, a: int, b: int, c: int, k: int) -> bool {
    exists|j: int| 0 <= j < n && #[trigger] mesh_slot(cs, j, a, b, c, k)
}

/// Chunk `n` is chunk `o` with, when `listed`, its faces marked computed
/// and, when it has nothing to draw, its empty mesh marked current.
pub open spec fn chunk_marked(n: crate::chunk::Chunk, o: crate::chunk::Chunk, listed: bool) -> bool {
    &&& n.blocks == o.blocks
    &&& n.number_of_opaque_blocks == o.number_of_opaque_blocks
    &&& n.number_of_transparent_blocks == o.number_of_transparent_blocks
    &&& n.active_faces == o.active_faces
    &&& n.ao_vertices == o.ao_vertices
    &&& n.vertices_drawn == o.vertices_drawn
    &&& n.is_rendered == o.is_rendered
    &&& if listed {
        n.is_generated && n.is_uploaded_to_gpu == (o.is_uploaded_to_gpu || o.empty_spec())
    } else {
        n.is_generated == o.is_generated && n.is_uploaded_to_gpu == o.is_uploaded_to_gpu
    }
}

/// `new` is `mid` with the chunks of `done` that lie in range marked.
pub open spec fn flags_marked(new: &ChunkManager, mid: &ChunkManager, done: Seq<ChunkPos>) -> bool {
    &&& new.wf()
    &&& new.column_keys == mid.column_keys
    &&& new.block_changelist == mid.block_changelist
    &&& forall|a: int, b: int, c: int| #[trigger] new.block_at(a, b, c) == mid.block_at(a, b, c)
    &&& forall|a: int, z: int|
        mid.has_column(a, z) ==> (#[trigger] new.column_spec(a, z)).heighest_blocks == mid.column_spec(a, z).heighest_blocks
            && new.column_spec(a, z).has_foliage == mid.column_spec(a, z).has_foliage
    &&& forall|a: int, b: int, c: int| #[trigger] new.chunk_spec(a, b, c).is_some() == mid.chunk_spec(a, b, c).is_some()
    &&& forall|a: int, b: int, c: int|
        (#[trigger] mid.chunk_spec(a, b, c)).is_some() ==> chunk_marked(
            new.chunk_spec(a, b, c).unwrap(),
            mid.chunk_spec(a, b, c).unwrap(),
            done.contains((a as i32, b as i32, c as i32)) && chunk_in_range(a) && chunk_in_range(c),
        )
}

/// The mesh pass: `mid` is `old` with every block of the listed chunks
/// recomputed, and `new` is `mid` with those chunks marked.
pub open spec fn mesh_pass(old: &ChunkManager, mid: &ChunkManager, new: &ChunkManager, r: Seq<ChunkPos>) -> bool {
    &&& mid.refreshed_at(old, |a: int, b: int, c: int, k: int| mesh_touched(r, r.len() as int, a, b, c, k))
    &&& flags_marked(new, mid, r)
    &&& new.block_changelist == old.block_changelist
}

/// The upload entries the mesh pass queues for the first `n` listed
/// chunks: priority 0 for each one in range, loaded and holding blocks.
pub open spec fn queued_for_mesh(w: &ChunkManager, cs: Seq<ChunkPos>, n: int) -> Seq<PrioritizedChunk>
    decreases n,
{
    if n <= 0 {
        Seq::empty()
    } else {
        let k = cs[n - 1];
        queued_for_mesh(w, cs, n - 1) + if chunk_in_range(k.0 as int) && chunk_in_range(k.2 as int)
            && (w.chunk_spec(k.0 as int, k.1 as int, k.2 as int) matches Some(c) && !c.empty_spec()) {
            seq![(0i32, k)]
        } else {
            Seq::empty()
        }
    }
}

/// The chunk at `k` is loaded and still needs its faces or mesh.
pub open spec fn needs_meshing_at(w: &ChunkManager, k: (i32, i32, i32)) -> bool {
    w.chunk_spec(k.0 as int, k.1 as int, k.2 as int) matches Some(c) && needs_meshing(c)
}

/// A chunk still needs its faces computed or its mesh built.
pub open spec fn needs_meshing(c: crate::chunk::Chunk) -> bool {
    !c.is_generated || !c.is_uploaded_to_gpu
}

pub open spec fn in_cube(d: int, x: int, y: int, z: int, p: (i32, i32, i32)) -> bool {
    &&& -d <= p.0 - x <= d
    &&& -d <= p.1 - y <= d
    &&& -d <= p.2 - z <= d
}

/// Number of set bits in `s`.
pub open spec fn count_true(s: Seq<bool>) -> nat
    decreases s.len(),
{
    if s.len() == 0 {
        0
    } else {
        count_true(s.drop_last()) + if s.last() { 1nat } else { 0nat }
    }
}

pub proof fn lemma_count_true_bound(s: Seq<bool>)
    ensures
        count_true(s) <= s.len(),
    decreases s.len(),
{
    if s.len() > 0 {
        lemma_count_true_bound(s.drop_last());
    }
}

pub proof fn lemma_count_true_set(s: Seq<bool>, i: int)
    requires
        0 <= i < s.len(),
        !s[i],
    ensures
        count_true(s.update(i, true)) == count_true(s) + 1,
    decreases s.len(),
{
    let t = s.update(i, true);
    if i == s.len() - 1 {
        assert(t.drop_last() =~= s.drop_last());
    } else {
        lemma_count_true_set(s.drop_last(), i);
        assert(t.drop_last() =~= s.drop_last().update(i, true));
    }
}

pub proof fn lemma_count_true_none(n: nat)
    ensures
        count_true(Seq::new(n, |_i: int| false)) == 0,
    decreases n,
{
    if n > 0 {
        assert(Seq::new(n, |_i: int| false).drop_last() =~= Seq::new((n - 1) as nat, |_i: int| false));
        lemma_count_true_none((n - 1) as nat);
    }
}

/// Slot of a chunk of the cube round (x, y, z) in the visited bits.
pub open spec fn cube_slot(d: int, x: int, y: int, z: int, p: (i32, i32, i32)) -> int {
    let w = 2 * d + 1;
    ((p.0 - x + d) * w + (p.1 - y + d)) * w + (p.2 - z + d)
}

pub proof fn lemma_cube_slot(d: int, x: int, y: int, z: int, p: (i32, i32, i32), q: (i32, i32, i32))
    requires
        0 <= d,
        in_cube(d, x, y, z, p),
        in_cube(d, x, y, z, q),
    ensures
        0 <= cube_slot(d, x, y, z, p) < (2 * d + 1) * (2 * d + 1) * (2 * d + 1),
        cube_slot(d, x, y, z, p) == cube_slot(d, x, y, z, q) ==> p == q,
{
    let w = 2 * d + 1;
    let (a, b, c) = (p.0 - x + d, p.1 - y + d, p.2 - z + d);
    let (a2, b2, c2) = (q.0 - x + d, q.1 - y + d, q.2 - z + d);
    assert(0 <= (a * w + b) * w + c < w * w * w) by (nonlinear_arith)
        requires 0 <= a < w, 0 <= b < w, 0 <= c < w;
    assert(0 <= a * w + b < w * w) by (nonlinear_arith)
        requires 0 <= a < w, 0 <= b < w;
    assert(0 <= a2 * w + b2 < w * w) by (nonlinear_arith)
        requires 0 <= a2 < w, 0 <= b2 < w;
    if cube_slot(d, x, y, z, p) == cube_slot(d, x, y, z, q) {
        vstd::arithmetic::div_mod::lemma_fundamental_div_mod_converse((a * w + b) * w + c, w, a * w + b, c);
        vstd::arithmetic::div_mod::lemma_fundamental_div_mod_converse((a2 * w + b2) * w + c2, w, a2 * w + b2, c2);
        vstd::arithmetic::div_mod::lemma_fundamental_div_mod_converse(a * w + b, w, a, b);
        vstd::arithmetic::div_mod::lemma_fundamental_div_mod_converse(a2 * w + b2, w, a2, b2);
    }
}

/// Slot of a chunk of the cube round (x, y, z) in the visited bits.
fn cube_index(d: i32, x: i32, y: i32, z: i32, p: (i32, i32, i32)) -> (r: usize)
    requires
        0 <= d,
        (2 * d + 1) * (2 * d + 1) * (2 * d + 1) <= usize::MAX,
        in_cube(d as int, x as int, y as int, z as int, p),
        scan_in_range(x as int, z as int, d as int),
        -1000000000 <= y <= 1000000000,
    ensures
        r as int == cube_slot(d as int, x as int, y as int, z as int, p),
        r < (2 * d + 1) * (2 * d + 1) * (2 * d + 1),
{
    let w = (2 * d + 1) as usize;
    let a = (p.0 - x + d) as usize;
    let b = (p.1 - y + d) as usize;
    let c = (p.2 - z + d) as usize;
    proof {
        lemma_cube_slot(d as int, x as int, y as int, z as int, p, p);
        assert(a * w + b < w * w) by (nonlinear_arith)
            requires a < w, b < w;
        assert(w * w <= w * w * w) by (nonlinear_arith)
            requires w >= 1;
        assert((a * w + b) * w + c < w * w * w) by (nonlinear_arith)
            requires a < w, b < w, c < w;
    }
    (a * w + b) * w + c
}

pub type ChunkPos = (i32, i32, i32);

pub open spec fn neighbour(p: ChunkPos, f: int) -> (int, int, int) {
    (p.0 + normal(f).0, p.1 + normal(f).1, p.2 + normal(f).2)
}

pub open spec fn as_ints(q: ChunkPos) -> (int, int, int) {
    (q.0 as int, q.1 as int, q.2 as int)
}

/// The search spreads out of chunk `p`: it is not a loaded, fully opaque chunk.
pub open spec fn expands(w: &ChunkManager, p: ChunkPos) -> bool {
    !(w.chunk_spec(p.0 as int, p.1 as int, p.2 as int) matches Some(c) && c.fully_opaque())
}

/// `q` is a face neighbour of a chunk of `layer` that the search spreads out of.
pub open spec fn grows_into(w: &ChunkManager, layer: Set<ChunkPos>, q: ChunkPos) -> bool {
    exists|p: ChunkPos, f: int| #![trigger layer.contains(p), neighbour(p, f)] layer.contains(p) && 0 <= f < 6 && expands(w, p) && neighbour(p, f) == as_ints(q)
}

/// Breadth-first search from (x, y, z) in the cube of half-side `d`:
/// the chunks visited after `k` steps, and the layer reached at step `k`.
pub open spec fn bfs(w: &ChunkManager, x: i32, y: i32, z: i32, d: int, k: nat) -> (Set<ChunkPos>, Set<ChunkPos>)
    decreases k,
{
    if k == 0 {
        (set![(x, y, z)], set![(x, y, z)])
    } else {
        let prev = bfs(w, x, y, z, d, (k - 1) as nat);
        let layer = Set::new(
            |q: ChunkPos| in_cube(d, x as int, y as int, z as int, q) && !prev.0.contains(q) && grows_into(w, prev.1, q),
        );
        (prev.0.union(layer), layer)
    }
}

/// The chunks of layer `k` that still need their faces or mesh.
pub open spec fn wanted_layer(w: &ChunkManager, x: i32, y: i32, z: i32, d: int, k: nat) -> Set<ChunkPos> {
    bfs(w, x, y, z, d, k).1.filter(|q: ChunkPos| needs_meshing_at(w, q))
}

pub proof fn lemma_bfs_empty_stays(w: &ChunkManager, x: i32, y: i32, z: i32, d: int, k: nat, k2: nat)
    requires
        bfs(w, x, y, z, d, k).1 =~= Set::<ChunkPos>::empty(),
        k <= k2,
    ensures
        bfs(w, x, y, z, d, k2).1 =~= Set::<ChunkPos>::empty(),
        wanted_layer(w, x, y, z, d, k2) =~= Set::<ChunkPos>::empty(),
    decreases k2 - k,
{
    if k < k2 {
        let next = bfs(w, x, y, z, d, (k + 1) as nat);
        assert forall|q: ChunkPos| !#[trigger] next.1.contains(q) by {
            if grows_into(w, bfs(w, x, y, z, d, k).1, q) {
                let (p, f) = choose|p: ChunkPos, f: int| #![trigger bfs(w, x, y, z, d, k).1.contains(p), neighbour(p, f)] bfs(w, x, y, z, d, k).1.contains(p) && 0 <= f < 6
                    && expands(w, p) && neighbour(p, f) == as_ints(q);
                assert(bfs(w, x, y, z, d, k).1.contains(p));
            }
        }
        lemma_bfs_empty_stays(w, x, y, z, d, (k + 1) as nat, k2);
    } else {
        assert(wanted_layer(w, x, y, z, d, k2) =~= Set::<ChunkPos>::empty());
    }
}

pub proof fn lemma_bfs_in_cube(w: &ChunkManager, x: i32, y: i32, z: i32, d: int, k: nat)
    requires
        0 <= d,
    ensures
        forall|q: ChunkPos| #[trigger] bfs(w, x, y, z, d, k).0.contains(q) ==> in_cube(d, x as int, y as int, z as int, q),
        forall|q: ChunkPos| #[trigger] bfs(w, x, y, z, d, k).1.contains(q) ==> bfs(w, x, y, z, d, k).0.contains(q),
    decreases k,
{
    if k > 0 {
        lemma_bfs_in_cube(w, x, y, z, d, (k - 1) as nat);
        let prev = bfs(w, x, y, z, d, (k - 1) as nat);
        let cur = bfs(w, x, y, z, d, k);
        assert forall|q: ChunkPos| #[trigger] cur.0.contains(q) implies in_cube(d, x as int, y as int, z as int, q) by {
            if prev.0.contains(q) {
            } else {
                assert(cur.1.contains(q));
            }
        }
    } else {
        assert forall|q: ChunkPos| #[trigger] bfs(w, x, y, z, d, k).0.contains(q) implies in_cube(d, x as int, y as int, z as int, q) by {
            assert(q == (x, y, z));
        }
    }
}

/// No layer before layer `k` holds a chunk that needs its faces or mesh.
pub open spec fn first_wanted(w: &ChunkManager, x: i32, y: i32, z: i32, d: int, k: nat) -> bool {
    forall|k2: nat| k2 < k ==> #[trigger] wanted_layer(w, x, y, z, d, k2) =~= Set::<ChunkPos>::empty()
}

/// One step of building the next layer: after looking at face `f` of
/// frontier entry `i`, the layer holds what the steps so far reach.
pub proof fn lemma_next_step(
    w: &ChunkManager,
    fr: Seq<ChunkPos>,
    i: int,
    f: int,
    q: ChunkPos,
    before: Seq<ChunkPos>,
    after: Seq<ChunkPos>,
    visited: Set<ChunkPos>,
    d: int,
    x: i32,
    y: i32,
    z: i32,
    pushed: bool,
)
    requires
        0 <= i < fr.len(),
        0 <= f < 6,
        as_ints(q) == neighbour(fr[i], f),
        forall|r: ChunkPos| #[trigger] before.contains(r) <==> (in_cube(d, x as int, y as int, z as int, r)
            && !visited.contains(r) && reached(w, fr, i, f, r)),
        pushed ==> after == before.push(q) && in_cube(d, x as int, y as int, z as int, q) && !visited.contains(q)
            && expands(w, fr[i]),
        !pushed ==> after == before && (!expands(w, fr[i]) || !in_cube(d, x as int, y as int, z as int, q)
            || visited.contains(q) || before.contains(q)),
    ensures
        forall|r: ChunkPos| #[trigger] after.contains(r) <==> (in_cube(d, x as int, y as int, z as int, r)
            && !visited.contains(r) && reached(w, fr, i, f + 1, r)),
{
    assert forall|r: ChunkPos| reached(w, fr, i, f + 1, r) <==> (reached(w, fr, i, f, r) || (r == q && expands(w, fr[i]))) by {
        if reached(w, fr, i, f, r) {
            let (j, g) = choose|j: int, g: int| 0 <= j < fr.len() && #[trigger] before_step(j, g, i, f)
                && expands(w, fr[j]) && neighbour(fr[j], g) == as_ints(r);
            assert(before_step(j, g, i, f + 1));
        }
        if reached(w, fr, i, f + 1, r) && !reached(w, fr, i, f, r) {
            let (j, g) = choose|j: int, g: int| 0 <= j < fr.len() && #[trigger] before_step(j, g, i, f + 1)
                && expands(w, fr[j]) && neighbour(fr[j], g) == as_ints(r);
            if before_step(j, g, i, f) {
                assert(reached(w, fr, i, f, r));
            }
            assert(j == i && g == f);
            assert(as_ints(r) == as_ints(q));
        }
        if r == q && expands(w, fr[i]) {
            assert(before_step(i, f, i, f + 1));
        }
    }
    if pushed {
        assert forall|r: ChunkPos| #[trigger] after.contains(r) <==> (before.contains(r) || r == q) by {
            if after.contains(r) {
                let j = choose|j: int| 0 <= j < after.len() && after[j] == r;
                if j < before.len() {
                    assert(before[j] == r);
                }
            }
            if before.contains(r) {
                let j = choose|j: int| 0 <= j < before.len() && before[j] == r;
                assert(after[j] == r);
            }
            if r == q {
                assert(after[before.len() as int] == r);
            }
        }
    }
}

/// Frontier entry `j` with face `g` comes before frontier entry `i` with face `f`.
pub open spec fn before_step(j: int, g: int, i: int, f: int) -> bool {
    (j < i && 0 <= g < 6) || (j == i && 0 <= g < f)
}

/// Some frontier entry before step (i, f) spreads into `q`.
pub open spec fn reached(w: &ChunkManager, fr: Seq<ChunkPos>, i: int, f: int, q: ChunkPos) -> bool {
    exists|j: int, g: int|
        0 <= j < fr.len() && #[trigger] before_step(j, g, i, f) && expands(w, fr[j]) && neighbour(fr[j], g) == as_ints(q)
}

impl ChunkLoading {
    /// The next chunks to mesh: breadth-first from the chunk (x, y, z) over
    /// the cube of half-side `distance`, not spreading out of fully opaque
    /// chunks, the loaded chunks still needing their faces or mesh in the
    /// first layer that has any (the centre alone forming layer 0), each
    /// listed once. Empty when no layer has any.
    pub fn flood_fill_chunks(chunk_manager: &ChunkManager, x: i32, y: i32, z: i32, distance: i32) -> (r: Vec<(i32, i32, i32)>)
        requires
            chunk_manager.wf(),
            0 <= distance,
            (2 * distance + 1) * (2 * distance + 1) * (2 * distance + 1) <= usize::MAX,
            scan_in_range(x as int, z as int, distance as int),
            -1000000000 <= y <= 1000000000,
        ensures
            lists_first_wanted_layer(r@, chunk_manager, x, y, z, distance as int),
    {
        let ghost d = distance as int;
        let w: usize = (2 * distance + 1) as usize;
        proof {
            assert(w * w <= w * w * w) by (nonlinear_arith)
                requires w >= 1;
        }
        let n: usize = w * w * w;
        let ghost b0 = bfs(chunk_manager, x, y, z, d, 0);
        if let Some(c) = chunk_manager.get_chunk(x, y, z) {
            if !c.is_generated || !c.is_uploaded_to_gpu {
                let r = vec![(x, y, z)];
                proof {
                    assert(r@.contains((x, y, z)));
                    assert forall|q: ChunkPos| r@.contains(q) <==> #[trigger] wanted_layer(chunk_manager, x, y, z, d, 0).contains(q) by {
                        if r@.contains(q) {
                            let j = choose|j: int| 0 <= j < r@.len() && r@[j] == q;
                            assert(q == (x, y, z));
                        }
                    }
                    assert(r@.no_duplicates());
                    assert(first_wanted(chunk_manager, x, y, z, d, 0));
                    assert(r@[0] == (x, y, z));
                    assert(in_cube(d, x as int, y as int, z as int, (x, y, z)));
                    assert(needs_meshing_at(chunk_manager, (x, y, z)));
                    assert(r@ == seq![(x, y, z)]);
                    assert(forall|i: int| 0 <= i < r@.len() ==> in_cube(d, x as int, y as int, z as int, #[trigger] r@[i]) && needs_meshing_at(chunk_manager, r@[i]));
                }
                return r;
            }
        }
        proof {
            assert(wanted_layer(chunk_manager, x, y, z, d, 0) =~= Set::<ChunkPos>::empty());
        }
        let mut visited = bits_filled(n, false);
        let ci = cube_index(distance, x, y, z, (x, y, z));
        bits_set(&mut visited, ci, true);
        let mut frontier: Vec<ChunkPos> = vec![(x, y, z)];
        proof {
            assert forall|q: ChunkPos| in_cube(d, x as int, y as int, z as int, q) implies
                #[trigger] bits_of(visited)[cube_slot(d, x as int, y as int, z as int, q)] == b0.0.contains(q) by {
                lemma_cube_slot(d, x as int, y as int, z as int, q, (x, y, z));
            }
            assert(frontier@.contains((x, y, z)));
            assert forall|q: ChunkPos| #[trigger] frontier@.contains(q) <==> b0.1.contains(q) by {
                if frontier@.contains(q) {
                    let j = choose|j: int| 0 <= j < frontier@.len() && frontier@[j] == q;
                }
            }
        }
        let mut round: usize = 1;
        proof {
            lemma_count_true_none(n as nat);
            lemma_count_true_set(Seq::new(n as nat, |_i: int| false), ci as int);
            assert(Seq::new(n as nat, |_i: int| false).update(ci as int, true) =~= bits_of(visited));
        }
        while frontier.len() > 0
            invariant
                chunk_manager.wf(),
                0 <= distance,
                (2 * distance + 1) * (2 * distance + 1) * (2 * distance + 1) <= usize::MAX,
                d == distance as int,
                scan_in_range(x as int, z as int, distance as int),
                -1000000000 <= y <= 1000000000,
                w == 2 * distance + 1,
                n == w * w * w,
                bits_of(visited).len() == n,
                1 <= round <= count_true(bits_of(visited)),
                !needs_meshing_at(chunk_manager, (x, y, z)),
                frontier@.no_duplicates(),
                forall|q: ChunkPos| #[trigger] frontier@.contains(q) <==> bfs(chunk_manager, x, y, z, d, (round - 1) as nat).1.contains(q),
                forall|q: ChunkPos| in_cube(d, x as int, y as int, z as int, q) ==>
                    #[trigger] bits_of(visited)[cube_slot(d, x as int, y as int, z as int, q)]
                        == bfs(chunk_manager, x, y, z, d, (round - 1) as nat).0.contains(q),
                forall|k2: nat| k2 < round ==> #[trigger] wanted_layer(chunk_manager, x, y, z, d, k2) =~= Set::<ChunkPos>::empty(),
            decreases n - count_true(bits_of(visited)),
        {
            let ghost prev = bfs(chunk_manager, x, y, z, d, (round - 1) as nat);
            let ghost c0 = count_true(bits_of(visited));
            proof {
                lemma_bfs_in_cube(chunk_manager, x, y, z, d, (round - 1) as nat);
            }
            let mut next: Vec<ChunkPos> = Vec::new();
            let mut i: usize = 0;
            while i < frontier.len()
                invariant
                    chunk_manager.wf(),
                    0 <= distance,
                (2 * distance + 1) * (2 * distance + 1) * (2 * distance + 1) <= usize::MAX,
                    d == distance as int,
                    scan_in_range(x as int, z as int, distance as int),
                    -1000000000 <= y <= 1000000000,
                    n == w * w * w,
                    w == 2 * distance + 1,
                    count_true(bits_of(visited)) == c0 + next@.len(),
                    bits_of(visited).len() == n,
                    i <= frontier@.len(),
                    prev == bfs(chunk_manager, x, y, z, d, (round - 1) as nat),
                    forall|q: ChunkPos| #[trigger] prev.0.contains(q) ==> in_cube(d, x as int, y as int, z as int, q),
                    forall|q: ChunkPos| #[trigger] frontier@.contains(q) <==> prev.1.contains(q),
                    next@.no_duplicates(),
                    forall|q: ChunkPos| #[trigger] next@.contains(q) <==> (in_cube(d, x as int, y as int, z as int, q)
                        && !prev.0.contains(q) && reached(chunk_manager, frontier@, i as int, 0, q)),
                    forall|q: ChunkPos| in_cube(d, x as int, y as int, z as int, q) ==>
                        #[trigger] bits_of(visited)[cube_slot(d, x as int, y as int, z as int, q)] == (prev.0.contains(q) || next@.contains(q)),
                decreases frontier@.len() - i,
            {
                let p = frontier[i];
                let opaque = match chunk_manager.get_chunk(p.0, p.1, p.2) {
                    Some(c) => c.is_fully_opaque(),
                    None => false,
                };
                proof {
                    assert(frontier@.contains(p));
                    assert(in_cube(d, x as int, y as int, z as int, p));
                    assert forall|q: ChunkPos| reached(chunk_manager, frontier@, i as int, 0, q) <==> #[trigger] reached(chunk_manager, frontier@, i as int, 0, q) by {}
                }
                let mut f: usize = 0;
                while f < 6
                    invariant
                        chunk_manager.wf(),
                        0 <= distance,
                (2 * distance + 1) * (2 * distance + 1) * (2 * distance + 1) <= usize::MAX,
                        d == distance as int,
                        scan_in_range(x as int, z as int, distance as int),
                        -1000000000 <= y <= 1000000000,
                        n == w * w * w,
                        w == 2 * distance + 1,
                        count_true(bits_of(visited)) == c0 + next@.len(),
                        bits_of(visited).len() == n,
                        i < frontier@.len(),
                        p == frontier@[i as int],
                        opaque == !expands(chunk_manager, p),
                        in_cube(d, x as int, y as int, z as int, p),
                        f <= 6,
                        forall|q: ChunkPos| #[trigger] prev.0.contains(q) ==> in_cube(d, x as int, y as int, z as int, q),
                        next@.no_duplicates(),
                        forall|q: ChunkPos| #[trigger] next@.contains(q) <==> (in_cube(d, x as int, y as int, z as int, q)
                            && !prev.0.contains(q) && reached(chunk_manager, frontier@, i as int, f as int, q)),
                        forall|q: ChunkPos| in_cube(d, x as int, y as int, z as int, q) ==>
                            #[trigger] bits_of(visited)[cube_slot(d, x as int, y as int, z as int, q)] == (prev.0.contains(q) || next@.contains(q)),
                    decreases 6 - f,
                {
                    let ghost before = next@;
                    let dn = face_normal(f);
                    let q = (p.0 + dn.0, p.1 + dn.1, p.2 + dn.2);
                    proof {
                        assert(as_ints(q) == neighbour(p, f as int));
                    }
                    let inside = -distance <= q.0 - x && q.0 - x <= distance && -distance <= q.1 - y && q.1 - y <= distance
                        && -distance <= q.2 - z && q.2 - z <= distance;
                    if !opaque && inside {
                        let qi = cube_index(distance, x, y, z, q);
                        proof {
                            assert(bits_of(visited)[qi as int] == (prev.0.contains(q) || before.contains(q)));
                        }
                        if bits_get(&visited, qi) == Some(false) {
                            proof {
                                lemma_count_true_set(bits_of(visited), qi as int);
                            }
                            bits_set(&mut visited, qi, true);
                            next.push(q);
                            proof {
                                assert forall|a: int, b: int| 0 <= a < b < next@.len() implies next@[a] != next@[b] by {
                                    if b == next@.len() - 1 {
                                        assert(before.contains(next@[a]));
                                    }
                                }
                                assert forall|r: ChunkPos| in_cube(d, x as int, y as int, z as int, r) implies
                                    #[trigger] bits_of(visited)[cube_slot(d, x as int, y as int, z as int, r)] == (prev.0.contains(r) || next@.contains(r)) by {
                                    lemma_cube_slot(d, x as int, y as int, z as int, r, q);
                                    if r != q && before.contains(r) {
                                        let j = choose|j: int| 0 <= j < before.len() && before[j] == r;
                                        assert(next@[j] == r);
                                    }
                                    if next@.contains(r) && r != q {
                                        let j = choose|j: int| 0 <= j < next@.len() && next@[j] == r;
                                        assert(before[j] == r);
                                    }
                                    assert(next@[next@.len() - 1] == q);
                                }
                            }
                        }
                    }
                    proof {
                        lemma_next_step(chunk_manager, frontier@, i as int, f as int, q, before, next@, prev.0, d, x, y, z, next@.len() > before.len());
                    }
                    f += 1;
                }
                proof {
                    assert forall|r: ChunkPos| reached(chunk_manager, frontier@, i as int, 6, r) == #[trigger] reached(chunk_manager, frontier@, i as int + 1, 0, r) by {
                        if reached(chunk_manager, frontier@, i as int, 6, r) {
                            let (j, g) = choose|j: int, g: int| 0 <= j < frontier@.len() && #[trigger] before_step(j, g, i as int, 6)
                                && expands(chunk_manager, frontier@[j]) && neighbour(frontier@[j], g) == as_ints(r);
                            assert(before_step(j, g, i as int + 1, 0));
                        }
                        if reached(chunk_manager, frontier@, i as int + 1, 0, r) {
                            let (j, g) = choose|j: int, g: int| 0 <= j < frontier@.len() && #[trigger] before_step(j, g, i as int + 1, 0)
                                && expands(chunk_manager, frontier@[j]) && neighbour(frontier@[j], g) == as_ints(r);
                            assert(before_step(j, g, i as int, 6));
                        }
                    }
                }
                i += 1;
            }
            let ghost cur = bfs(chunk_manager, x, y, z, d, round as nat);
            proof {
                assert forall|q: ChunkPos| #[trigger] next@.contains(q) <==> cur.1.contains(q) by {
                    if reached(chunk_manager, frontier@, frontier@.len() as int, 0, q) {
                        let (j, g) = choose|j: int, g: int| 0 <= j < frontier@.len() && #[trigger] before_step(j, g, frontier@.len() as int, 0)
                            && expands(chunk_manager, frontier@[j]) && neighbour(frontier@[j], g) == as_ints(q);
                        assert(frontier@.contains(frontier@[j]));
                        assert(prev.1.contains(frontier@[j]));
                    }
                    if grows_into(chunk_manager, prev.1, q) {
                        let (p, g) = choose|p: ChunkPos, g: int| #![trigger prev.1.contains(p), neighbour(p, g)] prev.1.contains(p) && 0 <= g < 6 && expands(chunk_manager, p)
                            && neighbour(p, g) == as_ints(q);
                        assert(frontier@.contains(p));
                        let j = choose|j: int| 0 <= j < frontier@.len() && frontier@[j] == p;
                        assert(before_step(j, g, frontier@.len() as int, 0));
                    }
                }
                assert forall|q: ChunkPos| in_cube(d, x as int, y as int, z as int, q) implies
                    #[trigger] bits_of(visited)[cube_slot(d, x as int, y as int, z as int, q)] == cur.0.contains(q) by {}
            }
            if next.len() == 0 {
                proof {
                    assert(cur.1 =~= Set::<ChunkPos>::empty()) by {
                        assert forall|q: ChunkPos| !#[trigger] cur.1.contains(q) by {
                            if cur.1.contains(q) {
                                assert(next@.contains(q));
                            }
                        }
                    }
                    assert forall|k: nat| #[trigger] wanted_layer(chunk_manager, x, y, z, d, k) =~= Set::<ChunkPos>::empty() by {
                        if k >= round {
                            lemma_bfs_empty_stays(chunk_manager, x, y, z, d, round as nat, k);
                        }
                    }
                }
                return Vec::new();
            }
            proof {
                lemma_count_true_bound(bits_of(visited));
            }
            let mut found: Vec<ChunkPos> = Vec::new();
            let mut k: usize = 0;
            while k < next.len()
                invariant
                    chunk_manager.wf(),
                    k <= next@.len(),
                    next@.no_duplicates(),
                    found@.no_duplicates(),
                    forall|q: ChunkPos| #[trigger] next@.contains(q) ==> in_cube(d, x as int, y as int, z as int, q),
                    forall|q: ChunkPos| #[trigger] found@.contains(q) <==> exists|j: int| 0 <= j < k && next@[j] == q && needs_meshing_at(chunk_manager, q),
                    forall|j: int| 0 <= j < found@.len() ==> needs_meshing_at(chunk_manager, #[trigger] found@[j]) && next@.contains(found@[j]),
                decreases next@.len() - k,
            {
                let q = next[k];
                let ghost before = found@;
                let want = match chunk_manager.get_chunk(q.0, q.1, q.2) {
                    Some(c) => !c.is_generated || !c.is_uploaded_to_gpu,
                    None => false,
                };
                if want {
                    found.push(q);
                }
                proof {
                    assert(next@.contains(q));
                    assert forall|r: ChunkPos| #[trigger] found@.contains(r) <==> exists|j: int| 0 <= j < k + 1 && next@[j] == r && needs_meshing_at(chunk_manager, r) by {
                        if found@.contains(r) && !before.contains(r) {
                            assert(r == q);
                            assert(next@[k as int] == r);
                        }
                        if before.contains(r) {
                            let j = choose|j: int| 0 <= j < before.len() && before[j] == r;
                            assert(found@[j] == r);
                        }
                        if exists|j: int| 0 <= j < k + 1 && next@[j] == r && needs_meshing_at(chunk_manager, r) {
                            let j = choose|j: int| 0 <= j < k + 1 && next@[j] == r && needs_meshing_at(chunk_manager, r);
                            if j == k {
                                assert(found@[found@.len() - 1] == r);
                            } else {
                                assert(before.contains(r));
                                let j2 = choose|j2: int| 0 <= j2 < before.len() && before[j2] == r;
                                assert(found@[j2] == r);
                            }
                        }
                    }
                    if want {
                        assert forall|a: int, b: int| 0 <= a < b < found@.len() implies found@[a] != found@[b] by {
                            if b == found@.len() - 1 {
                                assert(before.contains(found@[a]));
                                let j = choose|j: int| 0 <= j < k && next@[j] == found@[a] && needs_meshing_at(chunk_manager, found@[a]);
                                assert(next@[j] != next@[k as int]);
                            }
                        }
                    }
                }
                k += 1;
            }
            proof {
                assert forall|q: ChunkPos| found@.contains(q) <==> #[trigger] wanted_layer(chunk_manager, x, y, z, d, round as nat).contains(q) by {
                    if next@.contains(q) {
                        let j = choose|j: int| 0 <= j < next@.len() && next@[j] == q;
                        if needs_meshing_at(chunk_manager, q) {
                            assert(exists|j: int| 0 <= j < next@.len() && next@[j] == q && needs_meshing_at(chunk_manager, q));
                        }
                    }
                }
            }
            if found.len() > 0 {
                proof {
                    assert forall|j: int| 0 <= j < found@.len() implies in_cube(distance as int, x as int, y as int, z as int, #[trigger] found@[j]) by {
                        assert(found@.contains(found@[j]));
                    }
                    assert(first_wanted(chunk_manager, x, y, z, d, round as nat));
                }
                return found;
            }
            proof {
                assert forall|k2: nat| k2 < round + 1 implies #[trigger] wanted_layer(chunk_manager, x, y, z, d, k2) =~= Set::<ChunkPos>::empty() by {
                    if k2 == round {
                        assert forall|q: ChunkPos| !#[trigger] wanted_layer(chunk_manager, x, y, z, d, k2).contains(q) by {
                            if wanted_layer(chunk_manager, x, y, z, d, k2).contains(q) {
                                assert(found@.contains(q));
                            }
                        }
                    }
                }
            }
            frontier = next;
            round += 1;
        }
        proof {
            assert(bfs(chunk_manager, x, y, z, d, (round - 1) as nat).1 =~= Set::<ChunkPos>::empty()) by {
                assert forall|q: ChunkPos| !#[trigger] bfs(chunk_manager, x, y, z, d, (round - 1) as nat).1.contains(q) by {
                    if bfs(chunk_manager, x, y, z, d, (round - 1) as nat).1.contains(q) {
                        assert(frontier@.contains(q));
                    }
                }
            }
            assert forall|k: nat| #[trigger] wanted_layer(chunk_manager, x, y, z, d, k) =~= Set::<ChunkPos>::empty() by {
                if k >= round - 1 {
                    lemma_bfs_empty_stays(chunk_manager, x, y, z, d, (round - 1) as nat, k);
                }
            }
        }
        Vec::new()
    }
}

/// Column (x, z) lies within the retention square round (cx, cz).
pub open spec fn retained(cx: int, cz: int, x: int, z: int) -> bool {
    abs(x - cx) <= RENDER_DISTANCE + 2 && abs(z - cz) <= RENDER_DISTANCE + 2
}

/// The chunk at `k` is loaded and its mesh is current.
pub open spec fn uploaded_at(w: &ChunkManager, k: (i32, i32, i32)) -> bool {
    w.chunk_spec(k.0 as int, k.1 as int, k.2 as int) matches Some(c) && c.is_uploaded_to_gpu
}

/// `col` is the column that stood at (x, z), outside the retention square round (cx, cz).
pub open spec fn evicted_as(w: &ChunkManager, cx: int, cz: int, x: i32, z: i32, col: ChunkColumn) -> bool {
    w.has_column(x as int, z as int) && !retained(cx, cz, x as int, z as int) && col == w.column_spec(x as int, z as int)
}

/// The block at (a, b, c) after trees have grown, in list order, on the
/// first `n` listed cells of the column (cx, cz) of world `w`, each on the
/// surface that `heights` gives; cells outside the column, or whose tree
/// would reach beyond the `i32` range, grow nothing.
pub open spec fn foliage_block(w: &ChunkManager, cx: int, cz: int, heights: Seq<u32>, trees: Seq<(u32, u32)>, n: int,
    a: int, b: int, c: int) -> Option<BlockID>
    decreases n,
{
    if n <= 0 {
        w.block_at(a, b, c)
    } else {
        let t = trees[n - 1];
        let ground = heights[16 * t.1 + t.0];
        if t.0 < 16 && t.1 < 16 && ground <= 2147483641 && tree_kind(16 * cx + t.0, ground as int, 16 * cz + t.1, a, b, c).is_some() {
            if w.block_at(a, b, c).is_some() {
                tree_kind(16 * cx + t.0, ground as int, 16 * cz + t.1, a, b, c)
            } else {
                None
            }
        } else {
            foliage_block(w, cx, cz, heights, trees, n - 1, a, b, c)
        }
    }
}

pub proof fn lemma_foliage_loaded(w: &ChunkManager, cx: int, cz: int, heights: Seq<u32>, trees: Seq<(u32, u32)>, n: int,
    a: int, b: int, c: int)
    ensures
        foliage_block(w, cx, cz, heights, trees, n, a, b, c).is_some() == w.block_at(a, b, c).is_some(),
    decreases n,
{
    if n > 0 {
        lemma_foliage_loaded(w, cx, cz, heights, trees, n - 1, a, b, c);
    }
}

/// `col` is a column that stood outside the retention square round (cx, cz).
pub open spec fn evicted_somewhere(w: &ChunkManager, cx: int, cz: int, col: ChunkColumn) -> bool {
    exists|x: i32, z: i32| #[trigger] evicted_as(w, cx, cz, x, z, col)
}

/// `col` is in `pool` at index `from` or later.
pub open spec fn pooled(pool: Seq<ChunkColumn>, from: int, col: ChunkColumn) -> bool {
    exists|j: int| from <= j < pool.len() && pool[j] == col
}

/// A mesh built this tick, for the renderer to upload, with the queue
/// entry it was built for.
pub type ChunkMesh = (PrioritizedChunk, Vec<Vertex>);

/// What one draining of the upload queue does: `new` is `old` with meshes
/// built for chunks taken from the queue `q0`, highest priority first, up
/// to `CHUNK_UPLOADS_PER_FRAME` of them, leaving `q1`.
pub open spec fn drain_step(old: &ChunkManager, new: &ChunkManager, q0: Seq<PrioritizedChunk>, q1: Seq<PrioritizedChunk>,
    pack: &TexturePack, r: Result<Vec<ChunkMesh>, BlockID>) -> bool {
    &&& new.wf()
    &&& new.column_keys == old.column_keys
    &&& new.block_changelist == old.block_changelist
    &&& forall|x: int, y: int, z: int| #[trigger] new.block_at(x, y, z) == old.block_at(x, y, z)
    &&& new.derived_kept(old)
    &&& r matches Ok(v) ==> forall|j: int| 0 <= j < v@.len() ==> #[trigger] mesh_delivered(new, old, pack, v@[j])
    &&& r matches Ok(v) ==> forall|j: int, l: int| 0 <= j < v@.len() && 0 <= l < q1.len()
        ==> #[trigger] q1[l].0 <= #[trigger] v@[j].0.0
    &&& r matches Err(b) ==> exists|x: int, y: int, z: int| #[trigger] lacks_texture(new, pack, x, y, z, b)
    &&& r matches Ok(v) ==> v@.len() <= CHUNK_UPLOADS_PER_FRAME && q1.len() == q0.len() - if q0.len() < CHUNK_UPLOADS_PER_FRAME {
        q0.len() as int
    } else {
        CHUNK_UPLOADS_PER_FRAME as int
    }
}

/// What one propagation of the recorded edits does (see `process_changelist`).
pub open spec fn changelist_step(old: &ChunkManager, new: &ChunkManager, q0: Seq<PrioritizedChunk>, q1: Seq<PrioritizedChunk>) -> bool {
    &&& new.refreshed_at(
        old,
        |cx: int, cy: int, cz: int, i: int| touched_by(old.block_changelist@, 27 * old.block_changelist@.len() as int, cx, cy, cz, i),
    )
    &&& new.block_changelist@.len() == 0
    &&& q1 == q0 + uploaded_only(old, merged(touched_chunks(old.block_changelist@, 27 * old.block_changelist@.len() as int)))
}

/// What one mesh pass round the chunk (x, y, z) does (see `mesh_new_chunks`),
/// with `mid` the world after the recomputation and before the marking.
pub open spec fn mesh_step(old: &ChunkManager, mid: &ChunkManager, new: &ChunkManager, q0: Seq<PrioritizedChunk>,
    q1: Seq<PrioritizedChunk>, x: i32, y: i32, z: i32, r: Seq<ChunkPos>) -> bool {
    &&& lists_first_wanted_layer(r, old, x, y, z, RENDER_DISTANCE as int)
    &&& mesh_pass(old, mid, new, r)
    &&& q1 == q0 + queued_for_mesh(old, r, r.len() as int)
}

/// The three parts of a scheduling tick, through the intermediate worlds
/// `w1` (edits propagated), `mid` and `w2` (new chunks meshed) and queues
/// `q1` and `q2`.
pub open spec fn tick_trace(old: &ChunkManager, w1: &ChunkManager, mid: &ChunkManager, w2: &ChunkManager, new: &ChunkManager,
    q0: Seq<PrioritizedChunk>, q1: Seq<PrioritizedChunk>, q2: Seq<PrioritizedChunk>, q3: Seq<PrioritizedChunk>,
    x: i32, y: i32, z: i32, meshed: Seq<ChunkPos>, pack: &TexturePack, r: Result<Vec<ChunkMesh>, BlockID>) -> bool {
    &&& changelist_step(old, w1, q0, q1)
    &&& mesh_step(w1, mid, w2, q1, q2, x, y, z, meshed)
    &&& drain_step(w2, new, q2, q3, pack, r)
}

/// Two chunks hold the same blocks, face bits and corner weights.
pub open spec fn data_same(n: crate::chunk::Chunk, o: crate::chunk::Chunk) -> bool {
    &&& n.blocks == o.blocks
    &&& n.active_faces == o.active_faces
    &&& n.ao_vertices == o.ao_vertices
}

/// The mesh `e` was built for a chunk that is now loaded and uploaded, from
/// that chunk's blocks, face bits and corner weights as they stood in `before`.
pub open spec fn mesh_delivered(w: &ChunkManager, before: &ChunkManager, pack: &TexturePack, e: ChunkMesh) -> bool {
    let k = e.0.1;
    &&& uploaded_at(w, k)
    &&& before.chunk_spec(k.0 as int, k.1 as int, k.2 as int).is_some()
    &&& e.1@ == mesh_upto(&before.chunk_spec(k.0 as int, k.1 as int, k.2 as int).unwrap(), pack, 4096)
}

/// The chunk at (x, y, z) is loaded and draws a block of kind `b` that the pack has no texture for.
pub open spec fn lacks_texture(w: &ChunkManager, pack: &TexturePack, x: int, y: int, z: int, b: BlockID) -> bool {
    w.chunk_spec(x, y, z) matches Some(c) && exists|i: int| 0 <= i < 4096 && needs_texture(&c, pack, i) && c.blocks@[i] == b
}

impl ChunkLoading {
    /// Builds the meshes of up to `CHUNK_UPLOADS_PER_FRAME` queued chunks,
    /// highest priority first, skipping chunks no longer loaded; each built
    /// mesh comes back with the queue entry it was built for. Stops at the
    /// first drawn block kind without a texture.
    pub fn drain_uploads(&mut self, world: &mut ChunkManager, texture_pack: &TexturePack) -> (r: Result<Vec<ChunkMesh>, BlockID>)
        requires
            old(world).wf(),
            texture_pack.wf(),
        ensures
            drain_step(old(world), final(world), old(self).chunk_upload_queue@, final(self).chunk_upload_queue@, texture_pack, r),
            final(self).chunk_column_pool == old(self).chunk_column_pool,
    {
        let ghost q0 = self.chunk_upload_queue@.len();
        let ghost q_start = self.chunk_upload_queue@;
        let ghost w0 = *world;
        let mut out: Vec<ChunkMesh> = Vec::new();
        let mut i: usize = 0;
        while i < CHUNK_UPLOADS_PER_FRAME
            invariant
                world.wf(),
                texture_pack.wf(),
                w0 == *old(world),
                world.column_keys == old(world).column_keys,
                world.block_changelist == old(world).block_changelist,
                forall|x: int, y: int, z: int| #[trigger] world.block_at(x, y, z) == old(world).block_at(x, y, z),
                world.derived_kept(&w0),
                self.chunk_column_pool == old(self).chunk_column_pool,
                q0 == old(self).chunk_upload_queue@.len(),
                q_start == old(self).chunk_upload_queue@,
                i <= CHUNK_UPLOADS_PER_FRAME,
                out@.len() <= i,
                forall|j: int| 0 <= j < out@.len() ==> #[trigger] mesh_delivered(world, &w0, texture_pack, out@[j]),
                forall|j: int, l: int| 0 <= j < out@.len() && 0 <= l < self.chunk_upload_queue@.len()
                    ==> #[trigger] self.chunk_upload_queue@[l].0 <= #[trigger] out@[j].0.0,
                self.chunk_upload_queue@.len() == if q0 < i { 0 } else { q0 - i },
            decreases CHUNK_UPLOADS_PER_FRAME - i,
        {
            let ghost prev = self.chunk_upload_queue@;
            match self.pop_upload() {
                Some(item) => {
                    proof {
                        let j = choose|j: int| 0 <= j < prev.len() && prev[j] == item
                            && self.chunk_upload_queue@ == prev.remove(j)
                            && (forall|l: int| 0 <= l < prev.len() ==> #[trigger] prev[l].0 <= item.0)
                            && (forall|l: int| 0 <= l < j ==> #[trigger] prev[l].0 < item.0);
                        assert(self.chunk_upload_queue@.len() == prev.len() - 1);
                        assert forall|jj: int, l: int| 0 <= jj < out@.len() && 0 <= l < self.chunk_upload_queue@.len()
                            implies #[trigger] self.chunk_upload_queue@[l].0 <= #[trigger] out@[jj].0.0 by {
                            if l < j {
                                assert(self.chunk_upload_queue@[l] == prev[l]);
                            } else {
                                assert(self.chunk_upload_queue@[l] == prev[l + 1]);
                            }
                        }
                        assert forall|l: int| 0 <= l < self.chunk_upload_queue@.len() implies #[trigger] self.chunk_upload_queue@[l].0 <= item.0 by {
                            if l < j {
                                assert(self.chunk_upload_queue@[l] == prev[l]);
                            } else {
                                assert(self.chunk_upload_queue@[l] == prev[l + 1]);
                            }
                        }
                    }
                    let k = item.1;
                    let ghost w1 = *world;
                    match world.upload_chunk(k.0, k.1, k.2, texture_pack) {
                        Some(Ok(v)) => {
                            let ghost before = out@;
                            out.push((item, v));
                            proof {
                                let ki = (k.0 as int, k.1 as int, k.2 as int);
                                let o = w0.chunk_spec(ki.0, ki.1, ki.2).unwrap();
                                let c1 = w1.chunk_spec(ki.0, ki.1, ki.2).unwrap();
                                assert(w1.chunk_spec(ki.0, ki.1, ki.2).is_some());
                                assert(w1.derived_kept(&w0));
                                assert(w0.chunk_spec(ki.0, ki.1, ki.2).is_some());
                                assert(c1.blocks == o.blocks && c1.active_faces == o.active_faces && c1.ao_vertices == o.ao_vertices);
                                crate::mesh::lemma_mesh_same(&c1, &o, texture_pack, 4096);
                                assert forall|a: int, b: int, c: int| #[trigger] world.chunk_spec(a, b, c).is_some()
                                    == w0.chunk_spec(a, b, c).is_some() && (w0.chunk_spec(a, b, c).is_some() ==> data_same(
                                    world.chunk_spec(a, b, c).unwrap(), w0.chunk_spec(a, b, c).unwrap())) by {
                                    assert(w1.chunk_spec(a, b, c).is_some() == w0.chunk_spec(a, b, c).is_some());
                                    if !(a == k.0 && b == k.1 && c == k.2) {
                                        assert(world.chunk_spec(a, b, c) == w1.chunk_spec(a, b, c));
                                    }
                                }
                                assert(world.derived_kept(&w0));
                                assert forall|j: int| 0 <= j < out@.len() implies #[trigger] mesh_delivered(world, &w0, texture_pack, out@[j]) by {
                                    if j < before.len() {
                                        assert(out@[j] == before[j]);
                                        assert(mesh_delivered(&w1, &w0, texture_pack, before[j]));
                                        let kk = before[j].0.1;
                                        if !(kk.0 == k.0 && kk.1 == k.1 && kk.2 == k.2) {
                                            assert(world.chunk_spec(kk.0 as int, kk.1 as int, kk.2 as int) == w1.chunk_spec(kk.0 as int, kk.1 as int, kk.2 as int));
                                        }
                                    }
                                }
                                assert forall|jj: int, l: int| 0 <= jj < out@.len() && 0 <= l < self.chunk_upload_queue@.len()
                                    implies #[trigger] self.chunk_upload_queue@[l].0 <= #[trigger] out@[jj].0.0 by {
                                    if jj < before.len() {
                                        assert(out@[jj] == before[jj]);
                                    }
                                }
                            }
                        },
                        Some(Err(b)) => {
                            proof {
                                let ki = (k.0 as int, k.1 as int, k.2 as int);
                                assert forall|a: int, bb: int, c: int| #[trigger] world.chunk_spec(a, bb, c) == w1.chunk_spec(a, bb, c) by {}
                                assert(w1.derived_kept(&w0));
                                assert forall|a: int, bb: int, c: int| #[trigger] world.chunk_spec(a, bb, c).is_some() == w0.chunk_spec(a, bb, c).is_some()
                                    && (w0.chunk_spec(a, bb, c).is_some() ==> data_same(world.chunk_spec(a, bb, c).unwrap(), w0.chunk_spec(a, bb, c).unwrap())) by {
                                    assert(world.chunk_spec(a, bb, c) == w1.chunk_spec(a, bb, c));
                                    assert(w1.chunk_spec(a, bb, c).is_some() == w0.chunk_spec(a, bb, c).is_some());
                                }
                                assert(world.derived_kept(&w0));
                                assert(lacks_texture(world, texture_pack, ki.0, ki.1, ki.2, b));
                                assert(drain_step(&w0, world, q_start, self.chunk_upload_queue@, texture_pack, Err(b)));
                            }
                            return Err(b);
                        },
                        None => {
                            proof {
                                assert forall|a: int, b: int, c: int| #[trigger] world.chunk_spec(a, b, c) == w1.chunk_spec(a, b, c) by {}
                                assert forall|j: int| 0 <= j < out@.len() implies #[trigger] mesh_delivered(world, &w0, texture_pack, out@[j]) by {
                                    assert(mesh_delivered(&w1, &w0, texture_pack, out@[j]));
                                    let kk = out@[j].0.1;
                                    assert(world.chunk_spec(kk.0 as int, kk.1 as int, kk.2 as int) == w1.chunk_spec(kk.0 as int, kk.1 as int, kk.2 as int));
                                }
                                assert(w1.derived_kept(&w0));
                                assert forall|a: int, b: int, c: int| #[trigger] world.chunk_spec(a, b, c).is_some() == w0.chunk_spec(a, b, c).is_some()
                                    && (w0.chunk_spec(a, b, c).is_some() ==> data_same(world.chunk_spec(a, b, c).unwrap(), w0.chunk_spec(a, b, c).unwrap())) by {
                                    assert(world.chunk_spec(a, b, c) == w1.chunk_spec(a, b, c));
                                    assert(w1.chunk_spec(a, b, c).is_some() == w0.chunk_spec(a, b, c).is_some());
                                }
                            }
                        },
                    }
                },
                None => {},
            }
            i += 1;
        }
        Ok(out)
    }

    /// Takes the columns outside the retention square round (c_x, c_z) out
    /// of the world and keeps them for reuse.
    pub fn evict_distant_columns(&mut self, world: &mut ChunkManager, c_x: i32, c_z: i32)
        requires
            old(world).wf(),
            old(self).wf(),
        ensures
            final(world).wf(),
            final(self).wf(),
            final(world).block_changelist == old(world).block_changelist,
            forall|x: i32, z: i32| #[trigger] final(world).has_column(x as int, z as int) == (old(world).has_column(x as int, z as int)
                && retained(c_x as int, c_z as int, x as int, z as int)),
            forall|x: i32, z: i32| #[trigger] final(world).has_column(x as int, z as int) ==> final(world).column_spec(x as int, z as int)
                == old(world).column_spec(x as int, z as int),
            final(self).chunk_upload_queue == old(self).chunk_upload_queue,
            final(self).chunk_column_pool@.len() >= old(self).chunk_column_pool@.len(),
            final(self).chunk_column_pool@.subrange(0, old(self).chunk_column_pool@.len() as int) == old(self).chunk_column_pool@,
            forall|j: int| old(self).chunk_column_pool@.len() <= j < final(self).chunk_column_pool@.len() ==> #[trigger] evicted_somewhere(
                old(world), c_x as int, c_z as int, final(self).chunk_column_pool@[j]),
            forall|x: i32, z: i32| old(world).has_column(x as int, z as int) && !retained(c_x as int, c_z as int, x as int, z as int)
                ==> #[trigger] pooled(final(self).chunk_column_pool@, old(self).chunk_column_pool@.len() as int, old(world).column_spec(x as int, z as int)),
    {
        let mut far: Vec<(i32, i32)> = Vec::new();
        let mut i: usize = 0;
        while i < world.column_keys.len()
            invariant
                world.wf(),
                i <= world.column_keys@.len(),
                forall|x: i32, z: i32| far@.contains((x, z)) <==> exists|j: int| 0 <= j < i && #[trigger] world.column_keys@[j] == (x, z)
                    && !retained(c_x as int, c_z as int, x as int, z as int),
            decreases world.column_keys@.len() - i,
        {
            let k = world.column_keys[i];
            let dx: i64 = k.0 as i64 - c_x as i64;
            let dz: i64 = k.1 as i64 - c_z as i64;
            let ghost before = far@;
            let within = -7 <= dx && dx <= 7 && -7 <= dz && dz <= 7;
            if !within {
                far.push(k);
            }
            proof {
                assert forall|x: i32, z: i32| far@.contains((x, z)) <==> exists|j: int| 0 <= j < i + 1 && #[trigger] world.column_keys@[j] == (x, z)
                    && !retained(c_x as int, c_z as int, x as int, z as int) by {
                    if far@.contains((x, z)) && !before.contains((x, z)) {
                        assert((x, z) == k);
                        assert(world.column_keys@[i as int] == (x, z));
                    }
                    if before.contains((x, z)) {
                        let j = choose|j: int| 0 <= j < before.len() && before[j] == (x, z);
                        assert(far@[j] == (x, z));
                    }
                    if exists|j: int| 0 <= j < i + 1 && #[trigger] world.column_keys@[j] == (x, z)
                        && !retained(c_x as int, c_z as int, x as int, z as int) {
                        let j = choose|j: int| 0 <= j < i + 1 && #[trigger] world.column_keys@[j] == (x, z)
                            && !retained(c_x as int, c_z as int, x as int, z as int);
                        if j == i {
                            assert(far@[far@.len() - 1] == (x, z));
                        }
                    }
                }
            }
            i += 1;
        }
        let ghost w0 = *world;
        let ghost n_pool = self.chunk_column_pool@.len();
        proof {
            assert forall|x: i32, z: i32| far@.contains((x, z)) <==> (w0.has_column(x as int, z as int)
                && !retained(c_x as int, c_z as int, x as int, z as int)) by {
                if w0.has_column(x as int, z as int) {
                    let j = w0.column_index(x as int, z as int);
                    assert(w0.key_at(j, x as int, z as int));
                    assert(w0.column_keys@[j] == (x, z));
                }
                if far@.contains((x, z)) {
                    let j = choose|j: int| 0 <= j < w0.column_keys@.len() && #[trigger] w0.column_keys@[j] == (x, z)
                        && !retained(c_x as int, c_z as int, x as int, z as int);
                    assert(w0.key_at(j, x as int, z as int));
                }
            }
        }
        let mut k: usize = 0;
        while k < far.len()
            invariant
                w0.wf(),
                world.wf(),
                self.wf(),
                k <= far@.len(),
                world.block_changelist == w0.block_changelist,
                self.chunk_upload_queue == old(self).chunk_upload_queue,
                self.chunk_column_pool@.len() >= old(self).chunk_column_pool@.len(),
                w0 == *old(world),
                self.chunk_column_pool@.subrange(0, old(self).chunk_column_pool@.len() as int) == old(self).chunk_column_pool@,
                forall|x: i32, z: i32| far@.contains((x, z)) <==> (w0.has_column(x as int, z as int)
                    && !retained(c_x as int, c_z as int, x as int, z as int)),
                forall|j: int| n_pool <= j < self.chunk_column_pool@.len() ==> #[trigger] evicted_somewhere(
                    &w0, c_x as int, c_z as int, self.chunk_column_pool@[j]),
                n_pool == old(self).chunk_column_pool@.len(),
                forall|x: i32, z: i32| #[trigger] far@.subrange(0, k as int).contains((x, z)) ==> pooled(self.chunk_column_pool@,
                    old(self).chunk_column_pool@.len() as int, w0.column_spec(x as int, z as int)),
                forall|x: i32, z: i32| #[trigger] world.has_column(x as int, z as int) == (w0.has_column(x as int, z as int)
                    && !far@.subrange(0, k as int).contains((x, z))),
                forall|x: i32, z: i32| #[trigger] world.has_column(x as int, z as int) ==> world.column_spec(x as int, z as int)
                    == w0.column_spec(x as int, z as int),
            decreases far@.len() - k,
        {
            let key = far[k];
            let ghost w1 = *world;
            let ghost p1 = self.chunk_column_pool@;
            let ghost n0 = old(self).chunk_column_pool@.len() as int;
            proof {
                assert(far@.contains(key)) by {
                    assert(far@[k as int] == key);
                }
            }
            match world.remove_chunk_column(&key) {
                Some(column) => {
                    self.recycle_column(column);
                    proof {
                        assert(w1.has_column(key.0 as int, key.1 as int));
                        assert(column == w0.column_spec(key.0 as int, key.1 as int));
                        assert(evicted_as(&w0, c_x as int, c_z as int, key.0, key.1, column));
                        assert forall|j: int| n0 <= j < self.chunk_column_pool@.len() implies #[trigger] evicted_somewhere(
                            &w0, c_x as int, c_z as int, self.chunk_column_pool@[j]) by {
                            if j < p1.len() {
                                assert(self.chunk_column_pool@[j] == p1[j]);
                                assert(evicted_somewhere(&w0, c_x as int, c_z as int, p1[j]));
                            } else {
                                assert(self.chunk_column_pool@[j] == column);
                                assert(evicted_as(&w0, c_x as int, c_z as int, key.0, key.1, self.chunk_column_pool@[j]));
                            }
                        }
                        assert(self.chunk_column_pool@.subrange(0, n0) =~= p1.subrange(0, n0));
                        assert(pooled(self.chunk_column_pool@, n0, column)) by {
                            assert(self.chunk_column_pool@[p1.len() as int] == column);
                        }
                        assert forall|x: i32, z: i32| pooled(p1, n0, w0.column_spec(x as int, z as int)) implies
                            #[trigger] pooled(self.chunk_column_pool@, n0, w0.column_spec(x as int, z as int)) by {
                            let j = choose|j: int| n0 <= j < p1.len() && p1[j] == w0.column_spec(x as int, z as int);
                            assert(self.chunk_column_pool@[j] == p1[j]);
                        }
                    }
                },
                None => {
                    proof {
                        assert(far@.subrange(0, k as int).contains(key));
                        assert(self.chunk_column_pool@ == p1);
                    }
                },
            }
            proof {
                assert forall|x: i32, z: i32| #[trigger] far@.subrange(0, k as int + 1).contains((x, z)) implies pooled(self.chunk_column_pool@,
                    n0, w0.column_spec(x as int, z as int)) by {
                    let j = choose|j: int| 0 <= j < k + 1 && #[trigger] far@.subrange(0, k as int + 1)[j] == (x, z);
                    if j < k {
                        assert(far@.subrange(0, k as int)[j] == (x, z));
                        assert(far@.subrange(0, k as int).contains((x, z)));
                        if pooled(p1, n0, w0.column_spec(x as int, z as int)) {
                            let i = choose|i: int| n0 <= i < p1.len() && p1[i] == w0.column_spec(x as int, z as int);
                            assert(self.chunk_column_pool@[i] == p1[i]);
                        }
                    } else {
                        assert((x, z) == key);
                        if far@.subrange(0, k as int).contains(key) {
                            let i = choose|i: int| n0 <= i < p1.len() && p1[i] == w0.column_spec(x as int, z as int);
                            assert(self.chunk_column_pool@[i] == p1[i]);
                        }
                    }
                }
                assert forall|x: i32, z: i32| #[trigger] world.has_column(x as int, z as int) == (w0.has_column(x as int, z as int)
                    && !far@.subrange(0, k as int + 1).contains((x, z))) by {
                    if far@.subrange(0, k as int + 1).contains((x, z)) && !far@.subrange(0, k as int).contains((x, z)) {
                        let j = choose|j: int| 0 <= j < k + 1 && #[trigger] far@.subrange(0, k as int + 1)[j] == (x, z);
                        assert(j == k);
                    }
                    if far@.subrange(0, k as int).contains((x, z)) {
                        let j = choose|j: int| 0 <= j < k && #[trigger] far@.subrange(0, k as int)[j] == (x, z);
                        assert(far@.subrange(0, k as int + 1)[j] == (x, z));
                    }
                    if !(x == key.0 && z == key.1) {
                        assert(world.has_column(x as int, z as int) == w1.has_column(x as int, z as int));
                        if far@.subrange(0, k as int + 1).contains((x, z)) {
                            let j = choose|j: int| 0 <= j < k + 1 && #[trigger] far@.subrange(0, k as int + 1)[j] == (x, z);
                            assert(far@.subrange(0, k as int)[j] == (x, z));
                        }
                    } else {
                        assert(far@.subrange(0, k as int + 1)[k as int] == (x, z));
                    }
                }
                assert forall|x: i32, z: i32| #[trigger] world.has_column(x as int, z as int) implies world.column_spec(x as int, z as int)
                    == w0.column_spec(x as int, z as int) by {
                    if !(x == key.0 && z == key.1) {
                        assert(w1.has_column(x as int, z as int));
                    }
                }
            }
            k += 1;
        }
        proof {
            assert(far@.subrange(0, far@.len() as int) =~= far@);
            assert forall|x: i32, z: i32| old(world).has_column(x as int, z as int) && !retained(c_x as int, c_z as int, x as int, z as int)
                implies #[trigger] pooled(self.chunk_column_pool@, old(self).chunk_column_pool@.len() as int, old(world).column_spec(x as int, z as int)) by {
                assert(far@.contains((x, z)));
                assert(far@.subrange(0, far@.len() as int).contains((x, z)));
            }
        }
    }

    /// Computes faces and corner weights of the next chunks that need them
    /// round the chunk (x, y, z), those that `flood_fill_chunks` lists
    /// within `RENDER_DISTANCE`, marks them generated, and queues those
    /// with blocks for upload with priority 0; a chunk with nothing to draw
    /// has its empty mesh marked current. Returns the chunks handled.
    pub fn mesh_new_chunks(&mut self, world: &mut ChunkManager, x: i32, y: i32, z: i32) -> (r: Vec<(i32, i32, i32)>)
        requires
            old(world).wf(),
            scan_in_range(x as int, z as int, RENDER_DISTANCE as int),
            -1000000000 <= y <= 1000000000,
        ensures
            exists|mid: ChunkManager| #[trigger] mesh_step(old(world), &mid, final(world), old(self).chunk_upload_queue@,
                final(self).chunk_upload_queue@, x, y, z, r@),
            final(self).chunk_column_pool == old(self).chunk_column_pool,
    {
        proof {
            assert(11 * 11 * 11 <= usize::MAX);
        }
        let chunks = ChunkLoading::flood_fill_chunks(world, x, y, z, RENDER_DISTANCE);
        let ghost w0 = *world;
        let ghost cs = chunks@;
        proof {
            world.lemma_refreshed_at_refl();
            ChunkManager::lemma_refreshed_at_touch_eq(world, &w0, |a: int, b: int, c: int, i: int| false,
                |a: int, b: int, c: int, i: int| mesh_touched(cs, 0, a, b, c, i));
        }
        let mut i: usize = 0;
        while i < chunks.len()
            invariant
                w0.wf(),
                i <= chunks@.len(),
                cs == chunks@,
                world.refreshed_at(&w0, |a: int, b: int, c: int, k: int| mesh_touched(cs, i as int, a, b, c, k)),
                world.block_changelist == w0.block_changelist,
            decreases chunks@.len() - i,
        {
            let (cx, cy, cz) = chunks[i];
            let ghost s2 = *world;
            if is_chunk_in_range(cx) && is_chunk_in_range(cz) {
                world.update_all_blocks(cx, cy, cz);
                proof {
                    let t1 = |a: int, b: int, c: int, k: int| mesh_touched(cs, i as int, a, b, c, k);
                    let t2 = |k: int| 0 <= k < 4096;
                    let t3 = |a: int, b: int, c: int, k: int| mesh_touched(cs, i as int + 1, a, b, c, k);
                    assert forall|a: int, b: int, c: int, k: int| #[trigger] t3(a, b, c, k) == (t1(a, b, c, k)
                        || (a == cx && b == cy && c == cz && t2(k))) by {
                        if t3(a, b, c, k) {
                            let j = choose|j: int| 0 <= j < i + 1 && #[trigger] mesh_slot(cs, j, a, b, c, k);
                            if j < i {
                                assert(t1(a, b, c, k));
                            }
                        }
                        if a == cx && b == cy && c == cz && t2(k) {
                            assert(mesh_slot(cs, i as int, a, b, c, k));
                        }
                    }
                    ChunkManager::lemma_refreshed_at_extend(&w0, &s2, world, t1, cx as int, cy as int, cz as int, t2, t3);
                }
            } else {
                proof {
                    assert forall|a: int, b: int, c: int, k: int| #[trigger] mesh_touched(cs, i as int, a, b, c, k)
                        == mesh_touched(cs, i as int + 1, a, b, c, k) by {
                        if mesh_touched(cs, i as int + 1, a, b, c, k) {
                            let j = choose|j: int| 0 <= j < i + 1 && #[trigger] mesh_slot(cs, j, a, b, c, k);
                            assert(j != i);
                        }
                    }
                    ChunkManager::lemma_refreshed_at_touch_eq(world, &w0,
                        |a: int, b: int, c: int, k: int| mesh_touched(cs, i as int, a, b, c, k),
                        |a: int, b: int, c: int, k: int| mesh_touched(cs, i as int + 1, a, b, c, k));
                }
            }
            i += 1;
        }
        let ghost mid = *world;
        proof {
            assert(flags_marked(&mid, &mid, cs.subrange(0, 0)));
        }
        let mut j: usize = 0;
        while j < chunks.len()
            invariant
                w0.wf(),
                mid.wf(),
                j <= chunks@.len(),
                cs == chunks@,
                cs.no_duplicates(),
                mid.refreshed_at(&w0, |a: int, b: int, c: int, k: int| mesh_touched(cs, cs.len() as int, a, b, c, k)),
                mid.block_changelist == w0.block_changelist,
                flags_marked(world, &mid, cs.subrange(0, j as int)),
                self.chunk_column_pool == old(self).chunk_column_pool,
                self.chunk_upload_queue@ == old(self).chunk_upload_queue@ + queued_for_mesh(&w0, cs, j as int),
            decreases chunks@.len() - j,
        {
            let (cx, cy, cz) = chunks[j];
            let ghost s2 = *world;
            let ghost done = cs.subrange(0, j as int);
            let ghost next = cs.subrange(0, j as int + 1);
            proof {
                assert(!done.contains((cx, cy, cz))) by {
                    if done.contains((cx, cy, cz)) {
                        let k = choose|k: int| 0 <= k < done.len() && done[k] == (cx, cy, cz);
                        assert(cs[k] == cs[j as int]);
                    }
                }
                assert forall|p: ChunkPos| #[trigger] next.contains(p) <==> (done.contains(p) || p == (cx, cy, cz)) by {
                    if next.contains(p) {
                        let k = choose|k: int| 0 <= k < next.len() && next[k] == p;
                        if k < j {
                            assert(done[k] == p);
                        }
                    }
                    if done.contains(p) {
                        let k = choose|k: int| 0 <= k < done.len() && done[k] == p;
                        assert(next[k] == p);
                    }
                    if p == (cx, cy, cz) {
                        assert(next[j as int] == p);
                    }
                }
            }
            if is_chunk_in_range(cx) && is_chunk_in_range(cz) {
                let empty = match world.get_chunk(cx, cy, cz) {
                    Some(c) => Some(c.is_empty()),
                    None => None,
                };
                match empty {
                    Some(e) => {
                        world.mark_generated(cx, cy, cz, e);
                        if !e {
                            self.push_upload((0, (cx, cy, cz)));
                        }
                    },
                    None => {},
                }
            }
            proof {
                let k = (cx, cy, cz);
                let ki = (cx as int, cy as int, cz as int);
                assert(cs[j as int] == k);
                if w0.chunk_spec(ki.0, ki.1, ki.2).is_some() {
                    assert(mid.chunk_spec(ki.0, ki.1, ki.2).is_some());
                    assert(chunk_refreshed(mid.chunk_spec(ki.0, ki.1, ki.2).unwrap(), w0.chunk_spec(ki.0, ki.1, ki.2).unwrap(), &w0,
                        ki.0, ki.1, ki.2, |a: int, b: int, c: int, kk: int| mesh_touched(cs, cs.len() as int, a, b, c, kk)));
                    assert(s2.chunk_spec(ki.0, ki.1, ki.2).is_some());
                }
                assert forall|a: int, b: int, c: int|
                    (#[trigger] mid.chunk_spec(a, b, c)).is_some() implies chunk_marked(
                        world.chunk_spec(a, b, c).unwrap(),
                        mid.chunk_spec(a, b, c).unwrap(),
                        next.contains((a as i32, b as i32, c as i32)) && chunk_in_range(a) && chunk_in_range(c),
                    ) by {
                    assert(chunk_marked(
                        s2.chunk_spec(a, b, c).unwrap(),
                        mid.chunk_spec(a, b, c).unwrap(),
                        done.contains((a as i32, b as i32, c as i32)) && chunk_in_range(a) && chunk_in_range(c),
                    ));
                    if !(a == cx && b == cy && c == cz) {
                        assert(world.chunk_spec(a, b, c) == s2.chunk_spec(a, b, c));
                        if next.contains((a as i32, b as i32, c as i32)) && (a as i32, b as i32, c as i32) == k {
                            assert(mid.chunk_spec(a, b, c).is_some());
                        }
                    }
                }
                assert forall|a: int, b: int, c: int| #[trigger] world.chunk_spec(a, b, c).is_some() == mid.chunk_spec(a, b, c).is_some() by {
                    assert(s2.chunk_spec(a, b, c).is_some() == mid.chunk_spec(a, b, c).is_some());
                    if !(a == cx && b == cy && c == cz) {
                        assert(world.chunk_spec(a, b, c) == s2.chunk_spec(a, b, c));
                    }
                }
                assert forall|a: int, z: int| mid.has_column(a, z) implies (#[trigger] world.column_spec(a, z)).heighest_blocks
                    == mid.column_spec(a, z).heighest_blocks && world.column_spec(a, z).has_foliage
                    == mid.column_spec(a, z).has_foliage by {
                    assert(s2.has_column(a, z));
                }
                assert(flags_marked(world, &mid, next));
                assert(self.chunk_upload_queue@ =~= old(self).chunk_upload_queue@ + queued_for_mesh(&w0, cs, j as int + 1));
            }
            j += 1;
        }
        proof {
            assert(cs.subrange(0, cs.len() as int) =~= cs);
            assert(mesh_pass(&w0, &mid, world, cs));
            assert(mesh_step(&w0, &mid, world, old(self).chunk_upload_queue@, self.chunk_upload_queue@, x, y, z, cs));
        }
        chunks
    }

    /// One scheduling step that needs no outside work: propagates the
    /// recorded edits, meshes the next chunks round the viewpoint's chunk,
    /// then builds the meshes of the highest-priority queued chunks.
    pub fn tick(&mut self, world: &mut ChunkManager, texture_pack: &TexturePack, x: i32, y: i32, z: i32) -> (r: Result<Vec<ChunkMesh>, BlockID>)
        requires
            old(world).wf(),
            texture_pack.wf(),
            27 * old(world).block_changelist@.len() <= usize::MAX,
        ensures
            exists|w1: ChunkManager, mid: ChunkManager, w2: ChunkManager, q1: Seq<PrioritizedChunk>, q2: Seq<PrioritizedChunk>,
                meshed: Seq<ChunkPos>| #[trigger] tick_trace(old(world), &w1, &mid, &w2, final(world), old(self).chunk_upload_queue@,
                q1, q2, final(self).chunk_upload_queue@, chunk_of(x as int) as i32, chunk_of(y as int) as i32,
                chunk_of(z as int) as i32, meshed, texture_pack, r),
            final(self).chunk_column_pool == old(self).chunk_column_pool,
    {
        let (cx, cy, cz, _bx, _by, _bz) = ChunkManager::get_chunk_coords(x, y, z);
        let ghost w0 = *world;
        let ghost q0 = self.chunk_upload_queue@;
        self.process_changelist(world);
        let ghost w1 = *world;
        let ghost q1 = self.chunk_upload_queue@;
        let meshed = self.mesh_new_chunks(world, cx, cy, cz);
        let ghost w2 = *world;
        let ghost q2 = self.chunk_upload_queue@;
        let ghost mid = choose|mid: ChunkManager| #[trigger] mesh_step(&w1, &mid, &w2, q1, q2, cx, cy, cz, meshed@);
        let r = self.drain_uploads(world, texture_pack);
        proof {
            assert(cx == chunk_of(x as int) as i32 && cy == chunk_of(y as int) as i32 && cz == chunk_of(z as int) as i32);
            assert(mesh_step(&w1, &mid, &w2, q1, q2, cx, cy, cz, meshed@));
            assert(tick_trace(&w0, &w1, &mid, &w2, world, q0, q1, q2, self.chunk_upload_queue@, cx, cy, cz, meshed@, texture_pack, r));
        }
        r
    }
}

/// Neighbour (dx, dy, dz) of edit `k` lies in chunk (cx, cy, cz).
pub open spec fn edit_neighbour_in(cl: Seq<BlockChange>, k: int, dx: int, dy: int, dz: int, cx: int, cy: int, cz: int) -> bool {
    &&& 0 <= k < cl.len()
    &&& -1 <= dx <= 1 && -1 <= dy <= 1 && -1 <= dz <= 1
    &&& chunk_of(cl[k].2 + dx) == cx
    &&& chunk_of(cl[k].3 + dy) == cy
    &&& chunk_of(cl[k].4 + dz) == cz
}

/// Propagating edits (the world change that `process_changelist` makes)
/// reaches only chunks that hold a neighbour of an edit: a chunk none of
/// whose blocks lies in the 3 x 3 x 3 neighbourhood of an edit keeps its
/// face bits, weights, flags and drawn count; and a chunk that is reached
/// holds a neighbour (dx, dy, dz in -1 to 1) of some edit.
pub proof fn lemma_changelist_locality(new_w: &ChunkManager, old_w: &ChunkManager, cx: int, cy: int, cz: int)
    requires
        old_w.wf(),
        new_w.refreshed_at(
            old_w,
            |a: int, b: int, c: int, i: int| touched_by(old_w.block_changelist@, 27 * old_w.block_changelist@.len() as int, a, b, c, i),
        ),
    ensures
        (forall|i: int| 0 <= i < 4096 ==> !#[trigger] touched_by(old_w.block_changelist@, 27 * old_w.block_changelist@.len() as int, cx, cy, cz, i))
            ==> (old_w.chunk_spec(cx, cy, cz) matches Some(o) ==> {
                let n = new_w.chunk_spec(cx, cy, cz).unwrap();
                &&& forall|i: int| 0 <= i < 4096 ==> #[trigger] n.faces_at(i) == o.faces_at(i) && n.ao_at(i) == o.ao_at(i)
                &&& n.is_uploaded_to_gpu == o.is_uploaded_to_gpu
                &&& n.is_generated == o.is_generated
                &&& n.is_rendered == o.is_rendered
                &&& n.vertices_drawn == o.vertices_drawn
            }),
        forall|i: int| #[trigger] touched_by(old_w.block_changelist@, 27 * old_w.block_changelist@.len() as int, cx, cy, cz, i)
            ==> exists|k: int, dx: int, dy: int, dz: int| #[trigger] edit_neighbour_in(old_w.block_changelist@, k, dx, dy, dz, cx, cy, cz),
{
    let cl = old_w.block_changelist@;
    let n = 27 * cl.len() as int;
    if old_w.chunk_spec(cx, cy, cz).is_some() {
        assert(chunk_refreshed(
            new_w.chunk_spec(cx, cy, cz).unwrap(),
            old_w.chunk_spec(cx, cy, cz).unwrap(),
            old_w,
            cx,
            cy,
            cz,
            |a: int, b: int, c: int, i: int| touched_by(cl, n, a, b, c, i),
        ));
    }
    assert forall|i: int| #[trigger] touched_by(cl, n, cx, cy, cz, i) implies exists|k: int, dx: int, dy: int, dz: int|
        #[trigger] edit_neighbour_in(cl, k, dx, dy, dz, cx, cy, cz) by {
        let m = choose|m: int| 0 <= m < n && #[trigger] step_touches(cl, m, cx, cy, cz, i);
        let j = m % 27;
        let k = m / 27;
        assert(0 <= k < cl.len()) by (nonlinear_arith)
            requires 0 <= m < 27 * cl.len(), k == m / 27;
        assert(0 <= j / 9 <= 2) by (nonlinear_arith)
            requires 0 <= j < 27;
        let d = offset_of_index(j);
        assert(edit_neighbour_in(cl, k, d.0, d.1, d.2, cx, cy, cz));
    }
}

/// A column handed out by the pool, reset after it left the world, holds
/// air in every block of its sixteen chunks, with both counts zero, before
/// generation writes to it.
pub proof fn lemma_pool_round_trip(column: &ChunkColumn)
    requires
        column.is_fresh(),
    ensures
        forall|c: int, i: int| 0 <= c < 16 && 0 <= i < 4096 ==> #[trigger] column.chunks@[c].blocks@[i] == BlockID::Air,
        forall|c: int| 0 <= c < 16 ==> (#[trigger] column.chunks@[c]).number_of_opaque_blocks == 0
            && column.chunks@[c].number_of_transparent_blocks == 0,
{
    assert forall|c: int, i: int| 0 <= c < 16 && 0 <= i < 4096 implies #[trigger] column.chunks@[c].blocks@[i] == BlockID::Air by {
        assert(column.chunks@[c].is_fresh());
    }
}

/// Chunk (x, y, z) is beyond the drawing distance of the chunk (cx, cy, cz).
pub open spec fn beyond_sight(cx: int, cy: int, cz: int, x: int, y: int, z: int) -> bool {
    abs(x - cx) > RENDER_DISTANCE || abs(y - cy) > RENDER_DISTANCE || abs(z - cz) > RENDER_DISTANCE
}

/// Chunk `n` is chunk `o` with, when `distant`, its mesh emptied and its
/// uploaded and drawable marks cleared; otherwise it is `o`.
pub open spec fn unloaded_if_distant(n: crate::chunk::Chunk, o: crate::chunk::Chunk, distant: bool) -> bool {
    if distant {
        &&& n.vertices_drawn == 0
        &&& !n.is_uploaded_to_gpu
        &&& !n.is_rendered
        &&& n.blocks == o.blocks
        &&& n.number_of_opaque_blocks == o.number_of_opaque_blocks
        &&& n.number_of_transparent_blocks == o.number_of_transparent_blocks
        &&& n.active_faces == o.active_faces
        &&& n.ao_vertices == o.ao_vertices
        &&& n.is_generated == o.is_generated
    } else {
        n == o
    }
}

fn is_beyond_sight(cx: i32, cy: i32, cz: i32, x: i32, y: i32, z: i32) -> (r: bool)
    ensures
        r == beyond_sight(cx as int, cy as int, cz as int, x as int, y as int, z as int),
{
    let dx = x as i64 - cx as i64;
    let dy = y as i64 - cy as i64;
    let dz = z as i64 - cz as i64;
    dx > 5 || dx < -5 || dy > 5 || dy < -5 || dz > 5 || dz < -5
}

impl ChunkLoading {
    /// Empties the meshes of the loaded chunks beyond the drawing distance
    /// of the chunk (c_x, c_y, c_z).
    pub fn unload_distant_chunks(world: &mut ChunkManager, c_x: i32, c_y: i32, c_z: i32)
        requires
            old(world).wf(),
            16 * old(world).loaded_chunk_columns@.len() <= usize::MAX,
        ensures
            final(world).wf(),
            final(world).column_keys == old(world).column_keys,
            final(world).block_changelist == old(world).block_changelist,
            forall|a: int, b: int, c: int| #[trigger] final(world).block_at(a, b, c) == old(world).block_at(a, b, c),
            final(world).loaded_chunk_columns@.len() == old(world).loaded_chunk_columns@.len(),
            forall|i: int, y: int|
                0 <= i < final(world).column_keys@.len() && 0 <= y < 16 ==> unloaded_if_distant(
                    #[trigger] final(world).loaded_chunk_columns@[i].chunks@[y],
                    old(world).loaded_chunk_columns@[i].chunks@[y],
                    beyond_sight(c_x as int, c_y as int, c_z as int, final(world).column_keys@[i].0 as int, y,
                        final(world).column_keys@[i].1 as int),
                ),
            forall|i: int| 0 <= i < final(world).loaded_chunk_columns@.len() ==> (#[trigger] final(world).loaded_chunk_columns@[i]).heighest_blocks
                == old(world).loaded_chunk_columns@[i].heighest_blocks && final(world).loaded_chunk_columns@[i].has_foliage
                == old(world).loaded_chunk_columns@[i].has_foliage,
    {
        let ghost w0 = *world;
        let total: usize = 16 * world.loaded_chunk_columns.len();
        let mut n: usize = 0;
        while n < total
            invariant
                world.wf(),
                w0 == *old(world),
                total == 16 * world.loaded_chunk_columns@.len(),
                n <= total,
                world.column_keys == old(world).column_keys,
                world.block_changelist == old(world).block_changelist,
                world.loaded_chunk_columns@.len() == w0.loaded_chunk_columns@.len(),
                forall|a: int, b: int, c: int| #[trigger] world.block_at(a, b, c) == old(world).block_at(a, b, c),
                forall|i: int, y: int|
                    0 <= i < world.column_keys@.len() && 0 <= y < 16 ==> unloaded_if_distant(
                        #[trigger] world.loaded_chunk_columns@[i].chunks@[y],
                        w0.loaded_chunk_columns@[i].chunks@[y],
                        16 * i + y < n && beyond_sight(c_x as int, c_y as int, c_z as int, world.column_keys@[i].0 as int, y,
                            world.column_keys@[i].1 as int),
                    ),
                forall|i: int| 0 <= i < world.loaded_chunk_columns@.len() ==> (#[trigger] world.loaded_chunk_columns@[i]).heighest_blocks
                    == w0.loaded_chunk_columns@[i].heighest_blocks && world.loaded_chunk_columns@[i].has_foliage
                    == w0.loaded_chunk_columns@[i].has_foliage,
            decreases total - n,
        {
            let i = n / 16;
            let y = (n % 16) as i32;
            let key = world.column_keys[i];
            let ghost w1 = *world;
            if is_beyond_sight(c_x, c_y, c_z, key.0, y, key.1) {
                world.unload_chunk(key.0, y, key.1);
                proof {
                    w1.lemma_index_unique(i as int, key.0 as int, key.1 as int);
                    world.lemma_index_unique(i as int, key.0 as int, key.1 as int);
                    assert forall|a: int, b: int|
                        0 <= a < world.column_keys@.len() && 0 <= b < 16 implies unloaded_if_distant(
                            #[trigger] world.loaded_chunk_columns@[a].chunks@[b],
                            w0.loaded_chunk_columns@[a].chunks@[b],
                            16 * a + b < n + 1 && beyond_sight(c_x as int, c_y as int, c_z as int, world.column_keys@[a].0 as int, b,
                                world.column_keys@[a].1 as int),
                        ) by {
                        let k = world.column_keys@[a];
                        w1.lemma_index_unique(a, k.0 as int, k.1 as int);
                        world.lemma_index_unique(a, k.0 as int, k.1 as int);
                        assert(world.chunk_spec(k.0 as int, b, k.1 as int) == Some(world.loaded_chunk_columns@[a].chunks@[b]));
                        assert(w1.chunk_spec(k.0 as int, b, k.1 as int) == Some(w1.loaded_chunk_columns@[a].chunks@[b]));
                        if !(a == i && b == y) {
                            if a != i {
                                assert(k != key);
                            }
                            assert(world.chunk_spec(k.0 as int, b, k.1 as int) == w1.chunk_spec(k.0 as int, b, k.1 as int));
                        }
                    }
                    assert forall|a: int| 0 <= a < world.loaded_chunk_columns@.len() implies (#[trigger] world.loaded_chunk_columns@[a]).heighest_blocks
                        == w0.loaded_chunk_columns@[a].heighest_blocks && world.loaded_chunk_columns@[a].has_foliage
                        == w0.loaded_chunk_columns@[a].has_foliage by {
                        let k = world.column_keys@[a];
                        w1.lemma_index_unique(a, k.0 as int, k.1 as int);
                        world.lemma_index_unique(a, k.0 as int, k.1 as int);
                        assert(w1.has_column(k.0 as int, k.1 as int));
                        assert(world.column_spec(k.0 as int, k.1 as int) == world.loaded_chunk_columns@[a]);
                        assert(w1.column_spec(k.0 as int, k.1 as int) == w1.loaded_chunk_columns@[a]);
                    }
                }
            } else {
                proof {
                    assert forall|a: int, b: int|
                        0 <= a < world.column_keys@.len() && 0 <= b < 16 implies unloaded_if_distant(
                            #[trigger] world.loaded_chunk_columns@[a].chunks@[b],
                            w0.loaded_chunk_columns@[a].chunks@[b],
                            16 * a + b < n + 1 && beyond_sight(c_x as int, c_y as int, c_z as int, world.column_keys@[a].0 as int, b,
                                world.column_keys@[a].1 as int),
                        ) by {
                        if a == i && b == y {
                            assert(unloaded_if_distant(world.loaded_chunk_columns@[a].chunks@[b], w0.loaded_chunk_columns@[a].chunks@[b], false));
                        }
                    }
                }
            }
            n += 1;
        }
    }
}

impl ChunkLoading {
    /// The four columns next to (x, z) are loaded, so trees of (x, z) may
    /// spill into them.
    pub fn neighbours_generated(world: &ChunkManager, x: i32, z: i32) -> (r: bool)
        requires
            world.wf(),
            i32::MIN < x < i32::MAX,
            i32::MIN < z < i32::MAX,
        ensures
            r == (world.has_column(x + 1, z as int) && world.has_column(x - 1, z as int) && world.has_column(
                x as int,
                z + 1,
            ) && world.has_column(x as int, z - 1)),
    {
        world.find_column(x + 1, z).is_some() && world.find_column(x - 1, z).is_some()
            && world.find_column(x, z + 1).is_some() && world.find_column(x, z - 1).is_some()
    }

    /// Marks the column at (c_x, c_z) as having its trees and grows one on
    /// the surface of each listed cell (x, z) of it, in list order, at the
    /// height its height map gives. Refuses, changing nothing, unless the
    /// column and its four neighbours are loaded, since trees spill over
    /// column borders.
    pub fn place_foliage(world: &mut ChunkManager, c_x: i32, c_z: i32, trees: &Vec<(u32, u32)>) -> (r: bool)
        requires
            old(world).wf(),
            chunk_in_range(c_x as int),
            chunk_in_range(c_z as int),
        ensures
            final(world).wf(),
            final(world).column_keys == old(world).column_keys,
            final(world).block_changelist == old(world).block_changelist,
            r == (old(world).has_column(c_x as int, c_z as int) && old(world).has_column(c_x + 1, c_z as int)
                && old(world).has_column(c_x - 1, c_z as int) && old(world).has_column(c_x as int, c_z + 1)
                && old(world).has_column(c_x as int, c_z - 1)),
            r ==> final(world).column_spec(c_x as int, c_z as int).has_foliage,
            r ==> forall|a: int, b: int, c: int| #[trigger] final(world).block_at(a, b, c) == foliage_block(
                old(world),
                c_x as int,
                c_z as int,
                old(world).column_spec(c_x as int, c_z as int).heighest_blocks@,
                trees@,
                trees@.len() as int,
                a,
                b,
                c,
            ),
            !r ==> *final(world) == *old(world),
    {
        if !ChunkLoading::neighbours_generated(world, c_x, c_z) {
            return false;
        }
        let ci = match world.find_column(c_x, c_z) {
            Some(ci) => ci,
            None => return false,
        };
        let ghost w0 = *world;
        let ghost hs = w0.column_spec(c_x as int, c_z as int).heighest_blocks@;
        world.loaded_chunk_columns[ci].has_foliage = true;
        proof {
            assert forall|a: int|
                0 <= a < world.loaded_chunk_columns@.len() implies (#[trigger] world.loaded_chunk_columns@[a]).wf() by {
                if a != ci {
                    assert(world.loaded_chunk_columns@[a] == w0.loaded_chunk_columns@[a]);
                }
            }
            assert forall|a: int, c: int|
                0 <= a < w0.loaded_chunk_columns@.len() && 0 <= c < 16 implies #[trigger] world.blocks_of(a, c) == w0.blocks_of(a, c) by {}
            ChunkManager::lemma_same_blocks(&w0, world);
            world.lemma_index_unique(ci as int, c_x as int, c_z as int);
            w0.lemma_index_unique(ci as int, c_x as int, c_z as int);
        }
        let mut k: usize = 0;
        while k < trees.len()
            invariant
                w0 == *old(world),
                world.wf(),
                world.column_keys == old(world).column_keys,
                world.block_changelist == old(world).block_changelist,
                ci < world.loaded_chunk_columns@.len(),
                world.key_at(ci as int, c_x as int, c_z as int),
                world.loaded_chunk_columns@[ci as int].has_foliage,
                world.loaded_chunk_columns@[ci as int].heighest_blocks@ == hs,
                hs == w0.column_spec(c_x as int, c_z as int).heighest_blocks@,
                chunk_in_range(c_x as int),
                chunk_in_range(c_z as int),
                k <= trees@.len(),
                forall|a: int, b: int, c: int| #[trigger] world.block_at(a, b, c) == foliage_block(&w0, c_x as int, c_z as int, hs, trees@, k as int, a, b, c),
            decreases trees@.len() - k,
        {
            let (tx, tz) = trees[k];
            let ghost w1 = *world;
            proof {
                assert forall|a: int, b: int, c: int| #[trigger] w1.block_at(a, b, c).is_some() == w0.block_at(a, b, c).is_some() by {
                    lemma_foliage_loaded(&w0, c_x as int, c_z as int, hs, trees@, k as int, a, b, c);
                }
            }
            if tx < 16 && tz < 16 {
                let ground = world.loaded_chunk_columns[ci].heighest_blocks[(16 * tz + tx) as usize];
                if ground <= 2147483641 {
                    place_tree(world, 16 * c_x + tx as i32, ground as i32, 16 * c_z + tz as i32);
                    proof {
                        assert(world.loaded_chunk_columns@[ci as int].heighest_blocks == w1.loaded_chunk_columns@[ci as int].heighest_blocks);
                        assert(world.key_at(ci as int, c_x as int, c_z as int));
                    }
                }
            }
            k += 1;
        }
        proof {
            world.lemma_index_unique(ci as int, c_x as int, c_z as int);
        }
        true
    }
}

} // verus!
