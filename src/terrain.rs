use vstd::prelude::*;

use crate::block::BlockID;
use crate::chunk::ChunkColumn;
use crate::chunk_manager::ChunkManager;

verus! {

/// Trunk height of a tree.
pub const TREE_HEIGHT: i32 = 5;

/// The block at height `y` of a cell whose surface is at height `h`: bedrock
/// at the floor, grass on top, three layers of dirt beneath it, stone
/// below, air above.
pub open spec fn terrain_block(h: int, y: int) -> BlockID {
    if y < 3 {
        BlockID::Bedrock
    } else if y > h {
        BlockID::Air
    } else if y == h {
        BlockID::GrassBlock
    } else if y + 3 >= h {
        BlockID::Dirt
    } else {
        BlockID::Stone
    }
}

pub fn terrain_block_of(h: u32, y: u32) -> (r: BlockID)
    requires
        h < 256,
        y < 256,
    ensures
        r == terrain_block(h as int, y as int),
{
    if y < 3 {
        BlockID::Bedrock
    } else if y > h {
        BlockID::Air
    } else if y == h {
        BlockID::GrassBlock
    } else if y + 3 >= h {
        BlockID::Dirt
    } else {
        BlockID::Stone
    }
}

/// Fills a fresh column from a height field: `heights[16 * z + x]` is the
/// surface height of cell (x, z). Records the heights in the column's
/// height map.
pub fn generate_terrain(column: &mut ChunkColumn, heights: &Vec<u32>)
    requires
        old(column).is_fresh(),
        heights@.len() == 256,
        forall|i: int| 0 <= i < 256 ==> #[trigger] heights@[i] < 256,
    ensures
        final(column).wf(),
        final(column).heighest_blocks@ == heights@,
        final(column).has_foliage == old(column).has_foliage,
        forall|x: int, y: int, z: int|
            0 <= x < 16 && 0 <= y < 256 && 0 <= z < 16 ==> #[trigger] final(column).block_spec(x, y, z)
                == terrain_block(heights@[16 * z + x] as int, y),
{
    proof {
        assert forall|x: int, y: int, z: int|
            0 <= x < 16 && 0 <= y < 256 && 0 <= z < 16 implies #[trigger] column.block_spec(x, y, z)
                == BlockID::Air by {
            crate::coords::lemma_block_index(x, y % 16, z);
            assert(column.chunks@[y / 16].is_fresh());
        }
    }
    let mut c: usize = 0;
    while c < 256
        invariant
            c <= 256,
            column.wf(),
            column.has_foliage == old(column).has_foliage,
            heights@.len() == 256,
            forall|i: int| 0 <= i < 256 ==> #[trigger] heights@[i] < 256,
            column.heighest_blocks@.len() == 256,
            forall|i: int| 0 <= i < c ==> #[trigger] column.heighest_blocks@[i] == heights@[i],
            forall|x: int, y: int, z: int|
                0 <= x < 16 && 0 <= y < 256 && 0 <= z < 16 ==> #[trigger] column.block_spec(x, y, z)
                    == if 16 * z + x < c {
                    terrain_block(heights@[16 * z + x] as int, y)
                } else {
                    BlockID::Air
                },
        decreases 256 - c,
    {
        let x: u32 = (c % 16) as u32;
        let z: u32 = (c / 16) as u32;
        let h = heights[c];
        let mut y: u32 = 0;
        while y < 256
            invariant
                c < 256,
                x as int == c % 16,
                z as int == c / 16,
                h == heights@[c as int],
                h < 256,
                y <= 256,
                column.wf(),
                column.has_foliage == old(column).has_foliage,
                heights@.len() == 256,
                column.heighest_blocks@.len() == 256,
                forall|i: int| 0 <= i < c ==> #[trigger] column.heighest_blocks@[i] == heights@[i],
                forall|a: int, b: int, d: int|
                    0 <= a < 16 && 0 <= b < 256 && 0 <= d < 16 ==> #[trigger] column.block_spec(a, b, d)
                        == if 16 * d + a < c || (16 * d + a == c && b < y) {
                        terrain_block(heights@[16 * d + a] as int, b)
                    } else {
                        BlockID::Air
                    },
            decreases 256 - y,
        {
            let b = terrain_block_of(h, y);
            if !b.is_air() {
                column.set_block(b, x, y, z);
            }
            y += 1;
        }
        let ghost before = *column;
        column.heighest_blocks.set(c, h);
        proof {
            assert(column.chunks == before.chunks);
            assert forall|a: int, b: int, d: int|
                0 <= a < 16 && 0 <= b < 256 && 0 <= d < 16 implies #[trigger] column.block_spec(a, b, d)
                    == if 16 * d + a < c + 1 {
                    terrain_block(heights@[16 * d + a] as int, b)
                } else {
                    BlockID::Air
                } by {
                assert(column.block_spec(a, b, d) == before.block_spec(a, b, d));
            }
        }
        c += 1;
    }
    assert(column.heighest_blocks@ =~= heights@);
}

/// Sample `(i, j)` of an 18 x 18 grid stored row by row.
pub open spec fn sample_at(s: Seq<i64>, i: int, j: int) -> i64 {
    s[18 * i + j]
}

/// Grid cell (i, j) is a strict local maximum: all eight neighbours are lower.
pub open spec fn is_local_max(s: Seq<i64>, i: int, j: int) -> bool {
    forall|di: int, dj: int|
        -1 <= di <= 1 && -1 <= dj <= 1 && !(di == 0 && dj == 0) ==> #[trigger] sample_at(s, i + di, j + dj)
            < sample_at(s, i, j)
}

/// Tree positions (x, z) among the first `n` cells of a chunk, row by row:
/// cell (x, z) looks at grid cell (z + 1, x + 1).
pub open spec fn maxima_upto(s: Seq<i64>, n: int) -> Seq<(u32, u32)>
    decreases n,
{
    if n <= 0 {
        Seq::empty()
    } else {
        let x = (n - 1) % 16;
        let z = (n - 1) / 16;
        maxima_upto(s, n - 1) + if is_local_max(s, z + 1, x + 1) {
            seq![(x as u32, z as u32)]
        } else {
            Seq::empty()
        }
    }
}

/// Where trees stand in a chunk: the cells whose sample of the second noise
/// field is higher than its eight neighbours. `samples` holds that field on
/// the chunk's 16 x 16 cells and a one-cell border, 18 x 18 values row by
/// row (row z + 1, column x + 1 for cell (x, z)).
pub fn compute_tree_placement_in_chunk(samples: &Vec<i64>) -> (r: Vec<(u32, u32)>)
    requires
        samples@.len() == 324,
    ensures
        r@ == maxima_upto(samples@, 256),
{
    let mut maximums: Vec<(u32, u32)> = Vec::new();
    let mut n: usize = 0;
    while n < 256
        invariant
            n <= 256,
            samples@.len() == 324,
            maximums@ == maxima_upto(samples@, n as int),
        decreases 256 - n,
    {
        let x: usize = n % 16;
        let z: usize = n / 16;
        let i = z + 1;
        let j = x + 1;
        let center = samples[18 * i + j];
        let mut is_max = true;
        let mut k: usize = 0;
        while k < 9
            invariant
                1 <= i <= 16,
                1 <= j <= 16,
                k <= 9,
                samples@.len() == 324,
                center == sample_at(samples@, i as int, j as int),
                is_max == forall|di: int, dj: int|
                    -1 <= di <= 1 && -1 <= dj <= 1 && !(di == 0 && dj == 0) && 3 * (di + 1) + (dj + 1) < k
                        ==> #[trigger] sample_at(samples@, i + di, j + dj) < center,
            decreases 9 - k,
        {
            let ni = i + k / 3 - 1;
            let nj = j + k % 3 - 1;
            let ok = k == 4 || samples[18 * ni + nj] < center;
            proof {
                let di0 = (k / 3) as int - 1;
                let dj0 = (k % 3) as int - 1;
                vstd::arithmetic::div_mod::lemma_fundamental_div_mod(k as int, 3);
                assert(3 * (di0 + 1) + (dj0 + 1) == k);
                assert(ni == i + di0 && nj == j + dj0);
                let old_all = forall|di: int, dj: int|
                    -1 <= di <= 1 && -1 <= dj <= 1 && !(di == 0 && dj == 0) && 3 * (di + 1) + (dj + 1) < k
                        ==> #[trigger] sample_at(samples@, i + di, j + dj) < center;
                let new_all = forall|di: int, dj: int|
                    -1 <= di <= 1 && -1 <= dj <= 1 && !(di == 0 && dj == 0) && 3 * (di + 1) + (dj + 1) < k + 1
                        ==> #[trigger] sample_at(samples@, i + di, j + dj) < center;
                if old_all && ok {
                    assert forall|di: int, dj: int|
                        -1 <= di <= 1 && -1 <= dj <= 1 && !(di == 0 && dj == 0) && 3 * (di + 1) + (dj + 1) < k + 1
                            implies #[trigger] sample_at(samples@, i + di, j + dj) < center by {
                        if 3 * (di + 1) + (dj + 1) == k {
                            assert(di == di0 && dj == dj0);
                        }
                    }
                }
                if new_all {
                    if k != 4 {
                        assert(sample_at(samples@, i + di0, j + dj0) < center);
                    }
                }
                assert(new_all == (old_all && ok));
            }
            is_max = is_max && ok;
            k += 1;
        }
        if is_max {
            maximums.push((x as u32, z as u32));
        }
        proof {
            assert(maximums@ =~= maxima_upto(samples@, n as int + 1));
        }
        n += 1;
    }
    maximums
}

/// The block that a tree rooted on the ground block (x, y, z) puts at
/// (a, b, c), if any: a trunk five blocks high, two wide layers of leaves
/// round its upper part, a narrower layer at its top and a cross above.
pub open spec fn tree_kind(x: int, y: int, z: int, a: int, b: int, c: int) -> Option<BlockID> {
    let dx = a - x;
    let dy = b - y;
    let dz = c - z;
    if dx == 0 && dz == 0 && 1 <= dy <= 5 {
        Some(BlockID::OakLog)
    } else if (dy == 3 || dy == 4) && -2 <= dx <= 2 && -2 <= dz <= 2 {
        Some(BlockID::OakLeaves)
    } else if dy == 5 && -1 <= dx <= 1 && -1 <= dz <= 1 {
        Some(BlockID::OakLeaves)
    } else if dy == 6 && ((dx == 0 && -1 <= dz <= 1) || (dz == 0 && -1 <= dx <= 1)) {
        Some(BlockID::OakLeaves)
    } else {
        None
    }
}

fn tree_kind_at(dx: i32, dy: i32, dz: i32) -> (r: Option<BlockID>)
    ensures
        r == tree_kind(0, 0, 0, dx as int, dy as int, dz as int),
{
    if dx == 0 && dz == 0 && 1 <= dy && dy <= 5 {
        Some(BlockID::OakLog)
    } else if (dy == 3 || dy == 4) && -2 <= dx && dx <= 2 && -2 <= dz && dz <= 2 {
        Some(BlockID::OakLeaves)
    } else if dy == 5 && -1 <= dx && dx <= 1 && -1 <= dz && dz <= 1 {
        Some(BlockID::OakLeaves)
    } else if dy == 6 && ((dx == 0 && -1 <= dz && dz <= 1) || (dz == 0 && -1 <= dx && dx <= 1)) {
        Some(BlockID::OakLeaves)
    } else {
        None
    }
}

/// Position in the tree's bounding box (x and z from -2 to 2, y from 1 to 6)
/// of an offset.
pub open spec fn box_index(dx: int, dy: int, dz: int) -> int {
    25 * (dy - 1) + 5 * (dx + 2) + (dz + 2)
}

pub open spec fn in_box(dx: int, dy: int, dz: int) -> bool {
    -2 <= dx <= 2 && 1 <= dy <= 6 && -2 <= dz <= 2
}

/// Grows a tree on the ground block (x, y, z). Blocks that fall in chunks
/// that are not loaded are dropped.
pub fn place_tree(world: &mut ChunkManager, x: i32, y: i32, z: i32)
    requires
        old(world).wf(),
        i32::MIN + 2 <= x <= i32::MAX - 2,
        y <= i32::MAX - 6,
        i32::MIN + 2 <= z <= i32::MAX - 2,
    ensures
        final(world).wf(),
        final(world).column_keys == old(world).column_keys,
        final(world).block_changelist == old(world).block_changelist,
        final(world).derived_same(old(world)),
        forall|a: int, b: int, c: int| #[trigger] final(world).block_at(a, b, c) == match tree_kind(
            x as int,
            y as int,
            z as int,
            a,
            b,
            c,
        ) {
            Some(k) => if old(world).block_at(a, b, c).is_some() {
                Some(k)
            } else {
                None
            },
            None => old(world).block_at(a, b, c),
        },
{
    let ghost w0 = *world;
    let mut n: i32 = 0;
    while n < 150
        invariant
            0 <= n <= 150,
            i32::MIN + 2 <= x <= i32::MAX - 2,
            y <= i32::MAX - 6,
            i32::MIN + 2 <= z <= i32::MAX - 2,
            w0.wf(),
            world.wf(),
            world.column_keys == w0.column_keys,
            world.block_changelist == w0.block_changelist,
            world.derived_same(&w0),
            forall|a: int, b: int, c: int| #[trigger] world.block_at(a, b, c) == if in_box(a - x, b - y, c - z)
                && box_index(a - x, b - y, c - z) < n && tree_kind(x as int, y as int, z as int, a, b, c).is_some() {
                if w0.block_at(a, b, c).is_some() {
                    tree_kind(x as int, y as int, z as int, a, b, c)
                } else {
                    None
                }
            } else {
                w0.block_at(a, b, c)
            },
        decreases 150 - n,
    {
        let dy = n / 25 + 1;
        let dx = (n / 5) % 5 - 2;
        let dz = n % 5 - 2;
        proof {
            assert(box_index(dx as int, dy as int, dz as int) == n);
            assert(in_box(dx as int, dy as int, dz as int));
        }
        let ghost w1 = *world;
        match tree_kind_at(dx, dy, dz) {
            Some(k) => {
                world.set_block(k, x + dx, y + dy, z + dz);
                proof {
                    assert forall|a: int, b: int, c: int| #[trigger] world.block_at(a, b, c) == if in_box(a - x, b - y, c - z)
                        && box_index(a - x, b - y, c - z) < n + 1 && tree_kind(x as int, y as int, z as int, a, b, c).is_some() {
                        if w0.block_at(a, b, c).is_some() {
                            tree_kind(x as int, y as int, z as int, a, b, c)
                        } else {
                            None
                        }
                    } else {
                        w0.block_at(a, b, c)
                    } by {
                        if !(a == x + dx && b == y + dy && c == z + dz) {
                            assert(world.block_at(a, b, c) == w1.block_at(a, b, c));
                            if in_box(a - x, b - y, c - z) && box_index(a - x, b - y, c - z) == n {
                                assert(a - x == dx && b - y == dy && c - z == dz);
                            }
                        }
                    }
                }
            },
            None => {
                proof {
                    assert forall|a: int, b: int, c: int| #[trigger] world.block_at(a, b, c) == if in_box(a - x, b - y, c - z)
                        && box_index(a - x, b - y, c - z) < n + 1 && tree_kind(x as int, y as int, z as int, a, b, c).is_some() {
                        if w0.block_at(a, b, c).is_some() {
                            tree_kind(x as int, y as int, z as int, a, b, c)
                        } else {
                            None
                        }
                    } else {
                        w0.block_at(a, b, c)
                    } by {
                        if in_box(a - x, b - y, c - z) && box_index(a - x, b - y, c - z) == n {
                            assert(a - x == dx && b - y == dy && c - z == dz);
                        }
                    }
                }
            },
        }
        n += 1;
    }
    proof {
        assert forall|a: int, b: int, c: int| tree_kind(x as int, y as int, z as int, a, b, c).is_some() implies
            in_box(a - x, b - y, c - z) && box_index(a - x, b - y, c - z) < 150 by {}
    }
}

} // verus!
