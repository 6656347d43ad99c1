use vstd::prelude::*;

verus! {

/// Side length of a chunk, in blocks.
pub const CHUNK_SIZE: u32 = 16;

/// Number of blocks in a chunk.
pub const CHUNK_VOLUME: u32 = 4096;

/// Number of chunks stacked in a column.
pub const WORLD_HEIGHT_IN_CHUNKS: i32 = 16;

/// The chunk that holds world coordinate `v` along one axis: floor division.
pub open spec fn chunk_of(v: int) -> int {
    v / 16
}

/// The position of world coordinate `v` inside its chunk: Euclidean remainder.
pub open spec fn local_of(v: int) -> int {
    v % 16
}

/// The world coordinate of local coordinate `l` in chunk `c`.
pub open spec fn world_of(c: int, l: int) -> int {
    16 * c + l
}

/// Row-major position of a block in a chunk's arrays.
pub open spec fn block_index(x: int, y: int, z: int) -> int {
    y * 256 + z * 16 + x
}

pub open spec fn index_x(i: int) -> int {
    i % 16
}

pub open spec fn index_z(i: int) -> int {
    (i / 16) % 16
}

pub open spec fn index_y(i: int) -> int {
    i / 256
}

pub proof fn lemma_block_index(x: int, y: int, z: int)
    requires
        0 <= x < 16,
        0 <= y < 16,
        0 <= z < 16,
    ensures
        0 <= block_index(x, y, z) < 4096,
        index_x(block_index(x, y, z)) == x,
        index_y(block_index(x, y, z)) == y,
        index_z(block_index(x, y, z)) == z,
{
    let i = block_index(x, y, z);
    assert(y * 256 + z * 16 + x == (y * 16 + z) * 16 + x) by (nonlinear_arith);
    assert(0 <= y * 16 + z < 256) by (nonlinear_arith)
        requires 0 <= y < 16, 0 <= z < 16;
    vstd::arithmetic::div_mod::lemma_fundamental_div_mod_converse(i, 16, y * 16 + z, x);
    vstd::arithmetic::div_mod::lemma_fundamental_div_mod_converse(y * 16 + z, 16, y, z);
    assert(i == y * 256 + (z * 16 + x));
    vstd::arithmetic::div_mod::lemma_fundamental_div_mod_converse(i, 256, y, z * 16 + x);
}

pub proof fn lemma_index_decompose(i: int)
    requires
        0 <= i < 4096,
    ensures
        0 <= index_x(i) < 16,
        0 <= index_y(i) < 16,
        0 <= index_z(i) < 16,
        block_index(index_x(i), index_y(i), index_z(i)) == i,
{
    let q = i / 16;
    vstd::arithmetic::div_mod::lemma_fundamental_div_mod(i, 16);
    vstd::arithmetic::div_mod::lemma_fundamental_div_mod(q, 16);
    vstd::arithmetic::div_mod::lemma_div_denominator(i, 16, 16);
    assert(i / 256 == q / 16);
    assert(0 <= q < 256) by {
        vstd::arithmetic::div_mod::lemma_div_pos_is_pos(i, 16);
        vstd::arithmetic::div_mod::lemma_div_is_ordered(i, 4095, 16);
    }
    assert(0 <= q / 16 < 16) by {
        vstd::arithmetic::div_mod::lemma_div_pos_is_pos(q, 16);
        vstd::arithmetic::div_mod::lemma_div_is_ordered(q, 255, 16);
    }
}

/// Floor division of a world coordinate by the chunk size.
pub fn chunk_coord(v: i32) -> (r: i32)
    ensures
        r as int == chunk_of(v as int),
{
    if v < 0 {
        let m: i32 = -(v + 1);
        let q: u32 = (m as u32) / 16;
        proof {
            let mi = m as int;
            vstd::arithmetic::div_mod::lemma_fundamental_div_mod(mi, 16);
            let r = mi % 16;
            assert(v as int == 16 * (-(mi / 16) - 1) + (15 - r));
            vstd::arithmetic::div_mod::lemma_fundamental_div_mod_converse(
                v as int,
                16,
                -(mi / 16) - 1,
                15 - r,
            );
        }
        -(q as i32) - 1
    } else {
        ((v as u32) / 16) as i32
    }
}

/// Euclidean remainder of a world coordinate by the chunk size.
pub fn local_coord(v: i32) -> (r: u32)
    ensures
        r as int == local_of(v as int),
        r < 16,
{
    let c = chunk_coord(v);
    proof {
        vstd::arithmetic::div_mod::lemma_fundamental_div_mod(v as int, 16);
    }
    (v - 16 * c) as u32
}

pub fn index_of(x: u32, y: u32, z: u32) -> (r: usize)
    requires
        x < 16,
        y < 16,
        z < 16,
    ensures
        r as int == block_index(x as int, y as int, z as int),
        r < 4096,
{
    proof {
        lemma_block_index(x as int, y as int, z as int);
    }
    (y * 256 + z * 16 + x) as usize
}

pub fn coords_of_index(i: usize) -> (r: (u32, u32, u32))
    requires
        i < 4096,
    ensures
        r.0 as int == index_x(i as int),
        r.1 as int == index_y(i as int),
        r.2 as int == index_z(i as int),
        r.0 < 16 && r.1 < 16 && r.2 < 16,
        block_index(r.0 as int, r.1 as int, r.2 as int) == i,
{
    proof {
        lemma_index_decompose(i as int);
    }
    let j = i as u32;
    (j % 16, j / 256, (j / 16) % 16)
}

} // verus!
