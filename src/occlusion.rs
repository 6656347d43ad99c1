use vstd::prelude::*;

verus! {

// Faces are numbered +X, -X, +Y, -Y, +Z, -Z (right, left, top, bottom,
// front, back). A neighbourhood is the 3 x 3 x 3 cube around a block, the
// offset (dx, dy, dz) stored at `9 * (dx + 1) + 3 * (dy + 1) + (dz + 1)`.

/// The unit normal of face `f`.
pub open spec fn normal(f: int) -> (int, int, int) {
    if f == 0 {
        (1, 0, 0)
    } else if f == 1 {
        (-1, 0, 0)
    } else if f == 2 {
        (0, 1, 0)
    } else if f == 3 {
        (0, -1, 0)
    } else if f == 4 {
        (0, 0, 1)
    } else {
        (0, 0, -1)
    }
}

/// Corner `c` of face `f` on the unit cube, in the order the mesh walks it.
pub open spec fn corner_pos(f: int, c: int) -> (int, int, int) {
    if f == 0 {
        if c == 0 { (1, 0, 1) } else if c == 1 { (1, 0, 0) } else if c == 2 { (1, 1, 0) } else { (1, 1, 1) }
    } else if f == 1 {
        if c == 0 { (0, 0, 0) } else if c == 1 { (0, 0, 1) } else if c == 2 { (0, 1, 1) } else { (0, 1, 0) }
    } else if f == 2 {
        if c == 0 { (0, 1, 1) } else if c == 1 { (1, 1, 1) } else if c == 2 { (1, 1, 0) } else { (0, 1, 0) }
    } else if f == 3 {
        if c == 0 { (0, 0, 0) } else if c == 1 { (1, 0, 0) } else if c == 2 { (1, 0, 1) } else { (0, 0, 1) }
    } else if f == 4 {
        if c == 0 { (0, 0, 1) } else if c == 1 { (1, 0, 1) } else if c == 2 { (1, 1, 1) } else { (0, 1, 1) }
    } else {
        if c == 0 { (1, 0, 0) } else if c == 1 { (0, 0, 0) } else if c == 2 { (0, 1, 0) } else { (1, 1, 0) }
    }
}

/// The neighbour offset that the corner of a face points to: each corner
/// coordinate 0 becomes -1 and 1 stays 1.
pub open spec fn corner_dir(f: int, c: int) -> (int, int, int) {
    let p = corner_pos(f, c);
    (2 * p.0 - 1, 2 * p.1 - 1, 2 * p.2 - 1)
}

/// The three neighbours that shade corner `c` of face `f`: the two edge
/// neighbours (k = 0, 1) and the diagonal one (k = 2), all in the layer
/// that the face looks into.
pub open spec fn ao_offset(f: int, c: int, k: int) -> (int, int, int) {
    let d = corner_dir(f, c);
    if f < 2 {
        if k == 0 { (d.0, d.1, 0) } else if k == 1 { (d.0, 0, d.2) } else { d }
    } else if f < 4 {
        if k == 0 { (d.0, d.1, 0) } else if k == 1 { (0, d.1, d.2) } else { d }
    } else {
        if k == 0 { (d.0, 0, d.2) } else if k == 1 { (0, d.1, d.2) } else { d }
    }
}

pub open spec fn offset_index(d: (int, int, int)) -> int {
    9 * (d.0 + 1) + 3 * (d.1 + 1) + (d.2 + 1)
}

pub open spec fn offset_of_index(j: int) -> (int, int, int) {
    (j / 9 - 1, (j / 3) % 3 - 1, j % 3 - 1)
}

pub open spec fn bit(b: bool) -> int {
    if b { 1 } else { 0 }
}

/// How many of the three neighbours of a corner occlude: 0 to 3.
pub open spec fn ao_weight(occ: Seq<bool>, f: int, c: int) -> int {
    bit(occ[offset_index(ao_offset(f, c, 0))]) + bit(occ[offset_index(ao_offset(f, c, 1))]) + bit(
        occ[offset_index(ao_offset(f, c, 2))],
    )
}

/// The 24 weights of a block, corner `c` of face `f` at `4 * f + c`.
pub open spec fn ao_block(occ: Seq<bool>) -> Seq<u8> {
    Seq::new(24, |j: int| ao_weight(occ, j / 4, j % 4) as u8)
}

pub fn face_normal(f: usize) -> (r: (i32, i32, i32))
    requires
        f < 6,
    ensures
        r.0 as int == normal(f as int).0,
        r.1 as int == normal(f as int).1,
        r.2 as int == normal(f as int).2,
{
    if f == 0 {
        (1, 0, 0)
    } else if f == 1 {
        (-1, 0, 0)
    } else if f == 2 {
        (0, 1, 0)
    } else if f == 3 {
        (0, -1, 0)
    } else if f == 4 {
        (0, 0, 1)
    } else {
        (0, 0, -1)
    }
}

pub fn face_corner(f: usize, c: usize) -> (r: (u32, u32, u32))
    requires
        f < 6,
        c < 4,
    ensures
        r.0 as int == corner_pos(f as int, c as int).0,
        r.1 as int == corner_pos(f as int, c as int).1,
        r.2 as int == corner_pos(f as int, c as int).2,
        r.0 < 2 && r.1 < 2 && r.2 < 2,
{
    if f == 0 {
        if c == 0 { (1, 0, 1) } else if c == 1 { (1, 0, 0) } else if c == 2 { (1, 1, 0) } else { (1, 1, 1) }
    } else if f == 1 {
        if c == 0 { (0, 0, 0) } else if c == 1 { (0, 0, 1) } else if c == 2 { (0, 1, 1) } else { (0, 1, 0) }
    } else if f == 2 {
        if c == 0 { (0, 1, 1) } else if c == 1 { (1, 1, 1) } else if c == 2 { (1, 1, 0) } else { (0, 1, 0) }
    } else if f == 3 {
        if c == 0 { (0, 0, 0) } else if c == 1 { (1, 0, 0) } else if c == 2 { (1, 0, 1) } else { (0, 0, 1) }
    } else if f == 4 {
        if c == 0 { (0, 0, 1) } else if c == 1 { (1, 0, 1) } else if c == 2 { (1, 1, 1) } else { (0, 1, 1) }
    } else {
        if c == 0 { (1, 0, 0) } else if c == 1 { (0, 0, 0) } else if c == 2 { (0, 1, 0) } else { (1, 1, 0) }
    }
}

/// Index in a neighbourhood of the k-th shading neighbour of a corner.
fn ao_neighbour(f: usize, c: usize, k: usize) -> (r: usize)
    requires
        f < 6,
        c < 4,
        k < 3,
    ensures
        r as int == offset_index(ao_offset(f as int, c as int, k as int)),
        r < 27,
{
    let p = face_corner(f, c);
    // each coordinate of the direction, shifted by one: 0 or 2
    let dx: usize = 2 * p.0 as usize;
    let dy: usize = 2 * p.1 as usize;
    let dz: usize = 2 * p.2 as usize;
    if f < 2 {
        if k == 0 { 9 * dx + 3 * dy + 1 } else if k == 1 { 9 * dx + 3 + dz } else { 9 * dx + 3 * dy + dz }
    } else if f < 4 {
        if k == 0 { 9 * dx + 3 * dy + 1 } else if k == 1 { 9 + 3 * dy + dz } else { 9 * dx + 3 * dy + dz }
    } else {
        if k == 0 { 9 * dx + 3 + dz } else if k == 1 { 9 + 3 * dy + dz } else { 9 * dx + 3 * dy + dz }
    }
}

/// Ambient occlusion weights of a block from the occupancy of its
/// neighbourhood (`true` where a neighbour occludes).
pub fn compute_ao_of_block(occ: &Vec<bool>) -> (r: Vec<u8>)
    requires
        occ@.len() == 27,
    ensures
        r@ == ao_block(occ@),
{
    let mut out: Vec<u8> = Vec::new();
    let mut f: usize = 0;
    while f < 6
        invariant
            f <= 6,
            occ@.len() == 27,
            out@.len() == 4 * f,
            forall|j: int| 0 <= j < 4 * f ==> #[trigger] out@[j] == ao_weight(occ@, j / 4, j % 4) as u8,
        decreases 6 - f,
    {
        let mut c: usize = 0;
        while c < 4
            invariant
                f < 6,
                c <= 4,
                occ@.len() == 27,
                out@.len() == 4 * f + c,
                forall|j: int|
                    0 <= j < 4 * f + c ==> #[trigger] out@[j] == ao_weight(occ@, j / 4, j % 4) as u8,
            decreases 4 - c,
        {
            let a = ao_neighbour(f, c, 0);
            let b = ao_neighbour(f, c, 1);
            let d = ao_neighbour(f, c, 2);
            let w: u8 = (if occ[a] { 1u8 } else { 0u8 }) + (if occ[b] { 1u8 } else { 0u8 }) + (if occ[d] {
                1u8
            } else {
                0u8
            });
            proof {
                let j = 4 * f + c;
                assert(j / 4 == f as int && j % 4 == c as int) by (nonlinear_arith)
                    requires j == 4 * f + c, c < 4;
            }
            out.push(w);
            c += 1;
        }
        f += 1;
    }
    assert(out@ =~= ao_block(occ@));
    out
}

} // verus!
