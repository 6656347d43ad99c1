use voxel_world::block::{block_from_sample, get_uv_of_every_face, BlockFaces, BlockID};
use voxel_world::coords::{chunk_coord, coords_of_index, index_of, local_coord};
use voxel_world::chunk_manager::ChunkManager;

#[test]
fn block_predicates() {
    assert!(BlockID::Air.is_air());
    assert!(!BlockID::Stone.is_air());
    assert!(BlockID::Air.is_transparent());
    assert!(BlockID::OakLeaves.is_transparent());
    assert!(BlockID::Glass.is_transparent());
    assert!(!BlockID::Dirt.is_transparent());
    assert!(BlockID::Stone.is_opaque());
    assert!(!BlockID::Glass.is_opaque());
    assert!(BlockID::OakLeaves.is_transparent_not_air());
    assert!(!BlockID::Air.is_transparent_not_air());
    assert!(BlockID::Glass.is_transparent_no_leaves());
    assert!(BlockID::Air.is_transparent_no_leaves());
    assert!(!BlockID::OakLeaves.is_transparent_no_leaves());
}

#[test]
fn uv_of_every_face_variants() {
    assert_eq!(get_uv_of_every_face(BlockFaces::All(4)), (4, 4, 4, 4, 4, 4));
    assert_eq!(
        get_uv_of_every_face(BlockFaces::Sides { sides: 1, top: 2, bottom: 3 }),
        (1, 1, 2, 3, 1, 1)
    );
    assert_eq!(
        get_uv_of_every_face(BlockFaces::Each { top: 1, bottom: 2, front: 3, back: 4, left: 5, right: 6 }),
        (3, 4, 1, 2, 5, 6)
    );
}

#[test]
fn samples_map_to_opaque_blocks() {
    assert_eq!(block_from_sample(1), BlockID::Dirt);
    assert_eq!(block_from_sample(2), BlockID::Cobblestone);
    assert_eq!(block_from_sample(3), BlockID::Obsidian);
    assert_eq!(block_from_sample(0), BlockID::Air);
    assert_eq!(block_from_sample(5), BlockID::Air);
}

#[test]
fn chunk_coords_of_negative_values() {
    assert_eq!(ChunkManager::get_chunk_coords(-1, -16, -17), (-1, -1, -2, 15, 0, 15));
    assert_eq!(ChunkManager::get_chunk_coords(0, 15, 16), (0, 0, 1, 0, 15, 0));
    assert_eq!(chunk_coord(i32::MIN), -134217728);
    assert_eq!(local_coord(i32::MIN), 0);
    assert_eq!(chunk_coord(i32::MAX), 134217727);
    assert_eq!(local_coord(i32::MAX), 15);
}

#[test]
fn coordinate_round_trip() {
    let mut v: i32 = -5000;
    while v <= 5000 {
        let (cx, cy, cz, bx, by, bz) = ChunkManager::get_chunk_coords(v, -v, v / 3);
        assert!(bx < 16 && by < 16 && bz < 16);
        assert_eq!(ChunkManager::get_global_coords((cx, cy, cz, bx, by, bz)), (v, -v, v / 3));
        v += 7;
    }
    for &v in &[i32::MIN, i32::MIN + 1, -1_000_000_007, 1_000_000_007, i32::MAX] {
        let c = ChunkManager::get_chunk_coords(v, v, v);
        assert_eq!(ChunkManager::get_global_coords(c), (v, v, v));
    }
}

#[test]
fn block_index_layout() {
    assert_eq!(index_of(1, 0, 0), 1);
    assert_eq!(index_of(0, 0, 1), 16);
    assert_eq!(index_of(0, 1, 0), 256);
    assert_eq!(index_of(15, 15, 15), 4095);
    assert_eq!(coords_of_index(256 + 32 + 3), (3, 1, 2));
}
