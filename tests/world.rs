use voxel_world::block::{BlockFaces, BlockID};
use voxel_world::chunk::ChunkColumn;
use voxel_world::chunk_manager::{neighbourhood_in_chunk, ChunkManager};
use voxel_world::mesh::TexturePack;
use voxel_world::occlusion::compute_ao_of_block;

fn world_with(columns: &[(i32, i32)]) -> ChunkManager {
    let mut w = ChunkManager::new();
    for &xz in columns {
        w.add_chunk_column(xz, ChunkColumn::new());
    }
    w
}

fn full_pack() -> TexturePack {
    let mut p = TexturePack::new();
    let kinds = [
        BlockID::Dirt, BlockID::GrassBlock, BlockID::Stone, BlockID::Cobblestone, BlockID::Bedrock,
        BlockID::Obsidian, BlockID::OakLog, BlockID::OakLeaves, BlockID::OakPlanks, BlockID::Glass,
    ];
    for (i, k) in kinds.iter().enumerate() {
        p.insert(*k, BlockFaces::All(i as u32));
    }
    p
}

#[test]
fn queries_outside_the_loaded_world_are_none() {
    let mut w = world_with(&[(0, 0)]);
    assert_eq!(w.get_block(0, 0, 0), Some(BlockID::Air));
    assert_eq!(w.get_block(16, 0, 0), None);
    assert_eq!(w.get_block(-1, 0, 0), None);
    assert_eq!(w.get_block(0, -1, 0), None);
    assert_eq!(w.get_block(0, 256, 0), None);
    assert!(w.set_block(BlockID::Stone, 15, 255, 15));
    assert_eq!(w.get_block(15, 255, 15), Some(BlockID::Stone));
    assert!(!w.set_block(BlockID::Stone, 16, 0, 0));
    assert!(w.is_solid_block_at(15, 255, 15));
    assert!(!w.is_solid_block_at(0, 0, 0));
    assert!(!w.is_solid_block_at(100, 0, 0));
    assert!(w.block_changelist.is_empty());
}

#[test]
fn add_is_insert_if_absent_and_remove_hands_back() {
    let mut w = world_with(&[(2, -3)]);
    w.set_block(BlockID::Stone, 32, 0, -48);
    w.add_chunk_column((2, -3), ChunkColumn::new());
    assert_eq!(w.get_block(32, 0, -48), Some(BlockID::Stone));
    assert!(w.get_column(2, -3).is_some());
    let col = w.remove_chunk_column(&(2, -3)).unwrap();
    assert_eq!(col.get_chunk(0).get_block(0, 0, 0), BlockID::Stone);
    assert!(w.get_column(2, -3).is_none());
    assert!(w.remove_chunk_column(&(2, -3)).is_none());
    assert_eq!(w.get_block(32, 0, -48), None);
}

#[test]
fn put_block_records_edits_of_uploaded_chunks_only() {
    let mut w = world_with(&[(0, 0)]);
    assert!(w.put_block(BlockID::Stone, 1, 1, 1));
    assert!(w.block_changelist.is_empty());
    w.loaded_chunk_columns[0].chunks[0].is_uploaded_to_gpu = true;
    assert!(w.put_block(BlockID::Dirt, 1, 1, 1));
    assert!(w.put_block(BlockID::Dirt, 1, 1, 1));
    assert_eq!(w.block_changelist, vec![(1, BlockID::Dirt, 1, 1, 1)]);
    assert!(!w.put_block(BlockID::Dirt, 1, 300, 1));
}

#[test]
fn presets() {
    let mut w = ChunkManager::new();
    w.single();
    assert_eq!(w.get_block(0, 0, 0), Some(BlockID::Cobblestone));
    let mut w = ChunkManager::new();
    w.single_chunk();
    assert_eq!(w.get_block(7, 200, 7), Some(BlockID::Cobblestone));
    let mut w = ChunkManager::new();
    w.preload_some_chunks();
    assert_eq!(w.column_keys.len(), 4);
    assert!(w.get_column(1, 1).is_some());
}

#[test]
fn face_culling_between_neighbours() {
    let mut w = world_with(&[(0, 0)]);
    w.set_block(BlockID::Stone, 3, 3, 3);
    w.set_block(BlockID::Stone, 4, 3, 3);
    let a = w.get_active_faces_of_block(3, 3, 3);
    let b = w.get_active_faces_of_block(4, 3, 3);
    assert!(!a[0]);
    assert!(!b[1]);
    assert_eq!(a, [false, true, true, true, true, true]);
    assert_eq!(b, [true, false, true, true, true, true]);
    w.set_block(BlockID::Glass, 3, 4, 3);
    assert!(w.get_active_faces_of_block(3, 3, 3)[2]);
    w.set_block(BlockID::Stone, 0, 0, 0);
    assert_eq!(w.get_active_faces_of_block(0, 0, 0), [true, true, true, true, true, true]);
    w.set_block(BlockID::Stone, 0, 0, 1);
    let edge = w.get_active_faces_of_block(0, 0, 1);
    assert!(edge[1]);
    assert!(edge[3]);
    assert!(!edge[5]);
}

#[test]
fn ambient_occlusion_counts() {
    assert_eq!(compute_ao_of_block(&vec![false; 27]), vec![0u8; 24]);
    assert_eq!(compute_ao_of_block(&vec![true; 27]), vec![3u8; 24]);
    let mut occ = vec![false; 27];
    // the neighbour above and to +z: an edge neighbour of two top corners and two front corners
    occ[9 + 6 + 2] = true;
    let ao = compute_ao_of_block(&occ);
    assert_eq!(&ao[8..12], &[1, 1, 0, 0]);
    assert_eq!(&ao[12..16], &[0, 0, 0, 0]);
    assert_eq!(&ao[16..20], &[0, 0, 1, 1]);
    // the neighbour above and to +x: edge of the top face, corner of the right face's top corners
    let mut occ = vec![false; 27];
    occ[18 + 6 + 1] = true;
    let ao = compute_ao_of_block(&occ);
    assert_eq!(&ao[0..4], &[0, 0, 1, 1]);
    assert_eq!(&ao[8..12], &[0, 1, 1, 0]);
}

fn put_pattern(w: &mut ChunkManager, x: i32, y: i32, z: i32) {
    w.set_block(BlockID::Stone, x + 1, y + 1, z);
    w.set_block(BlockID::OakLeaves, x, y + 1, z + 1);
    w.set_block(BlockID::Glass, x + 1, y + 1, z + 1);
    w.set_block(BlockID::Stone, x - 1, y, z - 1);
    w.set_block(BlockID::Dirt, x + 1, y - 1, z - 1);
    w.set_block(BlockID::Stone, x, y, z);
}

#[test]
fn ambient_occlusion_fast_and_slow_paths_agree() {
    let mut inner = world_with(&[(0, 0)]);
    put_pattern(&mut inner, 5, 5, 5);
    let fast_occ = neighbourhood_in_chunk(&inner.loaded_chunk_columns[0].chunks[0], 5, 5, 5);
    let fast = compute_ao_of_block(&fast_occ);
    assert_eq!(fast_occ, inner.neighbourhood_in_world(5, 5, 5));

    let mut border = world_with(&[(0, 0), (1, 0)]);
    put_pattern(&mut border, 15, 5, 5);
    let slow = compute_ao_of_block(&border.neighbourhood_in_world(15, 5, 5));
    assert_eq!(fast, slow);
    assert!(fast.iter().any(|&v| v > 0));
}

#[test]
fn unloaded_neighbours_do_not_occlude() {
    let mut w = world_with(&[(0, 0)]);
    w.set_block(BlockID::Stone, 0, 0, 0);
    let occ = w.neighbourhood_in_world(0, 0, 0);
    assert!(occ.iter().filter(|&&o| o).count() == 1);
    assert!(occ[13]);
    let _ = full_pack();
}
