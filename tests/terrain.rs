use voxel_world::block::BlockID;
use voxel_world::chunk::ChunkColumn;
use voxel_world::chunk_loading::ChunkLoading;
use voxel_world::chunk_manager::ChunkManager;
use voxel_world::terrain::{compute_tree_placement_in_chunk, generate_terrain, place_tree};

fn flat_world(columns: &[(i32, i32)], height: u32) -> ChunkManager {
    let mut w = ChunkManager::new();
    for &xz in columns {
        let mut col = ChunkColumn::new();
        generate_terrain(&mut col, &vec![height; 256]);
        w.add_chunk_column(xz, col);
    }
    w
}

#[test]
fn flat_world_strata() {
    let w = flat_world(&[(0, 0)], 10);
    assert_eq!(w.get_block(0, 10, 0), Some(BlockID::GrassBlock));
    assert_eq!(w.get_block(0, 11, 0), Some(BlockID::Air));
    assert_eq!(w.get_block(0, 9, 0), Some(BlockID::Dirt));
    assert_eq!(w.get_block(0, 7, 0), Some(BlockID::Dirt));
    assert_eq!(w.get_block(0, 6, 0), Some(BlockID::Stone));
    assert_eq!(w.get_block(0, 3, 0), Some(BlockID::Stone));
    assert_eq!(w.get_block(0, 2, 0), Some(BlockID::Bedrock));
    assert_eq!(w.get_block(0, 0, 0), Some(BlockID::Bedrock));
    assert_eq!(w.get_column(0, 0).unwrap().heighest_blocks[0], 10);
}

#[test]
fn flat_world_faces_of_the_surface_block() {
    let w = flat_world(&[(0, 0)], 10);
    // top open to air, bottom on dirt, sides toward grass inside the
    // column and toward the unloaded world outside it
    assert_eq!(w.get_active_faces_of_block(0, 10, 0), [false, true, true, false, false, true]);
    assert_eq!(w.get_active_faces_of_block(5, 10, 5), [false, false, true, false, false, false]);
    assert_eq!(w.get_active_faces_of_block(5, 9, 5), [false, false, false, false, false, false]);
}

#[test]
fn surface_heights_follow_the_field() {
    let mut heights = vec![5u32; 256];
    heights[16 * 3 + 2] = 20;
    heights[0] = 1;
    let mut col = ChunkColumn::new();
    generate_terrain(&mut col, &heights);
    let mut w = ChunkManager::new();
    w.add_chunk_column((0, 0), col);
    assert_eq!(w.get_block(2, 20, 3), Some(BlockID::GrassBlock));
    assert_eq!(w.get_block(2, 17, 3), Some(BlockID::Dirt));
    assert_eq!(w.get_block(2, 16, 3), Some(BlockID::Stone));
    assert_eq!(w.get_block(3, 6, 3), Some(BlockID::Air));
    assert_eq!(w.get_block(0, 1, 0), Some(BlockID::Bedrock));
    assert_eq!(w.get_block(0, 2, 0), Some(BlockID::Bedrock));
    assert_eq!(w.get_block(0, 3, 0), Some(BlockID::Air));
}

#[test]
fn tree_positions_are_strict_local_maxima() {
    let mut samples = vec![0i64; 324];
    samples[18 * 3 + 5] = 9;
    samples[18 * 10 + 10] = 4;
    samples[18 * 10 + 11] = 4;
    samples[18 * 16 + 16] = 7;
    assert_eq!(compute_tree_placement_in_chunk(&samples), vec![(4, 2), (15, 15)]);
    let flat = vec![3i64; 324];
    assert!(compute_tree_placement_in_chunk(&flat).is_empty());
}

#[test]
fn tree_shape_and_dropped_blocks() {
    let mut w = flat_world(&[(0, 0)], 10);
    place_tree(&mut w, 4, 10, 2);
    for y in 11..=15 {
        assert_eq!(w.get_block(4, y, 2), Some(BlockID::OakLog));
    }
    assert_eq!(w.get_block(2, 13, 0), Some(BlockID::OakLeaves));
    assert_eq!(w.get_block(6, 14, 4), Some(BlockID::OakLeaves));
    assert_eq!(w.get_block(5, 15, 3), Some(BlockID::OakLeaves));
    assert_eq!(w.get_block(6, 15, 2), Some(BlockID::Air));
    assert_eq!(w.get_block(4, 16, 2), Some(BlockID::OakLeaves));
    assert_eq!(w.get_block(5, 16, 2), Some(BlockID::OakLeaves));
    assert_eq!(w.get_block(5, 16, 3), Some(BlockID::Air));
    assert_eq!(w.get_block(4, 17, 2), Some(BlockID::Air));

    place_tree(&mut w, 0, 10, 0);
    assert_eq!(w.get_block(1, 13, 0), Some(BlockID::OakLeaves));
    assert_eq!(w.get_block(-1, 13, 0), None);
    assert_eq!(w.get_block(0, 13, -1), None);
}

#[test]
fn foliage_pass_grows_trees_on_the_height_map() {
    let mut w = flat_world(&[(0, 0), (1, 0), (-1, 0), (0, 1), (0, -1)], 10);
    assert!(ChunkLoading::neighbours_generated(&w, 0, 0));
    assert!(!ChunkLoading::neighbours_generated(&w, 1, 0));
    assert!(ChunkLoading::place_foliage(&mut w, 0, 0, &vec![(15, 3)]));
    assert!(w.get_column(0, 0).unwrap().has_foliage);
    assert_eq!(w.get_block(15, 11, 3), Some(BlockID::OakLog));
    assert_eq!(w.get_block(17, 13, 3), Some(BlockID::OakLeaves));
    assert!(!ChunkLoading::place_foliage(&mut w, 5, 5, &vec![(1, 1)]));
}
