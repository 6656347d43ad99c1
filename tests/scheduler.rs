use voxel_world::block::{BlockFaces, BlockID};
use voxel_world::chunk::{Chunk, ChunkColumn};
use voxel_world::chunk_loading::ChunkLoading;
use voxel_world::chunk_manager::ChunkManager;
use voxel_world::mesh::TexturePack;
use voxel_world::terrain::generate_terrain;

fn full_pack() -> TexturePack {
    let mut p = TexturePack::new();
    let kinds = [
        BlockID::Dirt, BlockID::GrassBlock, BlockID::Stone, BlockID::Cobblestone, BlockID::Bedrock,
        BlockID::Obsidian, BlockID::OakLog, BlockID::OakLeaves, BlockID::OakPlanks, BlockID::Glass,
    ];
    for (i, k) in kinds.iter().enumerate() {
        p.insert(*k, BlockFaces::All(i as u32));
    }
    p
}

fn flat_column(height: u32) -> ChunkColumn {
    let mut col = ChunkColumn::new();
    generate_terrain(&mut col, &vec![height; 256]);
    col
}

#[test]
fn upload_queue_pops_highest_priority_first() {
    let mut l = ChunkLoading::with_pool(0);
    l.push_upload((0, (0, 0, 0)));
    l.push_upload((2, (1, 0, 0)));
    l.push_upload((1, (2, 0, 0)));
    l.push_upload((2, (3, 0, 0)));
    assert_eq!(l.pop_upload(), Some((2, (1, 0, 0))));
    assert_eq!(l.pop_upload(), Some((2, (3, 0, 0))));
    assert_eq!(l.pop_upload(), Some((1, (2, 0, 0))));
    assert_eq!(l.pop_upload(), Some((0, (0, 0, 0))));
    assert_eq!(l.pop_upload(), None);
}

#[test]
fn unloaded_columns_come_ring_by_ring() {
    let mut w = ChunkManager::new();
    let first = ChunkLoading::flood_fill_unloaded_columns(&w, 0, 0, 7);
    assert_eq!(first.len(), 13);
    assert!(first.contains(&(0, 0)) && first.contains(&(2, 0)) && first.contains(&(-1, 1)));
    for &xz in &first {
        w.add_chunk_column(xz, ChunkColumn::new());
    }
    let second = ChunkLoading::flood_fill_unloaded_columns(&w, 0, 0, 7);
    assert_eq!(second.len(), 12);
    assert!(second.iter().all(|&(x, z)| x.abs() + z.abs() == 3));
    w.remove_chunk_column(&(1, 1));
    assert_eq!(ChunkLoading::flood_fill_unloaded_columns(&w, 0, 0, 7), vec![(1, 1)]);
}

#[test]
fn unfoliated_columns() {
    let mut w = ChunkManager::new();
    assert!(ChunkLoading::flood_fill_unfoliated_columns(&w, 0, 0, 3).is_empty());
    w.add_chunk_column((0, 0), ChunkColumn::new());
    // trees may spill over borders: a column without loaded neighbours is not listed
    assert!(ChunkLoading::flood_fill_unfoliated_columns(&w, 0, 0, 0).is_empty());
    for x in -2..=2 {
        for z in -2..=2 {
            w.add_chunk_column((x, z), ChunkColumn::new());
        }
    }
    assert_eq!(ChunkLoading::flood_fill_unfoliated_columns(&w, 0, 0, 3), vec![(0, 0)]);
    let centre = w.find_column(0, 0).unwrap();
    w.loaded_chunk_columns[centre].has_foliage = true;
    let ring1 = ChunkLoading::flood_fill_unfoliated_columns(&w, 0, 0, 3);
    assert_eq!(ring1.len(), 4);
    assert!(ring1.iter().all(|&(x, z)| x.abs() + z.abs() == 1));
    for &(x, z) in &ring1 {
        let i = w.find_column(x, z).unwrap();
        w.loaded_chunk_columns[i].has_foliage = true;
    }
    let ring2 = ChunkLoading::flood_fill_unfoliated_columns(&w, 0, 0, 3);
    assert_eq!(ring2.len(), 4);
    assert!(ring2.iter().all(|&(x, z)| x.abs() == 1 && z.abs() == 1));
}

#[test]
fn pooled_columns_come_back_empty() {
    let mut w = ChunkManager::new();
    w.add_chunk_column((0, 0), flat_column(30));
    w.loaded_chunk_columns[0].has_foliage = true;
    let mut l = ChunkLoading::with_pool(0);
    let col = w.remove_chunk_column(&(0, 0)).unwrap();
    l.recycle_column(col);
    let col = l.acquire_column();
    assert!(l.chunk_column_pool.is_empty());
    for c in col.chunks.iter() {
        assert!(c.blocks.iter().all(|b| *b == BlockID::Air));
        assert_eq!(c.number_of_opaque_blocks, 0);
        assert_eq!(c.number_of_transparent_blocks, 0);
        assert!(!c.is_uploaded_to_gpu);
    }
    assert!(!col.has_foliage);
    assert!(col.heighest_blocks.iter().all(|&h| h == 0));
    let fresh = l.acquire_column();
    assert!(fresh.chunks.iter().all(|c| c.is_empty()));
    assert_eq!(ChunkLoading::with_pool(2).chunk_column_pool.len(), 2);
}

#[test]
fn distant_columns_are_evicted_into_the_pool() {
    let mut w = ChunkManager::new();
    for &xz in &[(0, 0), (8, 0), (0, -8), (7, 7), (-7, 3)] {
        w.add_chunk_column(xz, ChunkColumn::new());
    }
    let mut l = ChunkLoading::with_pool(0);
    l.evict_distant_columns(&mut w, 0, 0);
    assert!(w.get_column(8, 0).is_none());
    assert!(w.get_column(0, -8).is_none());
    assert!(w.get_column(7, 7).is_some());
    assert!(w.get_column(-7, 3).is_some());
    assert!(w.get_column(0, 0).is_some());
    assert_eq!(l.chunk_column_pool.len(), 2);
}

#[test]
fn edits_only_touch_neighbouring_chunks() {
    let mut w = ChunkManager::new();
    w.add_chunk_column((0, 0), flat_column(10));
    w.add_chunk_column((1, 0), flat_column(10));
    for c in w.loaded_chunk_columns.iter_mut() {
        for ch in c.chunks.iter_mut() {
            ch.is_uploaded_to_gpu = true;
        }
    }
    let before: Vec<bool> = (0..4096).map(|i| w.loaded_chunk_columns[1].chunks[0].active_faces.get(6 * i).unwrap()).collect();
    let mut l = ChunkLoading::with_pool(0);
    // an edit in the middle of chunk (0, 0, 0): only that chunk is recomputed
    w.put_block(BlockID::Air, 5, 10, 5);
    l.process_changelist(&mut w);
    assert!(w.block_changelist.is_empty());
    assert_eq!(l.chunk_upload_queue, vec![(1, (0, 0, 0))]);
    let after: Vec<bool> = (0..4096).map(|i| w.loaded_chunk_columns[1].chunks[0].active_faces.get(6 * i).unwrap()).collect();
    assert_eq!(before, after);
    // an edit on the +x face of the chunk reaches the chunk beyond it too
    l.chunk_upload_queue.clear();
    w.put_block(BlockID::Air, 15, 10, 5);
    l.process_changelist(&mut w);
    assert!(l.chunk_upload_queue.contains(&(1, (0, 0, 0))));
    assert!(l.chunk_upload_queue.contains(&(1, (1, 0, 0))));
    assert!(l.chunk_upload_queue.iter().all(|e| e.1 == (0, 0, 0) || e.1 == (1, 0, 0)));
    let c1 = &w.loaded_chunk_columns[1].chunks[0];
    // the grass block at world (16, 10, 5) now shows its -x face
    let i = 10 * 256 + 5 * 16;
    assert!(c1.active_faces.get(6 * i + 1).unwrap());
}

#[test]
fn digging_exposes_the_block_below() {
    let mut w = ChunkManager::new();
    w.add_chunk_column((0, 0), flat_column(10));
    let pack = full_pack();
    let mut l = ChunkLoading::with_pool(0);
    for _ in 0..6 {
        l.tick(&mut w, &pack, 5, 12, 5).unwrap();
    }
    let chunk = &w.loaded_chunk_columns[0].chunks[0];
    assert!(chunk.is_uploaded_to_gpu);
    let before = chunk.vertices_drawn;
    assert!(before > 0);
    assert_eq!(w.get_active_faces_of_block(5, 9, 5)[2], false);
    let below = 9 * 256 + 5 * 16 + 5;
    assert!(!chunk.active_faces.get(6 * below + 2).unwrap());

    assert!(w.put_block(BlockID::Air, 5, 10, 5));
    assert_eq!(w.block_changelist.len(), 1);
    let meshes = l.tick(&mut w, &pack, 5, 12, 5).unwrap();
    assert!(meshes.iter().any(|m| (m.0).1 == (0, 0, 0)));
    let chunk = &w.loaded_chunk_columns[0].chunks[0];
    assert!(chunk.active_faces.get(6 * below + 2).unwrap());
    assert_eq!(chunk.vertices_drawn, before + 24);
}

#[test]
fn distant_chunks_lose_their_meshes() {
    let mut w = ChunkManager::new();
    w.add_chunk_column((0, 0), ChunkColumn::new());
    w.add_chunk_column((6, 0), ChunkColumn::new());
    for c in w.loaded_chunk_columns.iter_mut() {
        for ch in c.chunks.iter_mut() {
            ch.vertices_drawn = 12;
        }
    }
    ChunkLoading::unload_distant_chunks(&mut w, 0, 0, 0);
    assert_eq!(w.loaded_chunk_columns[0].chunks[5].vertices_drawn, 12);
    assert_eq!(w.loaded_chunk_columns[0].chunks[6].vertices_drawn, 0);
    assert!(w.loaded_chunk_columns[1].chunks.iter().all(|c| c.vertices_drawn == 0));
    assert!(!w.unload_chunk(3, 0, 3));
}

#[test]
fn unloaded_chunks_need_meshing_again() {
    let mut w = ChunkManager::new();
    w.add_chunk_column((9, 0), ChunkColumn::new());
    w.loaded_chunk_columns[0].chunks[0].is_uploaded_to_gpu = true;
    w.loaded_chunk_columns[0].chunks[0].is_rendered = true;
    ChunkLoading::unload_distant_chunks(&mut w, 0, 0, 0);
    assert!(!w.loaded_chunk_columns[0].chunks[0].is_uploaded_to_gpu);
    assert!(!w.loaded_chunk_columns[0].chunks[0].is_rendered);
}

#[test]
fn each_edited_chunk_is_queued_once_with_its_highest_priority() {
    let mut w = ChunkManager::new();
    w.add_chunk_column((0, 0), flat_column(10));
    for ch in w.loaded_chunk_columns[0].chunks.iter_mut() {
        ch.is_uploaded_to_gpu = true;
    }
    w.put_block(BlockID::Air, 5, 10, 5);
    w.block_changelist.push((3, BlockID::Air, 6, 10, 5));
    let mut l = ChunkLoading::with_pool(0);
    l.process_changelist(&mut w);
    assert_eq!(l.chunk_upload_queue, vec![(3, (0, 0, 0))]);
}

#[test]
fn chunk_search_follows_long_detours() {
    let mut w = ChunkManager::new();
    for x in -1..=1 {
        for z in -1..=1 {
            w.add_chunk_column((x, z), ChunkColumn::new());
        }
    }
    let path = [(0, 1, 0), (0, 1, -1), (0, 0, -1), (1, 0, -1), (1, 0, 0), (1, 0, 1), (1, 1, 1)];
    let target = (1, 2, 1);
    for x in -1..=1i32 {
        for z in -1..=1i32 {
            let i = w.find_column(x, z).unwrap();
            for y in 0..3i32 {
                if (x, y, z) == target {
                    continue;
                }
                if !path.contains(&(x, y, z)) {
                    w.loaded_chunk_columns[i].chunks[y as usize] = Chunk::full_of_block(BlockID::Stone);
                }
                let c = &mut w.loaded_chunk_columns[i].chunks[y as usize];
                c.is_generated = true;
                c.is_uploaded_to_gpu = true;
            }
        }
    }
    // the target is seven steps away round the stone, beyond 3 * distance + 1
    assert_eq!(ChunkLoading::flood_fill_chunks(&w, 0, 1, 0, 1), vec![target]);
}
