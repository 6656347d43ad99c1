use voxel_world::block::{BlockFaces, BlockID};
use voxel_world::chunk::ChunkColumn;
use voxel_world::chunk_manager::ChunkManager;
use voxel_world::mesh::{TexturePack, Vertex};

fn pack_with(kinds: &[BlockID]) -> TexturePack {
    let mut p = TexturePack::new();
    for (i, k) in kinds.iter().enumerate() {
        p.insert(*k, BlockFaces::Sides { sides: 10 * i as u32, top: 10 * i as u32 + 1, bottom: 10 * i as u32 + 2 });
    }
    p
}

fn active_bits(w: &ChunkManager, ci: usize, cy: usize) -> usize {
    let c = &w.loaded_chunk_columns[ci].chunks[cy];
    let mut n = 0;
    for i in 0..4096 {
        if c.blocks[i] != BlockID::Air {
            for f in 0..6 {
                if c.active_faces.get(6 * i + f).unwrap() {
                    n += 1;
                }
            }
        }
    }
    n
}

#[test]
fn single_block_mesh() {
    let mut w = ChunkManager::new();
    w.add_chunk_column((0, 0), ChunkColumn::new());
    w.set_block(BlockID::Stone, 2, 3, 4);
    w.update_all_blocks(0, 0, 0);
    let pack = pack_with(&[BlockID::Stone]);
    let v = w.upload_chunk(0, 0, 0, &pack).unwrap().unwrap();
    assert_eq!(v.len(), 36);
    assert_eq!(w.loaded_chunk_columns[0].chunks[0].vertices_drawn, 36);
    assert!(w.loaded_chunk_columns[0].chunks[0].is_uploaded_to_gpu);
    assert_eq!(active_bits(&w, 0, 0) * 6, 36);
    // first face drawn is +X: its first corner is (1, 0, 1) of the unit cube
    assert_eq!(v[0], Vertex { x: 3, y: 3, z: 5, layer: 0, face: 0, ao: 0 });
    // top face uses the top layer
    assert_eq!(v[12].layer, 1);
    assert_eq!(v[12].face, 2);
    assert_eq!(v[18].layer, 2);
}

#[test]
fn vertex_count_is_six_per_active_face() {
    let mut w = ChunkManager::new();
    w.add_chunk_column((0, 0), ChunkColumn::new());
    for x in 0..5 {
        for z in 0..3 {
            w.set_block(BlockID::Dirt, x, 1, z);
        }
    }
    w.set_block(BlockID::Glass, 2, 2, 1);
    w.update_all_blocks(0, 0, 0);
    let pack = pack_with(&[BlockID::Dirt, BlockID::Glass]);
    let v = w.upload_chunk(0, 0, 0, &pack).unwrap().unwrap();
    let n = active_bits(&w, 0, 0);
    assert_eq!(v.len(), 6 * n);
    assert_eq!(w.loaded_chunk_columns[0].chunks[0].vertices_drawn as usize, 6 * n);
    assert!(n > 0);
}

#[test]
fn missing_texture_is_reported() {
    let mut w = ChunkManager::new();
    w.add_chunk_column((0, 0), ChunkColumn::new());
    w.set_block(BlockID::Obsidian, 0, 0, 0);
    w.update_all_blocks(0, 0, 0);
    let pack = pack_with(&[BlockID::Stone]);
    assert_eq!(w.upload_chunk(0, 0, 0, &pack), Some(Err(BlockID::Obsidian)));
    assert!(!w.loaded_chunk_columns[0].chunks[0].is_uploaded_to_gpu);
    assert_eq!(w.upload_chunk(0, 1, 5, &pack), None);
}

#[test]
fn empty_chunk_has_empty_mesh() {
    let mut w = ChunkManager::new();
    w.add_chunk_column((0, 0), ChunkColumn::new());
    let v = w.upload_chunk(0, 3, 0, &TexturePack::new()).unwrap().unwrap();
    assert!(v.is_empty());
    assert_eq!(w.loaded_chunk_columns[0].chunks[3].vertices_drawn, 0);
}

#[test]
fn update_blocks_touches_only_listed_blocks() {
    let mut w = ChunkManager::new();
    w.add_chunk_column((0, 0), ChunkColumn::new());
    w.set_block(BlockID::Stone, 1, 1, 1);
    w.set_block(BlockID::Stone, 5, 5, 5);
    w.update_blocks(0, 0, 0, &vec![(1, 1, 1)]);
    let c = &w.loaded_chunk_columns[0].chunks[0];
    let i1 = 256 + 16 + 1;
    let i5 = 5 * 256 + 5 * 16 + 5;
    assert!((0..6).all(|f| c.active_faces.get(6 * i1 + f).unwrap()));
    assert!((0..6).all(|f| !c.active_faces.get(6 * i5 + f).unwrap()));
    w.update_block(0, 0, 0, 5, 5, 5);
    let c = &w.loaded_chunk_columns[0].chunks[0];
    assert!((0..6).all(|f| c.active_faces.get(6 * i5 + f).unwrap()));
}

#[test]
fn render_list_holds_uploaded_non_empty_chunks() {
    let mut w = ChunkManager::new();
    w.add_chunk_column((3, -2), ChunkColumn::new());
    w.set_block(BlockID::Stone, 48, 17, -32);
    w.update_all_blocks(3, 1, -2);
    assert!(w.render_loaded_chunks().is_empty());
    let pack = pack_with(&[BlockID::Stone]);
    w.upload_chunk(3, 1, -2, &pack).unwrap().unwrap();
    w.upload_chunk(3, 5, -2, &pack).unwrap().unwrap();
    assert_eq!(w.render_loaded_chunks(), vec![((3, 1, -2), 36)]);
}

#[test]
fn a_block_turned_to_air_loses_its_face_bits() {
    let mut w = ChunkManager::new();
    w.add_chunk_column((0, 0), ChunkColumn::new());
    w.set_block(BlockID::Stone, 4, 4, 4);
    w.update_all_blocks(0, 0, 0);
    let i = 4 * 256 + 4 * 16 + 4;
    assert!(w.loaded_chunk_columns[0].chunks[0].active_faces.get(6 * i).unwrap());
    w.set_block(BlockID::Air, 4, 4, 4);
    w.update_block(0, 0, 0, 4, 4, 4);
    let c = &w.loaded_chunk_columns[0].chunks[0];
    assert!((0..6).all(|f| !c.active_faces.get(6 * i + f).unwrap()));
    let pack = pack_with(&[BlockID::Stone]);
    let v = w.upload_chunk(0, 0, 0, &pack).unwrap().unwrap();
    assert!(v.is_empty());
}
