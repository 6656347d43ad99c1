use voxel_world::block::BlockID;
use voxel_world::chunk::{BlockIterator, Chunk, ChunkColumn};

fn scan_counts(c: &Chunk) -> (u32, u32, u32) {
    let mut opaque = 0;
    let mut transparent = 0;
    let mut non_air = 0;
    for b in c.blocks.iter() {
        if b.is_opaque() {
            opaque += 1;
        }
        if b.is_transparent_not_air() {
            transparent += 1;
        }
        if !b.is_air() {
            non_air += 1;
        }
    }
    (opaque, transparent, non_air)
}

#[test]
fn counts_follow_every_write() {
    let mut c = Chunk::new();
    let kinds = [BlockID::Stone, BlockID::Glass, BlockID::Air, BlockID::OakLeaves, BlockID::Dirt, BlockID::Air];
    let mut step: u32 = 0;
    for x in 0..16u32 {
        for z in 0..16u32 {
            let y = (x * 7 + z * 3) % 16;
            c.set_block(kinds[(step % 6) as usize], x, y, z);
            c.set_block(kinds[((step + 1) % 6) as usize], z, y, x);
            step += 1;
            let (o, t, n) = scan_counts(&c);
            assert_eq!(c.number_of_opaque_blocks, o);
            assert_eq!(c.number_of_transparent_blocks, t);
            assert_eq!(o + t, n);
        }
    }
}

#[test]
fn transition_table() {
    let mut c = Chunk::new();
    c.set_block(BlockID::Stone, 1, 2, 3);
    assert_eq!((c.number_of_opaque_blocks, c.number_of_transparent_blocks), (1, 0));
    c.set_block(BlockID::Glass, 1, 2, 3);
    assert_eq!((c.number_of_opaque_blocks, c.number_of_transparent_blocks), (0, 1));
    c.set_block(BlockID::OakLeaves, 1, 2, 3);
    assert_eq!((c.number_of_opaque_blocks, c.number_of_transparent_blocks), (0, 1));
    c.set_block(BlockID::Dirt, 1, 2, 3);
    assert_eq!((c.number_of_opaque_blocks, c.number_of_transparent_blocks), (1, 0));
    c.set_block(BlockID::Air, 1, 2, 3);
    assert_eq!((c.number_of_opaque_blocks, c.number_of_transparent_blocks), (0, 0));
    assert_eq!(c.get_block(1, 2, 3), BlockID::Air);
}

#[test]
fn stone_chunk_is_fully_opaque_and_reset_chunk_is_empty() {
    let mut c = Chunk::full_of_block(BlockID::Stone);
    assert!(c.is_fully_opaque());
    assert!(!c.is_empty());
    c.reset();
    assert!(c.is_empty());
    assert!(!c.is_fully_opaque());
    assert!(c.blocks.iter().all(|b| *b == BlockID::Air));
    let glass = Chunk::full_of_block(BlockID::Glass);
    assert!(!glass.is_fully_opaque());
    assert!(!glass.is_empty());
    assert!(Chunk::empty().is_empty());
}

#[test]
fn random_chunk_is_opaque() {
    let c = Chunk::random();
    assert!(c.is_fully_opaque());
    assert_eq!(c.number_of_transparent_blocks, 0);
}

#[test]
fn block_iterator_order() {
    let mut it = BlockIterator::new();
    assert_eq!(it.next(), Some((0, 0, 0)));
    assert_eq!(it.next(), Some((1, 0, 0)));
    let mut count = 2;
    let mut last = (1, 0, 0);
    while let Some(t) = it.next() {
        if count == 16 {
            assert_eq!(t, (0, 0, 1));
        }
        if count == 256 {
            assert_eq!(t, (0, 1, 0));
        }
        last = t;
        count += 1;
    }
    assert_eq!(count, 4096);
    assert_eq!(last, (15, 15, 15));
    assert_eq!(it.next(), None);
}

#[test]
fn column_constructors_and_writes() {
    let mut col = ChunkColumn::new();
    assert_eq!(col.chunks.len(), 16);
    col.set_block(BlockID::Stone, 3, 40, 5);
    assert_eq!(col.get_chunk(2).get_block(3, 8, 5), BlockID::Stone);
    assert_eq!(col.get_chunk(2).number_of_opaque_blocks, 1);
    col.has_foliage = true;
    col.heighest_blocks[7] = 9;
    col.reset();
    assert!(col.chunks.iter().all(|c| c.is_empty()));
    assert!(!col.has_foliage);
    assert_eq!(col.heighest_blocks[7], 0);

    let alt = ChunkColumn::alternating();
    assert_eq!(alt.get_chunk(0).get_block(0, 0, 0), BlockID::Dirt);
    assert_eq!(alt.get_chunk(1).get_block(0, 0, 0), BlockID::Cobblestone);
    let full = ChunkColumn::full_of_block(BlockID::Glass);
    assert_eq!(full.get_chunk(15).number_of_transparent_blocks, 4096);
    let rnd = ChunkColumn::random();
    assert!(rnd.chunks.iter().all(|c| c.is_fully_opaque()));
}
