use voxelgen::vox::{Cell, Chunk, Ivec3, VoxShape, GRASS, NIL, SIZE, STONE, VOLUME};

#[test]
fn new_chunk_is_all_air() {
    let chunk = Chunk::new(Ivec3::new(3, -2, 7));
    assert_eq!(chunk.chunkpos, Ivec3::new(3, -2, 7));
    assert_eq!(chunk.cells.len(), VOLUME);
    for z in 0..SIZE {
        for y in 0..SIZE {
            for x in 0..SIZE {
                let c = chunk.get_cell(Ivec3::new(x, y, z));
                assert_eq!(c.tex_id, NIL);
                assert_eq!(c.shape_id, VoxShape::Isosurface);
                assert_eq!(c.isovalue, 0);
            }
        }
    }
}

#[test]
fn set_cell_then_get_cell_roundtrip() {
    let mut chunk = Chunk::new(Ivec3::new(0, 0, 0));
    let cell = Cell::new(STONE, VoxShape::Isosurface, 1234);
    chunk.set_cell(Ivec3::new(5, 6, 7), &cell);
    assert_eq!(chunk.get_cell(Ivec3::new(5, 6, 7)), cell);
    assert_eq!(chunk.get_cell(Ivec3::new(6, 5, 7)).tex_id, NIL);
    let grass = Cell::new(GRASS, VoxShape::Grass, 0);
    chunk.set_cell(Ivec3::new(5, 6, 7), &grass);
    assert_eq!(chunk.get_cell(Ivec3::new(5, 6, 7)), grass);
}

#[test]
fn is_localpos_accepts_exactly_the_chunk_range() {
    assert!(Chunk::is_localpos(Ivec3::new(0, 0, 0)));
    assert!(Chunk::is_localpos(Ivec3::new(15, 15, 15)));
    assert!(!Chunk::is_localpos(Ivec3::new(16, 0, 0)));
    assert!(!Chunk::is_localpos(Ivec3::new(0, -1, 0)));
    assert!(!Chunk::is_localpos(Ivec3::new(0, 0, 16)));
}

#[test]
fn empty_cell_is_empty() {
    let c = Cell::empty();
    assert!(c.is_tex_empty());
    let s = Cell::new(STONE, VoxShape::Isosurface, 500);
    assert!(!s.is_tex_empty());
}
