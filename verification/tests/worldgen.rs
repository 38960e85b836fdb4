use voxelgen::noisefield::ChunkNoise;
use voxelgen::randhash::{coord_hash, SALT_TREE, SALT_TREE_SIZE, SALT_VINE, SALT_VINE_LEN};
use voxelgen::vox::{Cell, Chunk, Ivec3, VoxShape, BUSH, DIRT, FERN, GRASS, LEAVES, LOG, NIL,
    ROSE, SAND, SHORTGRASS, SIZE, STONE, WATER};
use voxelgen::worldgen::{gen_tree, WorldGen, WATER_ISO};

fn const_noise(terr: i64, cave: i64, sand: i64, flora: i64) -> ChunkNoise {
    ChunkNoise::new(vec![terr; 256], vec![cave; 4096], vec![sand; 256], vec![flora; 256])
        .ok()
        .expect("bounded constant samples")
}

#[test]
fn noise_field_rejects_wrong_lengths_and_huge_samples() {
    assert!(ChunkNoise::new(vec![0; 255], vec![0; 4096], vec![0; 256], vec![0; 256]).is_err());
    assert!(ChunkNoise::new(vec![0; 256], vec![0; 4095], vec![0; 256], vec![0; 256]).is_err());
    assert!(
        ChunkNoise::new(vec![0; 256], vec![0; 4096], vec![3_000_000; 256], vec![0; 256]).is_err()
    );
    assert!(ChunkNoise::new(vec![0; 256], vec![0; 4096], vec![0; 256], vec![0; 256]).is_ok());
}

#[test]
fn deep_negative_terrain_becomes_water_with_fixed_isovalue() {
    // Every cell of this chunk has negative density and negative world
    // height, so all of it must be water with isovalue exactly 0.1,
    // whatever the noise magnitude was.
    let n = const_noise(-1_000_000, 0, -1_000_000, -1_000_000);
    let mut chunk = Chunk::new(Ivec3::new(0, -1, 0));
    WorldGen::generate_chunk(&mut chunk, &n);
    for z in 0..SIZE {
        for y in 0..SIZE {
            for x in 0..SIZE {
                let c = chunk.get_cell(Ivec3::new(x, y, z));
                assert_eq!(c.tex_id, WATER);
                assert_eq!(c.isovalue, WATER_ISO);
                assert_eq!(c.shape_id, VoxShape::Isosurface);
            }
        }
    }
}

#[test]
fn generation_is_deterministic_for_fixed_position_and_samples() {
    let n = const_noise(400_000, 120_000, 50_000, 500_000);
    let mut a = Chunk::new(Ivec3::new(2, 0, -3));
    let mut b = Chunk::new(Ivec3::new(2, 0, -3));
    WorldGen::generate_chunk(&mut a, &n);
    WorldGen::generate_chunk(&mut b, &n);
    assert_eq!(a.cells, b.cells);
}

#[test]
fn solid_terrain_grows_grass_and_dirt_layers() {
    // High terrain signal above world height 0: everything is stone,
    // and the surface pass must turn the exposed top layer to grass and
    // the next two to dirt, leaving deep stone intact.
    let n = const_noise(1_000_000, 0, -1_000_000, -1_000_000);
    let mut chunk = Chunk::new(Ivec3::new(0, 1, 0));
    WorldGen::terrain_pass(&mut chunk, &n);
    for y in 0..SIZE {
        assert_eq!(chunk.get_cell(Ivec3::new(4, y, 9)).tex_id, STONE);
    }
    WorldGen::surface_pass(&mut chunk, &n);
    assert_eq!(chunk.get_cell(Ivec3::new(4, 15, 9)).tex_id, GRASS);
    assert_eq!(chunk.get_cell(Ivec3::new(4, 14, 9)).tex_id, DIRT);
    assert_eq!(chunk.get_cell(Ivec3::new(4, 13, 9)).tex_id, STONE);
    assert_eq!(chunk.get_cell(Ivec3::new(4, 0, 9)).tex_id, STONE);
}

#[test]
fn exposed_stone_column_becomes_grass() {
    // A column with stone at heights 5..=7 under open air: the pass
    // must turn the stone at height 7 to grass and may not leave it
    // stone.
    let n = const_noise(0, 0, -1_000_000, -1_000_000);
    let mut chunk = Chunk::new(Ivec3::new(0, 1, 0));
    for y in 5..=7 {
        chunk.set_cell(Ivec3::new(3, y, 3), &Cell::new(STONE, VoxShape::Isosurface, 500));
    }
    WorldGen::surface_pass(&mut chunk, &n);
    assert_eq!(chunk.get_cell(Ivec3::new(3, 7, 3)).tex_id, GRASS);
    assert_eq!(chunk.get_cell(Ivec3::new(3, 6, 3)).tex_id, DIRT);
    assert_eq!(chunk.get_cell(Ivec3::new(3, 5, 3)).tex_id, STONE);
}

#[test]
fn shore_stone_becomes_sand_under_positive_shore_signal() {
    // Stone just below world height 2 and close to air, with a shore
    // signal above the threshold, becomes sand rather than grass.
    let n = const_noise(0, 0, 500, -1_000_000);
    let mut chunk = Chunk::new(Ivec3::new(0, 0, 0));
    chunk.set_cell(Ivec3::new(8, 0, 8), &Cell::new(STONE, VoxShape::Isosurface, 500));
    chunk.set_cell(Ivec3::new(8, 1, 8), &Cell::new(STONE, VoxShape::Isosurface, 500));
    WorldGen::surface_pass(&mut chunk, &n);
    assert_eq!(chunk.get_cell(Ivec3::new(8, 1, 8)).tex_id, SAND);
    assert_eq!(chunk.get_cell(Ivec3::new(8, 0, 8)).tex_id, SAND);
}

#[test]
fn flora_variants_follow_the_scatter_thresholds() {
    let mut flora = vec![-1_000_000i64; 256];
    flora[0] = 941;
    flora[1] = 801;
    flora[2] = 241;
    flora[3] = 1;
    flora[4] = 0;
    flora[5] = 940;
    let n = ChunkNoise::new(vec![0; 256], vec![0; 4096], vec![0; 256], flora)
        .ok()
        .expect("bounded samples");
    let mut chunk = Chunk::new(Ivec3::new(0, 0, 0));
    for x in 0..6 {
        chunk.set_cell(Ivec3::new(x, 3, 0), &Cell::new(GRASS, VoxShape::Isosurface, 500));
    }
    WorldGen::flora_pass(&mut chunk, &n);
    assert_eq!(chunk.get_cell(Ivec3::new(0, 4, 0)).tex_id, ROSE);
    assert_eq!(chunk.get_cell(Ivec3::new(0, 4, 0)).shape_id, VoxShape::Grass);
    assert_eq!(chunk.get_cell(Ivec3::new(1, 4, 0)).tex_id, FERN);
    assert_eq!(chunk.get_cell(Ivec3::new(2, 4, 0)).tex_id, BUSH);
    assert_eq!(chunk.get_cell(Ivec3::new(3, 4, 0)).tex_id, SHORTGRASS);
    assert_eq!(chunk.get_cell(Ivec3::new(4, 4, 0)).tex_id, NIL);
    assert_eq!(chunk.get_cell(Ivec3::new(5, 4, 0)).tex_id, FERN);
    // The grass cells themselves stay grass.
    assert_eq!(chunk.get_cell(Ivec3::new(0, 3, 0)).tex_id, GRASS);
}

#[test]
fn gen_tree_builds_trunk_and_canopy_inside_the_chunk() {
    let mut chunk = Chunk::new(Ivec3::new(0, 0, 0));
    gen_tree(&mut chunk, Ivec3::new(8, 2, 8), 0);
    // Size factor 0: trunk height 3, canopy radius 2.
    for (i, iso) in [(0, 2400), (1, 1734), (2, 1067)] {
        let c = chunk.get_cell(Ivec3::new(8, 2 + i, 8));
        assert_eq!(c.tex_id, LOG);
        assert_eq!(c.shape_id, VoxShape::Isosurface);
        assert_eq!(c.isovalue, iso);
    }
    // Canopy: one-cell band above the trunk, squared-distance disk.
    let mut leaves = 0;
    for z in 0..SIZE {
        for x in 0..SIZE {
            let c = chunk.get_cell(Ivec3::new(x, 5, z));
            if c.tex_id == LEAVES {
                assert_eq!(c.shape_id, VoxShape::Leaves);
                let (dx, dz) = (x - 8, z - 8);
                assert!(dx * dx + dz * dz < 4);
                leaves += 1;
            }
        }
    }
    assert_eq!(leaves, 9);
    // Nothing below the root or outside the tree was touched.
    assert_eq!(chunk.get_cell(Ivec3::new(8, 1, 8)).tex_id, NIL);
    assert_eq!(chunk.get_cell(Ivec3::new(0, 5, 0)).tex_id, NIL);
}

#[test]
fn gen_tree_clips_at_the_chunk_boundary() {
    // Rooted in a corner: the canopy cells that would fall outside the
    // chunk are silently dropped, and nothing panics.
    let mut chunk = Chunk::new(Ivec3::new(0, 0, 0));
    gen_tree(&mut chunk, Ivec3::new(0, 2, 0), 0);
    let mut leaves = 0;
    for z in 0..SIZE {
        for x in 0..SIZE {
            if chunk.get_cell(Ivec3::new(x, 5, z)).tex_id == LEAVES {
                leaves += 1;
            }
        }
    }
    assert_eq!(leaves, 4);
    // Rooted near the top: the trunk is clipped at the chunk ceiling
    // and the canopy band above it disappears entirely.
    let mut high = Chunk::new(Ivec3::new(0, 0, 0));
    gen_tree(&mut high, Ivec3::new(8, 14, 8), 0);
    assert_eq!(high.get_cell(Ivec3::new(8, 14, 8)).tex_id, LOG);
    assert_eq!(high.get_cell(Ivec3::new(8, 15, 8)).tex_id, LOG);
    for z in 0..SIZE {
        for y in 0..SIZE {
            for x in 0..SIZE {
                assert_ne!(high.get_cell(Ivec3::new(x, y, z)).tex_id, LEAVES);
            }
        }
    }
}

#[test]
fn vines_grow_down_from_stone_in_gated_columns() {
    // Find a world column that passes the vine gate, then build a stone
    // overhang there and check the vine the pass grows under it.
    let mut wx: i32 = 0;
    while coord_hash(wx, 0, 0, SALT_VINE) >= 4608 {
        wx += 1;
    }
    let cx = wx.div_euclid(16);
    let lx = wx.rem_euclid(16);
    let mut chunk = Chunk::new(Ivec3::new(cx, 0, 0));
    for y in 11..16 {
        chunk.set_cell(Ivec3::new(lx, y, 0), &Cell::new(STONE, VoxShape::Isosurface, 500));
    }
    let len = ((12 * coord_hash(wx, 0, 0, SALT_VINE_LEN)) / 65536) as i32;
    WorldGen::vine_pass(&mut chunk);
    let expect = len.min(11);
    for k in 0..expect {
        let c = chunk.get_cell(Ivec3::new(lx, 10 - k, 0));
        assert_eq!(c.tex_id, LEAVES);
        assert_eq!(c.shape_id, VoxShape::Leaves);
    }
    if expect < 11 {
        assert_eq!(chunk.get_cell(Ivec3::new(lx, 10 - expect, 0)).tex_id, NIL);
    }
}

#[test]
fn trees_root_on_grass_in_gated_columns() {
    let mut wx: i32 = 0;
    while coord_hash(wx, 0, 0, SALT_TREE) >= 768 {
        wx += 1;
    }
    let cx = wx.div_euclid(16);
    let lx = wx.rem_euclid(16);
    let mut chunk = Chunk::new(Ivec3::new(cx, 0, 0));
    chunk.set_cell(Ivec3::new(lx, 2, 0), &Cell::new(GRASS, VoxShape::Isosurface, 500));
    let siz = coord_hash(wx, 2, 0, SALT_TREE_SIZE);
    let h = (3 + (6 * siz) / 65536) as i32;
    WorldGen::tree_pass(&mut chunk);
    for i in 0..h {
        assert_eq!(chunk.get_cell(Ivec3::new(lx, 2 + i, 0)).tex_id, LOG);
    }
    assert_eq!(chunk.get_cell(Ivec3::new(lx, 2 + h, 0)).tex_id, LEAVES);
}
