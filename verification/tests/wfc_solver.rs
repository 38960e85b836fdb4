use voxelgen::vox::Ivec3;
use voxelgen::wfc::{SolveResult, WFC};

#[test]
fn push_pattern_expands_rotations() {
    let mut wfc = WFC::new(1);
    wfc.push_pattern(String::from("p"), [1, 2, 3, 4, 5, 6], true, false);
    assert_eq!(wfc.all_patterns.len(), 4);
    assert_eq!(wfc.all_patterns[0].sockets, [1, 2, 3, 4, 5, 6]);
    assert_eq!(wfc.all_patterns[1].sockets, [6, 5, 3, 4, 1, 2]);
    assert_eq!(wfc.all_patterns[2].sockets, [2, 1, 3, 4, 6, 5]);
    assert_eq!(wfc.all_patterns[3].sockets, [5, 6, 3, 4, 2, 1]);
    for (r, pat) in wfc.all_patterns.iter().enumerate() {
        assert_eq!(pat.rotation as usize, r);
        assert!(!pat.is_flipped);
        assert_eq!(pat.name, "p");
    }
}

#[test]
fn push_pattern_expands_flips() {
    let mut wfc = WFC::new(1);
    wfc.push_pattern(String::from("q"), [1, 2, 3, 4, 5, 6], false, true);
    assert_eq!(wfc.all_patterns.len(), 2);
    assert_eq!(wfc.all_patterns[0].sockets, [1, 2, 3, 4, 5, 6]);
    assert!(!wfc.all_patterns[0].is_flipped);
    assert_eq!(wfc.all_patterns[1].sockets, [2, 1, 3, 4, 5, 6]);
    assert!(wfc.all_patterns[1].is_flipped);
}

#[test]
fn init_tiles_starts_with_full_entropy() {
    let mut wfc = WFC::new(7);
    wfc.push_pattern(String::from("a"), [0; 6], false, false);
    wfc.push_pattern(String::from("b"), [1; 6], false, false);
    wfc.init_tiles(Ivec3::new(4, 2, 3));
    assert_eq!(wfc.tiles.len(), 24);
    for tile in wfc.tiles.iter() {
        assert_eq!(tile.entropy(), 2);
        assert_eq!(tile.possib, vec![0u16, 1u16]);
    }
    assert_eq!(wfc.tiles[0].pos, Ivec3::new(0, 0, 0));
    assert_eq!(wfc.tiles[1].pos, Ivec3::new(1, 0, 0));
    assert_eq!(wfc.tiles[4].pos, Ivec3::new(0, 1, 0));
    assert_eq!(wfc.tiles[8].pos, Ivec3::new(0, 0, 1));
}

#[test]
fn single_pattern_solves_everywhere() {
    let mut wfc = WFC::new(9);
    wfc.push_pattern(String::from("only"), [0; 6], false, false);
    wfc.init_tiles(Ivec3::new(2, 2, 2));
    match wfc.run() {
        SolveResult::Solved => {}
        SolveResult::Contradiction(_) => panic!("one self-consistent pattern must solve"),
    }
    for tile in wfc.tiles.iter() {
        assert_eq!(tile.entropy(), 1);
        assert_eq!(tile.possib[0], 0);
    }
}

#[test]
fn flat_and_block_solve_with_matching_sockets() {
    // Two patterns whose sockets never match each other: the lattice
    // must solve with every tile collapsed, and facing sockets equal
    // everywhere, which here forces one pattern over the whole lattice.
    let mut wfc = WFC::new(12345);
    wfc.push_pattern(String::from("flat"), [0; 6], false, false);
    wfc.push_pattern(String::from("block"), [1; 6], false, false);
    wfc.init_tiles(Ivec3::new(3, 1, 3));
    match wfc.run() {
        SolveResult::Solved => {}
        SolveResult::Contradiction(_) => panic!("flat/block lattice must solve"),
    }
    let first = wfc.tiles[0].possib[0];
    assert!(first == 0 || first == 1);
    for tile in wfc.tiles.iter() {
        assert_eq!(tile.entropy(), 1);
        assert_eq!(tile.possib[0], first);
    }
    // Socket consistency spelled out for every neighboring pair.
    for z in 0..3usize {
        for x in 0..3usize {
            let t = &wfc.tiles[x + 3 * z];
            let p = &wfc.all_patterns[t.possib[0] as usize];
            if x + 1 < 3 {
                let r = &wfc.tiles[x + 1 + 3 * z];
                let q = &wfc.all_patterns[r.possib[0] as usize];
                assert_eq!(p.sockets[0], q.sockets[1]);
            }
            if z + 1 < 3 {
                let r = &wfc.tiles[x + 3 * (z + 1)];
                let q = &wfc.all_patterns[r.possib[0] as usize];
                assert_eq!(p.sockets[4], q.sockets[5]);
            }
        }
    }
}

#[test]
fn entropy_never_increases_across_a_solve() {
    let mut wfc = WFC::new(77);
    wfc.push_pattern(String::from("flat"), [0; 6], false, false);
    wfc.push_pattern(String::from("block"), [1; 6], false, false);
    wfc.push_pattern(String::from("road"), [2, 2, 0, 0, 0, 0], true, false);
    wfc.init_tiles(Ivec3::new(4, 1, 4));
    let before: Vec<usize> = wfc.tiles.iter().map(|t| t.entropy()).collect();
    wfc.run();
    for (tile, b) in wfc.tiles.iter().zip(before.iter()) {
        assert!(tile.entropy() <= *b);
        assert!(tile.entropy() <= 1);
    }
}

#[test]
fn impossible_pattern_reports_contradiction_positions() {
    // A single pattern whose opposite horizontal sockets differ can
    // never sit next to itself, so a two-tile lattice has no solution;
    // both tiles are reported, in scan order.
    let mut wfc = WFC::new(5);
    wfc.push_pattern(String::from("odd"), [1, 2, 0, 0, 0, 0], false, false);
    wfc.init_tiles(Ivec3::new(2, 1, 1));
    match wfc.run() {
        SolveResult::Solved => panic!("a mismatched pattern cannot tile two cells"),
        SolveResult::Contradiction(positions) => {
            assert!(!positions.is_empty());
            for p in positions.iter() {
                let tile = wfc.tiles.iter().find(|t| t.pos == *p).expect("reported tile");
                assert_eq!(tile.entropy(), 0);
            }
        }
    }
    for tile in wfc.tiles.iter() {
        assert!(tile.entropy() <= 1);
    }
}

#[test]
fn same_seed_gives_the_same_solve() {
    let build = |seed: u64| {
        let mut wfc = WFC::new(seed);
        wfc.push_pattern(String::from("flat"), [0; 6], false, false);
        wfc.push_pattern(String::from("block"), [1; 6], false, false);
        wfc.push_pattern(String::from("edge"), [0, 1, 0, 0, 2, 2], true, true);
        wfc.init_tiles(Ivec3::new(5, 1, 5));
        wfc.run();
        wfc.tiles.iter().map(|t| t.possib.clone()).collect::<Vec<_>>()
    };
    assert_eq!(build(99), build(99));
}
