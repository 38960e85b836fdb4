//! Terrain generation: carving a chunk's base density field from noise.
//!
//! The density formula combines a 2D terrain signal, a 3D cave/detail
//! signal, and a height bias that makes ground trend solid below world
//! height 0 and open above. Everything is fixed-point arithmetic in
//! thousandths over the pre-sampled fields of [`crate::noisefield`], so
//! the whole pass is a pure function of chunk position and samples.

use vstd::prelude::*;
use vstd::arithmetic::div_mod::{lemma_fundamental_div_mod, lemma_fundamental_div_mod_converse};
use crate::vox::{Cell, Chunk, Ivec3, VoxShape, cell_index, in_bounds, NIL, STONE, WATER, SAND,
    GRASS, DIRT, ROSE, FERN, BUSH, SHORTGRASS, LEAVES, LOG, SIZE, VOLUME};
use crate::noisefield::{ChunkNoise, column_index};
use crate::randhash::{floor_div, coord_hash, coord_hash_spec, SALT_VINE, SALT_VINE_LEN,
    SALT_TREE, SALT_TREE_SIZE};

verus! {

/// Isovalue assigned to every water cell, in thousandths (`0.1`).
pub const WATER_ISO: i64 = 100;

/// Bound on each chunk-grid coordinate accepted by the generators.
pub const POS_BOUND: i32 = 100_000;

/// Whether a chunk-grid position is within the accepted coordinate range.
pub open spec fn pos_bounded(pos: Ivec3) -> bool {
    &&& -POS_BOUND <= pos.x <= POS_BOUND
    &&& -POS_BOUND <= pos.y <= POS_BOUND
    &&& -POS_BOUND <= pos.z <= POS_BOUND
}

/// Local position of the dense cell index `i`.
pub open spec fn index_pos(i: int) -> Ivec3 {
    Ivec3 {
        x: (i % 16) as i32,
        y: ((i / 16) % 16) as i32,
        z: (i / 256) as i32,
    }
}

/// `index_pos` inverts `cell_index` on the dense index range.
pub proof fn lemma_index_pos(i: int)
    requires
        0 <= i < VOLUME,
    ensures
        in_bounds(index_pos(i)),
        cell_index(index_pos(i)) == i,
{
    lemma_fundamental_div_mod(i, 16);
    vstd::arithmetic::div_mod::lemma_mod_bound(i, 16);
    let rest = i / 16;
    lemma_fundamental_div_mod(rest, 16);
    vstd::arithmetic::div_mod::lemma_mod_bound(rest, 16);
    assert(i / 256 == rest / 16) by {
        lemma_fundamental_div_mod_converse(i, 256, rest / 16, 16 * (rest % 16) + i % 16);
    }
}

/// `cell_index` inverts `index_pos` on valid local positions.
pub proof fn lemma_pos_index(v: Ivec3)
    requires
        in_bounds(v),
    ensures
        index_pos(cell_index(v)) == v,
{
    let i = cell_index(v);
    assert(i == (v.y + 16 * v.z) * 16 + v.x);
    lemma_fundamental_div_mod_converse(i, 16, v.y + 16 * v.z, v.x as int);
    lemma_fundamental_div_mod_converse(v.y + 16 * v.z, 16, v.z as int, v.y as int);
    assert(i / 256 == v.z) by {
        lemma_fundamental_div_mod_converse(i, 256, v.z as int, 16 * v.y + v.x);
    }
}

/// World-space height of local cell `v` in the chunk at `pos`.
pub open spec fn world_y(pos: Ivec3, v: Ivec3) -> int {
    pos.y * SIZE + v.y
}

/// World-space x coordinate of local cell `v` in the chunk at `pos`.
pub open spec fn world_x(pos: Ivec3, v: Ivec3) -> int {
    pos.x * SIZE + v.x
}

/// World-space z coordinate of local cell `v` in the chunk at `pos`.
pub open spec fn world_z(pos: Ivec3, v: Ivec3) -> int {
    pos.z * SIZE + v.z
}

/// Density at local cell `v`, in thousandths: the terrain signal, minus
/// a height bias of one eighteenth per world-height unit, plus the
/// cave signal scaled by `4.5`.
pub open spec fn terrain_val(pos: Ivec3, n: ChunkNoise, v: Ivec3) -> int {
    n.terr_at(v.x as int, v.z as int) - (world_y(pos, v) * 1000) / 18 + (n.cave_at(v) * 9) / 2
}

/// Classification of one cell from its density and world height:
/// positive density is stone; otherwise below world height 0 is water
/// with isovalue `WATER_ISO`; otherwise air keeping the sampled density.
pub open spec fn terrain_cell(pos: Ivec3, n: ChunkNoise, v: Ivec3) -> Cell {
    let val = terrain_val(pos, n, v);
    if val > 0 {
        Cell { tex_id: STONE, shape_id: VoxShape::Isosurface, isovalue: val as i64 }
    } else if world_y(pos, v) < 0 {
        Cell { tex_id: WATER, shape_id: VoxShape::Isosurface, isovalue: WATER_ISO }
    } else {
        Cell { tex_id: NIL, shape_id: VoxShape::Isosurface, isovalue: val as i64 }
    }
}

/// The full base field of a chunk as a mathematical value.
pub open spec fn terrain_gen(pos: Ivec3, n: ChunkNoise) -> Seq<Cell> {
    Seq::new(VOLUME as nat, |i: int| terrain_cell(pos, n, index_pos(i)))
}

/// Water classification: wherever the density is not positive and the
/// world height is negative, the cell is water with isovalue exactly
/// `WATER_ISO`, whatever the underlying noise magnitude.
pub proof fn lemma_water_classification(pos: Ivec3, n: ChunkNoise, v: Ivec3)
    requires
        terrain_val(pos, n, v) <= 0,
        world_y(pos, v) < 0,
    ensures
        terrain_cell(pos, n, v).tex_id == WATER,
        terrain_cell(pos, n, v).isovalue == WATER_ISO,
{
}

/// The terrain generator.
pub struct WorldGen {}

impl WorldGen {
    /// Carves the base stone/water/air density field into `chunk`,
    /// overwriting every cell; the result depends only on the chunk
    /// position and the noise samples.
    pub fn terrain_pass(chunk: &mut Chunk, n: &ChunkNoise)
        requires
            old(chunk).wf(),
            n.wf(),
            pos_bounded(old(chunk).chunkpos),
        ensures
            final(chunk).wf(),
            final(chunk).chunkpos == old(chunk).chunkpos,
            final(chunk).cells@ == terrain_gen(old(chunk).chunkpos, *n),
    {
        let ghost pos = chunk.chunkpos;
        let mut i: usize = 0;
        while i < VOLUME
            invariant
                chunk.wf(),
                n.wf(),
                chunk.chunkpos == pos,
                pos_bounded(pos),
                i <= VOLUME,
                forall|k: int| 0 <= k < i ==> chunk.cells[k] == terrain_gen(pos, *n)[k],
            decreases VOLUME - i,
        {
            let lx: usize = i % 16;
            let ly: usize = (i / 16) % 16;
            let lz: usize = i / 256;
            let v = Ivec3::new(lx as i32, ly as i32, lz as i32);
            proof {
                lemma_index_pos(i as int);
                assert(v == index_pos(i as int));
                crate::vox::lemma_cell_index_bounds(v);
            }
            let wy: i64 = (chunk.chunkpos.y as i64) * 16 + (v.y as i64);
            let terr: i64 = n.terr[lx + 16 * lz];
            let cave: i64 = n.cave[i];
            let val: i64 = terr - floor_div(wy * 1000, 18) + floor_div(cave * 9, 2);
            proof {
                assert(val == terrain_val(pos, *n, v)) by {
                    assert(n.terr[column_index(v.x as int, v.z as int)] == terr);
                    assert(n.cave_at(v) == cave);
                }
            }
            let cell: Cell = if val > 0 {
                Cell::new(STONE, VoxShape::Isosurface, val)
            } else if wy < 0 {
                Cell::new(WATER, VoxShape::Isosurface, WATER_ISO)
            } else {
                Cell::new(NIL, VoxShape::Isosurface, val)
            };
            proof {
                assert(cell == terrain_cell(pos, *n, v));
            }
            chunk.set_cell(v, &cell);
            i = i + 1;
        }
        proof {
            assert(chunk.cells@ =~= terrain_gen(pos, *n));
        }
    }
}

/// Dense cell index of local coordinates given separately.
pub open spec fn idx3(x: int, y: int, z: int) -> int {
    x + 16 * (y + 16 * z)
}

/// Length of the run of consecutive non-empty cells starting at local
/// height `y` and going up, stopping at the first empty cell or the
/// chunk top: the "distance to air" of the surface pass.
pub open spec fn air_run(c: Seq<Cell>, x: int, z: int, y: int) -> int
    decreases 16 - y,
{
    if y < 0 || y >= 16 {
        0
    } else if c[idx3(x, y, z)].tex_id == NIL {
        0
    } else {
        1 + air_run(c, x, z, y + 1)
    }
}

/// The air run is nonnegative and fits in the chunk above `y`.
pub proof fn lemma_air_run_bounds(c: Seq<Cell>, x: int, z: int, y: int)
    ensures
        0 <= air_run(c, x, z, y),
        0 <= y <= 16 ==> air_run(c, x, z, y) <= 16 - y,
    decreases 16 - y,
{
    if 0 <= y < 16 {
        lemma_air_run_bounds(c, x, z, y + 1);
    }
}

/// One cell after the surface-material pass: exposed stone near the
/// surface becomes sand, grass or dirt depending on its distance to air
/// and the shore signal; everything else is unchanged.
pub open spec fn surface_cell(c: Seq<Cell>, pos: Ivec3, n: ChunkNoise, v: Ivec3) -> Cell {
    let cell = c[idx3(v.x as int, v.y as int, v.z as int)];
    if cell.tex_id == STONE {
        let ad = air_run(c, v.x as int, v.z as int, v.y as int);
        if world_y(pos, v) < 2 && ad <= 2 && n.sand_at(v.x as int, v.z as int) > 100 {
            Cell { tex_id: SAND, shape_id: cell.shape_id, isovalue: cell.isovalue }
        } else if ad <= 1 {
            Cell { tex_id: GRASS, shape_id: cell.shape_id, isovalue: cell.isovalue }
        } else if ad < 3 {
            Cell { tex_id: DIRT, shape_id: cell.shape_id, isovalue: cell.isovalue }
        } else {
            cell
        }
    } else {
        cell
    }
}

/// The whole chunk after the surface-material pass.
pub open spec fn surface_gen(c: Seq<Cell>, pos: Ivec3, n: ChunkNoise) -> Seq<Cell> {
    Seq::new(VOLUME as nat, |i: int| surface_cell(c, pos, n, index_pos(i)))
}

/// Exposed stone never stays stone: a stone cell whose distance to air
/// is 1 becomes grass, or sand when the shore condition holds.
pub proof fn lemma_surface_exposed_stone(c: Seq<Cell>, pos: Ivec3, n: ChunkNoise, v: Ivec3)
    requires
        c[idx3(v.x as int, v.y as int, v.z as int)].tex_id == STONE,
        air_run(c, v.x as int, v.z as int, v.y as int) <= 1,
    ensures
        surface_cell(c, pos, n, v).tex_id != STONE,
        surface_cell(c, pos, n, v).tex_id == GRASS || surface_cell(c, pos, n, v).tex_id == SAND,
        !(world_y(pos, v) < 2 && n.sand_at(v.x as int, v.z as int) > 100) ==> surface_cell(
            c,
            pos,
            n,
            v,
        ).tex_id == GRASS,
{
}

impl WorldGen {
    /// Surface-material pass: scans every column top to bottom tracking
    /// the distance to air and replaces exposed stone by sand, grass or
    /// dirt as `surface_cell` describes.
    pub fn surface_pass(chunk: &mut Chunk, n: &ChunkNoise)
        requires
            old(chunk).wf(),
            n.wf(),
            pos_bounded(old(chunk).chunkpos),
        ensures
            final(chunk).wf(),
            final(chunk).chunkpos == old(chunk).chunkpos,
            final(chunk).cells@ == surface_gen(old(chunk).cells@, old(chunk).chunkpos, *n),
    {
        let ghost pos = chunk.chunkpos;
        let ghost c0 = chunk.cells@;
        let mut col: usize = 0;
        while col < 256
            invariant
                chunk.wf(),
                n.wf(),
                chunk.chunkpos == pos,
                pos_bounded(pos),
                col <= 256,
                c0.len() == VOLUME,
                forall|i: int|
                    0 <= i < VOLUME ==> #[trigger] chunk.cells[i] == (if 16 * index_pos(i).x
                        + index_pos(i).z < col {
                        surface_cell(c0, pos, *n, index_pos(i))
                    } else {
                        c0[i]
                    }),
            decreases 256 - col,
        {
            let lx: usize = col / 16;
            let lz: usize = col % 16;
            let mut air: u64 = 0;
            let mut yi: usize = 0;
            while yi < 16
                invariant
                    chunk.wf(),
                    n.wf(),
                    chunk.chunkpos == pos,
                    pos_bounded(pos),
                    col < 256,
                    lx == col / 16,
                    lz == col % 16,
                    yi <= 16,
                    c0.len() == VOLUME,
                    air == air_run(c0, lx as int, lz as int, 16 - yi),
                    forall|i: int|
                        0 <= i < VOLUME ==> #[trigger] chunk.cells[i] == (if 16 * index_pos(i).x
                            + index_pos(i).z < col || (16 * index_pos(i).x + index_pos(i).z == col
                            && index_pos(i).y >= 16 - yi) {
                            surface_cell(c0, pos, *n, index_pos(i))
                        } else {
                            c0[i]
                        }),
                decreases 16 - yi,
            {
                let ly: usize = 15 - yi;
                let v = Ivec3::new(lx as i32, ly as i32, lz as i32);
                proof {
                    crate::vox::lemma_cell_index_bounds(v);
                    lemma_pos_index(v);
                    assert(16 * v.x + v.z == col && v.y == 16 - yi - 1);
                    assert(chunk.cells[cell_index(v)] == c0[cell_index(v)]);
                    assert(idx3(v.x as int, v.y as int, v.z as int) == cell_index(v));
                    lemma_air_run_bounds(c0, lx as int, lz as int, ly as int);
                }
                let cur: Cell = chunk.get_cell(v);
                if cur.is_tex_empty() {
                    air = 0;
                } else {
                    air = air + 1;
                }
                proof {
                    assert(air == air_run(c0, lx as int, lz as int, ly as int));
                }
                if cur.tex_id == STONE {
                    let wy: i64 = (chunk.chunkpos.y as i64) * 16 + (v.y as i64);
                    let sand_sig: i64 = n.sand[lx + 16 * lz];
                    proof {
                        assert(n.sand_at(v.x as int, v.z as int) == sand_sig) by {
                            assert(n.sand[column_index(v.x as int, v.z as int)] == sand_sig);
                        }
                    }
                    let replaced: u16 = if wy < 2 && air <= 2 && sand_sig > 100 {
                        SAND
                    } else if air <= 1 {
                        GRASS
                    } else if air < 3 {
                        DIRT
                    } else {
                        STONE
                    };
                    let cnew = Cell::new(replaced, cur.shape_id, cur.isovalue);
                    proof {
                        assert(cnew == surface_cell(c0, pos, *n, v));
                    }
                    chunk.set_cell(v, &cnew);
                } else {
                    proof {
                        assert(cur == surface_cell(c0, pos, *n, v));
                    }
                    chunk.set_cell(v, &cur);
                }
                proof {
                    assert forall|i: int| 0 <= i < VOLUME implies #[trigger] chunk.cells[i] == (
                    if 16 * index_pos(i).x + index_pos(i).z < col || (16 * index_pos(i).x
                        + index_pos(i).z == col && index_pos(i).y >= 16 - (yi + 1)) {
                        surface_cell(c0, pos, *n, index_pos(i))
                    } else {
                        c0[i]
                    }) by {
                        lemma_index_pos(i);
                        if i == cell_index(v) {
                            assert(index_pos(i) == v);
                        }
                    }
                }
                yi = yi + 1;
            }
            col = col + 1;
        }
        proof {
            assert forall|i: int| 0 <= i < VOLUME implies chunk.cells[i] == surface_gen(
                c0,
                pos,
                *n,
            )[i] by {
                lemma_index_pos(i);
                assert(16 * index_pos(i).x + index_pos(i).z < 256);
            }
            assert(chunk.cells@ =~= surface_gen(c0, pos, *n));
        }
    }
}

/// World x coordinate of local cell `v`, as a machine integer.
pub open spec fn wx32(pos: Ivec3, v: Ivec3) -> i32 {
    (pos.x * 16 + v.x) as i32
}

/// World z coordinate of local cell `v`, as a machine integer.
pub open spec fn wz32(pos: Ivec3, v: Ivec3) -> i32 {
    (pos.z * 16 + v.z) as i32
}

/// First local height whose cell is grass with an empty cell above,
/// scanning bottom to top from `y`; `-1` when there is none.
pub open spec fn flora_scan(c: Seq<Cell>, x: int, z: int, y: int) -> int
    decreases 15 - y,
{
    if y < 0 || y >= 15 {
        -1
    } else if c[idx3(x, y, z)].tex_id == GRASS && c[idx3(x, y + 1, z)].tex_id == NIL {
        y
    } else {
        flora_scan(c, x, z, y + 1)
    }
}

/// The scan lands in `[-1, 15)`.
pub proof fn lemma_flora_scan_bounds(c: Seq<Cell>, x: int, z: int, y: int)
    ensures
        -1 <= flora_scan(c, x, z, y) < 15,
        y >= 0 ==> flora_scan(c, x, z, y) == -1 || flora_scan(c, x, z, y) >= y,
    decreases 15 - y,
{
    if 0 <= y < 15 {
        lemma_flora_scan_bounds(c, x, z, y + 1);
    }
}

/// Flora variant chosen by thresholds on the scatter signal.
pub open spec fn flora_kind(g: int) -> u16 {
    if g > 940 {
        ROSE
    } else if g > 800 {
        FERN
    } else if g > 240 {
        BUSH
    } else {
        SHORTGRASS
    }
}

/// One cell after the flora pass: in a column with a positive scatter
/// signal, the empty cell above the first grass cell becomes a flora
/// cell with the decorative grass shape; everything else is unchanged.
pub open spec fn flora_cell(c: Seq<Cell>, n: ChunkNoise, v: Ivec3) -> Cell {
    let cell = c[idx3(v.x as int, v.y as int, v.z as int)];
    let g = n.flora_at(v.x as int, v.z as int);
    let target = flora_scan(c, v.x as int, v.z as int, 0);
    if g > 0 && target >= 0 && v.y == target + 1 {
        Cell { tex_id: flora_kind(g), shape_id: VoxShape::Grass, isovalue: cell.isovalue }
    } else {
        cell
    }
}

/// The whole chunk after the flora pass.
pub open spec fn flora_gen(c: Seq<Cell>, n: ChunkNoise) -> Seq<Cell> {
    Seq::new(VOLUME as nat, |i: int| flora_cell(c, n, index_pos(i)))
}

/// First local height whose cell is empty with stone above, scanning
/// bottom to top from `y`; `-1` when there is none: where a vine roots.
pub open spec fn vine_scan(c: Seq<Cell>, x: int, z: int, y: int) -> int
    decreases 15 - y,
{
    if y < 0 || y >= 15 {
        -1
    } else if c[idx3(x, y, z)].tex_id == NIL && c[idx3(x, y + 1, z)].tex_id == STONE {
        y
    } else {
        vine_scan(c, x, z, y + 1)
    }
}

/// The scan lands in `[-1, 15)`.
pub proof fn lemma_vine_scan_bounds(c: Seq<Cell>, x: int, z: int, y: int)
    ensures
        -1 <= vine_scan(c, x, z, y) < 15,
        y >= 0 ==> vine_scan(c, x, z, y) == -1 || vine_scan(c, x, z, y) >= y,
    decreases 15 - y,
{
    if 0 <= y < 15 {
        lemma_vine_scan_bounds(c, x, z, y + 1);
    }
}

/// Number of cells a vine actually fills going down from `start`:
/// it stops at its drawn length, at the chunk floor, or at the first
/// non-empty cell.
pub open spec fn vine_ext(c: Seq<Cell>, x: int, z: int, start: int, len: int, i: int) -> int
    decreases len - i,
{
    if i >= len || start - i < 0 || c[idx3(x, start - i, z)].tex_id != NIL {
        i
    } else {
        vine_ext(c, x, z, start, len, i + 1)
    }
}

/// One cell after the vine pass: in a gated column, the cells the vine
/// fills become leaf cells; everything else is unchanged.
pub open spec fn vine_cell(c: Seq<Cell>, pos: Ivec3, v: Ivec3) -> Cell {
    let cell = c[idx3(v.x as int, v.y as int, v.z as int)];
    let wx = wx32(pos, v);
    let wz = wz32(pos, v);
    let start = vine_scan(c, v.x as int, v.z as int, 0);
    let len = 12 * coord_hash_spec(wx, 0, wz, SALT_VINE_LEN) / 65536;
    if coord_hash_spec(wx, 0, wz, SALT_VINE) < 4608 && start >= 0 && v.y <= start && start - v.y
        < vine_ext(c, v.x as int, v.z as int, start, len, 0) {
        Cell { tex_id: LEAVES, shape_id: VoxShape::Leaves, isovalue: cell.isovalue }
    } else {
        cell
    }
}

/// The whole chunk after the vine pass.
pub open spec fn vine_gen(c: Seq<Cell>, pos: Ivec3) -> Seq<Cell> {
    Seq::new(VOLUME as nat, |i: int| vine_cell(c, pos, index_pos(i)))
}

impl WorldGen {
    /// Flora pass: per column, when the scatter signal is positive,
    /// replaces the empty cell above the first grass cell by the flora
    /// variant the signal selects.
    pub fn flora_pass(chunk: &mut Chunk, n: &ChunkNoise)
        requires
            old(chunk).wf(),
            n.wf(),
            pos_bounded(old(chunk).chunkpos),
        ensures
            final(chunk).wf(),
            final(chunk).chunkpos == old(chunk).chunkpos,
            final(chunk).cells@ == flora_gen(old(chunk).cells@, *n),
    {
        let ghost pos = chunk.chunkpos;
        let ghost c0 = chunk.cells@;
        let mut col: usize = 0;
        while col < 256
            invariant
                chunk.wf(),
                n.wf(),
                chunk.chunkpos == pos,
                pos_bounded(pos),
                col <= 256,
                c0.len() == VOLUME,
                forall|i: int|
                    0 <= i < VOLUME ==> #[trigger] chunk.cells[i] == (if 16 * index_pos(i).x
                        + index_pos(i).z < col {
                        flora_cell(c0, *n, index_pos(i))
                    } else {
                        c0[i]
                    }),
            decreases 256 - col,
        {
            let lx: usize = col / 16;
            let lz: usize = col % 16;
            let g: i64 = n.flora[lx + 16 * lz];
            proof {
                assert(n.flora_at(lx as int, lz as int) == g) by {
                    assert(n.flora[column_index(lx as int, lz as int)] == g);
                }
                lemma_flora_scan_bounds(c0, lx as int, lz as int, 0);
            }
            if g > 0 {
                let mut ly: usize = 0;
                let mut target: i32 = -1;
                while ly < 15 && target < 0
                    invariant
                        chunk.wf(),
                        n.wf(),
                        chunk.chunkpos == pos,
                        col < 256,
                        lx == col / 16,
                        lz == col % 16,
                        ly <= 15,
                        c0.len() == VOLUME,
                        forall|i: int|
                            0 <= i < VOLUME ==> #[trigger] chunk.cells[i] == (if 16 * index_pos(
                                i,
                            ).x + index_pos(i).z < col {
                                flora_cell(c0, *n, index_pos(i))
                            } else {
                                c0[i]
                            }),
                        target < 0 ==> flora_scan(c0, lx as int, lz as int, ly as int)
                            == flora_scan(c0, lx as int, lz as int, 0),
                        target >= 0 ==> target == flora_scan(c0, lx as int, lz as int, 0)
                            && target == ly && ly < 15,
                    decreases 15 - ly + (if target < 0 {
                        1int
                    } else {
                        0int
                    }),
                {
                    let v = Ivec3::new(lx as i32, ly as i32, lz as i32);
                    let va = Ivec3::new(lx as i32, (ly + 1) as i32, lz as i32);
                    proof {
                        crate::vox::lemma_cell_index_bounds(v);
                        crate::vox::lemma_cell_index_bounds(va);
                        lemma_pos_index(v);
                        lemma_pos_index(va);
                        assert(chunk.cells[cell_index(v)] == c0[cell_index(v)]);
                        assert(chunk.cells[cell_index(va)] == c0[cell_index(va)]);
                    }
                    let cb: Cell = chunk.get_cell(v);
                    let ca: Cell = chunk.get_cell(va);
                    if cb.tex_id == GRASS && ca.tex_id == NIL {
                        target = ly as i32;
                    } else {
                        ly = ly + 1;
                    }
                }
                if target >= 0 {
                    let vt = Ivec3::new(lx as i32, target + 1, lz as i32);
                    proof {
                        crate::vox::lemma_cell_index_bounds(vt);
                        lemma_pos_index(vt);
                        assert(chunk.cells[cell_index(vt)] == c0[cell_index(vt)]);
                    }
                    let cur: Cell = chunk.get_cell(vt);
                    let kind: u16 = if g > 940 {
                        ROSE
                    } else if g > 800 {
                        FERN
                    } else if g > 240 {
                        BUSH
                    } else {
                        SHORTGRASS
                    };
                    let cnew = Cell::new(kind, VoxShape::Grass, cur.isovalue);
                    proof {
                        assert(cnew == flora_cell(c0, *n, vt));
                    }
                    chunk.set_cell(vt, &cnew);
                    proof {
                        assert forall|i: int| 0 <= i < VOLUME implies #[trigger] chunk.cells[i]
                            == (if 16 * index_pos(i).x + index_pos(i).z < col + 1 {
                            flora_cell(c0, *n, index_pos(i))
                        } else {
                            c0[i]
                        }) by {
                            lemma_index_pos(i);
                            let w = index_pos(i);
                            if i == cell_index(vt) {
                                assert(w == vt);
                            } else if 16 * w.x + w.z == col {
                                assert(w.x == lx && w.z == lz) by (nonlinear_arith)
                                    requires
                                        16 * w.x + w.z == col,
                                        lx == col / 16,
                                        lz == col % 16,
                                        0 <= w.x < 16,
                                        0 <= w.z < 16,
                                        col < 256,
                                {
                                }
                                assert(w.y != target + 1) by {
                                    if w.y == target + 1 {
                                        crate::vox::lemma_cell_index_injective(w, vt);
                                    }
                                }
                                assert(flora_cell(c0, *n, w) == c0[i]);
                            }
                        }
                    }
                } else {
                    proof {
                        assert(flora_scan(c0, lx as int, lz as int, 0) == -1);
                        assert forall|i: int| 0 <= i < VOLUME implies #[trigger] chunk.cells[i]
                            == (if 16 * index_pos(i).x + index_pos(i).z < col + 1 {
                            flora_cell(c0, *n, index_pos(i))
                        } else {
                            c0[i]
                        }) by {
                            lemma_index_pos(i);
                            let w = index_pos(i);
                            if 16 * w.x + w.z == col {
                                assert(w.x == lx && w.z == lz) by (nonlinear_arith)
                                    requires
                                        16 * w.x + w.z == col,
                                        lx == col / 16,
                                        lz == col % 16,
                                        0 <= w.x < 16,
                                        0 <= w.z < 16,
                                        col < 256,
                                {
                                }
                                assert(flora_cell(c0, *n, w) == c0[i]);
                            }
                        }
                    }
                }
            } else {
                proof {
                    assert forall|i: int| 0 <= i < VOLUME implies #[trigger] chunk.cells[i] == (
                    if 16 * index_pos(i).x + index_pos(i).z < col + 1 {
                        flora_cell(c0, *n, index_pos(i))
                    } else {
                        c0[i]
                    }) by {
                        lemma_index_pos(i);
                        let w = index_pos(i);
                        if 16 * w.x + w.z == col {
                            assert(w.x == lx && w.z == lz) by (nonlinear_arith)
                                requires
                                    16 * w.x + w.z == col,
                                    lx == col / 16,
                                    lz == col % 16,
                                    0 <= w.x < 16,
                                    0 <= w.z < 16,
                                    col < 256,
                            {
                            }
                            assert(flora_cell(c0, *n, w) == c0[i]);
                        }
                    }
                }
            }
            col = col + 1;
        }
        proof {
            assert forall|i: int| 0 <= i < VOLUME implies chunk.cells[i] == flora_gen(c0, *n)[i]
                by {
                lemma_index_pos(i);
                assert(16 * index_pos(i).x + index_pos(i).z < 256);
            }
            assert(chunk.cells@ =~= flora_gen(c0, *n));
        }
    }
}

impl WorldGen {
    /// Vine pass: in columns gated by the coordinate hash, grows a
    /// leaf-cell vine downward from the first empty-under-stone cell,
    /// stopping at its drawn length, the chunk floor, or the first
    /// non-empty cell.
    pub fn vine_pass(chunk: &mut Chunk)
        requires
            old(chunk).wf(),
            pos_bounded(old(chunk).chunkpos),
        ensures
            final(chunk).wf(),
            final(chunk).chunkpos == old(chunk).chunkpos,
            final(chunk).cells@ == vine_gen(old(chunk).cells@, old(chunk).chunkpos),
    {
        let ghost pos = chunk.chunkpos;
        let ghost c0 = chunk.cells@;
        let mut col: usize = 0;
        while col < 256
            invariant
                chunk.wf(),
                chunk.chunkpos == pos,
                pos_bounded(pos),
                col <= 256,
                c0.len() == VOLUME,
                forall|i: int|
                    0 <= i < VOLUME ==> #[trigger] chunk.cells[i] == (if 16 * index_pos(i).x
                        + index_pos(i).z < col {
                        vine_cell(c0, pos, index_pos(i))
                    } else {
                        c0[i]
                    }),
            decreases 256 - col,
        {
            let lx: usize = col / 16;
            let lz: usize = col % 16;
            let wx: i32 = chunk.chunkpos.x * 16 + lx as i32;
            let wz: i32 = chunk.chunkpos.z * 16 + lz as i32;
            let ghost vcol = Ivec3 { x: lx as i32, y: 0, z: lz as i32 };
            proof {
                assert(wx == wx32(pos, vcol) && wz == wz32(pos, vcol));
                lemma_vine_scan_bounds(c0, lx as int, lz as int, 0);
            }
            let gate: u64 = coord_hash(wx, 0, wz, SALT_VINE);
            if gate < 4608 {
                let mut ly: usize = 0;
                let mut start: i32 = -1;
                while ly < 15 && start < 0
                    invariant
                        chunk.wf(),
                        chunk.chunkpos == pos,
                        col < 256,
                        lx == col / 16,
                        lz == col % 16,
                        ly <= 15,
                        c0.len() == VOLUME,
                        forall|i: int|
                            0 <= i < VOLUME ==> #[trigger] chunk.cells[i] == (if 16 * index_pos(
                                i,
                            ).x + index_pos(i).z < col {
                                vine_cell(c0, pos, index_pos(i))
                            } else {
                                c0[i]
                            }),
                        start < 0 ==> vine_scan(c0, lx as int, lz as int, ly as int) == vine_scan(
                            c0,
                            lx as int,
                            lz as int,
                            0,
                        ),
                        start >= 0 ==> start == vine_scan(c0, lx as int, lz as int, 0) && start
                            == ly && ly < 15,
                    decreases 15 - ly + (if start < 0 {
                        1int
                    } else {
                        0int
                    }),
                {
                    let v = Ivec3::new(lx as i32, ly as i32, lz as i32);
                    let va = Ivec3::new(lx as i32, (ly + 1) as i32, lz as i32);
                    proof {
                        crate::vox::lemma_cell_index_bounds(v);
                        crate::vox::lemma_cell_index_bounds(va);
                        lemma_pos_index(v);
                        lemma_pos_index(va);
                        assert(chunk.cells[cell_index(v)] == c0[cell_index(v)]);
                        assert(chunk.cells[cell_index(va)] == c0[cell_index(va)]);
                    }
                    let cb: Cell = chunk.get_cell(v);
                    let ca: Cell = chunk.get_cell(va);
                    if cb.tex_id == NIL && ca.tex_id == STONE {
                        start = ly as i32;
                    } else {
                        ly = ly + 1;
                    }
                }
                if start >= 0 {
                    let lh: u64 = coord_hash(wx, 0, wz, SALT_VINE_LEN);
                    let len: usize = ((12 * lh) / 65536) as usize;
                    let ghost lensp = 12 * coord_hash_spec(wx, 0, wz, SALT_VINE_LEN) / 65536;
                    proof {
                        assert(len == lensp);
                        assert(len < 12);
                    }
                    let mut k: usize = 0;
                    let mut stop = false;
                    while k < len && !stop
                        invariant
                            chunk.wf(),
                            chunk.chunkpos == pos,
                            col < 256,
                            lx == col / 16,
                            lz == col % 16,
                            c0.len() == VOLUME,
                            0 <= start < 15,
                            start == vine_scan(c0, lx as int, lz as int, 0),
                            len == lensp,
                            len < 12,
                            k <= len,
                            k <= start + 1,
                            !stop ==> vine_ext(c0, lx as int, lz as int, start as int, lensp, 0)
                                == vine_ext(
                                c0,
                                lx as int,
                                lz as int,
                                start as int,
                                lensp,
                                k as int,
                            ),
                            stop ==> k == vine_ext(c0, lx as int, lz as int, start as int, lensp, 0),
                            forall|i: int|
                                0 <= i < VOLUME ==> #[trigger] chunk.cells[i] == (if 16 * index_pos(
                                    i,
                                ).x + index_pos(i).z < col {
                                    vine_cell(c0, pos, index_pos(i))
                                } else if index_pos(i).x == lx && index_pos(i).z == lz && start - k
                                    < index_pos(i).y <= start {
                                    Cell {
                                        tex_id: LEAVES,
                                        shape_id: VoxShape::Leaves,
                                        isovalue: c0[i].isovalue,
                                    }
                                } else {
                                    c0[i]
                                }),
                        decreases len - k + (if stop {
                            0int
                        } else {
                            1int
                        }),
                    {
                        let y: i32 = start - k as i32;
                        if y < 0 {
                            stop = true;
                        } else {
                            let v = Ivec3::new(lx as i32, y, lz as i32);
                            proof {
                                crate::vox::lemma_cell_index_bounds(v);
                                lemma_pos_index(v);
                                assert(chunk.cells[cell_index(v)] == c0[cell_index(v)]);
                            }
                            let cur: Cell = chunk.get_cell(v);
                            if cur.tex_id != NIL {
                                stop = true;
                            } else {
                                let cnew = Cell::new(LEAVES, VoxShape::Leaves, cur.isovalue);
                                chunk.set_cell(v, &cnew);
                                proof {
                                    assert forall|i: int| 0 <= i < VOLUME implies
                                        #[trigger] chunk.cells[i] == (if 16 * index_pos(i).x
                                        + index_pos(i).z < col {
                                        vine_cell(c0, pos, index_pos(i))
                                    } else if index_pos(i).x == lx && index_pos(i).z == lz && start
                                        - (k + 1) < index_pos(i).y <= start {
                                        Cell {
                                            tex_id: LEAVES,
                                            shape_id: VoxShape::Leaves,
                                            isovalue: c0[i].isovalue,
                                        }
                                    } else {
                                        c0[i]
                                    }) by {
                                        lemma_index_pos(i);
                                        if i == cell_index(v) {
                                            assert(index_pos(i) == v);
                                        }
                                    }
                                }
                                k = k + 1;
                            }
                        }
                    }
                    proof {
                        assert(k == vine_ext(c0, lx as int, lz as int, start as int, lensp, 0));
                        assert forall|i: int| 0 <= i < VOLUME implies #[trigger] chunk.cells[i]
                            == (if 16 * index_pos(i).x + index_pos(i).z < col + 1 {
                            vine_cell(c0, pos, index_pos(i))
                        } else {
                            c0[i]
                        }) by {
                            lemma_index_pos(i);
                            let w = index_pos(i);
                            if 16 * w.x + w.z == col {
                                assert(w.x == lx && w.z == lz) by (nonlinear_arith)
                                    requires
                                        16 * w.x + w.z == col,
                                        lx == col / 16,
                                        lz == col % 16,
                                        0 <= w.x < 16,
                                        0 <= w.z < 16,
                                        col < 256,
                                {
                                }
                                assert(wx32(pos, w) == wx && wz32(pos, w) == wz);
                            }
                        }
                    }
                } else {
                    proof {
                        assert(vine_scan(c0, lx as int, lz as int, 0) == -1);
                        assert forall|i: int| 0 <= i < VOLUME implies #[trigger] chunk.cells[i]
                            == (if 16 * index_pos(i).x + index_pos(i).z < col + 1 {
                            vine_cell(c0, pos, index_pos(i))
                        } else {
                            c0[i]
                        }) by {
                            lemma_index_pos(i);
                            let w = index_pos(i);
                            if 16 * w.x + w.z == col {
                                assert(w.x == lx && w.z == lz) by (nonlinear_arith)
                                    requires
                                        16 * w.x + w.z == col,
                                        lx == col / 16,
                                        lz == col % 16,
                                        0 <= w.x < 16,
                                        0 <= w.z < 16,
                                        col < 256,
                                {
                                }
                                assert(wx32(pos, w) == wx && wz32(pos, w) == wz);
                                assert(vine_cell(c0, pos, w) == c0[i]);
                            }
                        }
                    }
                }
            } else {
                proof {
                    assert forall|i: int| 0 <= i < VOLUME implies #[trigger] chunk.cells[i] == (
                    if 16 * index_pos(i).x + index_pos(i).z < col + 1 {
                        vine_cell(c0, pos, index_pos(i))
                    } else {
                        c0[i]
                    }) by {
                        lemma_index_pos(i);
                        let w = index_pos(i);
                        if 16 * w.x + w.z == col {
                            assert(w.x == lx && w.z == lz) by (nonlinear_arith)
                                requires
                                    16 * w.x + w.z == col,
                                    lx == col / 16,
                                    lz == col % 16,
                                    0 <= w.x < 16,
                                    0 <= w.z < 16,
                                    col < 256,
                            {
                            }
                            assert(wx32(pos, w) == wx && wz32(pos, w) == wz);
                            assert(vine_cell(c0, pos, w) == c0[i]);
                        }
                    }
                }
            }
            col = col + 1;
        }
        proof {
            assert forall|i: int| 0 <= i < VOLUME implies chunk.cells[i] == vine_gen(c0, pos)[i]
                by {
                lemma_index_pos(i);
                assert(16 * index_pos(i).x + index_pos(i).z < 256);
            }
            assert(chunk.cells@ =~= vine_gen(c0, pos));
        }
    }
}

/// Trunk height drawn from the tree's size factor (`siz` in
/// `[0, 65536)` stands for a real factor in `[0, 1)`).
pub open spec fn tree_h(siz: int) -> int {
    3 + (6 * siz) / 65536
}

/// Canopy radius drawn from the tree's size factor.
pub open spec fn tree_rad(siz: int) -> int {
    2 + (5 * siz) / 65536
}

/// Trunk isovalue at height `i` of a trunk of height `h`, tapering from
/// `2.4` at the base toward `0.4` at the top, in thousandths.
pub open spec fn trunk_iso(i: int, h: int) -> int {
    2400 - (2000 * i) / h
}

/// Whether local cell `v` belongs to the trunk of a tree rooted at `lp`.
pub open spec fn is_trunk_cell(lp: Ivec3, siz: int, v: Ivec3) -> bool {
    &&& v.x == lp.x
    &&& v.z == lp.z
    &&& lp.y <= v.y < lp.y + tree_h(siz)
}

/// Whether local cell `v` belongs to the canopy disk of a tree rooted
/// at `lp`: the one-cell band above the trunk top, inside the squared
/// radius.
pub open spec fn is_leaf_cell(lp: Ivec3, siz: int, v: Ivec3) -> bool {
    let r = tree_rad(siz);
    &&& v.y == lp.y + tree_h(siz)
    &&& (v.x - lp.x) * (v.x - lp.x) + (v.z - lp.z) * (v.z - lp.z) < r * r
}

/// The chunk after growing one tree rooted at `lp`: trunk cells become
/// tapering log isosurface cells, canopy cells become leaf cells, and
/// anything reaching past the chunk boundary is silently clipped.
pub open spec fn grow_tree_spec(c: Seq<Cell>, lp: Ivec3, siz: int) -> Seq<Cell> {
    Seq::new(
        VOLUME as nat,
        |i: int|
            {
                let v = index_pos(i);
                if is_trunk_cell(lp, siz, v) {
                    Cell {
                        tex_id: LOG,
                        shape_id: VoxShape::Isosurface,
                        isovalue: trunk_iso(v.y - lp.y, tree_h(siz)) as i64,
                    }
                } else if is_leaf_cell(lp, siz, v) {
                    Cell { tex_id: LEAVES, shape_id: VoxShape::Leaves, isovalue: c[i].isovalue }
                } else {
                    c[i]
                }
            },
    )
}

/// Tree containment: a tree only ever writes cells whose local
/// coordinates lie inside the chunk, whatever its root and size.
pub proof fn lemma_tree_containment(c: Seq<Cell>, lp: Ivec3, siz: int, i: int)
    requires
        c.len() == VOLUME,
        0 <= i < VOLUME,
    ensures
        grow_tree_spec(c, lp, siz)[i] != c[i] ==> in_bounds(index_pos(i)),
        grow_tree_spec(c, lp, siz)[i] != c[i] ==> is_trunk_cell(lp, siz, index_pos(i))
            || is_leaf_cell(lp, siz, index_pos(i)),
{
    lemma_index_pos(i);
}

/// First local height whose cell is grass, scanning bottom to top from
/// `y`; `-1` when there is none: where a tree roots.
pub open spec fn tree_root(c: Seq<Cell>, x: int, z: int, y: int) -> int
    decreases 16 - y,
{
    if y < 0 || y >= 16 {
        -1
    } else if c[idx3(x, y, z)].tex_id == GRASS {
        y
    } else {
        tree_root(c, x, z, y + 1)
    }
}

/// The scan lands in `[-1, 16)`.
pub proof fn lemma_tree_root_bounds(c: Seq<Cell>, x: int, z: int, y: int)
    ensures
        -1 <= tree_root(c, x, z, y) < 16,
        y >= 0 ==> tree_root(c, x, z, y) == -1 || tree_root(c, x, z, y) >= y,
    decreases 16 - y,
{
    if 0 <= y < 16 {
        lemma_tree_root_bounds(c, x, z, y + 1);
    }
}

/// The chunk after the tree decision for one column: in a gated column,
/// a tree grows on the first grass cell, its size drawn from the
/// coordinate hash; otherwise nothing changes.
pub open spec fn tree_col(c: Seq<Cell>, pos: Ivec3, col: int) -> Seq<Cell> {
    let x = col / 16;
    let z = col % 16;
    let w = Ivec3 { x: x as i32, y: 0, z: z as i32 };
    let wx = wx32(pos, w);
    let wz = wz32(pos, w);
    if coord_hash_spec(wx, 0, wz, SALT_TREE) < 768 {
        let r = tree_root(c, x, z, 0);
        if r < 0 {
            c
        } else {
            grow_tree_spec(
                c,
                Ivec3 { x: x as i32, y: r as i32, z: z as i32 },
                coord_hash_spec(wx, r as i32, wz, SALT_TREE_SIZE),
            )
        }
    } else {
        c
    }
}

/// The chunk after the tree pass over the first `k` columns, in scan
/// order: the pass is sequential because a tree's canopy may reach into
/// columns that are scanned later.
pub open spec fn tree_prefix(c: Seq<Cell>, pos: Ivec3, k: int) -> Seq<Cell>
    decreases k,
{
    if k <= 0 {
        c
    } else {
        tree_col(tree_prefix(c, pos, k - 1), pos, k - 1)
    }
}

/// The tree pass keeps the cell count.
pub proof fn lemma_tree_prefix_len(c: Seq<Cell>, pos: Ivec3, k: int)
    requires
        c.len() == VOLUME,
    ensures
        tree_prefix(c, pos, k).len() == VOLUME,
    decreases k,
{
    if k > 0 {
        lemma_tree_prefix_len(c, pos, k - 1);
    }
}

/// The whole chunk after the tree pass.
pub open spec fn tree_gen(c: Seq<Cell>, pos: Ivec3) -> Seq<Cell> {
    tree_prefix(c, pos, 256)
}

/// Grows one tree rooted at `lp`: a tapering log trunk up from the
/// root, and a one-cell-thick canopy disk above the trunk top, both
/// clipped at the chunk boundary. `siz` in `[0, 65536)` is the size
/// factor in 65536ths.
pub fn gen_tree(chunk: &mut Chunk, lp: Ivec3, siz: u64)
    requires
        old(chunk).wf(),
        in_bounds(lp),
        siz < 65536,
    ensures
        final(chunk).wf(),
        final(chunk).chunkpos == old(chunk).chunkpos,
        final(chunk).cells@ == grow_tree_spec(old(chunk).cells@, lp, siz as int),
{
    let ghost c0 = chunk.cells@;
    let ghost sz = siz as int;
    let h: i32 = 3 + ((6 * siz) / 65536) as i32;
    let r: i32 = 2 + ((5 * siz) / 65536) as i32;
    proof {
        assert(h == tree_h(sz) && 3 <= h <= 8);
        assert(r == tree_rad(sz) && 2 <= r <= 6);
    }
    let top: i32 = lp.y + h;
    proof {
        assert forall|i: int| 0 <= i < VOLUME && is_leaf_cell(lp, sz, #[trigger] index_pos(i))
            implies -r < index_pos(i).x - lp.x < r && -r < index_pos(i).z - lp.z < r by {
            let w = index_pos(i);
            assert(-r < w.x - lp.x < r && -r < w.z - lp.z < r) by (nonlinear_arith)
                requires
                    (w.x - lp.x) * (w.x - lp.x) + (w.z - lp.z) * (w.z - lp.z) < r * r,
                    2 <= r,
            {
            }
        }
    }
    if top <= 15 {
        let mut dz: i32 = -r;
        while dz <= r
            invariant
                chunk.wf(),
                chunk.chunkpos == old(chunk).chunkpos,
                c0.len() == VOLUME,
                in_bounds(lp),
                h == tree_h(sz),
                r == tree_rad(sz),
                2 <= r <= 6,
                top == lp.y + h,
                top <= 15,
                -r <= dz <= r + 1,
                forall|i: int|
                    0 <= i < VOLUME && is_leaf_cell(lp, sz, #[trigger] index_pos(i)) ==> -r
                        < index_pos(i).x - lp.x < r && -r < index_pos(i).z - lp.z < r,
                forall|i: int|
                    0 <= i < VOLUME ==> #[trigger] chunk.cells[i] == (if is_leaf_cell(
                        lp,
                        sz,
                        index_pos(i),
                    ) && index_pos(i).z - lp.z < dz {
                        Cell {
                            tex_id: LEAVES,
                            shape_id: VoxShape::Leaves,
                            isovalue: c0[i].isovalue,
                        }
                    } else {
                        c0[i]
                    }),
            decreases r + 1 - dz,
        {
            let mut dx: i32 = -r;
            while dx <= r
                invariant
                    chunk.wf(),
                    chunk.chunkpos == old(chunk).chunkpos,
                    c0.len() == VOLUME,
                    in_bounds(lp),
                    h == tree_h(sz),
                    r == tree_rad(sz),
                    2 <= r <= 6,
                    top == lp.y + h,
                    top <= 15,
                    -r <= dz <= r,
                    -r <= dx <= r + 1,
                    forall|i: int|
                        0 <= i < VOLUME && is_leaf_cell(lp, sz, #[trigger] index_pos(i)) ==> -r
                            < index_pos(i).x - lp.x < r && -r < index_pos(i).z - lp.z < r,
                    forall|i: int|
                        0 <= i < VOLUME ==> #[trigger] chunk.cells[i] == (if is_leaf_cell(
                            lp,
                            sz,
                            index_pos(i),
                        ) && (index_pos(i).z - lp.z < dz || (index_pos(i).z - lp.z == dz
                            && index_pos(i).x - lp.x < dx)) {
                            Cell {
                                tex_id: LEAVES,
                                shape_id: VoxShape::Leaves,
                                isovalue: c0[i].isovalue,
                            }
                        } else {
                            c0[i]
                        }),
                decreases r + 1 - dx,
            {
                proof {
                    assert(0 <= dx * dx <= 49 && 0 <= dz * dz <= 49 && 0 <= r * r <= 49)
                        by (nonlinear_arith)
                        requires
                            -7 <= dx <= 7,
                            -7 <= dz <= 7,
                            0 <= r <= 7,
                    {
                    }
                }
                if dx * dx + dz * dz < r * r {
                    let v = Ivec3::new(lp.x + dx, top, lp.z + dz);
                    if Chunk::is_localpos(v) {
                        proof {
                            crate::vox::lemma_cell_index_bounds(v);
                            lemma_pos_index(v);
                        }
                        let cur: Cell = chunk.get_cell(v);
                        let cnew = Cell::new(LEAVES, VoxShape::Leaves, cur.isovalue);
                        proof {
                            assert(!is_trunk_cell(lp, sz, v));
                            assert(cur.isovalue == c0[cell_index(v)].isovalue);
                        }
                        chunk.set_cell(v, &cnew);
                    }
                }
                proof {
                    assert forall|i: int| 0 <= i < VOLUME implies #[trigger] chunk.cells[i] == (
                    if is_leaf_cell(lp, sz, index_pos(i)) && (index_pos(i).z - lp.z < dz || (
                    index_pos(i).z - lp.z == dz && index_pos(i).x - lp.x < dx + 1)) {
                        Cell {
                            tex_id: LEAVES,
                            shape_id: VoxShape::Leaves,
                            isovalue: c0[i].isovalue,
                        }
                    } else {
                        c0[i]
                    }) by {
                        lemma_index_pos(i);
                        let w = index_pos(i);
                        if w.x - lp.x == dx && w.z - lp.z == dz && w.y == top {
                            assert(w == (Ivec3 { x: (lp.x + dx) as i32, y: top, z: (lp.z + dz) as i32 }));
                        }
                    }
                }
                dx = dx + 1;
            }
            dz = dz + 1;
        }
    } else {
        proof {
            assert forall|i: int| 0 <= i < VOLUME implies !is_leaf_cell(lp, sz, index_pos(i)) by {
                lemma_index_pos(i);
            }
        }
    }
    let mut i: i32 = 0;
    let mut stopped = false;
    while i < h && !stopped
        invariant
            chunk.wf(),
            chunk.chunkpos == old(chunk).chunkpos,
            c0.len() == VOLUME,
            in_bounds(lp),
            h == tree_h(sz),
            3 <= h <= 8,
            0 <= i <= h,
            stopped ==> lp.y + i > 15,
            !stopped ==> lp.y + i <= 15 + 1,
            forall|k: int|
                0 <= k < VOLUME ==> #[trigger] chunk.cells[k] == (if is_trunk_cell(
                    lp,
                    sz,
                    index_pos(k),
                ) && index_pos(k).y - lp.y < i {
                    Cell {
                        tex_id: LOG,
                        shape_id: VoxShape::Isosurface,
                        isovalue: trunk_iso(index_pos(k).y - lp.y, tree_h(sz)) as i64,
                    }
                } else if is_leaf_cell(lp, sz, index_pos(k)) {
                    Cell { tex_id: LEAVES, shape_id: VoxShape::Leaves, isovalue: c0[k].isovalue }
                } else {
                    c0[k]
                }),
        decreases h - i + (if stopped {
            0int
        } else {
            1int
        }),
    {
        let y: i32 = lp.y + i;
        if y > 15 {
            stopped = true;
        } else {
            let v = Ivec3::new(lp.x, y, lp.z);
            proof {
                crate::vox::lemma_cell_index_bounds(v);
                lemma_pos_index(v);
            }
            let iso_drop: u64 = (2000 * (i as u64)) / (h as u64);
            let iso: i64 = 2400 - iso_drop as i64;
            proof {
                assert(iso == trunk_iso(i as int, tree_h(sz)));
            }
            let cnew = Cell::new(LOG, VoxShape::Isosurface, iso);
            chunk.set_cell(v, &cnew);
            proof {
                assert forall|k: int| 0 <= k < VOLUME implies #[trigger] chunk.cells[k] == (
                if is_trunk_cell(lp, sz, index_pos(k)) && index_pos(k).y - lp.y < i + 1 {
                    Cell {
                        tex_id: LOG,
                        shape_id: VoxShape::Isosurface,
                        isovalue: trunk_iso(index_pos(k).y - lp.y, tree_h(sz)) as i64,
                    }
                } else if is_leaf_cell(lp, sz, index_pos(k)) {
                    Cell { tex_id: LEAVES, shape_id: VoxShape::Leaves, isovalue: c0[k].isovalue }
                } else {
                    c0[k]
                }) by {
                    lemma_index_pos(k);
                    let w = index_pos(k);
                    if w.x == lp.x && w.z == lp.z && w.y == y {
                        assert(w == v);
                        assert(!is_leaf_cell(lp, sz, w));
                    }
                }
            }
            i = i + 1;
        }
    }
    proof {
        assert forall|k: int| 0 <= k < VOLUME implies chunk.cells[k] == grow_tree_spec(
            c0,
            lp,
            sz,
        )[k] by {
            lemma_index_pos(k);
            let w = index_pos(k);
            if is_trunk_cell(lp, sz, w) {
                assert(w.y <= 15);
                assert(w.y - lp.y < i);
            }
        }
        assert(chunk.cells@ =~= grow_tree_spec(c0, lp, sz));
    }
}

impl WorldGen {
    /// Tree pass: per gated column, in scan order, grows a tree on the
    /// first grass cell; canopies may reach into neighboring columns
    /// and are clipped at the chunk boundary.
    pub fn tree_pass(chunk: &mut Chunk)
        requires
            old(chunk).wf(),
            pos_bounded(old(chunk).chunkpos),
        ensures
            final(chunk).wf(),
            final(chunk).chunkpos == old(chunk).chunkpos,
            final(chunk).cells@ == tree_gen(old(chunk).cells@, old(chunk).chunkpos),
    {
        let ghost pos = chunk.chunkpos;
        let ghost c0 = chunk.cells@;
        let mut col: usize = 0;
        while col < 256
            invariant
                chunk.wf(),
                chunk.chunkpos == pos,
                pos_bounded(pos),
                col <= 256,
                c0.len() == VOLUME,
                chunk.cells@ == tree_prefix(c0, pos, col as int),
            decreases 256 - col,
        {
            let ghost ccur = chunk.cells@;
            let lx: usize = col / 16;
            let lz: usize = col % 16;
            let wx: i32 = chunk.chunkpos.x * 16 + lx as i32;
            let wz: i32 = chunk.chunkpos.z * 16 + lz as i32;
            let ghost vcol = Ivec3 { x: lx as i32, y: 0, z: lz as i32 };
            proof {
                assert(wx == wx32(pos, vcol) && wz == wz32(pos, vcol));
                lemma_tree_root_bounds(ccur, lx as int, lz as int, 0);
            }
            let gate: u64 = coord_hash(wx, 0, wz, SALT_TREE);
            if gate < 768 {
                let mut ly: usize = 0;
                let mut root: i32 = -1;
                while ly < 16 && root < 0
                    invariant
                        chunk.wf(),
                        chunk.chunkpos == pos,
                        chunk.cells@ == ccur,
                        col < 256,
                        lx == col / 16,
                        lz == col % 16,
                        ly <= 16,
                        ccur.len() == VOLUME,
                        root < 0 ==> tree_root(ccur, lx as int, lz as int, ly as int) == tree_root(
                            ccur,
                            lx as int,
                            lz as int,
                            0,
                        ),
                        root >= 0 ==> root == tree_root(ccur, lx as int, lz as int, 0) && root
                            == ly && ly < 16,
                    decreases 16 - ly + (if root < 0 {
                        1int
                    } else {
                        0int
                    }),
                {
                    let v = Ivec3::new(lx as i32, ly as i32, lz as i32);
                    proof {
                        crate::vox::lemma_cell_index_bounds(v);
                        lemma_pos_index(v);
                    }
                    let cb: Cell = chunk.get_cell(v);
                    if cb.tex_id == GRASS {
                        root = ly as i32;
                    } else {
                        ly = ly + 1;
                    }
                }
                if root >= 0 {
                    let siz: u64 = coord_hash(wx, root, wz, SALT_TREE_SIZE);
                    let lp = Ivec3::new(lx as i32, root, lz as i32);
                    gen_tree(chunk, lp, siz);
                    proof {
                        assert(chunk.cells@ == tree_col(ccur, pos, col as int));
                    }
                } else {
                    proof {
                        assert(tree_root(ccur, lx as int, lz as int, 0) == -1);
                        assert(chunk.cells@ == tree_col(ccur, pos, col as int));
                    }
                }
            } else {
                proof {
                    assert(chunk.cells@ == tree_col(ccur, pos, col as int));
                }
            }
            proof {
                assert(tree_prefix(c0, pos, col + 1) == tree_col(
                    tree_prefix(c0, pos, col as int),
                    pos,
                    col as int,
                ));
            }
            col = col + 1;
        }
    }

    /// Decoration: the surface-material, flora, vine and tree passes in
    /// order, each a pure function of the chunk contents, the chunk
    /// position and the noise samples.
    pub fn populate_chunk(chunk: &mut Chunk, n: &ChunkNoise)
        requires
            old(chunk).wf(),
            n.wf(),
            pos_bounded(old(chunk).chunkpos),
        ensures
            final(chunk).wf(),
            final(chunk).chunkpos == old(chunk).chunkpos,
            final(chunk).cells@ == populate_spec(old(chunk).cells@, old(chunk).chunkpos, *n),
    {
        Self::surface_pass(chunk, n);
        Self::flora_pass(chunk, n);
        Self::vine_pass(chunk);
        Self::tree_pass(chunk);
    }

    /// Fills `chunk` with terrain and decoration: the base density
    /// field, then the decoration passes. The result is a pure function
    /// of the chunk position and the noise samples alone; the prior
    /// cell contents are overwritten entirely.
    pub fn generate_chunk(chunk: &mut Chunk, n: &ChunkNoise)
        requires
            old(chunk).wf(),
            n.wf(),
            pos_bounded(old(chunk).chunkpos),
        ensures
            final(chunk).wf(),
            final(chunk).chunkpos == old(chunk).chunkpos,
            final(chunk).cells@ == chunk_gen(old(chunk).chunkpos, *n),
    {
        Self::terrain_pass(chunk, n);
        Self::populate_chunk(chunk, n);
    }
}

/// The whole decoration stage as a mathematical value.
pub open spec fn populate_spec(c: Seq<Cell>, pos: Ivec3, n: ChunkNoise) -> Seq<Cell> {
    tree_gen(vine_gen(flora_gen(surface_gen(c, pos, n), n), pos), pos)
}

/// A fully generated chunk as a mathematical value: a pure function of
/// the chunk position and the noise samples.
pub open spec fn chunk_gen(pos: Ivec3, n: ChunkNoise) -> Seq<Cell> {
    populate_spec(terrain_gen(pos, n), pos, n)
}

/// Determinism of generation: two chunks at the same position, filled
/// against the same noise samples, hold identical cell arrays, whatever
/// cells either held before.
pub proof fn lemma_generation_deterministic(a: Chunk, b: Chunk, pos: Ivec3, n: ChunkNoise)
    requires
        a.cells@ == chunk_gen(pos, n),
        b.cells@ == chunk_gen(pos, n),
    ensures
        a.cells@ == b.cells@,
{
}

/// Whether every empty cell of `c` carries the plain isosurface shape:
/// air never carries a decorative shape tag.
pub open spec fn air_iso(c: Seq<Cell>) -> bool {
    forall|i: int|
        0 <= i < VOLUME && (#[trigger] c[i]).tex_id == NIL ==> c[i].shape_id
            == VoxShape::Isosurface
}

/// The base field satisfies the air-shape invariant.
pub proof fn lemma_terrain_air_iso(pos: Ivec3, n: ChunkNoise)
    ensures
        air_iso(terrain_gen(pos, n)),
{
}

/// The surface pass preserves the air-shape invariant: it only retags
/// stone, never creates empty cells, and never changes a shape.
pub proof fn lemma_surface_air_iso(c: Seq<Cell>, pos: Ivec3, n: ChunkNoise)
    requires
        air_iso(c),
        c.len() == VOLUME,
    ensures
        air_iso(surface_gen(c, pos, n)),
{
    assert forall|i: int|
        0 <= i < VOLUME && (#[trigger] surface_gen(c, pos, n)[i]).tex_id == NIL implies
        surface_gen(c, pos, n)[i].shape_id == VoxShape::Isosurface by {
        lemma_index_pos(i);
        assert(c[i].tex_id == NIL ==> c[i].shape_id == VoxShape::Isosurface);
    }
}

/// The flora pass preserves the air-shape invariant: the one cell it
/// retags receives a non-empty flora material.
pub proof fn lemma_flora_air_iso(c: Seq<Cell>, n: ChunkNoise)
    requires
        air_iso(c),
        c.len() == VOLUME,
    ensures
        air_iso(flora_gen(c, n)),
{
    assert forall|i: int|
        0 <= i < VOLUME && (#[trigger] flora_gen(c, n)[i]).tex_id == NIL implies flora_gen(
        c,
        n,
    )[i].shape_id == VoxShape::Isosurface by {
        lemma_index_pos(i);
        assert(c[i].tex_id == NIL ==> c[i].shape_id == VoxShape::Isosurface);
    }
}

/// The vine pass preserves the air-shape invariant.
pub proof fn lemma_vine_air_iso(c: Seq<Cell>, pos: Ivec3)
    requires
        air_iso(c),
        c.len() == VOLUME,
    ensures
        air_iso(vine_gen(c, pos)),
{
    assert forall|i: int|
        0 <= i < VOLUME && (#[trigger] vine_gen(c, pos)[i]).tex_id == NIL implies vine_gen(
        c,
        pos,
    )[i].shape_id == VoxShape::Isosurface by {
        lemma_index_pos(i);
        assert(c[i].tex_id == NIL ==> c[i].shape_id == VoxShape::Isosurface);
    }
}

/// Growing one tree preserves the air-shape invariant.
pub proof fn lemma_grow_tree_air_iso(c: Seq<Cell>, lp: Ivec3, siz: int)
    requires
        air_iso(c),
        c.len() == VOLUME,
    ensures
        air_iso(grow_tree_spec(c, lp, siz)),
{
    assert forall|i: int|
        0 <= i < VOLUME && (#[trigger] grow_tree_spec(c, lp, siz)[i]).tex_id == NIL implies
        grow_tree_spec(c, lp, siz)[i].shape_id == VoxShape::Isosurface by {
        lemma_index_pos(i);
        assert(c[i].tex_id == NIL ==> c[i].shape_id == VoxShape::Isosurface);
    }
}

/// The tree pass over any prefix of the columns preserves the
/// air-shape invariant.
pub proof fn lemma_tree_prefix_air_iso(c: Seq<Cell>, pos: Ivec3, k: int)
    requires
        air_iso(c),
        c.len() == VOLUME,
    ensures
        air_iso(tree_prefix(c, pos, k)),
        tree_prefix(c, pos, k).len() == VOLUME,
    decreases k,
{
    if k > 0 {
        lemma_tree_prefix_air_iso(c, pos, k - 1);
        let prev = tree_prefix(c, pos, k - 1);
        let x = (k - 1) / 16;
        let z = (k - 1) % 16;
        let w = Ivec3 { x: x as i32, y: 0, z: z as i32 };
        if coord_hash_spec(wx32(pos, w), 0, wz32(pos, w), SALT_TREE) < 768 {
            let r = tree_root(prev, x, z, 0);
            if r >= 0 {
                lemma_grow_tree_air_iso(
                    prev,
                    Ivec3 { x: x as i32, y: r as i32, z: z as i32 },
                    coord_hash_spec(wx32(pos, w), r as i32, wz32(pos, w), SALT_TREE_SIZE),
                );
            }
        }
    }
}

/// Air never carries a decorative shape tag: every empty cell of a
/// fully generated chunk is a plain isosurface cell, through all of
/// terrain generation and decoration.
pub proof fn lemma_chunk_gen_air_shape(pos: Ivec3, n: ChunkNoise)
    ensures
        air_iso(chunk_gen(pos, n)),
{
    lemma_terrain_air_iso(pos, n);
    lemma_surface_air_iso(terrain_gen(pos, n), pos, n);
    lemma_flora_air_iso(surface_gen(terrain_gen(pos, n), pos, n), n);
    lemma_vine_air_iso(flora_gen(surface_gen(terrain_gen(pos, n), pos, n), n), pos);
    lemma_tree_prefix_air_iso(
        vine_gen(flora_gen(surface_gen(terrain_gen(pos, n), pos, n), n), pos),
        pos,
        256,
    );
}

} // verus!
