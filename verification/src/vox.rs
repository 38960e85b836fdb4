//! Voxel storage: materials, cells, and fixed-size cubic chunks.
//!
//! A chunk is a `SIZE`-edged cube of cells addressed by local coordinates
//! in `[0, SIZE)` on each axis. Isovalues are signed fixed-point scalars
//! in thousandths: the stored value `v` stands for the real density
//! `v / 1000`.

use vstd::prelude::*;

verus! {

/// Edge length of a cubic chunk, in cells.
pub const SIZE: i32 = 16;

/// Number of cells in a chunk (`SIZE` cubed).
pub const VOLUME: usize = 4096;

/// Material ids. `NIL` (0) means empty/air.
pub const NIL: u16 = 0;
/// Base solid carved by the terrain pass.
pub const STONE: u16 = 1;
/// Fluid filling space below world height 0.
pub const WATER: u16 = 2;
/// Shore material placed by the surface pass near height 0.
pub const SAND: u16 = 3;
/// Exposed topsoil placed by the surface pass.
pub const GRASS: u16 = 4;
/// Shallow subsoil placed by the surface pass.
pub const DIRT: u16 = 5;
/// Flora variant for the rarest scatter band.
pub const ROSE: u16 = 6;
/// Flora variant for the high scatter band.
pub const FERN: u16 = 7;
/// Flora variant for the middle scatter band.
pub const BUSH: u16 = 8;
/// Flora variant for the default scatter band.
pub const SHORTGRASS: u16 = 9;
/// Canopy and vine material.
pub const LEAVES: u16 = 10;
/// Tree trunk material.
pub const LOG: u16 = 11;

/// How a cell renders and collides.
#[derive(Clone, Copy, PartialEq, Eq, Structural, Debug)]
pub enum VoxShape {
    /// Smooth surface extracted from the signed isovalue field.
    Isosurface,
    /// Decorative cross-decal used by scattered flora.
    Grass,
    /// Foliage block used by canopies and vines.
    Leaves,
}

/// One voxel: material id, shape tag, and signed isovalue in thousandths.
#[derive(Clone, Copy, PartialEq, Eq, Structural, Debug)]
pub struct Cell {
    /// Material id; `NIL` means empty.
    pub tex_id: u16,
    /// Render/collision shape tag.
    pub shape_id: VoxShape,
    /// Signed density in thousandths; sign selects inside/outside.
    pub isovalue: i64,
}

/// Integer 3D vector for chunk-grid and local coordinates.
#[derive(Clone, Copy, PartialEq, Eq, Structural, Debug)]
pub struct Ivec3 {
    pub x: i32,
    pub y: i32,
    pub z: i32,
}

impl Ivec3 {
    /// Builds the vector `(x, y, z)`.
    pub fn new(x: i32, y: i32, z: i32) -> (r: Ivec3)
        ensures
            r == (Ivec3 { x, y, z }),
    {
        Ivec3 { x, y, z }
    }
}

impl Cell {
    /// Builds a cell from its three components.
    pub fn new(tex_id: u16, shape_id: VoxShape, isovalue: i64) -> (r: Cell)
        ensures
            r == (Cell { tex_id, shape_id, isovalue }),
    {
        Cell { tex_id, shape_id, isovalue }
    }

    /// An empty air cell: `NIL` material, isosurface shape, zero density.
    pub fn empty() -> (r: Cell)
        ensures
            r == Cell::empty_spec(),
    {
        Cell { tex_id: NIL, shape_id: VoxShape::Isosurface, isovalue: 0 }
    }

    /// The empty air cell as a mathematical value.
    pub open spec fn empty_spec() -> Cell {
        Cell { tex_id: NIL, shape_id: VoxShape::Isosurface, isovalue: 0 }
    }

    /// Whether the material is empty.
    pub open spec fn is_empty_spec(self) -> bool {
        self.tex_id == NIL
    }

    /// Whether the material is empty.
    pub fn is_tex_empty(&self) -> (r: bool)
        ensures
            r == self.is_empty_spec(),
    {
        self.tex_id == NIL
    }
}

/// Whether `v` is a valid local coordinate triple: each axis in `[0, SIZE)`.
pub open spec fn in_bounds(v: Ivec3) -> bool {
    &&& 0 <= v.x < SIZE
    &&& 0 <= v.y < SIZE
    &&& 0 <= v.z < SIZE
}

/// Dense index of a local position: x varies fastest, then y, then z.
pub open spec fn cell_index(v: Ivec3) -> int {
    v.x + SIZE * (v.y + SIZE * v.z)
}

/// A fixed-size cubic block of cells at chunk-grid position `chunkpos`.
///
/// The world-space origin of the chunk is `chunkpos * SIZE`.
pub struct Chunk {
    /// Dense cell storage, `VOLUME` cells, indexed by `cell_index`.
    pub cells: Vec<Cell>,
    /// Chunk-grid coordinate of this chunk.
    pub chunkpos: Ivec3,
}

impl Chunk {
    /// Structural well-formedness: exactly `VOLUME` cells.
    pub open spec fn wf(self) -> bool {
        self.cells.len() == VOLUME
    }

    /// The cell stored at local position `v`.
    pub open spec fn cell_spec(self, v: Ivec3) -> Cell {
        self.cells[cell_index(v)]
    }

    /// Creates an all-air chunk at chunk-grid position `chunkpos`.
    pub fn new(chunkpos: Ivec3) -> (r: Chunk)
        ensures
            r.wf(),
            r.chunkpos == chunkpos,
            forall|v: Ivec3| in_bounds(v) ==> r.cell_spec(v) == Cell::empty_spec(),
    {
        let mut cells: Vec<Cell> = Vec::new();
        let mut i: usize = 0;
        while i < VOLUME
            invariant
                i <= VOLUME,
                cells.len() == i,
                forall|k: int| 0 <= k < i ==> cells[k] == Cell::empty_spec(),
            decreases VOLUME - i,
        {
            cells.push(Cell::empty());
            i = i + 1;
        }
        proof {
            assert forall|v: Ivec3| in_bounds(v) implies 0 <= cell_index(v) < VOLUME by {
                lemma_cell_index_bounds(v);
            }
        }
        Chunk { cells, chunkpos }
    }

    /// Whether `v` is a valid local position for this chunk size.
    pub fn is_localpos(v: Ivec3) -> (r: bool)
        ensures
            r == in_bounds(v),
    {
        0 <= v.x && v.x < SIZE && 0 <= v.y && v.y < SIZE && 0 <= v.z && v.z < SIZE
    }

    /// Reads the cell at local position `v`.
    pub fn get_cell(&self, v: Ivec3) -> (r: Cell)
        requires
            self.wf(),
            in_bounds(v),
        ensures
            r == self.cell_spec(v),
    {
        proof {
            lemma_cell_index_bounds(v);
        }
        let idx: usize = (v.x + SIZE * (v.y + SIZE * v.z)) as usize;
        self.cells[idx]
    }

    /// Overwrites the cell at local position `v` with `c`.
    pub fn set_cell(&mut self, v: Ivec3, c: &Cell)
        requires
            old(self).wf(),
            in_bounds(v),
        ensures
            final(self).wf(),
            final(self).chunkpos == old(self).chunkpos,
            final(self).cells@ == old(self).cells@.update(cell_index(v), *c),
    {
        proof {
            lemma_cell_index_bounds(v);
        }
        let idx: usize = (v.x + SIZE * (v.y + SIZE * v.z)) as usize;
        self.cells.set(idx, *c);
    }
}

/// A valid local position indexes inside the chunk's cell array.
pub proof fn lemma_cell_index_bounds(v: Ivec3)
    requires
        in_bounds(v),
    ensures
        0 <= cell_index(v) < VOLUME,
{
}

/// Distinct valid local positions have distinct dense indices.
pub proof fn lemma_cell_index_injective(a: Ivec3, b: Ivec3)
    requires
        in_bounds(a),
        in_bounds(b),
        cell_index(a) == cell_index(b),
    ensures
        a == b,
{
    assert(a.x == b.x && a.y == b.y && a.z == b.z) by (nonlinear_arith)
        requires
            in_bounds(a),
            in_bounds(b),
            cell_index(a) == cell_index(b),
    {
    }
}

} // verus!
