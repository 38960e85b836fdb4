//! Pre-sampled noise fields for one chunk.
//!
//! The generators are pure functions of the chunk position and these
//! samples. The surrounding application evaluates its coherent-noise
//! functions (fractional Brownian motion for the density signals, a
//! plain gradient noise for the surface signals) at the world-space
//! points described below and hands the results in as signed fixed-point
//! integers in thousandths, so a stored value `v` stands for `v / 1000`.
//! Sampling in world space keeps chunk boundaries continuous and the
//! result independent of generation order.

use vstd::prelude::*;
use crate::vox::{Ivec3, SIZE, VOLUME, cell_index};

verus! {

/// Number of vertical columns in a chunk (`SIZE` squared).
pub const COLUMNS: usize = 256;

/// Magnitude bound on every sample, in thousandths.
pub const NOISE_BOUND: i64 = 2_000_000;

/// Dense index of a column: `x + SIZE * z`.
pub open spec fn column_index(x: int, z: int) -> int {
    x + SIZE * z
}

/// Whether `(x, z)` is a valid column coordinate pair.
pub open spec fn column_in_bounds(x: int, z: int) -> bool {
    &&& 0 <= x < SIZE
    &&& 0 <= z < SIZE
}

/// Noise samples for one chunk, all in thousandths.
///
/// For a chunk at grid position `cp` and local cell `(lx, ly, lz)`, the
/// world point is `p = cp * SIZE + (lx, ly, lz)`; the application fills:
/// - `terr[lx + SIZE*lz]`: 2D terrain signal at `(p.x / 130, p.z / 130)`,
/// - `cave[cell_index]`: 3D detail signal at `p / 90`,
/// - `sand[lx + SIZE*lz]`: 2D shore signal at `(p.x / 32, p.z / 32)`,
/// - `flora[lx + SIZE*lz]`: 2D scatter signal at `(p.x / 18, p.z / 18)`.
pub struct ChunkNoise {
    /// Per-column terrain density signal.
    pub terr: Vec<i64>,
    /// Per-cell cave/detail density signal.
    pub cave: Vec<i64>,
    /// Per-column shore placement signal.
    pub sand: Vec<i64>,
    /// Per-column flora scatter signal.
    pub flora: Vec<i64>,
}

impl ChunkNoise {
    /// Well-formedness: the four fields have the right lengths and every
    /// sample is bounded by `NOISE_BOUND` in magnitude.
    pub open spec fn wf(self) -> bool {
        &&& self.terr.len() == COLUMNS
        &&& self.cave.len() == VOLUME
        &&& self.sand.len() == COLUMNS
        &&& self.flora.len() == COLUMNS
        &&& forall|i: int|
            0 <= i < COLUMNS ==> -NOISE_BOUND <= #[trigger] self.terr[i] <= NOISE_BOUND
        &&& forall|i: int|
            0 <= i < VOLUME ==> -NOISE_BOUND <= #[trigger] self.cave[i] <= NOISE_BOUND
        &&& forall|i: int|
            0 <= i < COLUMNS ==> -NOISE_BOUND <= #[trigger] self.sand[i] <= NOISE_BOUND
        &&& forall|i: int|
            0 <= i < COLUMNS ==> -NOISE_BOUND <= #[trigger] self.flora[i] <= NOISE_BOUND
    }

    /// Terrain sample of the column holding `(x, _, z)`.
    pub open spec fn terr_at(self, x: int, z: int) -> int {
        self.terr[column_index(x, z)] as int
    }

    /// Cave sample of the cell at local position `v`.
    pub open spec fn cave_at(self, v: Ivec3) -> int {
        self.cave[cell_index(v)] as int
    }

    /// Shore sample of the column holding `(x, _, z)`.
    pub open spec fn sand_at(self, x: int, z: int) -> int {
        self.sand[column_index(x, z)] as int
    }

    /// Scatter sample of the column holding `(x, _, z)`.
    pub open spec fn flora_at(self, x: int, z: int) -> int {
        self.flora[column_index(x, z)] as int
    }

    /// Builds a noise field from the four sample vectors.
    pub fn new(terr: Vec<i64>, cave: Vec<i64>, sand: Vec<i64>, flora: Vec<i64>) -> (r: Result<
        ChunkNoise,
        (),
    >)
        ensures
            r is Ok ==> r->Ok_0.wf() && r->Ok_0 == (ChunkNoise { terr, cave, sand, flora }),
            r is Ok <==> (ChunkNoise { terr, cave, sand, flora }).wf(),
    {
        let n = ChunkNoise { terr, cave, sand, flora };
        if n.terr.len() == COLUMNS && n.cave.len() == VOLUME && n.sand.len() == COLUMNS
            && n.flora.len() == COLUMNS && all_bounded(&n.terr) && all_bounded(&n.cave)
            && all_bounded(&n.sand) && all_bounded(&n.flora) {
            Ok(n)
        } else {
            Err(())
        }
    }
}

/// Whether every sample in `v` is bounded by `NOISE_BOUND` in magnitude.
fn all_bounded(v: &Vec<i64>) -> (r: bool)
    ensures
        r == forall|i: int| 0 <= i < v.len() ==> -NOISE_BOUND <= #[trigger] v[i] <= NOISE_BOUND,
{
    let mut i: usize = 0;
    while i < v.len()
        invariant
            i <= v.len(),
            forall|k: int| 0 <= k < i ==> -NOISE_BOUND <= #[trigger] v[k] <= NOISE_BOUND,
        decreases v.len() - i,
    {
        let s: i64 = v[i];
        if s < -NOISE_BOUND || s > NOISE_BOUND {
            return false;
        }
        i = i + 1;
    }
    true
}

} // verus!
