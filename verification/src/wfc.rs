//! Wave-Function-Collapse constraint solver over a 3D tile lattice.
//!
//! Patterns carry one socket id per face; two patterns may sit on
//! neighboring tiles only if the sockets of the facing pair are equal.
//! The solver keeps, per tile, the set of pattern indices still
//! consistent with every constraint seen so far (`possib`), and solves
//! by repeatedly collapsing the unresolved tile of minimum entropy and
//! propagating the consequences to a fixed point.
//!
//! Face order is `+X, -X, +Y, -Y, +Z, -Z`: direction `d` and `d ^ 1`
//! are opposite faces.

use vstd::prelude::*;
use vstd::arithmetic::div_mod::{lemma_fundamental_div_mod, lemma_fundamental_div_mod_converse,
    lemma_mod_bound, lemma_div_denominator};
use vstd::arithmetic::mul::lemma_mul_inequality;
use crate::vox::Ivec3;
use crate::randhash::Lcg;

verus! {

/// Number of faces of a tile.
pub const DIRS: usize = 6;

/// Most patterns a table may hold, so indices fit in `u16`.
pub const MAX_PATTERNS: usize = 0xFFFF;

/// Most tiles a lattice may hold.
pub const MAX_TILES: usize = 1_000_000;

/// The opposite face of `d`.
pub open spec fn opp(d: int) -> int {
    if d % 2 == 0 {
        d + 1
    } else {
        d - 1
    }
}

/// The opposite face of `d`.
pub fn opp_dir(d: usize) -> (r: usize)
    requires
        d < DIRS,
    ensures
        r == opp(d as int),
        r < DIRS,
{
    if d % 2 == 0 {
        d + 1
    } else {
        d - 1
    }
}

/// Unit offset of direction `d`, as a local integer vector.
pub open spec fn dir_delta(d: int) -> Ivec3 {
    if d == 0 {
        Ivec3 { x: 1, y: 0, z: 0 }
    } else if d == 1 {
        Ivec3 { x: -1i32, y: 0, z: 0 }
    } else if d == 2 {
        Ivec3 { x: 0, y: 1, z: 0 }
    } else if d == 3 {
        Ivec3 { x: 0, y: -1i32, z: 0 }
    } else if d == 4 {
        Ivec3 { x: 0, y: 0, z: 1 }
    } else {
        Ivec3 { x: 0, y: 0, z: -1i32 }
    }
}

/// An immutable tile template: a name, one socket id per face, and the
/// rotation/flip tag of the variant it was derived as.
pub struct Pattern {
    /// Display name shared by all variants of a registered pattern.
    pub name: String,
    /// Socket ids in face order `+X, -X, +Y, -Y, +Z, -Z`.
    pub sockets: [u16; 6],
    /// Number of quarter turns about the vertical axis (0..4).
    pub rotation: u8,
    /// Whether this variant is the mirrored one.
    pub is_flipped: bool,
}

/// Sockets after one quarter turn about the vertical axis: the four
/// horizontal faces cycle (`-Z` to `+X` to `+Z` to `-X` to `-Z`), top and
/// bottom stay fixed.
pub open spec fn rot_sockets(s: Seq<u16>) -> Seq<u16> {
    seq![s[5], s[4], s[2], s[3], s[0], s[1]]
}

/// Sockets after `r` quarter turns.
pub open spec fn rot_sockets_n(s: Seq<u16>, r: int) -> Seq<u16>
    decreases r,
{
    if r <= 0 {
        s
    } else {
        rot_sockets(rot_sockets_n(s, r - 1))
    }
}

/// Sockets of the mirrored variant: the designated horizontal pair
/// (`+X`, `-X`) swaps, the rest stay fixed.
pub open spec fn flip_sockets(s: Seq<u16>) -> Seq<u16> {
    seq![s[1], s[0], s[2], s[3], s[4], s[5]]
}

/// Number of variants one registration appends.
pub open spec fn variant_count(allow_rotation: bool, allow_flip: bool) -> int {
    (if allow_rotation {
        4int
    } else {
        1int
    }) * (if allow_flip {
        2int
    } else {
        1int
    })
}

/// Rotation tag of the `k`-th appended variant.
pub open spec fn variant_rotation(k: int, allow_flip: bool) -> int {
    if allow_flip {
        k / 2
    } else {
        k
    }
}

/// Flip tag of the `k`-th appended variant.
pub open spec fn variant_flipped(k: int, allow_flip: bool) -> bool {
    allow_flip && k % 2 == 1
}

/// Sockets of the `k`-th appended variant.
pub open spec fn variant_sockets(s: Seq<u16>, k: int, allow_flip: bool) -> Seq<u16> {
    let base = rot_sockets_n(s, variant_rotation(k, allow_flip));
    if variant_flipped(k, allow_flip) {
        flip_sockets(base)
    } else {
        base
    }
}

/// One lattice cell: its position and the pattern indices still
/// consistent with all constraints seen so far.
pub struct Tile {
    /// Lattice coordinate of this tile.
    pub pos: Ivec3,
    /// Surviving pattern-table indices.
    pub possib: Vec<u16>,
}

impl Tile {
    /// Number of surviving patterns: 0 is contradiction, 1 is collapsed.
    pub fn entropy(&self) -> (r: usize)
        ensures
            r == self.possib.len(),
    {
        self.possib.len()
    }
}

/// Whether `e` is an acceptable lattice extent.
pub open spec fn extent_ok(e: Ivec3) -> bool {
    &&& 1 <= e.x
    &&& 1 <= e.y
    &&& 1 <= e.z
    &&& (e.x as int) * (e.y as int) * (e.z as int) <= MAX_TILES
}

/// Number of tiles of a lattice with extent `e`.
pub open spec fn extent_volume(e: Ivec3) -> int {
    (e.x as int) * (e.y as int) * (e.z as int)
}

/// Dense index of lattice coordinate `p`: x varies fastest, then y.
pub open spec fn tile_index(p: Ivec3, e: Ivec3) -> int {
    p.x + e.x * (p.y + e.y * p.z)
}

/// Whether `p` lies inside the lattice extent `e`.
pub open spec fn tile_in_bounds(p: Ivec3, e: Ivec3) -> bool {
    &&& 0 <= p.x < e.x
    &&& 0 <= p.y < e.y
    &&& 0 <= p.z < e.z
}

/// Lattice coordinate of the dense index `t`.
pub open spec fn tile_pos(t: int, e: Ivec3) -> Ivec3 {
    Ivec3 {
        x: (t % (e.x as int)) as i32,
        y: ((t / (e.x as int)) % (e.y as int)) as i32,
        z: (t / ((e.x as int) * (e.y as int))) as i32,
    }
}

/// A coordinate inside the extent has a dense index inside the volume.
pub proof fn lemma_tile_index_bounds(p: Ivec3, e: Ivec3)
    requires
        extent_ok(e),
        tile_in_bounds(p, e),
    ensures
        0 <= tile_index(p, e) < extent_volume(e),
{
    assert(0 <= tile_index(p, e) < extent_volume(e)) by (nonlinear_arith)
        requires
            extent_ok(e),
            tile_in_bounds(p, e),
    {
    }
}

/// `tile_pos` inverts `tile_index` on coordinates inside the extent.
pub proof fn lemma_pos_tile_index(p: Ivec3, e: Ivec3)
    requires
        extent_ok(e),
        tile_in_bounds(p, e),
    ensures
        tile_pos(tile_index(p, e), e) == p,
{
    let ex = e.x as int;
    let ey = e.y as int;
    let t = tile_index(p, e);
    assert(t == (p.y + ey * p.z) * ex + p.x) by (nonlinear_arith)
        requires
            t == p.x + ex * (p.y + ey * p.z),
    {
    }
    lemma_fundamental_div_mod_converse(t, ex, p.y + ey * p.z, p.x as int);
    assert(p.y + ey * p.z == (p.z as int) * ey + p.y) by (nonlinear_arith);
    lemma_fundamental_div_mod_converse(p.y + ey * p.z, ey, p.z as int, p.y as int);
    assert(t / (ex * ey) == (t / ex) / ey) by {
        lemma_mul_inequality(1, e.y as int, ey);
        lemma_div_denominator(t, ex, ey);
    }
}

/// `tile_index` inverts `tile_pos` on dense indices inside the volume,
/// and the recovered coordinate lies inside the extent.
pub proof fn lemma_tile_pos_index(t: int, e: Ivec3)
    requires
        extent_ok(e),
        0 <= t < extent_volume(e),
    ensures
        tile_in_bounds(tile_pos(t, e), e),
        tile_index(tile_pos(t, e), e) == t,
{
    let ex = e.x as int;
    let ey = e.y as int;
    let ez = e.z as int;
    lemma_fundamental_div_mod(t, ex);
    lemma_mod_bound(t, ex);
    let rest = t / ex;
    lemma_fundamental_div_mod(rest, ey);
    lemma_mod_bound(rest, ey);
    assert(t / (ex * ey) == rest / ey) by {
        lemma_div_denominator(t, ex, ey);
    }
    assert(rest / ey < ez) by (nonlinear_arith)
        requires
            t < ex * ey * ez,
            ex >= 1,
            ey >= 1,
            ez >= 1,
            t == ex * rest + t % ex,
            0 <= t % ex < ex,
            rest == ey * (rest / ey) + rest % ey,
            0 <= rest % ey < ey,
    {
    }
    assert(rest / ey >= 0) by (nonlinear_arith)
        requires
            rest == ey * (rest / ey) + rest % ey,
            0 <= rest % ey < ey,
            ey >= 1,
            rest >= 0,
    {
    }
}

/// Distinct directions step to distinct neighbor coordinates.
pub proof fn lemma_dir_delta_distinct(d1: int, d2: int)
    requires
        0 <= d1 < 6,
        0 <= d2 < 6,
        d1 != d2,
    ensures
        dir_delta(d1) != dir_delta(d2),
{
}

/// Sum of `p` and `q`, defined whenever the components do not overflow.
pub open spec fn vadd(p: Ivec3, q: Ivec3) -> Ivec3 {
    Ivec3 { x: (p.x + q.x) as i32, y: (p.y + q.y) as i32, z: (p.z + q.z) as i32 }
}

/// Whether socket id `q` on face `d` matches socket id `p` on the
/// opposite face: the adjacency constraint between pattern `q` (whose
/// face `d` looks at the neighbor) and pattern `p` (looking back).
pub open spec fn pat_match(pats: Seq<Pattern>, q: u16, p: u16, d: int) -> bool {
    pats[q as int].sockets@[d] == pats[p as int].sockets@[opp(d)]
}

/// Whether candidate `q`, whose face `d` looks at a neighbor with
/// candidate set `sup`, is consistent with at least one of them.
pub open spec fn has_support(pats: Seq<Pattern>, sup: Seq<u16>, q: u16, d: int) -> bool {
    exists|j: int| 0 <= j < sup.len() && pat_match(pats, q, #[trigger] sup[j], d)
}

/// Arc consistency from a tile with candidates `src` toward its
/// neighbor in direction `d` with candidates `tgt`: every candidate of
/// `src` still has a consistent partner in `tgt`.
pub open spec fn arc_ok(pats: Seq<Pattern>, src: Seq<u16>, tgt: Seq<u16>, d: int) -> bool {
    forall|i: int| 0 <= i < src.len() ==> has_support(pats, tgt, #[trigger] src[i], d)
}

/// The subsequence of `src` consisting of the candidates supported by
/// the neighbor candidate set `sup` across direction `d`.
pub open spec fn filtered(pats: Seq<Pattern>, src: Seq<u16>, sup: Seq<u16>, d: int) -> Seq<u16>
    decreases src.len(),
{
    if src.len() == 0 {
        Seq::empty()
    } else {
        let rest = filtered(pats, src.drop_last(), sup, d);
        if has_support(pats, sup, src.last(), d) {
            rest.push(src.last())
        } else {
            rest
        }
    }
}

/// Filtering never grows the candidate set.
pub proof fn lemma_filtered_len(pats: Seq<Pattern>, src: Seq<u16>, sup: Seq<u16>, d: int)
    ensures
        filtered(pats, src, sup, d).len() <= src.len(),
    decreases src.len(),
{
    if src.len() > 0 {
        lemma_filtered_len(pats, src.drop_last(), sup, d);
    }
}

/// Every kept candidate comes from `src` and is supported; hence the
/// filtered set is arc consistent toward the supporting set.
pub proof fn lemma_filtered_sound(pats: Seq<Pattern>, src: Seq<u16>, sup: Seq<u16>, d: int)
    ensures
        forall|i: int|
            0 <= i < filtered(pats, src, sup, d).len() ==> src.contains(
                #[trigger] filtered(pats, src, sup, d)[i],
            ) && has_support(pats, sup, filtered(pats, src, sup, d)[i], d),
        arc_ok(pats, filtered(pats, src, sup, d), sup, d),
    decreases src.len(),
{
    let f = filtered(pats, src, sup, d);
    if src.len() > 0 {
        lemma_filtered_sound(pats, src.drop_last(), sup, d);
        assert forall|i: int| 0 <= i < f.len() implies src.contains(#[trigger] f[i])
            && has_support(pats, sup, f[i], d) by {
            let fr = filtered(pats, src.drop_last(), sup, d);
            if i < fr.len() {
                let k = choose|k: int| 0 <= k < src.drop_last().len() && src.drop_last()[k] == fr[i];
                assert(src[k] == fr[i]);
            } else {
                assert(f[i] == src.last());
                assert(src[src.len() - 1] == src.last());
            }
        }
    }
}

/// A filtered set that kept its length kept every candidate.
pub proof fn lemma_filtered_full(pats: Seq<Pattern>, src: Seq<u16>, sup: Seq<u16>, d: int)
    requires
        filtered(pats, src, sup, d).len() == src.len(),
    ensures
        filtered(pats, src, sup, d) == src,
    decreases src.len(),
{
    if src.len() > 0 {
        let rest = filtered(pats, src.drop_last(), sup, d);
        lemma_filtered_len(pats, src.drop_last(), sup, d);
        assert(rest.len() == src.len() - 1);
        lemma_filtered_full(pats, src.drop_last(), sup, d);
        assert(filtered(pats, src, sup, d) =~= src);
    } else {
        assert(filtered(pats, src, sup, d) =~= src);
    }
}

/// If every candidate of `src` is supported, filtering keeps them all.
pub proof fn lemma_filtered_keeps_all(pats: Seq<Pattern>, src: Seq<u16>, sup: Seq<u16>, d: int)
    requires
        arc_ok(pats, src, sup, d),
    ensures
        filtered(pats, src, sup, d) == src,
    decreases src.len(),
{
    if src.len() > 0 {
        assert(forall|i: int|
            0 <= i < src.drop_last().len() ==> #[trigger] src.drop_last()[i] == src[i]);
        lemma_filtered_keeps_all(pats, src.drop_last(), sup, d);
        assert(src[src.len() - 1] == src.last());
        assert(has_support(pats, sup, src.last(), d));
        assert(filtered(pats, src, sup, d) =~= src);
    } else {
        assert(filtered(pats, src, sup, d) =~= src);
    }
}

/// Arc consistency survives shrinking the source to a subset and is
/// indifferent to how the target set is ordered, as long as every
/// source candidate keeps some partner; in particular it survives any
/// filtering of the source.
pub proof fn lemma_arc_ok_source_subset(
    pats: Seq<Pattern>,
    small: Seq<u16>,
    big: Seq<u16>,
    tgt: Seq<u16>,
    d: int,
)
    requires
        arc_ok(pats, big, tgt, d),
        forall|q: u16| small.contains(q) ==> big.contains(q),
    ensures
        arc_ok(pats, small, tgt, d),
{
    assert forall|i: int| 0 <= i < small.len() implies has_support(pats, tgt, #[trigger] small[i], d)
        by {
        assert(small.contains(small[i]));
        let k = choose|k: int| 0 <= k < big.len() && big[k] == small[i];
        assert(has_support(pats, tgt, big[k], d));
    }
}

/// Total number of surviving candidates over a tile sequence: the
/// solver's termination measure.
pub open spec fn total_possib(tiles: Seq<Tile>) -> nat
    decreases tiles.len(),
{
    if tiles.len() == 0 {
        0
    } else {
        (total_possib(tiles.drop_last()) + tiles.last().possib.len()) as nat
    }
}

/// Updating one tile changes the total by the difference of the two
/// candidate counts.
pub proof fn lemma_total_possib_update(tiles: Seq<Tile>, i: int, t: Tile)
    requires
        0 <= i < tiles.len(),
    ensures
        total_possib(tiles.update(i, t)) + tiles[i].possib.len() == total_possib(tiles)
            + t.possib.len(),
    decreases tiles.len(),
{
    if tiles.len() > 0 {
        if i == tiles.len() - 1 {
            assert(tiles.update(i, t).drop_last() =~= tiles.drop_last());
            assert(tiles.update(i, t).last() == t);
        } else {
            assert(tiles.update(i, t).drop_last() =~= tiles.drop_last().update(i, t));
            lemma_total_possib_update(tiles.drop_last(), i, t);
            assert(tiles.update(i, t).last() == tiles.last());
        }
    }
}

/// Whether the tile at dense index `t` has a neighbor in direction `d`
/// inside extent `e`.
pub open spec fn has_nbr(e: Ivec3, t: int, d: int) -> bool {
    tile_in_bounds(vadd(tile_pos(t, e), dir_delta(d)), e)
}

/// Dense index of the neighbor of tile `t` in direction `d` inside
/// extent `e`.
pub open spec fn nbr(e: Ivec3, t: int, d: int) -> int {
    tile_index(vadd(tile_pos(t, e), dir_delta(d)), e)
}

/// A step and the step back land where they started: the neighbor
/// relation is symmetric across opposite directions.
pub proof fn lemma_nbr_symm(e: Ivec3, t: int, d: int)
    requires
        extent_ok(e),
        0 <= t < extent_volume(e),
        0 <= d < 6,
        has_nbr(e, t, d),
    ensures
        0 <= nbr(e, t, d) < extent_volume(e),
        nbr(e, t, d) != t,
        has_nbr(e, nbr(e, t, d), opp(d)),
        nbr(e, nbr(e, t, d), opp(d)) == t,
{
    let p = tile_pos(t, e);
    lemma_tile_pos_index(t, e);
    let np = vadd(p, dir_delta(d));
    let b = nbr(e, t, d);
    lemma_tile_index_bounds(np, e);
    lemma_pos_tile_index(np, e);
    assert(vadd(np, dir_delta(opp(d))) == p);
    if b == t {
        assert(tile_pos(b, e) == np);
        assert(np == p);
        assert(false);
    }
}

/// Distinct directions lead to distinct neighbors.
pub proof fn lemma_nbr_distinct(e: Ivec3, t: int, d1: int, d2: int)
    requires
        extent_ok(e),
        0 <= t < extent_volume(e),
        0 <= d1 < 6,
        0 <= d2 < 6,
        d1 != d2,
        has_nbr(e, t, d1),
        has_nbr(e, t, d2),
    ensures
        nbr(e, t, d1) != nbr(e, t, d2),
{
    let p = tile_pos(t, e);
    lemma_tile_pos_index(t, e);
    let n1 = vadd(p, dir_delta(d1));
    let n2 = vadd(p, dir_delta(d2));
    lemma_dir_delta_distinct(d1, d2);
    assert(n1 != n2);
    lemma_pos_tile_index(n1, e);
    lemma_pos_tile_index(n2, e);
}

/// Pointwise smaller candidate sets give a smaller total.
pub proof fn lemma_total_possib_mono(s1: Seq<Tile>, s2: Seq<Tile>)
    requires
        s1.len() == s2.len(),
        forall|j: int| 0 <= j < s1.len() ==> (#[trigger] s1[j].possib.len()) <= s2[j].possib.len(),
    ensures
        total_possib(s1) <= total_possib(s2),
    decreases s1.len(),
{
    if s1.len() > 0 {
        assert forall|j: int|
            0 <= j < s1.drop_last().len() implies (#[trigger] s1.drop_last()[j].possib.len())
                <= s2.drop_last()[j].possib.len() by {
            assert(s1.drop_last()[j] == s1[j]);
            assert(s2.drop_last()[j] == s2[j]);
            assert(s1[j].possib.len() <= s2[j].possib.len());
        }
        lemma_total_possib_mono(s1.drop_last(), s2.drop_last());
        assert(s1[s1.len() - 1].possib.len() <= s2[s1.len() - 1].possib.len());
        assert(s1.last().possib.len() <= s2.last().possib.len());
    }
}

/// The Wave-Function-Collapse solver: a pattern table, a tile lattice,
/// and a seeded generator for the collapse choice.
pub struct WFC {
    /// Registered pattern variants; read-only once tiles exist.
    pub all_patterns: Vec<Pattern>,
    /// Dense tile lattice, empty until `init_tiles`.
    pub tiles: Vec<Tile>,
    /// Lattice extent handed to `init_tiles`.
    pub extent: Ivec3,
    /// Seeded generator driving the collapse choice.
    pub rng: Lcg,
}

impl WFC {
    /// Lattice part of well-formedness: the extent is acceptable, the
    /// tile array is dense over it, every tile sits at its own index,
    /// and every candidate is a valid pattern index.
    pub open spec fn tiles_ok(self) -> bool {
        &&& extent_ok(self.extent)
        &&& self.tiles.len() == extent_volume(self.extent)
        &&& forall|t: int|
            0 <= t < self.tiles.len() ==> (#[trigger] self.tiles[t].pos) == tile_pos(
                t,
                self.extent,
            )
        &&& forall|t: int, k: int|
            0 <= t < self.tiles.len() && 0 <= k < self.tiles[t].possib.len() ==> (
            #[trigger] self.tiles[t].possib[k]) < self.all_patterns.len()
    }

    /// Well-formedness: pattern indices fit `u16`, the generator state
    /// is valid, and once tiles exist the lattice is consistent.
    pub open spec fn wf(self) -> bool {
        &&& self.all_patterns.len() <= MAX_PATTERNS
        &&& self.rng.wf()
        &&& self.tiles.len() == 0 || self.tiles_ok()
    }

    /// Arc consistency from tile `a` toward its neighbor in direction
    /// `d`.
    pub open spec fn arc_ok_at(self, a: int, d: int) -> bool {
        arc_ok(
            self.all_patterns@,
            self.tiles[a].possib@,
            self.tiles[nbr(self.extent, a, d)].possib@,
            d,
        )
    }

    /// Every arc of the lattice either points at a contradicted tile or
    /// is consistent: what propagation establishes.
    pub open spec fn settled(self) -> bool {
        forall|a: int, d: int|
            0 <= a < self.tiles.len() && 0 <= d < 6 && #[trigger] has_nbr(self.extent, a, d)
                ==> (self.tiles[nbr(self.extent, a, d)].possib.len() == 0 || self.arc_ok_at(
                a,
                d,
            ))
    }

    /// Propagation loop invariant: every arc either points at a tile
    /// still on the worklist, or at a contradicted tile, or is
    /// consistent.
    pub open spec fn prop_inv(self, wl: Seq<usize>) -> bool {
        forall|a: int, d: int|
            0 <= a < self.tiles.len() && 0 <= d < 6 && #[trigger] has_nbr(self.extent, a, d)
                ==> (wl.contains(nbr(self.extent, a, d) as usize) || self.tiles[nbr(
                self.extent,
                a,
                d,
            )].possib.len() == 0 || self.arc_ok_at(a, d))
    }

    /// Creates an empty solver with a seeded collapse generator.
    pub fn new(seed: u64) -> (r: WFC)
        ensures
            r.wf(),
            r.all_patterns.len() == 0,
            r.tiles.len() == 0,
    {
        WFC {
            all_patterns: Vec::new(),
            tiles: Vec::new(),
            extent: Ivec3 { x: 0, y: 0, z: 0 },
            rng: Lcg::new(seed),
        }
    }

    /// Registers a pattern and its derived variants.
    ///
    /// Appends the base sockets, with three further quarter-turn
    /// variants when `allow_rotation` holds, and after each of those its
    /// mirrored variant when `allow_flip` holds. Must be called before
    /// `init_tiles`.
    pub fn push_pattern(
        &mut self,
        name: String,
        sockets: [u16; 6],
        allow_rotation: bool,
        allow_flip: bool,
    )
        requires
            old(self).wf(),
            old(self).tiles.len() == 0,
            old(self).all_patterns.len() + 8 <= MAX_PATTERNS,
        ensures
            final(self).wf(),
            final(self).tiles.len() == 0,
            final(self).extent == old(self).extent,
            final(self).rng == old(self).rng,
            final(self).all_patterns.len() == old(self).all_patterns.len() + variant_count(
                allow_rotation,
                allow_flip,
            ),
            forall|j: int|
                0 <= j < old(self).all_patterns.len() ==> #[trigger] final(self).all_patterns[j]
                    == old(self).all_patterns[j],
            forall|k: int|
                0 <= k < variant_count(allow_rotation, allow_flip) ==> {
                    let p = #[trigger] final(self).all_patterns[old(self).all_patterns.len() + k];
                    &&& p.sockets@ == variant_sockets(sockets@, k, allow_flip)
                    &&& p.rotation == variant_rotation(k, allow_flip)
                    &&& p.is_flipped == variant_flipped(k, allow_flip)
                    &&& p.name@ == name@
                },
    {
        let ghost base = self.all_patterns@;
        let ghost s0 = sockets@;
        let nrot: usize = if allow_rotation {
            4
        } else {
            1
        };
        let mut cur: [u16; 6] = sockets;
        let mut r: usize = 0;
        while r < nrot
            invariant
                r <= nrot,
                nrot == (if allow_rotation {
                    4int
                } else {
                    1int
                }),
                cur@ == rot_sockets_n(s0, r as int),
                self.tiles.len() == 0,
                self.extent == old(self).extent,
                self.rng == old(self).rng,
                self.all_patterns.len() <= MAX_PATTERNS,
                self.all_patterns@.len() == base.len() + r * (if allow_flip {
                    2int
                } else {
                    1int
                }),
                base.len() + 8 <= MAX_PATTERNS,
                forall|j: int| 0 <= j < base.len() ==> #[trigger] self.all_patterns[j] == base[j],
                forall|k: int|
                    0 <= k < r * (if allow_flip {
                        2int
                    } else {
                        1int
                    }) ==> {
                        let p = #[trigger] self.all_patterns[base.len() + k];
                        &&& p.sockets@ == variant_sockets(s0, k, allow_flip)
                        &&& p.rotation == variant_rotation(k, allow_flip)
                        &&& p.is_flipped == variant_flipped(k, allow_flip)
                        &&& p.name@ == name@
                    },
            decreases nrot - r,
        {
            let p = Pattern {
                name: clone_string(&name),
                sockets: cur,
                rotation: r as u8,
                is_flipped: false,
            };
            self.all_patterns.push(p);
            if allow_flip {
                let fl: [u16; 6] = [cur[1], cur[0], cur[2], cur[3], cur[4], cur[5]];
                proof {
                    assert(fl@ =~= flip_sockets(cur@));
                }
                let p2 = Pattern {
                    name: clone_string(&name),
                    sockets: fl,
                    rotation: r as u8,
                    is_flipped: true,
                };
                self.all_patterns.push(p2);
            }
            let next: [u16; 6] = [cur[5], cur[4], cur[2], cur[3], cur[0], cur[1]];
            proof {
                assert(next@ =~= rot_sockets(cur@));
                assert(rot_sockets_n(s0, r + 1) == rot_sockets(rot_sockets_n(s0, r as int)));
            }
            cur = next;
            r = r + 1;
        }
        proof {
            assert(self.all_patterns@.len() == base.len() + variant_count(
                allow_rotation,
                allow_flip,
            ));
        }
    }

    /// Allocates the dense tile lattice over `extent`, every tile
    /// starting with the full pattern index range as candidates. Must
    /// be called exactly once, after all patterns are registered.
    pub fn init_tiles(&mut self, extent: Ivec3)
        requires
            old(self).wf(),
            old(self).tiles.len() == 0,
            extent_ok(extent),
        ensures
            final(self).wf(),
            final(self).tiles_ok(),
            final(self).all_patterns == old(self).all_patterns,
            final(self).rng == old(self).rng,
            final(self).extent == extent,
            final(self).tiles.len() == extent_volume(extent),
            forall|t: int|
                0 <= t < final(self).tiles.len() ==> (#[trigger] final(self).tiles[t].possib@)
                    == full_range(old(self).all_patterns.len() as int),
    {
        self.extent = extent;
        proof {
            assert((extent.x as int) * (extent.y as int) <= MAX_TILES && (extent.x as int)
                * (extent.y as int) * (extent.z as int) == extent_volume(extent)
                && 1 <= (extent.x as int) * (extent.y as int)) by (nonlinear_arith)
                requires
                    extent_ok(extent),
            {
            }
        }
        let n: usize = (extent.x as usize) * (extent.y as usize) * (extent.z as usize);
        let mut t: usize = 0;
        while t < n
            invariant
                t <= n,
                n == extent_volume(self.extent),
                self.extent == extent,
                extent_ok(extent),
                self.all_patterns == old(self).all_patterns,
                self.all_patterns.len() <= MAX_PATTERNS,
                self.rng == old(self).rng,
                self.tiles.len() == t,
                forall|j: int|
                    0 <= j < t ==> (#[trigger] self.tiles[j].pos) == tile_pos(j, extent),
                forall|j: int|
                    0 <= j < t ==> (#[trigger] self.tiles[j].possib@) == full_range(
                        self.all_patterns.len() as int,
                    ),
            decreases n - t,
        {
            let mut possib: Vec<u16> = Vec::new();
            let npat: usize = self.all_patterns.len();
            let mut k: usize = 0;
            while k < npat
                invariant
                    k <= npat,
                    npat <= MAX_PATTERNS,
                    possib@.len() == k,
                    forall|i: int| 0 <= i < k ==> #[trigger] possib@[i] == i as u16,
                decreases npat - k,
            {
                possib.push(k as u16);
                k = k + 1;
            }
            proof {
                assert(possib@ =~= full_range(npat as int));
                lemma_tile_pos_index(t as int, extent);
            }
            let pos = tile_pos_exec(t, extent);
            let ghost before = self.tiles@;
            self.tiles.push(Tile { pos, possib });
            proof {
                assert forall|j: int| 0 <= j < self.tiles.len() implies (
                #[trigger] self.tiles[j].possib@) == full_range(self.all_patterns.len() as int) by {
                    if j < t as int {
                        assert(self.tiles[j] == before[j]);
                        assert(before[j].possib@ == full_range(self.all_patterns.len() as int));
                    }
                }
                assert forall|j: int| 0 <= j < self.tiles.len() implies (
                #[trigger] self.tiles[j].pos) == tile_pos(j, extent) by {
                    if j < t as int {
                        assert(self.tiles[j] == before[j]);
                        assert(before[j].pos == tile_pos(j, extent));
                    }
                }
            }
            t = t + 1;
        }
        proof {
            assert forall|tt: int, k: int|
                0 <= tt < self.tiles.len() && 0 <= k < self.tiles[tt].possib.len() implies (
            #[trigger] self.tiles[tt].possib[k]) < self.all_patterns.len() by {
                assert(self.tiles[tt].possib@ == full_range(self.all_patterns.len() as int));
            }
        }
    }
}

impl WFC {
    /// Looks up the neighbor of tile `t` in direction `d`, if the step
    /// stays inside the lattice.
    pub fn neighbor(&self, t: usize, d: usize) -> (r: Option<usize>)
        requires
            self.wf(),
            self.tiles.len() >= 1,
            t < self.tiles.len(),
            d < 6,
        ensures
            r is Some <==> has_nbr(self.extent, t as int, d as int),
            r is Some ==> r->0 == nbr(self.extent, t as int, d as int) && r->0 < self.tiles.len()
                && r->0 != t,
    {
        proof {
            lemma_tile_pos_index(t as int, self.extent);
        }
        let p = self.tiles[t].pos;
        let (dx, dy, dz): (i32, i32, i32) = if d == 0 {
            (1, 0, 0)
        } else if d == 1 {
            (-1, 0, 0)
        } else if d == 2 {
            (0, 1, 0)
        } else if d == 3 {
            (0, -1, 0)
        } else if d == 4 {
            (0, 0, 1)
        } else {
            (0, 0, -1)
        };
        proof {
            assert(Ivec3 { x: dx, y: dy, z: dz } == dir_delta(d as int));
            assert((self.extent.y as int) * (self.extent.z as int) <= MAX_TILES
                && (self.extent.x as int) * (self.extent.y as int) <= MAX_TILES)
                by (nonlinear_arith)
                requires
                    extent_ok(self.extent),
            {
            }
        }
        let nx: i32 = p.x + dx;
        let ny: i32 = p.y + dy;
        let nz: i32 = p.z + dz;
        let e = self.extent;
        if 0 <= nx && nx < e.x && 0 <= ny && ny < e.y && 0 <= nz && nz < e.z {
            let np = Ivec3 { x: nx, y: ny, z: nz };
            proof {
                assert(np == vadd(tile_pos(t as int, self.extent), dir_delta(d as int)));
                lemma_tile_index_bounds(np, e);
                lemma_nbr_symm(self.extent, t as int, d as int);
                assert((ny as int) + (e.y as int) * (nz as int) < (e.y as int) * (e.z as int))
                    by (nonlinear_arith)
                    requires
                        0 <= ny < e.y,
                        0 <= nz < e.z,
                        1 <= e.y,
                        1 <= e.z,
                {
                }
                assert((nx as int) + (e.x as int) * ((ny as int) + (e.y as int) * (nz as int))
                    < extent_volume(e) && 0 <= (ny as int) + (e.y as int) * (nz as int))
                    by (nonlinear_arith)
                    requires
                        extent_ok(e),
                        0 <= nx < e.x,
                        0 <= ny < e.y,
                        0 <= nz < e.z,
                {
                }
            }
            let idx: usize = (nx as usize) + (e.x as usize) * ((ny as usize) + (e.y as usize)
                * (nz as usize));
            Some(idx)
        } else {
            None
        }
    }

    /// Whether candidate `q`, whose face `d` looks at tile `t`, is
    /// consistent with some surviving candidate of `t`.
    pub fn q_supported(&self, q: u16, t: usize, d: usize) -> (r: bool)
        requires
            self.wf(),
            self.tiles.len() >= 1,
            t < self.tiles.len(),
            (q as int) < self.all_patterns.len(),
            d < 6,
        ensures
            r == has_support(self.all_patterns@, self.tiles[t as int].possib@, q, d as int),
    {
        let od: usize = opp_dir(d);
        let n: usize = self.tiles[t].possib.len();
        let mut j: usize = 0;
        while j < n
            invariant
                j <= n,
                n == self.tiles[t as int].possib.len(),
                self.wf(),
                self.tiles.len() >= 1,
                t < self.tiles.len(),
                (q as int) < self.all_patterns.len(),
                d < 6,
                od == opp(d as int),
                forall|i: int|
                    0 <= i < j ==> !pat_match(
                        self.all_patterns@,
                        q,
                        #[trigger] self.tiles[t as int].possib@[i],
                        d as int,
                    ),
            decreases n - j,
        {
            let p: u16 = self.tiles[t].possib[j];
            if self.all_patterns[q as usize].sockets[d] == self.all_patterns[p as usize].sockets[od]
            {
                proof {
                    assert(pat_match(self.all_patterns@, q, self.tiles[t as int].possib@[j as int],
                        d as int));
                }
                return true;
            }
            j = j + 1;
        }
        proof {
            assert(!has_support(self.all_patterns@, self.tiles[t as int].possib@, q, d as int));
        }
        false
    }

    /// Removes from tile `a` every candidate without a consistent
    /// partner on tile `t`, where `d` is the direction from `a` to `t`.
    /// Returns whether the candidate set shrank; an unchanged set
    /// leaves the solver untouched.
    pub fn filter_tile(&mut self, a: usize, t: usize, d: usize) -> (shrunk: bool)
        requires
            old(self).wf(),
            old(self).tiles.len() >= 1,
            a < old(self).tiles.len(),
            t < old(self).tiles.len(),
            a != t,
            d < 6,
        ensures
            final(self).wf(),
            final(self).all_patterns == old(self).all_patterns,
            final(self).extent == old(self).extent,
            final(self).rng == old(self).rng,
            final(self).tiles.len() == old(self).tiles.len(),
            forall|j: int|
                0 <= j < old(self).tiles.len() && j != a ==> final(self).tiles[j] == old(
                    self,
                ).tiles[j],
            final(self).tiles[a as int].pos == old(self).tiles[a as int].pos,
            final(self).tiles[a as int].possib@ == filtered(
                old(self).all_patterns@,
                old(self).tiles[a as int].possib@,
                old(self).tiles[t as int].possib@,
                d as int,
            ),
            shrunk == (final(self).tiles[a as int].possib.len() != old(self).tiles[
                a as int
            ].possib.len()),
            !shrunk ==> *final(self) == *old(self),
            total_possib(final(self).tiles@) <= total_possib(old(self).tiles@),
            shrunk ==> total_possib(final(self).tiles@) < total_possib(old(self).tiles@),
            forall|q: u16|
                final(self).tiles[a as int].possib@.contains(q) ==> old(self).tiles[
                    a as int
                ].possib@.contains(q),
            arc_ok(
                final(self).all_patterns@,
                final(self).tiles[a as int].possib@,
                final(self).tiles[t as int].possib@,
                d as int,
            ),
    {
        let ghost pats = self.all_patterns@;
        let ghost src = self.tiles[a as int].possib@;
        let ghost sup = self.tiles[t as int].possib@;
        let n: usize = self.tiles[a].possib.len();
        let mut kept: Vec<u16> = Vec::new();
        let mut i: usize = 0;
        while i < n
            invariant
                i <= n,
                n == src.len(),
                self.wf(),
                self.tiles.len() >= 1,
                a < self.tiles.len(),
                t < self.tiles.len(),
                a != t,
                d < 6,
                pats == self.all_patterns@,
                src == self.tiles[a as int].possib@,
                sup == self.tiles[t as int].possib@,
                kept@ == filtered(pats, src.take(i as int), sup, d as int),
            decreases n - i,
        {
            let q: u16 = self.tiles[a].possib[i];
            proof {
                assert(src.take(i + 1).drop_last() =~= src.take(i as int));
                assert(src.take(i + 1).last() == src[i as int]);
            }
            if self.q_supported(q, t, d) {
                kept.push(q);
            }
            i = i + 1;
        }
        proof {
            assert(src.take(n as int) =~= src);
            lemma_filtered_len(pats, src, sup, d as int);
            lemma_filtered_sound(pats, src, sup, d as int);
        }
        if kept.len() == n {
            proof {
                lemma_filtered_full(pats, src, sup, d as int);
            }
            false
        } else {
            let pos = self.tiles[a].pos;
            proof {
                lemma_total_possib_update(self.tiles@, a as int, Tile { pos, possib: kept });
            }
            self.tiles.set(a, Tile { pos, possib: kept });
            proof {
                assert forall|tt: int, k: int|
                    0 <= tt < self.tiles.len() && 0 <= k < self.tiles[tt].possib.len() implies (
                #[trigger] self.tiles[tt].possib[k]) < self.all_patterns.len() by {
                    if tt == a {
                        assert(self.tiles[tt].possib@.contains(self.tiles[tt].possib@[k]));
                        let q = self.tiles[tt].possib@[k];
                        assert(src.contains(q) && has_support(pats, sup, q, d as int));
                        let j = choose|j: int| 0 <= j < src.len() && src[j] == q;
                        assert(old(self).tiles[a as int].possib@[j] < old(
                            self,
                        ).all_patterns.len());
                    } else {
                        assert(self.tiles[tt] == old(self).tiles[tt]);
                        assert(old(self).tiles[tt].possib[k] < old(self).all_patterns.len());
                    }
                }
                assert forall|q: u16| self.tiles[a as int].possib@.contains(q) implies old(
                    self,
                ).tiles[a as int].possib@.contains(q) by {
                    let k = choose|k: int|
                        0 <= k < self.tiles[a as int].possib@.len() && self.tiles[
                            a as int
                        ].possib@[k] == q;
                    assert(src.contains(q));
                }
            }
            true
        }
    }
}

/// Whether tile `j` is a neighbor of `t` in some direction below
/// `dmax` inside extent `e`: the tiles a partial sweep around `t` may
/// have touched.
pub open spec fn touched(e: Ivec3, t: int, dmax: int, j: int) -> bool {
    exists|dd: int| 0 <= dd < dmax && #[trigger] nbr(e, t, dd) == j && has_nbr(e, t, dd)
}

impl WFC {
    /// Runs constraint propagation to a fixed point, starting from the
    /// tiles on `worklist`: whenever a tile's candidate set shrinks,
    /// its neighbors are re-filtered against it, until every arc either
    /// is consistent or points at a contradicted tile. Candidate sets
    /// never grow, and no new candidates appear.
    #[verifier::rlimit(100)]
    pub fn propagate(&mut self, worklist: Vec<usize>)
        requires
            old(self).wf(),
            old(self).tiles.len() >= 1,
            forall|i: int|
                0 <= i < worklist.len() ==> (#[trigger] worklist[i] as int) < old(
                    self,
                ).tiles.len(),
            old(self).prop_inv(worklist@),
        ensures
            final(self).wf(),
            final(self).all_patterns == old(self).all_patterns,
            final(self).extent == old(self).extent,
            final(self).rng == old(self).rng,
            final(self).tiles.len() == old(self).tiles.len(),
            forall|j: int|
                0 <= j < old(self).tiles.len() ==> (#[trigger] final(self).tiles[j].pos) == old(
                    self,
                ).tiles[j].pos,
            final(self).settled(),
            forall|j: int|
                0 <= j < old(self).tiles.len() ==> (#[trigger] final(self).tiles[j].possib.len())
                    <= old(self).tiles[j].possib.len(),
            forall|j: int, q: u16|
                0 <= j < old(self).tiles.len() && (#[trigger] final(self).tiles[j].possib@.contains(
                    q,
                )) ==> old(self).tiles[j].possib@.contains(q),
    {
        let ghost e = old(self).extent;
        let mut wl = worklist;
        while wl.len() > 0
            invariant
                self.wf(),
                self.tiles.len() >= 1,
                self.all_patterns == old(self).all_patterns,
                self.extent == old(self).extent,
                self.extent == e,
                self.rng == old(self).rng,
                self.tiles.len() == old(self).tiles.len(),
                forall|j: int|
                    0 <= j < old(self).tiles.len() ==> (#[trigger] self.tiles[j].pos) == old(
                        self,
                    ).tiles[j].pos,
                forall|i: int| 0 <= i < wl.len() ==> (#[trigger] wl[i] as int) < self.tiles.len(),
                self.prop_inv(wl@),
                forall|j: int|
                    0 <= j < old(self).tiles.len() ==> (#[trigger] self.tiles[j].possib.len())
                        <= old(self).tiles[j].possib.len(),
                forall|j: int, q: u16|
                    0 <= j < old(self).tiles.len() && (#[trigger] self.tiles[j].possib@.contains(
                        q,
                    )) ==> old(self).tiles[j].possib@.contains(q),
            decreases total_possib(self.tiles@), wl@.len(),
        {
            let ghost wl_entry = wl@;
            let t: usize = wl.pop().unwrap();
            let ghost wl0 = wl@;
            let ghost snap = *self;
            proof {
                assert(snap.prop_inv(wl_entry));
                assert(wl_entry =~= wl0.push(t));
                assert forall|b: usize| wl_entry.contains(b) implies wl0.contains(b) || b == t by {
                    let i = choose|i: int| 0 <= i < wl_entry.len() && wl_entry[i] == b;
                    if i < wl0.len() {
                        assert(wl0[i] == b);
                    }
                }
            }
            if self.tiles[t].possib.len() == 0 {
                proof {
                    assert(forall|j: int|
                        0 <= j < old(self).tiles.len() ==> (#[trigger] self.tiles[j].possib.len())
                            <= old(self).tiles[j].possib.len());
                    assert(forall|j: int, q: u16|
                        0 <= j < old(self).tiles.len() && (#[trigger] self.tiles[j].possib@.contains(
                            q,
                        )) ==> old(self).tiles[j].possib@.contains(q));
                    assert forall|x: int, dd: int|
                        0 <= x < self.tiles.len() && 0 <= dd < 6 && #[trigger] has_nbr(
                            self.extent,
                            x,
                            dd,
                        ) implies (wl0.contains(nbr(self.extent, x, dd) as usize) || self.tiles[nbr(
                        self.extent,
                        x,
                        dd,
                    )].possib.len() == 0 || self.arc_ok_at(x, dd)) by {
                        lemma_nbr_symm(self.extent, x, dd);
                        let b = nbr(self.extent, x, dd);
                        if b != t as int {
                            assert(wl_entry.contains(b as usize) || self.tiles[b].possib.len()
                                == 0 || self.arc_ok_at(x, dd));
                        }
                    }
                }
            } else {
                let mut d: usize = 0;
                while d < 6
                    invariant
                        d <= 6,
                        t < self.tiles.len(),
                        self.wf(),
                        self.tiles.len() >= 1,
                        snap.wf(),
                        snap.tiles.len() == self.tiles.len(),
                        snap.tiles[t as int].possib.len() > 0,
                        self.all_patterns == snap.all_patterns,
                        self.extent == snap.extent,
                        self.extent == e,
                        self.rng == snap.rng,
                        forall|j: int|
                            0 <= j < self.tiles.len() ==> (#[trigger] self.tiles[j].pos)
                                == snap.tiles[j].pos,
                        self.tiles[t as int] == snap.tiles[t as int],
                        forall|j: int|
                            0 <= j < self.tiles.len() && !touched(e, t as int, d as int, j)
                                ==> (#[trigger] self.tiles[j]) == snap.tiles[j],
                        forall|dd: int|
                            0 <= dd < d && #[trigger] has_nbr(e, t as int, dd) ==> self.tiles[nbr(
                                e,
                                t as int,
                                dd,
                            )].possib@ == filtered(
                                self.all_patterns@,
                                snap.tiles[nbr(e, t as int, dd)].possib@,
                                snap.tiles[t as int].possib@,
                                opp(dd),
                            ),
                        forall|i: int|
                            0 <= i < wl.len() ==> (#[trigger] wl[i] as int) < self.tiles.len(),
                        forall|x: usize| wl0.contains(x) ==> wl@.contains(x),
                        forall|j: int|
                            0 <= j < self.tiles.len() && (#[trigger] self.tiles[j].possib@)
                                != snap.tiles[j].possib@ ==> wl@.contains(j as usize),
                        forall|j: int|
                            0 <= j < self.tiles.len() ==> (#[trigger] self.tiles[j].possib.len())
                                <= snap.tiles[j].possib.len(),
                        forall|j: int, q: u16|
                            0 <= j < self.tiles.len() && (#[trigger] self.tiles[j].possib@.contains(
                                q,
                            )) ==> snap.tiles[j].possib@.contains(q),
                        total_possib(self.tiles@) <= total_possib(snap.tiles@),
                        (wl@ == wl0 && *self == snap) || total_possib(self.tiles@)
                            < total_possib(snap.tiles@),
                    decreases 6 - d,
                {
                    let nb = self.neighbor(t, d);
                    match nb {
                        Some(a) => {
                            proof {
                                lemma_nbr_symm(e, t as int, d as int);
                                assert(!touched(e, t as int, d as int, a as int)) by {
                                    if touched(e, t as int, d as int, a as int) {
                                        let dd = choose|dd: int|
                                            0 <= dd < d && #[trigger] nbr(e, t as int, dd)
                                                == a as int && has_nbr(e, t as int, dd);
                                        lemma_nbr_distinct(e, t as int, dd, d as int);
                                    }
                                }
                                assert(self.tiles[a as int] == snap.tiles[a as int]);
                            }
                            let ghost pre = *self;
                            let od = opp_dir(d);
                            let ghost wl_pre = wl@;
                            let shr = self.filter_tile(a, t, od);
                            if shr {
                                wl.push(a);
                            }
                            proof {
                                assert forall|x: usize| wl_pre.contains(x) implies wl@.contains(x)
                                    by {
                                    let i = choose|i: int|
                                        0 <= i < wl_pre.len() && wl_pre[i] == x;
                                    assert(wl@[i] == x);
                                }
                                if shr {
                                    assert(wl@[wl@.len() - 1] == a);
                                    assert(wl@.contains(a));
                                }
                                lemma_filtered_len(
                                    pre.all_patterns@,
                                    pre.tiles[a as int].possib@,
                                    pre.tiles[t as int].possib@,
                                    od as int,
                                );
                                assert(self.tiles[a as int].possib.len() <= snap.tiles[
                                    a as int
                                ].possib.len());
                                assert forall|dd: int|
                                    0 <= dd < d + 1 && #[trigger] has_nbr(e, t as int, dd) implies
                                    self.tiles[nbr(e, t as int, dd)].possib@ == filtered(
                                    self.all_patterns@,
                                    snap.tiles[nbr(e, t as int, dd)].possib@,
                                    snap.tiles[t as int].possib@,
                                    opp(dd),
                                ) by {
                                    lemma_nbr_symm(e, t as int, dd);
                                    if dd < d {
                                        lemma_nbr_distinct(e, t as int, dd, d as int);
                                        assert(self.tiles[nbr(e, t as int, dd)] == pre.tiles[nbr(
                                            e,
                                            t as int,
                                            dd,
                                        )]);
                                    } else {
                                        assert(nbr(e, t as int, dd) == a as int);
                                    }
                                }
                                assert forall|j: int|
                                    0 <= j < self.tiles.len() && !touched(e, t as int, d + 1, j)
                                    implies (#[trigger] self.tiles[j]) == snap.tiles[j] by {
                                    assert(nbr(e, t as int, d as int) == a as int);
                                    if j == a as int {
                                        assert(touched(e, t as int, d + 1, j));
                                    }
                                    assert(j != a as int);
                                    assert(!touched(e, t as int, d as int, j));
                                }
                                assert forall|j: int, q: u16|
                                    0 <= j < self.tiles.len() && (
                                #[trigger] self.tiles[j].possib@.contains(q)) implies
                                    snap.tiles[j].possib@.contains(q) by {
                                    if j == a as int {
                                        assert(pre.tiles[j].possib@.contains(q));
                                    }
                                }
                            }
                        },
                        None => {},
                    }
                    d = d + 1;
                }
                proof {
                    let pats = self.all_patterns@;
                    assert forall|x: int, dd: int|
                        0 <= x < self.tiles.len() && 0 <= dd < 6 && #[trigger] has_nbr(
                            self.extent,
                            x,
                            dd,
                        ) implies (wl@.contains(nbr(self.extent, x, dd) as usize) || self.tiles[nbr(
                        self.extent,
                        x,
                        dd,
                    )].possib.len() == 0 || self.arc_ok_at(x, dd)) by {
                        let b = nbr(e, x, dd);
                        lemma_nbr_symm(e, x, dd);
                        if b == t as int {
                            let dto = opp(dd);
                            assert(has_nbr(e, t as int, dto) && nbr(e, t as int, dto) == x);
                            assert(self.tiles[x].possib@ == filtered(
                                pats,
                                snap.tiles[x].possib@,
                                snap.tiles[t as int].possib@,
                                dd,
                            ));
                            lemma_filtered_sound(
                                pats,
                                snap.tiles[x].possib@,
                                snap.tiles[t as int].possib@,
                                dd,
                            );
                            assert(self.tiles[t as int].possib@ == snap.tiles[t as int].possib@);
                            assert(arc_ok(
                                pats,
                                self.tiles[x].possib@,
                                self.tiles[t as int].possib@,
                                dd,
                            ));
                        } else {
                            if self.tiles[b].possib@ != snap.tiles[b].possib@ {
                                assert(wl@.contains(b as usize));
                            } else {
                                assert(has_nbr(snap.extent, x, dd));
                                assert(wl_entry.contains(nbr(snap.extent, x, dd) as usize)
                                    || snap.tiles[b].possib.len() == 0 || snap.arc_ok_at(x, dd));
                                if wl_entry.contains(b as usize) {
                                    assert(wl0.contains(b as usize) || b == t as int);
                                } else if snap.tiles[b].possib.len() == 0 {
                                    assert(self.tiles[b].possib.len() == 0);
                                } else {
                                    assert forall|q: u16|
                                        self.tiles[x].possib@.contains(q) implies snap.tiles[
                                        x
                                    ].possib@.contains(q) by {}
                                    lemma_arc_ok_source_subset(
                                        pats,
                                        self.tiles[x].possib@,
                                        snap.tiles[x].possib@,
                                        snap.tiles[b].possib@,
                                        dd,
                                    );
                                }
                            }
                        }
                    }
                    assert forall|j: int|
                        0 <= j < old(self).tiles.len() implies (
                    #[trigger] self.tiles[j].possib.len()) <= old(self).tiles[j].possib.len() by {
                        assert(self.tiles[j].possib.len() <= snap.tiles[j].possib.len());
                        assert(snap.tiles[j].possib.len() <= old(self).tiles[j].possib.len());
                    }
                    assert forall|j: int, q: u16|
                        0 <= j < old(self).tiles.len() && (#[trigger] self.tiles[j].possib@.contains(
                            q,
                        )) implies old(self).tiles[j].possib@.contains(q) by {
                        assert(snap.tiles[j].possib@.contains(q));
                        assert(old(self).tiles[j].possib@.contains(q));
                    }
                }
            }
        }
        proof {
            assert forall|a: int, d: int|
                0 <= a < self.tiles.len() && 0 <= d < 6 && #[trigger] has_nbr(self.extent, a, d)
                implies (self.tiles[nbr(self.extent, a, d)].possib.len() == 0 || self.arc_ok_at(
                a,
                d,
            )) by {
                lemma_nbr_symm(self.extent, a, d);
                assert(!wl@.contains(nbr(self.extent, a, d) as usize));
            }
        }
    }
}

/// The sequence `0, 1, ..., n - 1` as `u16` values.
pub open spec fn full_range(n: int) -> Seq<u16> {
    Seq::new(n as nat, |i: int| i as u16)
}

/// Clones a string, preserving its characters.
pub fn clone_string(s: &String) -> (r: String)
    ensures
        r@ == s@,
{
    s.clone()
}

/// Computes the lattice coordinate of dense index `t`.
pub fn tile_pos_exec(t: usize, e: Ivec3) -> (r: Ivec3)
    requires
        extent_ok(e),
        t < extent_volume(e),
    ensures
        r == tile_pos(t as int, e),
        tile_in_bounds(r, e),
{
    proof {
        lemma_tile_pos_index(t as int, e);
        assert((e.x as usize) * (e.y as usize) >= 1 && (e.x as usize) * (e.y as usize)
            <= MAX_TILES) by (nonlinear_arith)
            requires
                extent_ok(e),
        {
        }
    }
    let ex: usize = e.x as usize;
    let ey: usize = e.y as usize;
    let x: usize = t % ex;
    let y: usize = (t / ex) % ey;
    let z: usize = t / (ex * ey);
    Ivec3 { x: x as i32, y: y as i32, z: z as i32 }
}

/// Outcome of a solve: either every tile collapsed to exactly one
/// pattern, or at least one tile ran out of candidates; the positions
/// of the contradicted tiles are reported in lattice scan order.
pub enum SolveResult {
    /// Every tile holds exactly one surviving pattern.
    Solved,
    /// The listed tile positions have no surviving pattern.
    Contradiction(Vec<Ivec3>),
}

/// Positions of the tiles with no surviving candidate, in scan order.
pub open spec fn zero_positions(tiles: Seq<Tile>) -> Seq<Ivec3>
    decreases tiles.len(),
{
    if tiles.len() == 0 {
        Seq::empty()
    } else {
        let rest = zero_positions(tiles.drop_last());
        if tiles.last().possib.len() == 0 {
            rest.push(tiles.last().pos)
        } else {
            rest
        }
    }
}

impl WFC {
    /// Finds the unresolved tile of minimum entropy, ties broken by the
    /// first found in scan order; `None` when every tile is already
    /// collapsed or contradicted.
    pub fn pick_tile(&self) -> (r: Option<usize>)
        requires
            self.wf(),
            self.tiles.len() >= 1,
        ensures
            r is None ==> forall|j: int|
                0 <= j < self.tiles.len() ==> (#[trigger] self.tiles[j].possib.len()) <= 1,
            r is Some ==> {
                let t = r->0 as int;
                &&& 0 <= t < self.tiles.len()
                &&& self.tiles[t].possib.len() >= 2
                &&& forall|j: int|
                    0 <= j < self.tiles.len() && (#[trigger] self.tiles[j].possib.len()) >= 2
                        ==> self.tiles[t].possib.len() <= self.tiles[j].possib.len()
                &&& forall|j: int|
                    0 <= j < t ==> (#[trigger] self.tiles[j].possib.len()) <= 1
                        || self.tiles[j].possib.len() > self.tiles[t].possib.len()
            },
    {
        let n = self.tiles.len();
        let mut best: usize = 0;
        let mut found = false;
        let mut j: usize = 0;
        while j < n
            invariant
                j <= n,
                n == self.tiles.len(),
                self.wf(),
                found ==> best < j && self.tiles[best as int].possib.len() >= 2,
                found ==> forall|k: int|
                    0 <= k < j && (#[trigger] self.tiles[k].possib.len()) >= 2 ==> self.tiles[
                        best as int
                    ].possib.len() <= self.tiles[k].possib.len(),
                found ==> forall|k: int|
                    0 <= k < best ==> (#[trigger] self.tiles[k].possib.len()) <= 1 || self.tiles[
                        k
                    ].possib.len() > self.tiles[best as int].possib.len(),
                !found ==> forall|k: int|
                    0 <= k < j ==> (#[trigger] self.tiles[k].possib.len()) <= 1,
            decreases n - j,
        {
            let len = self.tiles[j].possib.len();
            if len >= 2 && (!found || len < self.tiles[best].possib.len()) {
                best = j;
                found = true;
            }
            j = j + 1;
        }
        if found {
            Some(best)
        } else {
            None
        }
    }

    /// Drives the solve to completion: repeatedly collapses the
    /// unresolved tile of minimum entropy to one uniformly chosen
    /// surviving candidate and propagates to a fixed point, starting
    /// with one normalization sweep that removes candidates with no
    /// possible partner. Terminates with every tile collapsed or
    /// contradicted; a contradicted tile is reported, not resolved.
    #[verifier::rlimit(100)]
    pub fn run(&mut self) -> (r: SolveResult)
        requires
            old(self).wf(),
            old(self).tiles.len() >= 1,
        ensures
            final(self).wf(),
            final(self).all_patterns == old(self).all_patterns,
            final(self).extent == old(self).extent,
            final(self).tiles.len() == old(self).tiles.len(),
            forall|j: int|
                0 <= j < old(self).tiles.len() ==> (#[trigger] final(self).tiles[j].pos) == old(
                    self,
                ).tiles[j].pos,
            final(self).settled(),
            forall|j: int|
                0 <= j < old(self).tiles.len() ==> (#[trigger] final(self).tiles[j].possib.len())
                    <= 1,
            forall|j: int|
                0 <= j < old(self).tiles.len() ==> (#[trigger] final(self).tiles[j].possib.len())
                    <= old(self).tiles[j].possib.len(),
            forall|j: int, q: u16|
                0 <= j < old(self).tiles.len() && (#[trigger] final(self).tiles[j].possib@.contains(
                    q,
                )) ==> old(self).tiles[j].possib@.contains(q),
            (r is Solved) <==> (forall|j: int|
                0 <= j < final(self).tiles.len() ==> (#[trigger] final(self).tiles[j].possib.len()) == 1),
            r is Contradiction ==> r->0@ == zero_positions(final(self).tiles@) && (exists|j: int|
                0 <= j < final(self).tiles.len() && (#[trigger] final(self).tiles[j].possib.len()) == 0),
    {
        let ghost e = old(self).extent;
        let n = self.tiles.len();
        let mut wl: Vec<usize> = Vec::new();
        let mut i: usize = 0;
        while i < n
            invariant
                i <= n,
                wl@.len() == i,
                forall|k: int| 0 <= k < i ==> #[trigger] wl@[k] == k as usize,
            decreases n - i,
        {
            wl.push(i);
            i = i + 1;
        }
        proof {
            assert forall|x: int, dd: int|
                0 <= x < self.tiles.len() && 0 <= dd < 6 && #[trigger] has_nbr(self.extent, x, dd)
                implies wl@.contains(nbr(self.extent, x, dd) as usize) by {
                lemma_nbr_symm(self.extent, x, dd);
                let b = nbr(self.extent, x, dd);
                assert(wl@[b] == b as usize);
            }
            assert forall|k: int| 0 <= k < wl@.len() implies (#[trigger] wl@[k] as int)
                < self.tiles.len() by {
                assert(wl@[k] == k as usize);
            }
        }
        self.propagate(wl);
        let ghost base = *self;
        let mut done = false;
        while !done
            invariant
                self.wf(),
                self.tiles.len() >= 1,
                self.extent == e,
                self.all_patterns == base.all_patterns,
                self.extent == base.extent,
                self.tiles.len() == base.tiles.len(),
                forall|j: int|
                    0 <= j < base.tiles.len() ==> (#[trigger] self.tiles[j].pos)
                        == base.tiles[j].pos,
                self.settled(),
                forall|j: int|
                    0 <= j < base.tiles.len() ==> (#[trigger] self.tiles[j].possib.len())
                        <= base.tiles[j].possib.len(),
                forall|j: int, q: u16|
                    0 <= j < base.tiles.len() && (#[trigger] self.tiles[j].possib@.contains(q))
                        ==> base.tiles[j].possib@.contains(q),
                done ==> forall|j: int|
                    0 <= j < self.tiles.len() ==> (#[trigger] self.tiles[j].possib.len()) <= 1,
            decreases total_possib(self.tiles@) + (if done {
                0int
            } else {
                1int
            }),
        {
            let ghost prev = *self;
            let pick = self.pick_tile();
            match pick {
                None => {
                    done = true;
                },
                Some(t) => {
                    let len = self.tiles[t].possib.len();
                    let mut gen = self.rng;
                    let ridx = gen.next_below(len as u64);
                    self.rng = gen;
                    let chosen: u16 = self.tiles[t].possib[ridx as usize];
                    let pos = self.tiles[t].pos;
                    let mut npos: Vec<u16> = Vec::new();
                    npos.push(chosen);
                    let ghost newtile = Tile { pos, possib: npos };
                    proof {
                        lemma_total_possib_update(self.tiles@, t as int, newtile);
                    }
                    self.tiles.set(t, Tile { pos, possib: npos });
                    let mut wl2: Vec<usize> = Vec::new();
                    wl2.push(t);
                    proof {
                        assert(wl2@[0] == t);
                        assert(wl2@.contains(t));
                        assert(self.tiles[t as int].possib@ =~= seq![chosen]);
                        assert(prev.tiles[t as int].possib@.contains(chosen));
                        assert forall|tt: int, k: int|
                            0 <= tt < self.tiles.len() && 0 <= k < self.tiles[tt].possib.len()
                            implies (#[trigger] self.tiles[tt].possib[k])
                            < self.all_patterns.len() by {
                            if tt != t as int {
                                assert(self.tiles[tt] == prev.tiles[tt]);
                                assert(prev.tiles[tt].possib[k] < prev.all_patterns.len());
                            } else {
                                assert(self.tiles[tt].possib[k] == chosen);
                                assert(prev.tiles[t as int].possib[ridx as int] < prev.all_patterns.len());
                            }
                        }
                        assert forall|x: int, dd: int|
                            0 <= x < self.tiles.len() && 0 <= dd < 6 && #[trigger] has_nbr(
                                self.extent,
                                x,
                                dd,
                            ) implies (wl2@.contains(nbr(self.extent, x, dd) as usize)
                            || self.tiles[nbr(self.extent, x, dd)].possib.len() == 0
                            || self.arc_ok_at(x, dd)) by {
                            lemma_nbr_symm(self.extent, x, dd);
                            let b = nbr(self.extent, x, dd);
                            if b != t as int {
                                assert(has_nbr(prev.extent, x, dd));
                                assert(prev.tiles[nbr(prev.extent, x, dd)].possib.len() == 0
                                    || prev.arc_ok_at(x, dd));
                                assert(self.tiles[b] == prev.tiles[b]);
                                if prev.tiles[b].possib.len() != 0 {
                                    if x == t as int {
                                        assert forall|q: u16|
                                            self.tiles[x].possib@.contains(q) implies prev.tiles[
                                            x
                                        ].possib@.contains(q) by {
                                            assert(self.tiles[x].possib@[0] == chosen);
                                        }
                                        lemma_arc_ok_source_subset(
                                            self.all_patterns@,
                                            self.tiles[x].possib@,
                                            prev.tiles[x].possib@,
                                            prev.tiles[b].possib@,
                                            dd,
                                        );
                                    } else {
                                        assert(self.tiles[x] == prev.tiles[x]);
                                    }
                                }
                            }
                        }
                    }
                    let ghost mid = *self;
                    self.propagate(wl2);
                    proof {
                        lemma_total_possib_mono(self.tiles@, mid.tiles@);
                        assert(mid.tiles@ == prev.tiles@.update(t as int, newtile));
                        lemma_total_possib_update(prev.tiles@, t as int, newtile);
                        assert(total_possib(self.tiles@) < total_possib(prev.tiles@));
                        assert forall|j: int|
                            0 <= j < base.tiles.len() implies (
                        #[trigger] self.tiles[j].possib.len()) <= base.tiles[j].possib.len() by {
                            assert(self.tiles[j].possib.len() <= mid.tiles[j].possib.len());
                            if j != t as int {
                                assert(mid.tiles[j] == prev.tiles[j]);
                                assert(prev.tiles[j].possib.len() <= base.tiles[j].possib.len());
                            }
                        }
                        assert forall|j: int, q: u16|
                            0 <= j < base.tiles.len() && (#[trigger] self.tiles[j].possib@.contains(
                                q,
                            )) implies base.tiles[j].possib@.contains(q) by {
                            assert(mid.tiles[j].possib@.contains(q));
                            if j == t as int {
                                assert(mid.tiles[j].possib@ == seq![chosen]);
                                assert(q == chosen);
                                assert(prev.tiles[j].possib@.contains(q));
                            } else {
                                assert(mid.tiles[j] == prev.tiles[j]);
                                assert(prev.tiles[j].possib@.contains(q));
                            }
                            assert(base.tiles[j].possib@.contains(q));
                        }
                    }
                },
            }
        }
        let mut zeros: Vec<Ivec3> = Vec::new();
        let mut all_one = true;
        let mut j: usize = 0;
        let nn = self.tiles.len();
        while j < nn
            invariant
                j <= nn,
                nn == self.tiles.len(),
                self.wf(),
                zeros@ == zero_positions(self.tiles@.take(j as int)),
                all_one == (forall|k: int|
                    0 <= k < j ==> (#[trigger] self.tiles[k].possib.len()) == 1),
            decreases nn - j,
        {
            proof {
                assert(self.tiles@.take(j + 1).drop_last() =~= self.tiles@.take(j as int));
                assert(self.tiles@.take(j + 1).last() == self.tiles@[j as int]);
            }
            let len = self.tiles[j].possib.len();
            if len == 0 {
                let p = self.tiles[j].pos;
                zeros.push(p);
            }
            if len != 1 {
                all_one = false;
            }
            j = j + 1;
        }
        proof {
            assert(self.tiles@.take(nn as int) =~= self.tiles@);
        }
        if all_one {
            SolveResult::Solved
        } else {
            proof {
                let k = choose|k: int|
                    0 <= k < nn && (#[trigger] self.tiles[k].possib.len()) != 1;
                assert(self.tiles[k].possib.len() == 0);
            }
            SolveResult::Contradiction(zeros)
        }
    }

    /// Socket consistency: once the lattice is settled, two collapsed
    /// neighboring tiles expose equal socket ids toward each other.
    pub proof fn lemma_socket_consistency(self, a: int, d: int)
        requires
            self.wf(),
            self.tiles.len() >= 1,
            self.settled(),
            0 <= a < self.tiles.len(),
            0 <= d < 6,
            has_nbr(self.extent, a, d),
            self.tiles[a].possib.len() == 1,
            self.tiles[nbr(self.extent, a, d)].possib.len() == 1,
        ensures
            self.all_patterns@[self.tiles[a].possib@[0] as int].sockets@[d]
                == self.all_patterns@[self.tiles[nbr(self.extent, a, d)].possib@[0] as int].sockets@[opp(
                d,
            )],
    {
        let b = nbr(self.extent, a, d);
        lemma_nbr_symm(self.extent, a, d);
        assert(self.arc_ok_at(a, d));
        let q = self.tiles[a].possib@[0];
        assert(has_support(self.all_patterns@, self.tiles[b].possib@, q, d));
        let j = choose|j: int|
            0 <= j < self.tiles[b].possib@.len() && pat_match(
                self.all_patterns@,
                q,
                #[trigger] self.tiles[b].possib@[j],
                d,
            );
        assert(j == 0);
    }
}

} // verus!
