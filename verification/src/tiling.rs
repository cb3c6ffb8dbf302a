//! Splitting the image among workers.
//!
//! The pixels of the image, numbered in raster order, are cut into as many
//! consecutive tiles as there are workers. The tiles are disjoint, leave no
//! pixel out, and differ in size by at most one pixel.

use vstd::prelude::*;
use vstd::arithmetic::div_mod::*;

verus! {

/// A run of consecutive raster positions, from `start` up to but not
/// including `end`.
#[derive(Clone, Copy, Debug, PartialEq, Eq, Structural)]
pub struct Tile {
    pub start: u64,
    pub end: u64,
}

impl Tile {
    /// Whether raster position `k` belongs to the tile.
    pub open spec fn spec_holds(&self, k: u64) -> bool {
        self.start <= k < self.end
    }

    /// Number of positions in the tile.
    pub open spec fn spec_len(&self) -> nat {
        if self.start <= self.end {
            (self.end - self.start) as nat
        } else {
            0
        }
    }

    /// Whether raster position `k` belongs to the tile.
    #[verifier::when_used_as_spec(spec_holds)]
    pub fn holds(&self, k: u64) -> (b: bool)
        ensures
            b == self.spec_holds(k),
    {
        self.start <= k && k < self.end
    }

    /// Number of positions in the tile.
    pub fn len(&self) -> (n: u64)
        ensures
            n == self.spec_len(),
    {
        if self.start <= self.end {
            self.end - self.start
        } else {
            0
        }
    }
}

/// How many tiles a request for `workers` workers yields: one for each
/// worker, and a single tile when no worker was asked for.
pub open spec fn tile_count(workers: nat) -> nat {
    if workers == 0 {
        1
    } else {
        workers
    }
}

/// Where tile `t` begins when `total` positions are cut into `count` tiles:
/// every tile gets `total / count` positions, and each of the first
/// `total % count` tiles gets one more.
pub open spec fn tile_start(total: nat, count: nat, t: nat) -> nat
    recommends
        count > 0,
{
    let base = total / count;
    let extra = total % count;
    t * base + if t < extra { t } else { extra }
}

/// The tiles into which `total` positions are cut for `workers` workers.
pub open spec fn tiling(total: nat, workers: nat) -> Seq<Tile> {
    Seq::new(
        tile_count(workers),
        |t: int|
            Tile {
                start: tile_start(total, tile_count(workers), t as nat) as u64,
                end: tile_start(total, tile_count(workers), (t + 1) as nat) as u64,
            },
    )
}

/// Tile starts never decrease, begin at zero and end at `total`; two
/// neighbouring starts are `total / count` or one more apart.
pub proof fn lemma_tile_start(total: nat, count: nat, t: nat)
    requires
        count > 0,
        t < count,
    ensures
        tile_start(total, count, 0) == 0,
        tile_start(total, count, count) == total,
        tile_start(total, count, t) <= tile_start(total, count, t + 1) <= total,
        tile_start(total, count, t + 1) - tile_start(total, count, t) == total / count + if t < total
            % count {
            1nat
        } else {
            0nat
        },
{
    let base = total / count;
    let extra = total % count;
    lemma_fundamental_div_mod(total as int, count as int);
    lemma_mod_bound(total as int, count as int);
    lemma_div_pos_is_pos(total as int, count as int);
    assert(count * base + extra == total) by (nonlinear_arith)
        requires
            total == count * (total / count) + total % count,
            base == total / count,
            extra == total % count,
    ;
    assert(0 * base == 0) by (nonlinear_arith);
    assert((t + 1) * base == t * base + base) by (nonlinear_arith);
    assert((t + 1) * base <= count * base) by (nonlinear_arith)
        requires
            t + 1 <= count,
            base >= 0,
    ;
}

/// Cuts the positions `0 .. total` into consecutive tiles, one for each of
/// `workers` workers (one tile in all when `workers` is zero).
pub fn split(total: u64, workers: usize) -> (tiles: Vec<Tile>)
    ensures
        tiles@ == tiling(total as nat, workers as nat),
{
    let count: usize = if workers == 0 { 1 } else { workers };
    let base: u64 = total / (count as u64);
    let extra: u64 = total % (count as u64);
    let mut tiles: Vec<Tile> = Vec::new();
    let mut start: u64 = 0;
    let mut t: usize = 0;
    proof {
        lemma_tile_start(total as nat, count as nat, 0);
    }
    while t < count
        invariant
            count == tile_count(workers as nat),
            base == total as nat / count as nat,
            extra == total as nat % count as nat,
            t <= count,
            start == tile_start(total as nat, count as nat, t as nat),
            tiles@.len() == t,
            forall|n: int|
                0 <= n < t ==> #[trigger] tiles@[n] == (Tile {
                    start: tile_start(total as nat, count as nat, n as nat) as u64,
                    end: tile_start(total as nat, count as nat, (n + 1) as nat) as u64,
                }),
        decreases count - t,
    {
        proof {
            lemma_tile_start(total as nat, count as nat, t as nat);
        }
        let size: u64 = if (t as u64) < extra { base + 1 } else { base };
        let end: u64 = start + size;
        tiles.push(Tile { start, end });
        start = end;
        t += 1;
    }
    assert(tiles@ =~= tiling(total as nat, workers as nat));
    tiles
}

/// The tiles of a split follow one another without gap or overlap, from
/// position zero to `total`.
pub proof fn lemma_tiling_is_contiguous(total: nat, workers: nat, t: int)
    requires
        total <= u64::MAX,
        0 <= t < tile_count(workers),
    ensures
        tiling(total, workers).len() == tile_count(workers),
        tiling(total, workers)[0].start == 0,
        tiling(total, workers)[tile_count(workers) - 1].end == total,
        tiling(total, workers)[t].start <= tiling(total, workers)[t].end,
        t + 1 < tile_count(workers) ==> tiling(total, workers)[t].end == tiling(
            total,
            workers,
        )[t + 1].start,
{
    let count = tile_count(workers);
    lemma_tile_start(total, count, t as nat);
    lemma_tile_start(total, count, (count - 1) as nat);
    lemma_tile_start(total, count, 0);
    if t + 1 < count {
        lemma_tile_start(total, count, (t + 1) as nat);
    }
}

/// Every position below `total` lies in exactly one tile of a split.
pub proof fn lemma_tiling_covers_once(total: nat, workers: nat, k: u64) -> (t: int)
    requires
        total <= u64::MAX,
        k < total,
    ensures
        0 <= t < tile_count(workers),
        tiling(total, workers)[t].spec_holds(k),
        forall|u: int|
            0 <= u < tile_count(workers) && #[trigger] tiling(total, workers)[u].spec_holds(k)
                ==> u == t,
{
    let count = tile_count(workers);
    lemma_tile_start(total, count, 0);
    let t = lemma_find_tile(total, count, k as nat, count);
    assert forall|u: int|
        0 <= u < count && #[trigger] tiling(total, workers)[u].spec_holds(k) implies u == t by {
        lemma_tile_start(total, count, u as nat);
        lemma_tile_start(total, count, t as nat);
        if u < t {
            lemma_tile_start_monotonic(total, count, (u + 1) as nat, t as nat);
        } else if t < u {
            lemma_tile_start_monotonic(total, count, (t + 1) as nat, u as nat);
        }
    }
    lemma_tile_start(total, count, t as nat);
    t
}

/// Later tiles start no earlier, and none starts beyond `total`.
proof fn lemma_tile_start_monotonic(total: nat, count: nat, a: nat, b: nat)
    requires
        count > 0,
        a <= b <= count,
    ensures
        tile_start(total, count, a) <= tile_start(total, count, b) <= total,
    decreases b - a,
{
    if a < b {
        lemma_tile_start(total, count, (b - 1) as nat);
        lemma_tile_start_monotonic(total, count, a, (b - 1) as nat);
    } else if b < count {
        lemma_tile_start(total, count, b);
    } else {
        lemma_tile_start(total, count, (count - 1) as nat);
    }
}

/// A position below the start of tile `upto` lies in one of the tiles
/// before it.
proof fn lemma_find_tile(total: nat, count: nat, k: nat, upto: nat) -> (t: int)
    requires
        count > 0,
        0 < upto <= count,
        k < tile_start(total, count, upto),
    ensures
        0 <= t < upto,
        tile_start(total, count, t as nat) <= k < tile_start(total, count, (t + 1) as nat),
    decreases upto,
{
    if tile_start(total, count, (upto - 1) as nat) <= k {
        upto - 1
    } else {
        if upto == 1 {
            lemma_tile_start(total, count, 0);
        }
        lemma_find_tile(total, count, k, (upto - 1) as nat)
    }
}

} // verus!
