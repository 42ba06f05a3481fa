//! The influence engine: the shared weighted-grid-traversal primitives and
//! the three pathfinding algorithms built on them — initial territory
//! claiming, the point-source distance field, and competitive auto-grow.
//!
//! Movement cost is read from an eight-entry cost vector indexed by terrain
//! ordinal; crossing the land/water boundary adds a transition penalty of
//! three times the water cost. Costs accumulate with saturating arithmetic:
//! a sum that would leave `u32` saturates at `u32::MAX`, which no committed
//! claim may carry, `u32::MAX` being the "unclaimed" sentinel.

use vstd::prelude::*;
use vstd::pervasive::VecAdditionalExecFns;

use std::collections::HashMap;

use crate::queue::{pop_min, Entry};
use crate::terrain::Terrain;
use crate::world::World;

verus! {

broadcast use vstd::std_specs::hash::group_hash_axioms;

/// Saturation at the `u32` range: the value itself if it fits, else
/// `u32::MAX`.
pub open spec fn sat32(x: int) -> int {
    if x > u32::MAX {
        u32::MAX as int
    } else {
        x
    }
}

/// The cost of stepping from a tile of terrain `from` onto an adjacent
/// tile of terrain `to`, under an eight-entry cost vector: the entry for
/// `to`, plus three times the water entry whenever the step crosses the
/// land/water boundary.
pub open spec fn spec_step_cost(costs: Seq<u32>, from: Terrain, to: Terrain) -> int {
    costs[to.spec_ordinal()] + if from.spec_is_watery() != to.spec_is_watery() {
        3 * costs[1]
    } else {
        0
    }
}

/// The accumulated cost after one step, saturating at `u32::MAX`.
pub open spec fn spec_relaxed(cost: int, costs: Seq<u32>, from: Terrain, to: Terrain) -> int {
    sat32(cost + spec_step_cost(costs, from, to))
}

/// Computes the saturating accumulated cost of one step.
fn relax_cost(cost: u32, costs: &[u32; 8], from: Terrain, to: Terrain) -> (r: u32)
    ensures
        r as int == spec_relaxed(cost as int, costs@, from, to),
        r >= cost,
{
    let ord = to.ordinal();
    let move_cost = costs[ord] as u64;
    let pen: u64 = if from.is_watery() != to.is_watery() {
        3 * (costs[1] as u64)
    } else {
        0
    };
    let total = cost as u64 + move_cost + pen;
    if total > u32::MAX as u64 {
        u32::MAX
    } else {
        total as u32
    }
}

/// Row of a tile index.
pub open spec fn tile_row(i: int, w: int) -> int {
    i / w
}

/// Column of a tile index.
pub open spec fn tile_col(i: int, w: int) -> int {
    i % w
}

/// Whether tiles `i` and `j` of a `w` by `h` grid share an edge: same
/// column and rows one apart, or same row and columns one apart.
pub open spec fn adjacent(w: int, h: int, i: int, j: int) -> bool {
    &&& 0 <= i < w * h
    &&& 0 <= j < w * h
    &&& {
        let xi = tile_col(i, w);
        let yi = tile_row(i, w);
        let xj = tile_col(j, w);
        let yj = tile_row(j, w);
        ||| (xi == xj && (yj == yi + 1 || yj == yi - 1))
        ||| (yi == yj && (xj == xi + 1 || xj == xi - 1))
    }
}

/// A tile index of a positive grid decomposes into its row and column.
pub proof fn lemma_tile_coords(i: int, w: int, h: int)
    requires
        w > 0,
        h > 0,
        0 <= i < w * h,
    ensures
        0 <= tile_col(i, w) < w,
        0 <= tile_row(i, w) < h,
        i == tile_row(i, w) * w + tile_col(i, w),
{
    vstd::arithmetic::div_mod::lemma_fundamental_div_mod(i, w);
    vstd::arithmetic::div_mod::lemma_mod_pos_bound(i, w);
    let q = i / w;
    let r = i % w;
    assert(0 <= q && q < h) by (nonlinear_arith)
        requires w > 0 && 0 <= i < w * h && i == w * q + r && 0 <= r < w;
    assert(i == q * w + r) by (nonlinear_arith)
        requires i == w * q + r;
}

/// The row and column of `y * w + x` are `y` and `x`.
pub proof fn lemma_tile_coords_of(y: int, x: int, w: int, h: int)
    requires
        w > 0,
        h > 0,
        0 <= x < w,
        0 <= y < h,
    ensures
        0 <= y * w + x < w * h,
        tile_col(y * w + x, w) == x,
        tile_row(y * w + x, w) == y,
{
    assert(0 <= y * w + x < w * h) by (nonlinear_arith)
        requires 0 <= x < w && 0 <= y < h;
    vstd::arithmetic::div_mod::lemma_fundamental_div_mod_converse(y * w + x, w, y, x);
}

/// The four-connected neighbors of a tile, with the guarantee that the
/// list holds exactly the adjacent tiles.
pub fn neighbors(width: usize, height: usize, index: usize) -> (ns: Vec<usize>)
    requires
        width * height <= usize::MAX,
        index < width * height,
    ensures
        ns@.len() <= 4,
        forall|k: int|
            0 <= k < ns@.len() ==> adjacent(
                width as int,
                height as int,
                index as int,
                #[trigger] ns@[k] as int,
            ),
        forall|j: int|
            adjacent(width as int, height as int, index as int, j) ==> exists|k: int|
                0 <= k < ns@.len() && (#[trigger] ns@[k]) as int == j,
{
    let ghost w = width as int;
    let ghost h = height as int;
    let ghost i = index as int;
    proof {
        assert(w > 0 && h > 0) by (nonlinear_arith)
            requires 0 <= i && i < w * h && 0 <= w && 0 <= h;
        lemma_tile_coords(i, w, h);
    }
    let x = index % width;
    let y = index / width;
    let mut ns: Vec<usize> = Vec::new();
    if y > 0 {
        proof {
            lemma_tile_coords_of(y as int - 1, x as int, w, h);
            assert((y as int - 1) * w + x as int == i - w) by (nonlinear_arith)
                requires i == (y as int) * w + (x as int);
        }
        ns.push(index - width);
    }
    if y + 1 < height {
        proof {
            lemma_tile_coords_of(y as int + 1, x as int, w, h);
            assert((y as int + 1) * w + x as int == i + w) by (nonlinear_arith)
                requires i == (y as int) * w + (x as int);
        }
        ns.push(index + width);
    }
    if x > 0 {
        proof {
            lemma_tile_coords_of(y as int, x as int - 1, w, h);
        }
        ns.push(index - 1);
    }
    if x + 1 < width {
        proof {
            lemma_tile_coords_of(y as int, x as int + 1, w, h);
        }
        ns.push(index + 1);
    }
    proof {
        let n_up: int = if y > 0 {
            1
        } else {
            0
        };
        let n_down: int = n_up + if y + 1 < height {
            1int
        } else {
            0
        };
        let n_left: int = n_down + if x > 0 {
            1int
        } else {
            0
        };
        assert(y > 0 ==> ns@[0] == index - width);
        assert(y + 1 < height ==> ns@[n_up] == index + width);
        assert(x > 0 ==> ns@[n_down] == index - 1);
        assert(x + 1 < width ==> ns@[n_left] == index + 1);
        assert forall|j: int| adjacent(w, h, i, j) implies exists|k: int|
            0 <= k < ns@.len() && (#[trigger] ns@[k]) as int == j by {
            lemma_tile_coords(j, w, h);
            let xj = tile_col(j, w);
            let yj = tile_row(j, w);
            if xj == x as int && yj == y as int + 1 {
                assert(j == i + w) by (nonlinear_arith)
                    requires
                        j == yj * w + xj && i == (y as int) * w + (x as int) && xj == x as int
                            && yj == y as int + 1;
                assert(y + 1 < height);
                assert(ns@[n_up] as int == j);
            } else if xj == x as int && yj == y as int - 1 {
                assert(j == i - w) by (nonlinear_arith)
                    requires
                        j == yj * w + xj && i == (y as int) * w + (x as int) && xj == x as int
                            && yj == y as int - 1;
                assert(y > 0);
                assert(ns@[0] as int == j);
            } else if yj == y as int && xj == x as int + 1 {
                assert(j == i + 1) by (nonlinear_arith)
                    requires
                        j == yj * w + xj && i == (y as int) * w + (x as int) && yj == y as int
                            && xj == x as int + 1;
                assert(x + 1 < width);
                assert(ns@[n_left] as int == j);
            } else {
                assert(yj == y as int && xj == x as int - 1);
                assert(j == i - 1) by (nonlinear_arith)
                    requires
                        j == yj * w + xj && i == (y as int) * w + (x as int) && yj == y as int
                            && xj == x as int - 1;
                assert(x > 0);
                assert(ns@[n_down] as int == j);
            }
        }
    }
    ns
}

/// Sum of a distance array, the decreasing part of the termination
/// measure of the traversal loops: every queue entry pushed pays for
/// itself by strictly lowering one entry of the array.
pub open spec fn sum_u32(s: Seq<u32>) -> int
    decreases s.len(),
{
    if s.len() == 0 {
        0
    } else {
        sum_u32(s.drop_last()) + s.last()
    }
}

pub proof fn lemma_sum_u32_nonneg(s: Seq<u32>)
    ensures
        sum_u32(s) >= 0,
    decreases s.len(),
{
    if s.len() > 0 {
        lemma_sum_u32_nonneg(s.drop_last());
    }
}

/// Number of positions where two same-length arrays differ: the claim
/// budget counts the tiles an empire newly acquires.
pub open spec fn num_changed(a: Seq<u32>, b: Seq<u32>) -> int
    decreases b.len(),
{
    if b.len() == 0 {
        0
    } else {
        num_changed(a.drop_last(), b.drop_last()) + if a.len() < b.len() || a.last() != b.last() {
            1int
        } else {
            0
        }
    }
}

pub proof fn lemma_num_changed_self(a: Seq<u32>)
    ensures
        num_changed(a, a) == 0,
    decreases a.len(),
{
    if a.len() > 0 {
        lemma_num_changed_self(a.drop_last());
    }
}

pub proof fn lemma_num_changed_update(a: Seq<u32>, b: Seq<u32>, i: int, v: u32)
    requires
        a.len() == b.len(),
        0 <= i < a.len(),
    ensures
        num_changed(a, b.update(i, v)) == num_changed(a, b) - (if a[i] != b[i] {
            1int
        } else {
            0
        }) + (if a[i] != v {
            1int
        } else {
            0
        }),
    decreases a.len(),
{
    if i == a.len() - 1 {
        assert(b.update(i, v).drop_last() =~= b.drop_last());
        assert(b.update(i, v).last() == v);
    } else {
        assert(b.update(i, v).drop_last() =~= b.drop_last().update(i, v));
        assert(b.update(i, v).last() == b.last());
        lemma_num_changed_update(a.drop_last(), b.drop_last(), i, v);
    }
}


/// Number of tiles that were unowned in `a` and are owned by empire `e`
/// in `b`: what one growth event costs empire `e` of its budget.
pub open spec fn num_claimed_by(a: Seq<u32>, b: Seq<u32>, e: u32) -> int
    decreases b.len(),
{
    if b.len() == 0 {
        0
    } else {
        num_claimed_by(a.drop_last(), b.drop_last(), e) + if a.len() == b.len() && a.last() == 0
            && b.last() == e {
            1int
        } else {
            0
        }
    }
}

pub proof fn lemma_num_claimed_by_self(a: Seq<u32>, e: u32)
    requires
        e != 0,
    ensures
        num_claimed_by(a, a, e) == 0,
    decreases a.len(),
{
    if a.len() > 0 {
        lemma_num_claimed_by_self(a.drop_last(), e);
    }
}

pub proof fn lemma_num_claimed_by_nonneg(a: Seq<u32>, b: Seq<u32>, e: u32)
    ensures
        num_claimed_by(a, b, e) >= 0,
    decreases b.len(),
{
    if b.len() > 0 {
        lemma_num_claimed_by_nonneg(a.drop_last(), b.drop_last(), e);
    }
}

pub proof fn lemma_num_claimed_by_update(a: Seq<u32>, b: Seq<u32>, i: int, v: u32, e: u32)
    requires
        a.len() == b.len(),
        0 <= i < a.len(),
    ensures
        num_claimed_by(a, b.update(i, v), e) == num_claimed_by(a, b, e) - (if a[i] == 0 && b[i]
            == e {
            1int
        } else {
            0
        }) + (if a[i] == 0 && v == e {
            1int
        } else {
            0
        }),
    decreases a.len(),
{
    if i == a.len() - 1 {
        assert(b.update(i, v).drop_last() =~= b.drop_last());
        assert(b.update(i, v).last() == v);
    } else {
        assert(b.update(i, v).drop_last() =~= b.drop_last().update(i, v));
        assert(b.update(i, v).last() == b.last());
        lemma_num_claimed_by_update(a.drop_last(), b.drop_last(), i, v, e);
    }
}

/// A distance field is relaxed at tile `i` when no neighbor could be
/// improved by stepping out of `i`: the field changes by at most the step
/// cost along every edge leaving `i`.
pub open spec fn relaxed_at(
    dm: Seq<u32>,
    costs: Seq<u32>,
    tiles: Seq<Terrain>,
    w: int,
    h: int,
    i: int,
) -> bool {
    forall|j: int|
        #[trigger] adjacent(w, h, i, j) ==> dm[j] as int <= spec_relaxed(
            dm[i] as int,
            costs,
            tiles[i],
            tiles[j],
        )
}

pub proof fn lemma_sum_u32_update(s: Seq<u32>, i: int, v: u32)
    requires
        0 <= i < s.len(),
    ensures
        sum_u32(s.update(i, v)) == sum_u32(s) - s[i] + v,
    decreases s.len(),
{
    if i == s.len() - 1 {
        assert(s.update(i, v).drop_last() =~= s.drop_last());
        assert(s.update(i, v).last() == v);
    } else {
        assert(s.update(i, v).drop_last() =~= s.drop_last().update(i, v));
        assert(s.update(i, v).last() == s.last());
        lemma_sum_u32_update(s.drop_last(), i, v);
    }
}


/// A walk over the grid: a nonempty sequence of tiles, each adjacent to
/// the one before.
pub open spec fn is_walk(w: int, h: int, p: Seq<int>) -> bool {
    &&& p.len() >= 1
    &&& forall|n: int| 0 <= n < p.len() ==> 0 <= #[trigger] p[n] < w * h
    &&& forall|n: int| 0 < n < p.len() ==> adjacent(w, h, p[n - 1], #[trigger] p[n])
}

/// Saturating accumulated cost of a walk: the cost of its prefix plus one
/// step onto its last tile.
pub open spec fn walk_cost(costs: Seq<u32>, tiles: Seq<Terrain>, p: Seq<int>) -> int
    decreases p.len(),
{
    if p.len() <= 1 {
        0
    } else {
        sat32(
            walk_cost(costs, tiles, p.drop_last()) + spec_step_cost(
                costs,
                tiles[p[p.len() - 2]],
                tiles[p.last()],
            ),
        )
    }
}

/// Some walk from `start` to `i` accumulates exactly cost `c`: every
/// finite entry of a freshly computed distance field is of this kind, so
/// the field holds no value that no actual path realizes.
pub open spec fn reachable_at_cost(
    costs: Seq<u32>,
    tiles: Seq<Terrain>,
    w: int,
    h: int,
    start: int,
    i: int,
    c: int,
) -> bool {
    exists|p: Seq<int>|
        is_walk(w, h, p) && p.first() == start && p.last() == i && #[trigger] walk_cost(
            costs,
            tiles,
            p,
        ) == c
}

/// The one-tile walk realizes cost zero at the start.
pub proof fn lemma_walk_single(costs: Seq<u32>, tiles: Seq<Terrain>, w: int, h: int, start: int)
    requires
        0 <= start < w * h,
    ensures
        reachable_at_cost(costs, tiles, w, h, start, start, 0),
{
    let p = seq![start];
    assert(is_walk(w, h, p));
    assert(walk_cost(costs, tiles, p) == 0);
}

/// Extending a walk by one adjacent tile accumulates one saturating step.
proof fn lemma_walk_extend(
    costs: Seq<u32>,
    tiles: Seq<Terrain>,
    w: int,
    h: int,
    start: int,
    i: int,
    j: int,
    c: int,
)
    requires
        reachable_at_cost(costs, tiles, w, h, start, i, c),
        adjacent(w, h, i, j),
    ensures
        reachable_at_cost(
            costs,
            tiles,
            w,
            h,
            start,
            j,
            sat32(c + spec_step_cost(costs, tiles[i], tiles[j])),
        ),
{
    let p = choose|p: Seq<int>|
        is_walk(w, h, p) && p.first() == start && p.last() == i && #[trigger] walk_cost(
            costs,
            tiles,
            p,
        ) == c;
    let p2 = p.push(j);
    assert forall|n: int| 0 < n < p2.len() implies adjacent(w, h, p2[n - 1], #[trigger] p2[n]) by {
        if n < p2.len() - 1 {
            assert(p2[n - 1] == p[n - 1] && p2[n] == p[n]);
        } else {
            assert(p2[n - 1] == p.last() && p2[n] == j);
        }
    }
    assert(is_walk(w, h, p2));
    assert(p2.drop_last() =~= p);
    assert(p2[p2.len() - 2] == p.last());
    assert(walk_cost(costs, tiles, p2) == sat32(c + spec_step_cost(costs, tiles[i], tiles[j])));
    assert(p2.first() == start && p2.last() == j);
}

impl World {
    /// Computes the single-source distance field from a start tile into
    /// `dist_map`, ignoring ownership: the whole field is reset to the
    /// `u32::MAX` sentinel, the start costs zero, and costs accumulate with
    /// saturating arithmetic under the given cost vector. The result is a
    /// relaxation fixed point: along every edge the field grows by at most
    /// the step cost, so it is non-decreasing along any shortest path. The
    /// `empire_id` argument is accepted for interface compatibility and
    /// ignored; the cost vector alone drives the query.
    #[allow(unused_variables)]
    #[verifier::loop_isolation(false)]
    pub fn djisktra_dist_point(
        &mut self,
        start_x: usize,
        start_y: usize,
        empire_id: u32,
        settings: Vec<u32>,
    )
        requires
            old(self).wf(),
            settings@.len() == 8,
            start_y * old(self).width + start_x < old(self).size(),
        ensures
            final(self).wf(),
            *final(self) == (World { dist_map: final(self).dist_map, ..*old(self) }),
            final(self).dist_map@.len() == old(self).size(),
            final(self).dist_map@[start_y * old(self).width + start_x] == 0,
            forall|i: int|
                0 <= i < old(self).size() ==> relaxed_at(
                    final(self).dist_map@,
                    settings@,
                    old(self).tiles@,
                    old(self).width as int,
                    old(self).height as int,
                    i,
                ),
            forall|i: int|
                0 <= i < old(self).size() && #[trigger] final(self).dist_map@[i] != u32::MAX
                    ==> reachable_at_cost(
                    settings@,
                    old(self).tiles@,
                    old(self).width as int,
                    old(self).height as int,
                    start_y * old(self).width + start_x,
                    i,
                    final(self).dist_map@[i] as int,
                ),
    {
        let ghost w = old(self).width as int;
        let ghost h = old(self).height as int;
        let ghost tiles = old(self).tiles@;
        let size = self.tiles.len();
        let width = self.width;
        let start_index = start_y * width + start_x;
        let ghost start = start_index as int;

        let mut i: usize = 0;
        while i < size
            invariant
                i <= size,
                self.wf(),
                *self == (World { dist_map: self.dist_map, ..*old(self) }),
                self.dist_map@.len() == size,
                forall|k: int| 0 <= k < i ==> #[trigger] self.dist_map@[k] == u32::MAX,
            decreases size - i,
        {
            self.dist_map.set(i, u32::MAX);
            i += 1;
        }

        let costs: [u32; 8] = [
            settings[0],
            settings[1],
            settings[2],
            settings[3],
            settings[4],
            settings[5],
            settings[6],
            settings[7],
        ];
        proof {
            assert(costs@ =~= settings@);
        }

        let mut pq: Vec<Entry> = Vec::new();
        pq.push(Entry { cost: 0, index: start_index, empire: 0 });
        self.dist_map.set(start_index, 0);
        proof {
            assert(pq@.len() == 1);
            assert(pq@[0] == (Entry { cost: 0u32, index: start_index, empire: 0u32 }));
            lemma_walk_single(settings@, tiles, w, h, start);
            assert forall|i: int|
                0 <= i < size && #[trigger] self.dist_map@[i] != u32::MAX implies (exists|k: int|
                0 <= k < pq@.len() && (#[trigger] pq@[k]).index == i && pq@[k].cost
                    == self.dist_map@[i]) || relaxed_at(
                self.dist_map@,
                settings@,
                tiles,
                w,
                h,
                i,
            ) by {
                assert(i == start);
                assert(pq@[0].index == i && pq@[0].cost == self.dist_map@[i]);
            }
        }

        while pq.len() > 0
            invariant
                self.wf(),
                *self == (World { dist_map: self.dist_map, ..*old(self) }),
                self.dist_map@.len() == size,
                self.dist_map@[start] == 0,
                forall|k: int| 0 <= k < pq@.len() ==> (#[trigger] pq@[k]).index < size,
                forall|k: int|
                    0 <= k < pq@.len() ==> self.dist_map@[(#[trigger] pq@[k]).index as int]
                        <= pq@[k].cost,
                forall|i: int|
                    0 <= i < size && #[trigger] self.dist_map@[i] != u32::MAX ==> (exists|k: int|
                        0 <= k < pq@.len() && (#[trigger] pq@[k]).index == i && pq@[k].cost
                            == self.dist_map@[i]) || relaxed_at(
                        self.dist_map@,
                        settings@,
                        tiles,
                        w,
                        h,
                        i,
                    ),
                forall|i: int|
                    0 <= i < size && #[trigger] self.dist_map@[i] != u32::MAX
                        ==> reachable_at_cost(
                        settings@,
                        tiles,
                        w,
                        h,
                        start,
                        i,
                        self.dist_map@[i] as int,
                    ),
                forall|k: int|
                    0 <= k < pq@.len() ==> reachable_at_cost(
                        settings@,
                        tiles,
                        w,
                        h,
                        start,
                        (#[trigger] pq@[k]).index as int,
                        pq@[k].cost as int,
                    ),
            decreases pq@.len() + sum_u32(self.dist_map@),
        {
            proof {
                lemma_sum_u32_nonneg(self.dist_map@);
            }
            let ghost q0 = pq@;
            let e = match pop_min(&mut pq) {
                Some(e) => e,
                None => {
                    proof {
                        assert(false);
                    }
                    continue ;
                },
            };
            proof {
                let kk = choose|kk: int|
                    0 <= kk < q0.len() && e == q0[kk] && pq@ == q0.remove(kk);
                assert(reachable_at_cost(settings@, tiles, w, h, start, e.index as int, e.cost as int));
                assert forall|k: int| 0 <= k < pq@.len() implies reachable_at_cost(
                    settings@,
                    tiles,
                    w,
                    h,
                    start,
                    (#[trigger] pq@[k]).index as int,
                    pq@[k].cost as int,
                ) by {
                    if k < kk {
                        assert(pq@[k] == q0[k]);
                    } else {
                        assert(pq@[k] == q0[k + 1]);
                    }
                }
                assert forall|i: int|
                    0 <= i < size && #[trigger] self.dist_map@[i] != u32::MAX implies (exists|
                    k2: int,
                |
                    0 <= k2 < pq@.len() && (#[trigger] pq@[k2]).index == i && pq@[k2].cost
                        == self.dist_map@[i]) || relaxed_at(
                    self.dist_map@,
                    settings@,
                    tiles,
                    w,
                    h,
                    i,
                ) || (i == e.index as int && self.dist_map@[i] == e.cost) by {
                    if exists|k2: int|
                        0 <= k2 < q0.len() && (#[trigger] q0[k2]).index == i && q0[k2].cost
                            == self.dist_map@[i] {
                        let k2 = choose|k2: int|
                            0 <= k2 < q0.len() && (#[trigger] q0[k2]).index == i && q0[k2].cost
                                == self.dist_map@[i];
                        if k2 == kk {
                            assert(i == e.index as int && self.dist_map@[i] == e.cost);
                        } else if k2 < kk {
                            assert(pq@[k2] == q0[k2]);
                        } else {
                            assert(pq@[k2 - 1] == q0[k2]);
                        }
                    }
                }
            }
            if e.cost > self.dist_map[e.index] {
                continue ;
            }
            let ie = e.index;
            let ghost iei = ie as int;
            let ti = self.tiles[ie];
            let ns = neighbors(width, self.height, ie);
            let ghost budget = pq@.len() + sum_u32(self.dist_map@);
            let mut k: usize = 0;
            while k < ns.len()
                invariant
                    k <= ns@.len(),
                    self.wf(),
                    *self == (World { dist_map: self.dist_map, ..*old(self) }),
                    self.dist_map@.len() == size,
                    self.dist_map@[start] == 0,
                    self.dist_map@[iei] == e.cost,
                    pq@.len() + sum_u32(self.dist_map@) <= budget,
                    forall|k2: int| 0 <= k2 < pq@.len() ==> (#[trigger] pq@[k2]).index < size,
                    forall|k2: int|
                        0 <= k2 < pq@.len() ==> self.dist_map@[(#[trigger] pq@[k2]).index as int]
                            <= pq@[k2].cost,
                    forall|i: int|
                        0 <= i < size && i != iei && #[trigger] self.dist_map@[i] != u32::MAX ==> (
                        exists|k2: int|
                            0 <= k2 < pq@.len() && (#[trigger] pq@[k2]).index == i && pq@[k2].cost
                                == self.dist_map@[i]) || relaxed_at(
                            self.dist_map@,
                            settings@,
                            tiles,
                            w,
                            h,
                            i,
                        ),
                    forall|t: int|
                        0 <= t < k ==> self.dist_map@[(#[trigger] ns@[t]) as int] as int
                            <= spec_relaxed(e.cost as int, settings@, tiles[iei], tiles[ns@[t] as int]),
                    forall|i: int|
                        0 <= i < size && #[trigger] self.dist_map@[i] != u32::MAX
                            ==> reachable_at_cost(
                            settings@,
                            tiles,
                            w,
                            h,
                            start,
                            i,
                            self.dist_map@[i] as int,
                        ),
                    forall|k2: int|
                        0 <= k2 < pq@.len() ==> reachable_at_cost(
                            settings@,
                            tiles,
                            w,
                            h,
                            start,
                            (#[trigger] pq@[k2]).index as int,
                            pq@[k2].cost as int,
                        ),
                decreases ns@.len() - k,
            {
                let j = ns[k];
                let ghost ji = j as int;
                proof {
                    assert(adjacent(w, h, iei, ji));
                }
                let tj = self.tiles[j];
                let nc = relax_cost(e.cost, &costs, ti, tj);
                if nc < self.dist_map[j] {
                    let ghost dm_before = self.dist_map@;
                    proof {
                        lemma_sum_u32_update(self.dist_map@, ji, nc);
                        lemma_walk_extend(settings@, tiles, w, h, start, iei, ji, e.cost as int);
                        assert(reachable_at_cost(settings@, tiles, w, h, start, ji, nc as int));
                    }
                    let ghost q_pre = pq@;
                    self.dist_map.set(j, nc);
                    pq.push(Entry { cost: nc, index: j, empire: 0 });
                    proof {
                        let dm = self.dist_map@;
                        assert forall|i: int|
                            0 <= i < size && i != iei && #[trigger] dm[i] != u32::MAX implies (
                        exists|k2: int|
                            0 <= k2 < pq@.len() && (#[trigger] pq@[k2]).index == i && pq@[k2].cost
                                == dm[i]) || relaxed_at(dm, settings@, tiles, w, h, i) by {
                            if i == ji {
                                assert(pq@[pq@.len() - 1].index == i && pq@[pq@.len() - 1].cost
                                    == dm[i]);
                            } else {
                                assert(dm[i] == dm_before[i]);
                                if dm_before[i] != u32::MAX {
                                    if exists|k2: int|
                                        0 <= k2 < q_pre.len() && (#[trigger] q_pre[k2]).index == i
                                            && q_pre[k2].cost == dm_before[i] {
                                        let k2 = choose|k2: int|
                                            0 <= k2 < q_pre.len() && (#[trigger] q_pre[k2]).index
                                                == i && q_pre[k2].cost == dm_before[i];
                                        assert(pq@[k2] == q_pre[k2]);
                                    } else {
                                        assert(relaxed_at(dm_before, settings@, tiles, w, h, i));
                                        assert forall|j2: int| #[trigger]
                                            adjacent(w, h, i, j2) implies dm[j2] as int
                                            <= spec_relaxed(
                                            dm[i] as int,
                                            settings@,
                                            tiles[i],
                                            tiles[j2],
                                        ) by {
                                            assert(dm_before[j2] as int <= spec_relaxed(
                                                dm_before[i] as int,
                                                settings@,
                                                tiles[i],
                                                tiles[j2],
                                            ));
                                            assert(dm[j2] <= dm_before[j2]);
                                        }
                                    }
                                }
                            }
                        }
                    }
                }
                k += 1;
                proof {
                    let dm = self.dist_map@;
                    assert forall|t: int|
                        0 <= t < k implies dm[(#[trigger] ns@[t]) as int] as int <= spec_relaxed(
                        e.cost as int,
                        settings@,
                        tiles[iei],
                        tiles[ns@[t] as int],
                    ) by {}
                }
            }
            proof {
                let dm = self.dist_map@;
                assert forall|j2: int| #[trigger] adjacent(w, h, iei, j2) implies dm[j2] as int
                    <= spec_relaxed(dm[iei] as int, settings@, tiles[iei], tiles[j2]) by {
                    let k0 = choose|k0: int| 0 <= k0 < ns@.len() && (#[trigger] ns@[k0]) as int == j2;
                    assert(dm[ns@[k0] as int] as int <= spec_relaxed(
                        e.cost as int,
                        settings@,
                        tiles[iei],
                        tiles[ns@[k0] as int],
                    ));
                }
                assert(relaxed_at(dm, settings@, tiles, w, h, iei));
                assert forall|i: int|
                    0 <= i < size && #[trigger] dm[i] != u32::MAX implies (exists|k2: int|
                    0 <= k2 < pq@.len() && (#[trigger] pq@[k2]).index == i && pq@[k2].cost == dm[i])
                    || relaxed_at(dm, settings@, tiles, w, h, i) by {
                    if i == iei {
                        assert(relaxed_at(dm, settings@, tiles, w, h, i));
                    }
                }
                lemma_sum_u32_nonneg(dm);
            }
        }
        proof {
            assert forall|i: int| 0 <= i < size implies relaxed_at(
                self.dist_map@,
                settings@,
                tiles,
                w,
                h,
                i,
            ) by {
                let dm = self.dist_map@;
                if dm[i] == u32::MAX {
                    assert forall|j: int| #[trigger] adjacent(w, h, i, j) implies dm[j] as int
                        <= spec_relaxed(dm[i] as int, settings@, tiles[i], tiles[j]) by {
                        assert(spec_relaxed(u32::MAX as int, settings@, tiles[i], tiles[j])
                            == u32::MAX as int);
                    }
                }
            }
        }
    }
}


/// A scratch field `dl` is competitively relaxed at tile `i` against a
/// committed field `dv`: no neighbor of `i` could be improved by stepping
/// out of `i` — each is already within one step in the scratch field, or
/// was committed at or below the cost of that step.
pub open spec fn calc_relaxed_at(
    dl: Seq<u32>,
    dv: Seq<u32>,
    costs: Seq<u32>,
    tiles: Seq<Terrain>,
    w: int,
    h: int,
    i: int,
) -> bool {
    forall|j: int|
        #[trigger] adjacent(w, h, i, j) ==> dl[j] as int <= spec_relaxed(
            dl[i] as int,
            costs,
            tiles[i],
            tiles[j],
        ) || dv[j] as int <= spec_relaxed(dl[i] as int, costs, tiles[i], tiles[j])
}

/// The completeness certificate of a finished territory claim: `dl` is
/// the field of best accumulated costs the search computed. The start
/// costs zero; every tile is either competitively relaxed or was already
/// committed below its scratch cost; and every liveable tile the search
/// reached was committed at or below its scratch cost. By induction along
/// any walk from the start, the walk either runs through a tile committed
/// at or below the walk's accumulated cost or ends no cheaper than `dl`,
/// so no liveable tile remains reachable below its committed cost.
pub open spec fn claim_complete(
    dl: Seq<u32>,
    dv: Seq<u32>,
    costs: Seq<u32>,
    tiles: Seq<Terrain>,
    w: int,
    h: int,
    start: int,
) -> bool {
    &&& dl.len() == w * h
    &&& dl[start] == 0
    &&& forall|i: int|
        0 <= i < w * h ==> #[trigger] calc_relaxed_at(dl, dv, costs, tiles, w, h, i) || dv[i]
            < dl[i]
    &&& forall|i: int|
        0 <= i < w * h && tiles[i].spec_is_liveable() && #[trigger] dl[i] != u32::MAX ==> dv[i]
            <= dl[i]
}

/// Competitive relaxedness survives any pointwise decrease of the
/// committed field.
proof fn lemma_calc_relaxed_dv_mono(
    dl: Seq<u32>,
    dv1: Seq<u32>,
    dv2: Seq<u32>,
    costs: Seq<u32>,
    tiles: Seq<Terrain>,
    w: int,
    h: int,
    i: int,
)
    requires
        calc_relaxed_at(dl, dv1, costs, tiles, w, h, i),
        dv1.len() == w * h,
        dv2.len() == w * h,
        forall|j: int| 0 <= j < w * h ==> #[trigger] dv2[j] <= dv1[j],
    ensures
        calc_relaxed_at(dl, dv2, costs, tiles, w, h, i),
{
    assert forall|j: int| #[trigger] adjacent(w, h, i, j) implies dl[j] as int <= spec_relaxed(
        dl[i] as int,
        costs,
        tiles[i],
        tiles[j],
    ) || dv2[j] as int <= spec_relaxed(dl[i] as int, costs, tiles[i], tiles[j]) by {
        assert(dv2[j] <= dv1[j]);
    }
}

impl World {
    /// Claims up to `n` tiles for an empire by cheapest accumulated cost
    /// from a start tile: a weighted traversal over the four-connected
    /// grid, ordered by (cost, tile index), that commits a tile whenever
    /// its popped cost does not exceed either the local best or the tile's
    /// already-committed cost in `dist_vector` — a tile secured more
    /// cheaply by anyone is never overwritten, and committed costs never
    /// increase. Only liveable tiles are claimed; others are traversed for
    /// pathing but left unowned. The budget counts newly acquired tiles:
    /// re-committing a tile the empire already owns is free. Every
    /// committed cost is realized by an actual walk from the start, and
    /// unless the budget cut the search short, the search's own best-cost
    /// field certifies completeness: every liveable tile it reached is
    /// committed at or below its cheapest competitive walk cost.
    #[verifier::loop_isolation(false)]
    #[verifier::rlimit(100)]
    #[verifier::spinoff_prover]
    pub fn calc_teritory(&mut self, start_index: usize, empire_id: u32, n: u32)
        requires
            old(self).wf(),
            old(self).empires@.contains_key(empire_id),
            empire_id != 0,
            start_index < old(self).size(),
        ensures
            final(self).wf(),
            *final(self) == (World {
                owners: final(self).owners,
                dist_vector: final(self).dist_vector,
                ..*old(self)
            }),
            forall|i: int|
                0 <= i < old(self).size() ==> #[trigger] final(self).dist_vector@[i] <= old(
                    self,
                ).dist_vector@[i],
            forall|i: int|
                0 <= i < old(self).size() ==> (#[trigger] final(self).owners@[i]) == old(
                    self,
                ).owners@[i] || final(self).owners@[i] == empire_id,
            forall|i: int|
                0 <= i < old(self).size() && ((#[trigger] final(self).owners@[i]) != old(
                    self,
                ).owners@[i] || final(self).dist_vector@[i] != old(self).dist_vector@[i])
                    ==> final(self).owners@[i] == empire_id
                    && old(self).tiles@[i].spec_is_liveable() && final(self).dist_vector@[i]
                    < u32::MAX,
            forall|i: int|
                0 <= i < old(self).size() && ((#[trigger] final(self).owners@[i]) != old(
                    self,
                ).owners@[i] || final(self).dist_vector@[i] != old(self).dist_vector@[i])
                    ==> reachable_at_cost(
                    old(self).empires@[empire_id].costs@,
                    old(self).tiles@,
                    old(self).width as int,
                    old(self).height as int,
                    start_index as int,
                    i,
                    final(self).dist_vector@[i] as int,
                ),
            num_changed(old(self).owners@, final(self).owners@) <= n,
            num_changed(old(self).owners@, final(self).owners@) < n ==> exists|dl: Seq<u32>|
                #[trigger] claim_complete(
                    dl,
                    final(self).dist_vector@,
                    old(self).empires@[empire_id].costs@,
                    old(self).tiles@,
                    old(self).width as int,
                    old(self).height as int,
                    start_index as int,
                ),
            old(self).consistent() ==> final(self).consistent(),
            n >= 1 && old(self).tiles@[start_index as int].spec_is_liveable() ==> final(self).owners@[start_index as int] == empire_id && final(self).dist_vector@[start_index as int] == 0,
            n == 0 ==> final(self).owners@ == old(self).owners@ && final(self).dist_vector@ == old(
                self,
            ).dist_vector@,
    {
        let ghost o0 = old(self).owners@;
        let ghost d0 = old(self).dist_vector@;
        let ghost tiles = old(self).tiles@;
        let ghost w = old(self).width as int;
        let ghost h = old(self).height as int;
        let size = self.tiles.len();
        let width = self.width;
        let height = self.height;
        let ghost start = start_index as int;

        let costs: [u32; 8] = match self.empires.get(&empire_id) {
            Some(e) => e.costs,
            None => {
                proof {
                    assert(false);
                }
                [0; 8]
            },
        };
        let ghost cs = costs@;
        proof {
            assert(cs == old(self).empires@[empire_id].costs@);
            assert(size as int == w * h);
        }

        let mut dist_local: Vec<u32> = vec![u32::MAX; size];
        let mut pq: Vec<Entry> = Vec::new();
        pq.push(Entry { cost: 0, index: start_index, empire: 0 });
        dist_local.set(start_index, 0);
        let mut claimed: u32 = 0;

        proof {
            lemma_num_changed_self(o0);
            lemma_walk_single(cs, tiles, w, h, start);
            assert(pq@[0] == (Entry { cost: 0u32, index: start_index, empire: 0u32 }));
            assert forall|i: int|
                0 <= i < size && #[trigger] dist_local@[i] != u32::MAX implies i == start by {}
        }

        while pq.len() > 0 && claimed < n
            invariant
                self.wf(),
                *self == (World {
                    owners: self.owners,
                    dist_vector: self.dist_vector,
                    ..*old(self)
                }),
                dist_local@.len() == size,
                dist_local@[start] == 0,
                forall|i: int|
                    0 <= i < size ==> #[trigger] self.dist_vector@[i] <= d0[i],
                forall|i: int|
                    0 <= i < size ==> (#[trigger] self.owners@[i]) == o0[i] || self.owners@[i]
                        == empire_id,
                forall|i: int|
                    0 <= i < size && ((#[trigger] self.owners@[i]) != o0[i] || self.dist_vector@[i]
                        != d0[i]) ==> self.owners@[i] == empire_id
                        && tiles[i].spec_is_liveable() && self.dist_vector@[i] < u32::MAX,
                forall|i: int|
                    0 <= i < size && ((#[trigger] self.owners@[i]) != o0[i] || self.dist_vector@[i]
                        != d0[i]) ==> reachable_at_cost(
                        cs,
                        tiles,
                        w,
                        h,
                        start,
                        i,
                        self.dist_vector@[i] as int,
                    ),
                claimed as int == num_changed(o0, self.owners@),
                claimed <= n,
                forall|k: int|
                    0 <= k < pq@.len() ==> (#[trigger] pq@[k]).index < size && pq@[k].cost
                        < u32::MAX,
                forall|k: int|
                    0 <= k < pq@.len() ==> dist_local@[(#[trigger] pq@[k]).index as int]
                        <= pq@[k].cost,
                forall|k: int|
                    0 <= k < pq@.len() ==> reachable_at_cost(
                        cs,
                        tiles,
                        w,
                        h,
                        start,
                        (#[trigger] pq@[k]).index as int,
                        pq@[k].cost as int,
                    ),
                forall|i: int|
                    0 <= i < size && #[trigger] dist_local@[i] != u32::MAX ==> (exists|k: int|
                        0 <= k < pq@.len() && (#[trigger] pq@[k]).index == i && pq@[k].cost
                            == dist_local@[i]) || calc_relaxed_at(
                        dist_local@,
                        self.dist_vector@,
                        cs,
                        tiles,
                        w,
                        h,
                        i,
                    ) || dist_local@[i] > self.dist_vector@[i],
                forall|i: int|
                    0 <= i < size && tiles[i].spec_is_liveable() && #[trigger] dist_local@[i]
                        != u32::MAX ==> (exists|k: int|
                        0 <= k < pq@.len() && (#[trigger] pq@[k]).index == i && pq@[k].cost
                            == dist_local@[i]) || self.dist_vector@[i] <= dist_local@[i],
                n >= 1 && tiles[start].spec_is_liveable() ==> (self.owners@[start] == empire_id
                    && self.dist_vector@[start] == 0 && dist_local@[start] == 0) || (pq@.len() == 1
                    && pq@[0] == (Entry { cost: 0u32, index: start_index, empire: 0u32 })
                    && self.owners@ == o0 && self.dist_vector@ == d0 && dist_local@[start] == 0),
                n == 0 ==> self.owners@ == o0 && self.dist_vector@ == d0,
            decreases pq@.len() + sum_u32(dist_local@),
        {
            proof {
                lemma_sum_u32_nonneg(dist_local@);
            }
            let ghost q0 = pq@;
            let e = match pop_min(&mut pq) {
                Some(e) => e,
                None => {
                    proof {
                        assert(false);
                    }
                    continue ;
                },
            };
            proof {
                let kk = choose|kk: int|
                    0 <= kk < q0.len() && e == q0[kk] && pq@ == q0.remove(kk);
                assert(reachable_at_cost(cs, tiles, w, h, start, e.index as int, e.cost as int));
                assert forall|k: int| 0 <= k < pq@.len() implies reachable_at_cost(
                    cs,
                    tiles,
                    w,
                    h,
                    start,
                    (#[trigger] pq@[k]).index as int,
                    pq@[k].cost as int,
                ) && dist_local@[pq@[k].index as int] <= pq@[k].cost && pq@[k].index < size
                    && pq@[k].cost < u32::MAX by {
                    if k < kk {
                        assert(pq@[k] == q0[k]);
                    } else {
                        assert(pq@[k] == q0[k + 1]);
                    }
                }
                assert forall|i: int|
                    0 <= i < size && #[trigger] dist_local@[i] != u32::MAX implies (exists|k: int|
                    0 <= k < pq@.len() && (#[trigger] pq@[k]).index == i && pq@[k].cost
                        == dist_local@[i]) || calc_relaxed_at(
                    dist_local@,
                    self.dist_vector@,
                    cs,
                    tiles,
                    w,
                    h,
                    i,
                ) || dist_local@[i] > self.dist_vector@[i] || (i == e.index as int
                    && dist_local@[i] == e.cost) by {
                    if exists|k2: int|
                        0 <= k2 < q0.len() && (#[trigger] q0[k2]).index == i && q0[k2].cost
                            == dist_local@[i] {
                        let k2 = choose|k2: int|
                            0 <= k2 < q0.len() && (#[trigger] q0[k2]).index == i && q0[k2].cost
                                == dist_local@[i];
                        if k2 == kk {
                        } else if k2 < kk {
                            assert(pq@[k2] == q0[k2]);
                        } else {
                            assert(pq@[k2 - 1] == q0[k2]);
                        }
                    }
                }
                assert forall|i: int|
                    0 <= i < size && tiles[i].spec_is_liveable() && #[trigger] dist_local@[i]
                        != u32::MAX implies (exists|k: int|
                    0 <= k < pq@.len() && (#[trigger] pq@[k]).index == i && pq@[k].cost
                        == dist_local@[i]) || self.dist_vector@[i] <= dist_local@[i] || (i
                    == e.index as int && dist_local@[i] == e.cost) by {
                    if exists|k2: int|
                        0 <= k2 < q0.len() && (#[trigger] q0[k2]).index == i && q0[k2].cost
                            == dist_local@[i] {
                        let k2 = choose|k2: int|
                            0 <= k2 < q0.len() && (#[trigger] q0[k2]).index == i && q0[k2].cost
                                == dist_local@[i];
                        if k2 == kk {
                        } else if k2 < kk {
                            assert(pq@[k2] == q0[k2]);
                        } else {
                            assert(pq@[k2 - 1] == q0[k2]);
                        }
                    }
                }
            }
            if e.cost > dist_local[e.index] {
                continue ;
            }
            if e.cost > self.dist_vector[e.index] {
                proof {
                    assert(dist_local@[e.index as int] == e.cost);
                    assert(dist_local@[e.index as int] > self.dist_vector@[e.index as int]);
                }
                continue ;
            }
            let ie = e.index;
            let ghost iei = ie as int;
            proof {
                assert(dist_local@[iei] == e.cost);
            }
            if self.tiles[ie].is_liveable() {
                let ghost ow_before = self.owners@;
                let ghost dv_before = self.dist_vector@;
                proof {
                    lemma_num_changed_update(o0, self.owners@, iei, empire_id);
                }
                if self.owners[ie] != empire_id {
                    claimed += 1;
                }
                self.owners.set(ie, empire_id);
                self.dist_vector.set(ie, e.cost);
                proof {
                    if ow_before[iei] == empire_id {
                        assert(self.owners@ =~= ow_before);
                    }
                    let dv_new = self.dist_vector@;
                    assert forall|i: int| 0 <= i < size implies #[trigger] dv_new[i]
                        <= dv_before[i] by {}
                    assert forall|i: int|
                        0 <= i < size && #[trigger] dist_local@[i] != u32::MAX && i != iei implies (
                    exists|k: int|
                        0 <= k < pq@.len() && (#[trigger] pq@[k]).index == i && pq@[k].cost
                            == dist_local@[i]) || calc_relaxed_at(
                        dist_local@,
                        dv_new,
                        cs,
                        tiles,
                        w,
                        h,
                        i,
                    ) || dist_local@[i] > dv_new[i] by {
                        if !(exists|k: int|
                            0 <= k < pq@.len() && (#[trigger] pq@[k]).index == i && pq@[k].cost
                                == dist_local@[i]) {
                            if calc_relaxed_at(dist_local@, dv_before, cs, tiles, w, h, i) {
                                lemma_calc_relaxed_dv_mono(
                                    dist_local@,
                                    dv_before,
                                    dv_new,
                                    cs,
                                    tiles,
                                    w,
                                    h,
                                    i,
                                );
                            }
                        }
                    }
                    assert forall|i: int|
                        0 <= i < size && tiles[i].spec_is_liveable() && #[trigger] dist_local@[i]
                            != u32::MAX implies (exists|k: int|
                        0 <= k < pq@.len() && (#[trigger] pq@[k]).index == i && pq@[k].cost
                            == dist_local@[i]) || dv_new[i] <= dist_local@[i] by {
                        if i == iei {
                            assert(dv_new[i] == e.cost);
                        }
                    }
                }
            }
            let ti = self.tiles[ie];
            let ns = neighbors(width, height, ie);
            let ghost budget = pq@.len() + sum_u32(dist_local@);
            let mut k: usize = 0;
            while k < ns.len()
                invariant
                    k <= ns@.len(),
                    pq@.len() + sum_u32(dist_local@) <= budget,
                    dist_local@.len() == size,
                    dist_local@[start] == 0,
                    dist_local@[iei] == e.cost,
                    forall|k2: int|
                        0 <= k2 < pq@.len() ==> (#[trigger] pq@[k2]).index < size && pq@[k2].cost
                            < u32::MAX,
                    forall|k2: int|
                        0 <= k2 < pq@.len() ==> dist_local@[(#[trigger] pq@[k2]).index as int]
                            <= pq@[k2].cost,
                    forall|k2: int|
                        0 <= k2 < pq@.len() ==> reachable_at_cost(
                            cs,
                            tiles,
                            w,
                            h,
                            start,
                            (#[trigger] pq@[k2]).index as int,
                            pq@[k2].cost as int,
                        ),
                    forall|i: int|
                        0 <= i < size && i != iei && #[trigger] dist_local@[i] != u32::MAX ==> (
                        exists|k2: int|
                            0 <= k2 < pq@.len() && (#[trigger] pq@[k2]).index == i && pq@[k2].cost
                                == dist_local@[i]) || calc_relaxed_at(
                            dist_local@,
                            self.dist_vector@,
                            cs,
                            tiles,
                            w,
                            h,
                            i,
                        ) || dist_local@[i] > self.dist_vector@[i],
                    forall|i: int|
                        0 <= i < size && tiles[i].spec_is_liveable() && #[trigger] dist_local@[i]
                            != u32::MAX ==> (exists|k2: int|
                            0 <= k2 < pq@.len() && (#[trigger] pq@[k2]).index == i && pq@[k2].cost
                                == dist_local@[i]) || self.dist_vector@[i] <= dist_local@[i],
                    forall|t: int|
                        0 <= t < k ==> dist_local@[(#[trigger] ns@[t]) as int] as int
                            <= spec_relaxed(e.cost as int, cs, tiles[iei], tiles[ns@[t] as int])
                            || self.dist_vector@[ns@[t] as int] as int <= spec_relaxed(
                            e.cost as int,
                            cs,
                            tiles[iei],
                            tiles[ns@[t] as int],
                        ),
                decreases ns@.len() - k,
            {
                let j = ns[k];
                let ghost ji = j as int;
                proof {
                    assert(adjacent(w, h, iei, ji));
                }
                let nc = relax_cost(e.cost, &costs, ti, self.tiles[j]);
                if nc < self.dist_vector[j] {
                    if nc < dist_local[j] {
                        let ghost dl_before = dist_local@;
                        let ghost q_pre = pq@;
                        proof {
                            lemma_sum_u32_update(dist_local@, ji, nc);
                            lemma_walk_extend(cs, tiles, w, h, start, iei, ji, e.cost as int);
                        }
                        dist_local.set(j, nc);
                        pq.push(Entry { cost: nc, index: j, empire: 0 });
                        proof {
                            let dl = dist_local@;
                            assert(reachable_at_cost(cs, tiles, w, h, start, ji, nc as int));
                            assert(pq@[pq@.len() - 1]
                                == (Entry { cost: nc, index: j, empire: 0u32 }));
                            assert forall|i: int|
                                0 <= i < size && i != iei && #[trigger] dl[i] != u32::MAX implies (
                            exists|k2: int|
                                0 <= k2 < pq@.len() && (#[trigger] pq@[k2]).index == i
                                    && pq@[k2].cost == dl[i]) || calc_relaxed_at(
                                dl,
                                self.dist_vector@,
                                cs,
                                tiles,
                                w,
                                h,
                                i,
                            ) || dl[i] > self.dist_vector@[i] by {
                                if i == ji {
                                    assert(pq@[pq@.len() - 1].index == i && pq@[pq@.len() - 1].cost
                                        == dl[i]);
                                } else {
                                    assert(dl[i] == dl_before[i]);
                                    if exists|k2: int|
                                        0 <= k2 < q_pre.len() && (#[trigger] q_pre[k2]).index == i
                                            && q_pre[k2].cost == dl_before[i] {
                                        let k2 = choose|k2: int|
                                            0 <= k2 < q_pre.len() && (#[trigger] q_pre[k2]).index
                                                == i && q_pre[k2].cost == dl_before[i];
                                        assert(pq@[k2] == q_pre[k2]);
                                    } else if calc_relaxed_at(
                                        dl_before,
                                        self.dist_vector@,
                                        cs,
                                        tiles,
                                        w,
                                        h,
                                        i,
                                    ) {
                                        assert forall|j2: int| #[trigger]
                                            adjacent(w, h, i, j2) implies dl[j2] as int
                                            <= spec_relaxed(
                                            dl[i] as int,
                                            cs,
                                            tiles[i],
                                            tiles[j2],
                                        ) || self.dist_vector@[j2] as int <= spec_relaxed(
                                            dl[i] as int,
                                            cs,
                                            tiles[i],
                                            tiles[j2],
                                        ) by {
                                            assert(dl[j2] <= dl_before[j2]);
                                        }
                                    }
                                }
                            }
                            assert forall|i: int|
                                0 <= i < size && tiles[i].spec_is_liveable() && #[trigger] dl[i]
                                    != u32::MAX implies (exists|k2: int|
                                0 <= k2 < pq@.len() && (#[trigger] pq@[k2]).index == i
                                    && pq@[k2].cost == dl[i]) || self.dist_vector@[i] <= dl[i] by {
                                if i == ji {
                                    assert(pq@[pq@.len() - 1].index == i && pq@[pq@.len() - 1].cost
                                        == dl[i]);
                                } else {
                                    assert(dl[i] == dl_before[i]);
                                    if exists|k2: int|
                                        0 <= k2 < q_pre.len() && (#[trigger] q_pre[k2]).index == i
                                            && q_pre[k2].cost == dl_before[i] {
                                        let k2 = choose|k2: int|
                                            0 <= k2 < q_pre.len() && (#[trigger] q_pre[k2]).index
                                                == i && q_pre[k2].cost == dl_before[i];
                                        assert(pq@[k2] == q_pre[k2]);
                                    }
                                }
                            }
                        }
                    }
                }
                k += 1;
                proof {
                    assert forall|t: int|
                        0 <= t < k implies dist_local@[(#[trigger] ns@[t]) as int] as int
                        <= spec_relaxed(e.cost as int, cs, tiles[iei], tiles[ns@[t] as int])
                        || self.dist_vector@[ns@[t] as int] as int <= spec_relaxed(
                        e.cost as int,
                        cs,
                        tiles[iei],
                        tiles[ns@[t] as int],
                    ) by {}
                }
            }
            proof {
                let dl = dist_local@;
                assert forall|j2: int| #[trigger] adjacent(w, h, iei, j2) implies dl[j2] as int
                    <= spec_relaxed(dl[iei] as int, cs, tiles[iei], tiles[j2])
                    || self.dist_vector@[j2] as int <= spec_relaxed(
                    dl[iei] as int,
                    cs,
                    tiles[iei],
                    tiles[j2],
                ) by {
                    let k0 = choose|k0: int| 0 <= k0 < ns@.len() && (#[trigger] ns@[k0]) as int == j2;
                    assert(dl[ns@[k0] as int] as int <= spec_relaxed(
                        e.cost as int,
                        cs,
                        tiles[iei],
                        tiles[ns@[k0] as int],
                    ) || self.dist_vector@[ns@[k0] as int] as int <= spec_relaxed(
                        e.cost as int,
                        cs,
                        tiles[iei],
                        tiles[ns@[k0] as int],
                    ));
                }
                assert(calc_relaxed_at(dl, self.dist_vector@, cs, tiles, w, h, iei));
                assert forall|i: int|
                    0 <= i < size && #[trigger] dl[i] != u32::MAX implies (exists|k2: int|
                    0 <= k2 < pq@.len() && (#[trigger] pq@[k2]).index == i && pq@[k2].cost
                        == dl[i]) || calc_relaxed_at(dl, self.dist_vector@, cs, tiles, w, h, i)
                    || dl[i] > self.dist_vector@[i] by {
                    if i == iei {
                        assert(calc_relaxed_at(dl, self.dist_vector@, cs, tiles, w, h, i));
                    }
                }
                lemma_sum_u32_nonneg(dl);
            }
        }
        proof {
            if claimed < n {
                assert(pq@.len() == 0);
                assert forall|i: int| 0 <= i < w * h implies #[trigger] calc_relaxed_at(
                    dist_local@,
                    self.dist_vector@,
                    cs,
                    tiles,
                    w,
                    h,
                    i,
                ) || self.dist_vector@[i] < dist_local@[i] by {
                    if dist_local@[i] != u32::MAX {
                    } else {
                        assert forall|j2: int| #[trigger] adjacent(w, h, i, j2) implies dist_local@[j2] as int
                            <= spec_relaxed(
                            dist_local@[i] as int,
                            cs,
                            tiles[i],
                            tiles[j2],
                        ) || self.dist_vector@[j2] as int <= spec_relaxed(
                            dist_local@[i] as int,
                            cs,
                            tiles[i],
                            tiles[j2],
                        ) by {
                            assert(spec_relaxed(u32::MAX as int, cs, tiles[i], tiles[j2])
                                == u32::MAX as int);
                        }
                    }
                }
                assert(claim_complete(
                    dist_local@,
                    self.dist_vector@,
                    cs,
                    tiles,
                    w,
                    h,
                    start,
                ));
            }
            if old(self).consistent() {
                assert forall|i: int|
                    0 <= i < size implies ((#[trigger] self.owners@[i]) != 0
                    <==> self.dist_vector@[i] != u32::MAX) by {
                    if self.owners@[i] != o0[i] || self.dist_vector@[i] != d0[i] {
                    }
                }
                assert forall|i: int|
                    0 <= i < size && (#[trigger] self.owners@[i]) != 0 implies self.empires@.contains_key(
                    self.owners@[i],
                ) by {}
            }
        }
    }
}



/// An owned tile `j` of the registry beside an unowned tile `i`: the
/// shape of one frontier-scan seed of a growth event.
pub open spec fn is_frontier_pair(w: World, j: int, i: int) -> bool {
    &&& adjacent(w.width as int, w.height as int, j, i)
    &&& w.owners@[j] != 0
    &&& w.empires@.contains_key(w.owners@[j])
    &&& w.owners@[i] == 0
}

/// The queue entry a frontier pair seeds: the owner's committed cost plus
/// one step onto the unowned neighbor.
pub open spec fn frontier_entry(w: World, j: int, i: int) -> Entry {
    Entry {
        cost: spec_relaxed(
            w.dist_vector@[j] as int,
            w.empires@[w.owners@[j]].costs@,
            w.tiles@[j],
            w.tiles@[i],
        ) as u32,
        index: i as usize,
        empire: w.owners@[j],
    }
}

/// A frontier pair whose unowned side could actually be claimed: liveable
/// ground reached below the unreachable sentinel. If any of these exists
/// and the budget allows anything at all, a growth event claims a tile.
pub open spec fn is_live_candidate(w: World, j: int, i: int) -> bool {
    &&& is_frontier_pair(w, j, i)
    &&& w.tiles@[i].spec_is_liveable()
    &&& frontier_entry(w, j, i).cost < u32::MAX
}

/// Adjacency is symmetric: the grid's edges have no direction.
pub proof fn lemma_adjacent_symmetric(w: int, h: int, i: int, j: int)
    requires
        adjacent(w, h, i, j),
    ensures
        adjacent(w, h, j, i),
{
}

/// Some neighbor of the entry's tile is already owned by the entry's
/// empire: every queued growth step starts from existing territory.
pub open spec fn entry_anchored(w: int, h: int, owners: Seq<u32>, e: Entry) -> bool {
    exists|j: int| #[trigger] adjacent(w, h, e.index as int, j) && owners[j] == e.empire
}

/// A claimed tile borders a tile its own empire owns: growth is
/// contiguous with each empire's territory.
pub open spec fn claim_anchored(w: int, h: int, owners: Seq<u32>, i: int) -> bool {
    exists|j: int| #[trigger] adjacent(w, h, i, j) && owners[j] == owners[i]
}

/// Some empire has spent its whole budget in this event (trivially so
/// when the budget is zero): the flood may then abandon pending steps,
/// and completeness of the growth is not promised.
pub open spec fn budget_hit(counts: Map<u32, u32>, size: u32) -> bool {
    ||| size == 0
    ||| exists|e: u32| counts.contains_key(e) && #[trigger] counts[e] >= size
}

/// One expansion step out of claimed tile `i` onto neighbor `j`: the
/// claimant's committed cost plus the move under its own cost vector.
pub open spec fn grow_step(w_old: World, cur: World, i: int, j: int) -> int {
    spec_relaxed(
        cur.dist_vector@[i] as int,
        w_old.empires@[cur.owners@[i]].costs@,
        w_old.tiles@[i],
        w_old.tiles@[j],
    )
}

/// What a finished growth event guarantees when no empire ran out of
/// budget, over the scratch field `dl` of best costs the flood computed:
/// every live candidate tile is claimed, at or below its seed cost; every
/// claimed tile is claimed at exactly its scratch cost; and from every
/// claimed tile, each liveable neighbor that started unowned is itself
/// claimed at or below one further step under the claimant's costs,
/// unless that step saturates at the unreachable sentinel. By induction
/// along candidate paths, no empire is left with a strictly cheaper
/// candidate path to any tile than the cost at which it was claimed.
pub open spec fn grow_complete(dl: Seq<u32>, w_old: World, cur: World) -> bool {
    &&& dl.len() == w_old.size()
    &&& forall|j: int, i: int|
        #[trigger] is_live_candidate(w_old, j, i) ==> cur.owners@[i] != 0
            && cur.dist_vector@[i] <= frontier_entry(w_old, j, i).cost
    &&& forall|i: int|
        0 <= i < w_old.size() && w_old.owners@[i] == 0 && (#[trigger] cur.owners@[i]) != 0
            ==> cur.dist_vector@[i] == dl[i]
    &&& forall|i: int, j: int|
        0 <= i < w_old.size() && w_old.owners@[i] == 0 && cur.owners@[i] != 0 && #[trigger] adjacent(
            w_old.width as int,
            w_old.height as int,
            i,
            j,
        ) && w_old.tiles@[j].spec_is_liveable() && w_old.owners@[j] == 0 ==> grow_step(
            w_old,
            cur,
            i,
            j,
        ) == u32::MAX as int || (cur.owners@[j] != 0 && cur.dist_vector@[j] as int <= grow_step(
            w_old,
            cur,
            i,
            j,
        ))
}

/// The flood has claimed something: some tile unowned at entry is owned.
pub open spec fn grow_claimed(w_old: World, cur: World) -> bool {
    exists|i: int|
        0 <= i < w_old.size() && w_old.owners@[i] == 0 && (#[trigger] cur.owners@[i]) != 0
}

/// A live candidate that no other live candidate undercuts in the
/// (cost, tile index, empire id) order: the deterministic first claim of a
/// growth event.
pub open spec fn is_minimal_live_candidate(w: World, j: int, i: int) -> bool {
    &&& is_live_candidate(w, j, i)
    &&& forall|j2: int, i2: int|
        #[trigger] is_live_candidate(w, j2, i2) ==> crate::queue::entry_le(
            frontier_entry(w, j, i),
            frontier_entry(w, j2, i2),
        )
}

/// Whether an entry is the seed of some frontier pair: the only shape the
/// frontier scan ever queues.
pub open spec fn entry_is_frontier_seed(w: World, e: Entry) -> bool {
    exists|j: int, i: int| is_frontier_pair(w, j, i) && e == #[trigger] frontier_entry(w, j, i)
}

/// The flood has not started: nothing is claimed yet, no budget is spent,
/// the scratch field is untouched, the queue holds only frontier seeds,
/// and every live candidate's seed entry is still queued.
spec fn grow_pending(
    w_old: World,
    cur: World,
    counts: Map<u32, u32>,
    local_dist: Seq<u32>,
    pq: Seq<Entry>,
) -> bool {
    &&& cur.owners@ == w_old.owners@
    &&& cur.dist_vector@ == w_old.dist_vector@
    &&& counts == Map::<u32, u32>::empty()
    &&& forall|i: int| 0 <= i < local_dist.len() ==> #[trigger] local_dist[i] == u32::MAX
    &&& forall|k: int| 0 <= k < pq.len() ==> entry_is_frontier_seed(w_old, #[trigger] pq[k])
    &&& forall|j: int, i: int|
        #[trigger] is_live_candidate(w_old, j, i) ==> exists|k: int|
            0 <= k < pq.len() && #[trigger] pq[k] == frontier_entry(w_old, j, i)
}

/// The flood has started: some tile is claimed, and the first claim went
/// to the minimal live candidate, pinning the tie-break.
spec fn grow_done(w_old: World, cur: World) -> bool {
    &&& grow_claimed(w_old, cur)
    &&& forall|j: int, i: int|
        #[trigger] is_minimal_live_candidate(w_old, j, i) ==> cur.owners@[i] == frontier_entry(
            w_old,
            j,
            i,
        ).empire
}


proof fn lemma_frontier_shape_after_remove(w0: World, q0: Seq<Entry>, q1: Seq<Entry>, kk: int)
    requires
        0 <= kk < q0.len(),
        q1 == q0.remove(kk),
        forall|k: int| 0 <= k < q0.len() ==> entry_is_frontier_seed(w0, #[trigger] q0[k]),
    ensures
        forall|k: int| 0 <= k < q1.len() ==> entry_is_frontier_seed(w0, #[trigger] q1[k]),
{
    assert forall|k: int| 0 <= k < q1.len() implies entry_is_frontier_seed(
        w0,
        #[trigger] q1[k],
    ) by {
        let kp: int = if k < kk {
            k
        } else {
            k + 1
        };
        assert(q1[k] == q0[kp]);
        assert(entry_is_frontier_seed(w0, q0[kp]));
    }
}

proof fn lemma_candidates_after_remove(w0: World, q0: Seq<Entry>, q1: Seq<Entry>, kk: int, e: Entry)
    requires
        0 <= kk < q0.len(),
        e == q0[kk],
        q1 == q0.remove(kk),
        forall|j: int, i: int|
            #[trigger] is_live_candidate(w0, j, i) ==> exists|k: int|
                0 <= k < q0.len() && #[trigger] q0[k] == frontier_entry(w0, j, i),
    ensures
        forall|j: int, i: int|
            #[trigger] is_live_candidate(w0, j, i) ==> (exists|k: int|
                0 <= k < q1.len() && #[trigger] q1[k] == frontier_entry(w0, j, i)) || e
                == frontier_entry(w0, j, i),
{
    assert forall|j: int, i: int| #[trigger] is_live_candidate(w0, j, i) implies (exists|k: int|
        0 <= k < q1.len() && #[trigger] q1[k] == frontier_entry(w0, j, i)) || e == frontier_entry(
        w0,
        j,
        i,
    ) by {
        let k2 = choose|k2: int|
            0 <= k2 < q0.len() && #[trigger] q0[k2] == frontier_entry(w0, j, i);
        if k2 == kk {
        } else if k2 < kk {
            assert(q1[k2] == q0[k2]);
        } else {
            assert(q1[k2 - 1] == q0[k2]);
        }
    }
}

proof fn lemma_minimal_candidate_entry(
    w0: World,
    q0: Seq<Entry>,
    q1: Seq<Entry>,
    kk: int,
    e: Entry,
    j: int,
    i: int,
)
    requires
        0 <= kk < q0.len(),
        e == q0[kk],
        q1 == q0.remove(kk),
        forall|k: int| 0 <= k < q1.len() ==> crate::queue::entry_le(e, #[trigger] q1[k]),
        is_minimal_live_candidate(w0, j, i),
        forall|j2: int, i2: int|
            #[trigger] is_live_candidate(w0, j2, i2) ==> exists|k: int|
                0 <= k < q0.len() && #[trigger] q0[k] == frontier_entry(w0, j2, i2),
        exists|je: int, ie: int|
            #[trigger] is_live_candidate(w0, je, ie) && e == frontier_entry(w0, je, ie),
    ensures
        frontier_entry(w0, j, i) == e,
{
    let m = frontier_entry(w0, j, i);
    let (je, ie): (int, int) = choose|je: int, ie: int|
        #[trigger] is_live_candidate(w0, je, ie) && e == frontier_entry(w0, je, ie);
    assert(crate::queue::entry_le(m, frontier_entry(w0, je, ie)));
    assert(is_live_candidate(w0, j, i));
    let k2 = choose|k2: int| 0 <= k2 < q0.len() && #[trigger] q0[k2] == m;
    if k2 == kk {
    } else if k2 < kk {
        assert(q1[k2] == q0[k2]);
        assert(crate::queue::entry_le(e, m));
    } else {
        assert(q1[k2 - 1] == q0[k2]);
        assert(crate::queue::entry_le(e, m));
    }
    assert(m.cost == e.cost && m.index == e.index && m.empire == e.empire);
}

impl World {
    /// One simultaneous competitive growth event. A frontier scan seeds a
    /// single shared queue with every unowned neighbor of every owned
    /// tile, keyed by the owner's entry cost; the flood then claims tiles
    /// in (cost, tile, empire) order, so the cheapest claim anywhere wins
    /// a contested tile, ties go to the lower tile index and then the
    /// lower empire id. Owned tiles are never overwritten; each empire
    /// claims at most `size` new tiles; only liveable tiles are claimed,
    /// and an unreachable entry cost (the saturated sentinel) claims
    /// nothing; growth propagates only through tiles claimed in this
    /// event, so non-liveable ground blocks it. Whenever the budget allows
    /// anything and a claimable frontier candidate exists, some tile is
    /// claimed, and the first claim goes to the candidate whose queue
    /// entry no other undercuts.
    #[verifier::loop_isolation(false)]
    #[verifier::rlimit(100)]
    #[verifier::spinoff_prover]
    pub fn auto_grow(&mut self, size: u32)
        requires
            old(self).wf(),
        ensures
            final(self).wf(),
            *final(self) == (World {
                owners: final(self).owners,
                dist_vector: final(self).dist_vector,
                ..*old(self)
            }),
            forall|i: int|
                0 <= i < old(self).size() && old(self).owners@[i] != 0 ==> #[trigger] final(self).owners@[i] == old(self).owners@[i],
            forall|i: int|
                0 <= i < old(self).size() && old(self).owners@[i] != 0 ==> #[trigger] final(self).dist_vector@[i] == old(self).dist_vector@[i],
            forall|i: int|
                0 <= i < old(self).size() && old(self).owners@[i] == 0 ==> ((#[trigger] final(self).owners@[i]) == 0 && final(self).dist_vector@[i] == old(self).dist_vector@[i]) || (
                final(self).owners@[i] != 0 && old(self).empires@.contains_key(
                    final(self).owners@[i],
                ) && old(self).tiles@[i].spec_is_liveable() && final(self).dist_vector@[i]
                    < u32::MAX),
            forall|e: u32|
                e != 0 ==> #[trigger] num_claimed_by(old(self).owners@, final(self).owners@, e)
                    <= size,
            forall|i: int|
                0 <= i < old(self).size() && old(self).owners@[i] == 0 && (#[trigger] final(self).owners@[i]) != 0 ==> claim_anchored(
                    old(self).width as int,
                    old(self).height as int,
                    final(self).owners@,
                    i,
                ),
            size >= 1 && (exists|j: int, i: int| is_live_candidate(*old(self), j, i))
                ==> grow_claimed(*old(self), *final(self)),
            (forall|e: u32|
                e != 0 ==> #[trigger] num_claimed_by(old(self).owners@, final(self).owners@, e)
                    < size) ==> exists|dl: Seq<u32>|
                #[trigger] grow_complete(dl, *old(self), *final(self)),
            forall|j: int, i: int|
                size >= 1 && #[trigger] is_minimal_live_candidate(*old(self), j, i) ==> final(self).owners@[i] == frontier_entry(*old(self), j, i).empire,
            old(self).consistent() ==> final(self).consistent(),
    {
        let ghost w0 = *old(self);
        let ghost wi = old(self).width as int;
        let ghost hi = old(self).height as int;
        let ghost o0 = old(self).owners@;
        let ghost d0 = old(self).dist_vector@;
        let ghost tiles = old(self).tiles@;
        let size_n = self.owners.len();
        let width = self.width;
        let height = self.height;

        let mut pq: Vec<Entry> = Vec::new();
        let mut index: usize = 0;
        while index < size_n
            invariant
                index <= size_n,
                forall|k: int|
                    0 <= k < pq@.len() ==> (#[trigger] pq@[k]).index < size_n && pq@[k].empire != 0
                        && old(self).empires@.contains_key(pq@[k].empire)
                        && o0[pq@[k].index as int] == 0,
                forall|j: int, i: int|
                    #[trigger] is_frontier_pair(w0, j, i) && 0 <= j < index ==> exists|k: int|
                        0 <= k < pq@.len() && #[trigger] pq@[k] == frontier_entry(w0, j, i),
                forall|k: int|
                    0 <= k < pq@.len() ==> entry_is_frontier_seed(w0, #[trigger] pq@[k]),
                forall|k: int|
                    0 <= k < pq@.len() ==> entry_anchored(wi, hi, self.owners@, #[trigger] pq@[k]),
            decreases size_n - index,
        {
            let ghost j0 = index as int;
            let owner = self.owners[index];
            if owner != 0 {
                let current_dist = self.dist_vector[index];
                let found = match self.empires.get(&owner) {
                    Some(e) => Some(e.costs),
                    None => None,
                };
                if let Some(costs) = found {
                    let ti = self.tiles[index];
                    let ns = neighbors(width, height, index);
                    let mut k: usize = 0;
                    while k < ns.len()
                        invariant
                            k <= ns@.len(),
                            forall|k2: int|
                                0 <= k2 < pq@.len() ==> (#[trigger] pq@[k2]).index < size_n
                                    && pq@[k2].empire != 0 && old(self).empires@.contains_key(
                                    pq@[k2].empire,
                                ) && o0[pq@[k2].index as int] == 0,
                            forall|j: int, i: int|
                                #[trigger] is_frontier_pair(w0, j, i) && 0 <= j < j0 ==> exists|
                                    k2: int,
                                |
                                    0 <= k2 < pq@.len() && #[trigger] pq@[k2] == frontier_entry(
                                        w0,
                                        j,
                                        i,
                                    ),
                            forall|t: int|
                                0 <= t < k && is_frontier_pair(w0, j0, #[trigger] ns@[t] as int)
                                    ==> exists|k2: int|
                                    0 <= k2 < pq@.len() && #[trigger] pq@[k2] == frontier_entry(
                                        w0,
                                        j0,
                                        ns@[t] as int,
                                    ),
                            forall|k2: int|
                                0 <= k2 < pq@.len() ==> entry_is_frontier_seed(
                                    w0,
                                    #[trigger] pq@[k2],
                                ),
                            forall|k2: int|
                                0 <= k2 < pq@.len() ==> entry_anchored(
                                    wi,
                                    hi,
                                    self.owners@,
                                    #[trigger] pq@[k2],
                                ),
                        decreases ns@.len() - k,
                    {
                        let j = ns[k];
                        if self.owners[j] == 0 {
                            let nc = relax_cost(current_dist, &costs, ti, self.tiles[j]);
                            let ghost q_pre = pq@;
                            pq.push(Entry { cost: nc, index: j, empire: owner });
                            proof {
                                assert(pq@[pq@.len() - 1] == frontier_entry(w0, j0, j as int));
                                assert(is_frontier_pair(w0, j0, j as int));
                                assert(entry_is_frontier_seed(w0, pq@[pq@.len() - 1]));
                                lemma_adjacent_symmetric(wi, hi, j0, j as int);
                                assert(self.owners@[j0] == owner);
                                assert(adjacent(
                                    wi,
                                    hi,
                                    (pq@[pq@.len() - 1]).index as int,
                                    j0,
                                ) && self.owners@[j0] == (pq@[pq@.len() - 1]).empire);
                                assert(entry_anchored(wi, hi, self.owners@, pq@[pq@.len() - 1]));
                                assert forall|k2: int|
                                    0 <= k2 < pq@.len() implies entry_anchored(
                                    wi,
                                    hi,
                                    self.owners@,
                                    #[trigger] pq@[k2],
                                ) by {
                                    if k2 < pq@.len() - 1 {
                                        assert(pq@[k2] == q_pre[k2]);
                                        assert(entry_anchored(wi, hi, self.owners@, q_pre[k2]));
                                    }
                                }
                                assert forall|k2: int|
                                    0 <= k2 < pq@.len() implies entry_is_frontier_seed(
                                    w0,
                                    #[trigger] pq@[k2],
                                ) by {
                                    if k2 < pq@.len() - 1 {
                                        assert(pq@[k2] == q_pre[k2]);
                                        assert(entry_is_frontier_seed(w0, q_pre[k2]));
                                    }
                                }
                                assert forall|j2: int, i2: int|
                                    #[trigger] is_frontier_pair(w0, j2, i2) && 0 <= j2
                                        < j0 implies exists|k2: int|
                                    0 <= k2 < pq@.len() && #[trigger] pq@[k2] == frontier_entry(
                                        w0,
                                        j2,
                                        i2,
                                    ) by {
                                    let k2 = choose|k2: int|
                                        0 <= k2 < q_pre.len() && #[trigger] q_pre[k2]
                                            == frontier_entry(w0, j2, i2);
                                    assert(pq@[k2] == q_pre[k2]);
                                }
                                assert forall|t: int|
                                    0 <= t < k && is_frontier_pair(
                                        w0,
                                        j0,
                                        #[trigger] ns@[t] as int,
                                    ) implies exists|k2: int|
                                    0 <= k2 < pq@.len() && #[trigger] pq@[k2] == frontier_entry(
                                        w0,
                                        j0,
                                        ns@[t] as int,
                                    ) by {
                                    let k2 = choose|k2: int|
                                        0 <= k2 < q_pre.len() && #[trigger] q_pre[k2]
                                            == frontier_entry(w0, j0, ns@[t] as int);
                                    assert(pq@[k2] == q_pre[k2]);
                                }
                            }
                        }
                        k += 1;
                    }
                    proof {
                        assert forall|j2: int, i2: int|
                            #[trigger] is_frontier_pair(w0, j2, i2) && 0 <= j2 < j0
                                + 1 implies exists|k2: int|
                            0 <= k2 < pq@.len() && #[trigger] pq@[k2] == frontier_entry(
                                w0,
                                j2,
                                i2,
                            ) by {
                            if j2 == j0 {
                                let t0 = choose|t0: int|
                                    0 <= t0 < ns@.len() && (#[trigger] ns@[t0]) as int == i2;
                                assert(is_frontier_pair(w0, j0, ns@[t0] as int));
                            }
                        }
                    }
                }
            } else {
                proof {
                    assert forall|j2: int, i2: int|
                        #[trigger] is_frontier_pair(w0, j2, i2) && 0 <= j2 < j0 + 1 implies exists|
                        k2: int,
                    |
                        0 <= k2 < pq@.len() && #[trigger] pq@[k2] == frontier_entry(w0, j2, i2) by {
                        if j2 == j0 {
                            assert(w0.owners@[j0] == 0);
                            assert(false);
                        }
                    }
                }
            }
            index += 1;
        }

        let mut local_dist: Vec<u32> = vec![u32::MAX; size_n];
        let mut counts: HashMap<u32, u32> = HashMap::new();
        let ghost mut floor: int = 0;
        proof {
            assert forall|e: u32| e != 0 implies num_claimed_by(o0, self.owners@, e) == 0 by {
                lemma_num_claimed_by_self(o0, e);
            }
            assert forall|j: int, i: int| #[trigger] is_live_candidate(w0, j, i) implies exists|
                k: int,
            | 0 <= k < pq@.len() && #[trigger] pq@[k] == frontier_entry(w0, j, i) by {
                assert(is_frontier_pair(w0, j, i) && 0 <= j < size_n);
            }
            assert(grow_pending(w0, *self, counts@, local_dist@, pq@));
        }
        while pq.len() > 0
            invariant
                self.wf(),
                *self == (World {
                    owners: self.owners,
                    dist_vector: self.dist_vector,
                    ..*old(self)
                }),
                local_dist@.len() == size_n,
                forall|k: int|
                    0 <= k < pq@.len() ==> (#[trigger] pq@[k]).index < size_n && pq@[k].empire != 0
                        && old(self).empires@.contains_key(pq@[k].empire),
                forall|i: int|
                    0 <= i < size_n && o0[i] != 0 ==> #[trigger] self.owners@[i] == o0[i],
                forall|i: int|
                    0 <= i < size_n && o0[i] != 0 ==> #[trigger] self.dist_vector@[i] == d0[i],
                forall|i: int|
                    0 <= i < size_n && o0[i] == 0 ==> ((#[trigger] self.owners@[i]) == 0
                        && self.dist_vector@[i] == d0[i]) || (self.owners@[i] != 0
                        && old(self).empires@.contains_key(self.owners@[i])
                        && tiles[i].spec_is_liveable() && self.dist_vector@[i] < u32::MAX),
                forall|e: u32|
                    #![trigger counts@.contains_key(e)]
                    #![trigger num_claimed_by(o0, self.owners@, e)]
                    e != 0 ==> num_claimed_by(o0, self.owners@, e) == (
                    if counts@.contains_key(e) {
                        counts@[e] as int
                    } else {
                        0int
                    }),
                forall|e: u32| counts@.contains_key(e) ==> (#[trigger] counts@[e]) <= size,
                forall|k: int|
                    0 <= k < pq@.len() ==> entry_anchored(wi, hi, self.owners@, #[trigger] pq@[k]),
                forall|i: int|
                    0 <= i < size_n && o0[i] == 0 && (#[trigger] self.owners@[i]) != 0
                        ==> claim_anchored(wi, hi, self.owners@, i),
                local_dist@.len() == size_n,
                0 <= floor,
                forall|k: int|
                    0 <= k < pq@.len() ==> (#[trigger] pq@[k]).cost as int >= floor
                        && o0[pq@[k].index as int] == 0,
                forall|i: int|
                    0 <= i < size_n && o0[i] == 0 && (#[trigger] self.owners@[i]) != 0
                        ==> self.dist_vector@[i] as int <= floor && self.dist_vector@[i]
                        == local_dist@[i],
                budget_hit(counts@, size) || forall|i: int|
                    0 <= i < size_n && o0[i] == 0 && tiles[i].spec_is_liveable()
                        && #[trigger] local_dist@[i] != u32::MAX ==> self.owners@[i] != 0 || (
                    exists|k: int|
                        0 <= k < pq@.len() && (#[trigger] pq@[k]).index as int == i && pq@[k].cost
                            == local_dist@[i]),
                budget_hit(counts@, size) || forall|j: int, i: int|
                    #[trigger] is_live_candidate(w0, j, i) ==> (self.owners@[i] != 0
                        && self.dist_vector@[i] <= frontier_entry(w0, j, i).cost)
                        || local_dist@[i] <= frontier_entry(w0, j, i).cost || (exists|k: int|
                        0 <= k < pq@.len() && #[trigger] pq@[k] == frontier_entry(w0, j, i)),
                budget_hit(counts@, size) || forall|i2: int, j2: int|
                    0 <= i2 < size_n && o0[i2] == 0 && self.owners@[i2] != 0
                        && #[trigger] adjacent(wi, hi, i2, j2) && tiles[j2].spec_is_liveable()
                        && o0[j2] == 0 ==> (self.owners@[j2] != 0
                        && self.dist_vector@[j2] as int <= grow_step(w0, *self, i2, j2))
                        || local_dist@[j2] as int <= grow_step(w0, *self, i2, j2),
                !counts@.contains_key(0u32),
                size == 0 || grow_done(w0, *self) || grow_pending(
                    w0,
                    *self,
                    counts@,
                    local_dist@,
                    pq@,
                ),
            decreases pq@.len() + sum_u32(local_dist@),
        {
            proof {
                lemma_sum_u32_nonneg(local_dist@);
            }
            let ghost q0 = pq@;
            let ghost self0 = *self;
            let ghost counts0 = counts@;
            let e = match pop_min(&mut pq) {
                Some(e) => e,
                None => {
                    proof {
                        assert(false);
                    }
                    continue ;
                },
            };
            let ghost q1 = pq@;
            proof {
                let kk = choose|kk: int|
                    0 <= kk < q0.len() && e == q0[kk] && pq@ == q0.remove(kk);
                assert(entry_anchored(wi, hi, self.owners@, e));
                assert forall|k: int| 0 <= k < pq@.len() implies entry_anchored(
                    wi,
                    hi,
                    self.owners@,
                    #[trigger] pq@[k],
                ) by {
                    if k < kk {
                        assert(pq@[k] == q0[k]);
                    } else {
                        assert(pq@[k] == q0[k + 1]);
                    }
                }
                assert(e.cost as int >= floor && o0[e.index as int] == 0);
                floor = e.cost as int;
                assert forall|k: int|
                    0 <= k < pq@.len() implies (#[trigger] pq@[k]).cost as int >= floor
                    && o0[pq@[k].index as int] == 0 by {
                    assert(crate::queue::entry_le(e, pq@[k]));
                    if k < kk {
                        assert(pq@[k] == q0[k]);
                    } else {
                        assert(pq@[k] == q0[k + 1]);
                    }
                }
                assert forall|i: int|
                    0 <= i < size_n && o0[i] == 0 && (#[trigger] self.owners@[i])
                        != 0 implies self.dist_vector@[i] as int <= floor by {}
                if !budget_hit(counts@, size) {
                    assert forall|i: int|
                        0 <= i < size_n && o0[i] == 0 && tiles[i].spec_is_liveable()
                            && #[trigger] local_dist@[i] != u32::MAX implies self.owners@[i] != 0
                        || (exists|k: int|
                        0 <= k < pq@.len() && (#[trigger] pq@[k]).index as int == i && pq@[k].cost
                            == local_dist@[i]) || (i == e.index as int && local_dist@[i]
                        == e.cost) by {
                        if self.owners@[i] == 0 {
                            if exists|k2: int|
                                0 <= k2 < q0.len() && (#[trigger] q0[k2]).index as int == i
                                    && q0[k2].cost == local_dist@[i] {
                                let k2 = choose|k2: int|
                                    0 <= k2 < q0.len() && (#[trigger] q0[k2]).index as int == i
                                        && q0[k2].cost == local_dist@[i];
                                if k2 == kk {
                                } else if k2 < kk {
                                    assert(pq@[k2] == q0[k2]);
                                } else {
                                    assert(pq@[k2 - 1] == q0[k2]);
                                }
                            }
                        }
                    }
                    assert forall|j: int, i: int| #[trigger]
                        is_live_candidate(w0, j, i) implies (self.owners@[i] != 0
                        && self.dist_vector@[i] <= frontier_entry(w0, j, i).cost)
                        || local_dist@[i] <= frontier_entry(w0, j, i).cost || (exists|k: int|
                        0 <= k < pq@.len() && #[trigger] pq@[k] == frontier_entry(w0, j, i)) || e
                        == frontier_entry(w0, j, i) by {
                        if exists|k2: int|
                            0 <= k2 < q0.len() && #[trigger] q0[k2] == frontier_entry(w0, j, i) {
                            let k2 = choose|k2: int|
                                0 <= k2 < q0.len() && #[trigger] q0[k2] == frontier_entry(
                                    w0,
                                    j,
                                    i,
                                );
                            if k2 == kk {
                            } else if k2 < kk {
                                assert(pq@[k2] == q0[k2]);
                            } else {
                                assert(pq@[k2 - 1] == q0[k2]);
                            }
                        }
                    }
                }
                if grow_pending(w0, self0, counts0, local_dist@, q0) {
                    lemma_candidates_after_remove(w0, q0, pq@, kk, e);
                    lemma_frontier_shape_after_remove(w0, q0, pq@, kk);
                }
            }
            if self.owners[e.index] != 0 {
                proof {
                    if size >= 1 && !grow_done(w0, *self) && grow_pending(
                        w0,
                        self0,
                        counts@,
                        local_dist@,
                        q0,
                    ) {
                        assert forall|j: int, i: int| #[trigger]
                            is_live_candidate(w0, j, i) implies exists|k: int|
                            0 <= k < pq@.len() && #[trigger] pq@[k] == frontier_entry(
                                w0,
                                j,
                                i,
                            ) by {
                            if e == frontier_entry(w0, j, i) {
                                assert(0 <= i < w0.size());
                                assert(e.index as int == i);
                                assert(self.owners@[i] == w0.owners@[i]);
                                assert(false);
                            }
                        }
                        assert(grow_pending(w0, *self, counts@, local_dist@, pq@));
                    }
                    if !budget_hit(counts@, size) {
                        assert forall|j2: int, i2: int| #[trigger]
                            is_live_candidate(w0, j2, i2) implies (self.owners@[i2] != 0
                            && self.dist_vector@[i2] <= frontier_entry(w0, j2, i2).cost)
                            || local_dist@[i2] <= frontier_entry(w0, j2, i2).cost || (exists|
                            k: int,
                        |
                            0 <= k < pq@.len() && #[trigger] pq@[k] == frontier_entry(
                                w0,
                                j2,
                                i2,
                            )) by {
                            if e == frontier_entry(w0, j2, i2) {
                                assert(e.index as int == i2);
                                assert(self.dist_vector@[i2] as int <= floor);
                            }
                        }
                    }
                }
                continue ;
            }
            if e.cost > local_dist[e.index] {
                proof {
                    if size >= 1 && !grow_done(w0, *self) && grow_pending(
                        w0,
                        self0,
                        counts@,
                        local_dist@,
                        q0,
                    ) {
                        assert(local_dist@[e.index as int] == u32::MAX);
                        assert(false);
                    }
                    if !budget_hit(counts@, size) {
                        assert forall|j2: int, i2: int| #[trigger]
                            is_live_candidate(w0, j2, i2) implies (self.owners@[i2] != 0
                            && self.dist_vector@[i2] <= frontier_entry(w0, j2, i2).cost)
                            || local_dist@[i2] <= frontier_entry(w0, j2, i2).cost || (exists|
                            k: int,
                        |
                            0 <= k < pq@.len() && #[trigger] pq@[k] == frontier_entry(
                                w0,
                                j2,
                                i2,
                            )) by {
                            if e == frontier_entry(w0, j2, i2) {
                                assert(e.index as int == i2);
                                assert(local_dist@[i2] < e.cost);
                            }
                        }
                    }
                }
                continue ;
            }
            if e.cost == u32::MAX {
                proof {
                    if size >= 1 && !grow_done(w0, *self) && grow_pending(
                        w0,
                        self0,
                        counts@,
                        local_dist@,
                        q0,
                    ) {
                        assert forall|j: int, i: int| #[trigger]
                            is_live_candidate(w0, j, i) implies exists|k: int|
                            0 <= k < pq@.len() && #[trigger] pq@[k] == frontier_entry(
                                w0,
                                j,
                                i,
                            ) by {
                            if e == frontier_entry(w0, j, i) {
                                assert(frontier_entry(w0, j, i).cost < u32::MAX);
                                assert(false);
                            }
                        }
                        assert(grow_pending(w0, *self, counts@, local_dist@, pq@));
                    }
                }
                continue ;
            }
            let g = match counts.get(&e.empire) {
                Some(c) => *c,
                None => 0,
            };
            if g >= size {
                proof {
                    if size >= 1 && !grow_done(w0, *self) && grow_pending(
                        w0,
                        self0,
                        counts@,
                        local_dist@,
                        q0,
                    ) {
                        assert(!counts@.contains_key(e.empire));
                        assert(g == 0);
                        assert(false);
                    }
                    if size == 0 {
                        assert(budget_hit(counts@, size));
                    } else {
                        assert(counts@.contains_key(e.empire) && counts@[e.empire] >= size);
                        assert(budget_hit(counts@, size));
                    }
                }
                continue ;
            }
            let liveable = self.tiles[e.index].is_liveable();
            proof {
                if !liveable && size >= 1 && !grow_done(w0, *self) && grow_pending(
                    w0,
                    self0,
                    counts@,
                    local_dist@,
                    q0,
                ) {
                    assert forall|j: int, i: int| #[trigger]
                        is_live_candidate(w0, j, i) implies exists|k: int|
                        0 <= k < pq@.len() && #[trigger] pq@[k] == frontier_entry(w0, j, i) by {
                        if e == frontier_entry(w0, j, i) {
                            assert(e.index as int == i);
                            assert(w0.tiles@[i].spec_is_liveable());
                            assert(false);
                        }
                    }
                    assert(grow_pending(w0, *self, counts@, local_dist@, pq@));
                }
                if !liveable && !budget_hit(counts@, size) {
                    assert forall|j2: int, i2: int| #[trigger]
                        is_live_candidate(w0, j2, i2) implies (self.owners@[i2] != 0
                        && self.dist_vector@[i2] <= frontier_entry(w0, j2, i2).cost)
                        || local_dist@[i2] <= frontier_entry(w0, j2, i2).cost || (exists|k: int|
                        0 <= k < pq@.len() && #[trigger] pq@[k] == frontier_entry(w0, j2, i2)) by {
                        if e == frontier_entry(w0, j2, i2) {
                            assert(e.index as int == i2);
                            assert(w0.tiles@[i2].spec_is_liveable());
                            assert(false);
                        }
                    }
                }
            }
            if liveable {
                let ghost ow_before = self.owners@;
                let ghost dv_before = self.dist_vector@;
                proof {
                    assert forall|em: u32| em != 0 implies num_claimed_by(
                        o0,
                        ow_before.update(e.index as int, e.empire),
                        em,
                    ) == num_claimed_by(o0, ow_before, em) + (if em == e.empire {
                        1int
                    } else {
                        0int
                    }) by {
                        lemma_num_claimed_by_update(o0, ow_before, e.index as int, e.empire, em);
                    }
                }
                self.owners.set(e.index, e.empire);
                self.dist_vector.set(e.index, e.cost);
                counts.insert(e.empire, g + 1);
                proof {
                    assert(o0[e.index as int] == 0);
                    assert(self.owners@[e.index as int] != 0);
                    assert(grow_claimed(w0, *self));
                    assert forall|k: int| 0 <= k < pq@.len() implies entry_anchored(
                        wi,
                        hi,
                        self.owners@,
                        #[trigger] pq@[k],
                    ) by {
                        assert(entry_anchored(wi, hi, ow_before, pq@[k]));
                        let j = choose|j: int|
                            #[trigger] adjacent(wi, hi, pq@[k].index as int, j) && ow_before[j]
                                == pq@[k].empire;
                        assert(self.owners@[j] == ow_before[j]);
                    }
                    assert forall|i: int|
                        0 <= i < size_n && o0[i] == 0 && (#[trigger] self.owners@[i])
                            != 0 implies claim_anchored(wi, hi, self.owners@, i) by {
                        if i == e.index as int {
                            let j = choose|j: int|
                                #[trigger] adjacent(wi, hi, e.index as int, j) && ow_before[j]
                                    == e.empire;
                            assert(self.owners@[j] == e.empire);
                        } else {
                            assert(ow_before[i] == self.owners@[i]);
                            assert(claim_anchored(wi, hi, ow_before, i));
                            let j = choose|j: int|
                                #[trigger] adjacent(wi, hi, i, j) && ow_before[j] == ow_before[i];
                            assert(self.owners@[j] == ow_before[j]);
                        }
                    }
                    if grow_pending(w0, self0, counts0, local_dist@, q0) {
                        let kk0 = choose|kk0: int|
                            0 <= kk0 < q0.len() && e == q0[kk0] && q1 == q0.remove(kk0);
                        assert(entry_is_frontier_seed(w0, q0[kk0]));
                        let (je, ie): (int, int) = choose|je: int, ie: int|
                            is_frontier_pair(w0, je, ie) && e == frontier_entry(w0, je, ie);
                        assert(e.index as int == ie);
                        assert(w0.tiles@[ie].spec_is_liveable());
                        assert(e.cost < u32::MAX);
                        assert(is_live_candidate(w0, je, ie));
                        assert(exists|je2: int, ie2: int|
                            #[trigger] is_live_candidate(w0, je2, ie2) && e == frontier_entry(
                                w0,
                                je2,
                                ie2,
                            ));
                        assert forall|j: int, i: int| #[trigger]
                            is_minimal_live_candidate(w0, j, i) implies self.owners@[i]
                            == frontier_entry(w0, j, i).empire by {
                            lemma_minimal_candidate_entry(w0, q0, q1, kk0, e, j, i);
                            assert(0 <= i < w0.size());
                            assert(i == e.index as int);
                            assert(self.owners@[i] == e.empire);
                        }
                        assert(grow_done(w0, *self));
                    } else {
                        if grow_done(w0, self0) {
                            assert forall|j: int, i: int| #[trigger]
                                is_minimal_live_candidate(w0, j, i) implies self.owners@[i]
                                == frontier_entry(w0, j, i).empire by {
                                assert(self0.owners@[i] == frontier_entry(w0, j, i).empire);
                                assert(frontier_entry(w0, j, i).empire == w0.owners@[j]);
                                assert(w0.owners@[j] != 0);
                                assert(ow_before[i] != 0);
                                assert(i != e.index as int);
                            }
                            assert(grow_done(w0, *self));
                        }
                    }
                    if budget_hit(counts0, size) {
                        if size >= 1 {
                            let ex = choose|ex: u32|
                                counts0.contains_key(ex) && #[trigger] counts0[ex] >= size;
                            if ex == e.empire {
                                assert(counts@[ex] == g + 1);
                            } else {
                                assert(counts@[ex] == counts0[ex]);
                            }
                            assert(budget_hit(counts@, size));
                        }
                    }
                    assert forall|i: int|
                        0 <= i < size_n && o0[i] == 0 && (#[trigger] self.owners@[i])
                            != 0 implies self.dist_vector@[i] as int <= floor by {
                        if i != e.index as int {
                            assert(self.owners@[i] == ow_before[i]);
                            assert(self.dist_vector@[i] == dv_before[i]);
                        }
                    }
                    if !budget_hit(counts@, size) {
                        assert forall|i: int|
                            0 <= i < size_n && o0[i] == 0 && tiles[i].spec_is_liveable()
                                && #[trigger] local_dist@[i] != u32::MAX implies self.owners@[i]
                            != 0 || (exists|k: int|
                            0 <= k < pq@.len() && (#[trigger] pq@[k]).index as int == i
                                && pq@[k].cost == local_dist@[i]) by {
                            if i != e.index as int {
                                assert(self.owners@[i] == ow_before[i]);
                            }
                        }
                        assert forall|j2: int, i2: int| #[trigger]
                            is_live_candidate(w0, j2, i2) implies (self.owners@[i2] != 0
                            && self.dist_vector@[i2] <= frontier_entry(w0, j2, i2).cost)
                            || local_dist@[i2] <= frontier_entry(w0, j2, i2).cost || (exists|
                            k: int,
                        |
                            0 <= k < pq@.len() && #[trigger] pq@[k] == frontier_entry(
                                w0,
                                j2,
                                i2,
                            )) by {
                            if e == frontier_entry(w0, j2, i2) {
                                assert(e.index as int == i2);
                                assert(self.owners@[i2] != 0 && self.dist_vector@[i2] == e.cost);
                            } else {
                                if i2 != e.index as int {
                                    assert(self.owners@[i2] == ow_before[i2]);
                                    assert(self.dist_vector@[i2] == dv_before[i2]);
                                }
                            }
                        }
                        assert forall|i2: int, j2: int|
                            0 <= i2 < size_n && o0[i2] == 0 && self.owners@[i2] != 0 && i2
                                != e.index as int && #[trigger] adjacent(wi, hi, i2, j2)
                                && tiles[j2].spec_is_liveable() && o0[j2] == 0 implies (
                        self.owners@[j2] != 0 && self.dist_vector@[j2] as int <= grow_step(
                            w0,
                            *self,
                            i2,
                            j2,
                        )) || local_dist@[j2] as int <= grow_step(w0, *self, i2, j2) by {
                            assert(self.owners@[i2] == ow_before[i2]);
                            assert(self.dist_vector@[i2] == dv_before[i2]);
                            if j2 == e.index as int {
                                assert(ow_before[j2] == 0);
                                assert(local_dist@[j2] as int <= grow_step(w0, *self, i2, j2));
                                assert(self.dist_vector@[j2] == e.cost);
                                assert(e.cost <= local_dist@[e.index as int]);
                            } else {
                                assert(self.owners@[j2] == ow_before[j2]);
                                assert(self.dist_vector@[j2] == dv_before[j2]);
                            }
                        }
                    }
                }
                let costs: [u32; 8] = match self.empires.get(&e.empire) {
                    Some(emp) => emp.costs,
                    None => {
                        proof {
                            assert(false);
                        }
                        [0; 8]
                    },
                };
                let ghost cse = costs@;
                proof {
                    assert(cse == w0.empires@[e.empire].costs@);
                }
                let ti = self.tiles[e.index];
                let ns = neighbors(width, height, e.index);
                proof {
                    if local_dist@[e.index as int] > e.cost {
                        lemma_sum_u32_update(local_dist@, e.index as int, e.cost);
                    } else {
                        assert(local_dist@.update(e.index as int, e.cost) =~= local_dist@);
                    }
                }
                local_dist.set(e.index, e.cost);
                proof {
                    assert forall|i: int|
                        0 <= i < size_n && o0[i] == 0 && (#[trigger] self.owners@[i])
                            != 0 implies self.dist_vector@[i] == local_dist@[i] by {
                        if i != e.index as int {
                            assert(self.owners@[i] == ow_before[i]);
                            assert(self.dist_vector@[i] == dv_before[i]);
                        }
                    }
                    if !budget_hit(counts@, size) {
                        assert forall|i: int|
                            0 <= i < size_n && o0[i] == 0 && tiles[i].spec_is_liveable()
                                && #[trigger] local_dist@[i] != u32::MAX implies self.owners@[i]
                            != 0 || (exists|k2: int|
                            0 <= k2 < pq@.len() && (#[trigger] pq@[k2]).index as int == i
                                && pq@[k2].cost == local_dist@[i]) by {}
                        assert forall|j2: int, i2: int| #[trigger]
                            is_live_candidate(w0, j2, i2) implies (self.owners@[i2] != 0
                            && self.dist_vector@[i2] <= frontier_entry(w0, j2, i2).cost)
                            || local_dist@[i2] <= frontier_entry(w0, j2, i2).cost || (exists|
                            k2: int,
                        |
                            0 <= k2 < pq@.len() && #[trigger] pq@[k2] == frontier_entry(
                                w0,
                                j2,
                                i2,
                            )) by {
                            if i2 == e.index as int {
                                assert(self.owners@[i2] != 0 && self.dist_vector@[i2] == e.cost);
                                assert(local_dist@[i2] == e.cost);
                            }
                        }
                        assert forall|i2: int, j2: int|
                            0 <= i2 < size_n && o0[i2] == 0 && self.owners@[i2] != 0 && i2
                                != e.index as int && #[trigger] adjacent(wi, hi, i2, j2)
                                && tiles[j2].spec_is_liveable() && o0[j2] == 0 implies (
                        self.owners@[j2] != 0 && self.dist_vector@[j2] as int <= grow_step(
                            w0,
                            *self,
                            i2,
                            j2,
                        )) || local_dist@[j2] as int <= grow_step(w0, *self, i2, j2) by {
                            if j2 == e.index as int {
                                assert(self.owners@[j2] != 0);
                                assert(self.dist_vector@[j2] == e.cost);
                                assert(local_dist@[j2] == e.cost);
                            }
                        }
                    }
                }
                let ghost budget = pq@.len() + sum_u32(local_dist@);
                let mut k: usize = 0;
                while k < ns.len()
                    invariant
                        k <= ns@.len(),
                        local_dist@.len() == size_n,
                        pq@.len() + sum_u32(local_dist@) <= budget,
                        forall|k2: int|
                            0 <= k2 < pq@.len() ==> (#[trigger] pq@[k2]).index < size_n
                                && pq@[k2].empire != 0 && old(self).empires@.contains_key(
                                pq@[k2].empire,
                            ),
                        forall|k2: int|
                            0 <= k2 < pq@.len() ==> entry_anchored(
                                wi,
                                hi,
                                self.owners@,
                                #[trigger] pq@[k2],
                            ),
                        forall|k2: int|
                            0 <= k2 < pq@.len() ==> (#[trigger] pq@[k2]).cost as int >= floor
                                && o0[pq@[k2].index as int] == 0,
                        forall|i: int|
                            0 <= i < size_n && o0[i] == 0 && (#[trigger] self.owners@[i]) != 0
                                ==> self.dist_vector@[i] == local_dist@[i],
                        budget_hit(counts@, size) || forall|i: int|
                            0 <= i < size_n && o0[i] == 0 && tiles[i].spec_is_liveable()
                                && #[trigger] local_dist@[i] != u32::MAX ==> self.owners@[i] != 0
                                || (exists|k2: int|
                                0 <= k2 < pq@.len() && (#[trigger] pq@[k2]).index as int == i
                                    && pq@[k2].cost == local_dist@[i]),
                        budget_hit(counts@, size) || forall|j2: int, i2: int|
                            #[trigger] is_live_candidate(w0, j2, i2) ==> (self.owners@[i2] != 0
                                && self.dist_vector@[i2] <= frontier_entry(w0, j2, i2).cost)
                                || local_dist@[i2] <= frontier_entry(w0, j2, i2).cost || (exists|
                                k2: int,
                            |
                                0 <= k2 < pq@.len() && #[trigger] pq@[k2] == frontier_entry(
                                    w0,
                                    j2,
                                    i2,
                                )),
                        budget_hit(counts@, size) || forall|i2: int, j2: int|
                            0 <= i2 < size_n && o0[i2] == 0 && self.owners@[i2] != 0 && i2
                                != e.index as int && #[trigger] adjacent(wi, hi, i2, j2)
                                && tiles[j2].spec_is_liveable() && o0[j2] == 0 ==> (
                            self.owners@[j2] != 0 && self.dist_vector@[j2] as int <= grow_step(
                                w0,
                                *self,
                                i2,
                                j2,
                            )) || local_dist@[j2] as int <= grow_step(w0, *self, i2, j2),
                        forall|t2: int|
                            0 <= t2 < k ==> self.owners@[(#[trigger] ns@[t2]) as int] != 0
                                || local_dist@[ns@[t2] as int] as int <= spec_relaxed(
                                e.cost as int,
                                cse,
                                tiles[e.index as int],
                                tiles[ns@[t2] as int],
                            ),
                    decreases ns@.len() - k,
                {
                    let j = ns[k];
                    if self.owners[j] == 0 {
                        let nc = relax_cost(e.cost, &costs, ti, self.tiles[j]);
                        if nc < local_dist[j] {
                            let ghost q_pre2 = pq@;
                            let ghost dl_pre2 = local_dist@;
                            proof {
                                lemma_sum_u32_update(local_dist@, j as int, nc);
                            }
                            local_dist.set(j, nc);
                            pq.push(Entry { cost: nc, index: j, empire: e.empire });
                            proof {
                                lemma_adjacent_symmetric(wi, hi, e.index as int, j as int);
                                assert(self.owners@[e.index as int] == e.empire);
                                assert(adjacent(
                                    wi,
                                    hi,
                                    (pq@[pq@.len() - 1]).index as int,
                                    e.index as int,
                                ) && self.owners@[e.index as int] == (pq@[pq@.len() - 1]).empire);
                                assert(entry_anchored(wi, hi, self.owners@, pq@[pq@.len() - 1]));
                                assert forall|k2: int| 0 <= k2 < pq@.len() implies entry_anchored(
                                    wi,
                                    hi,
                                    self.owners@,
                                    #[trigger] pq@[k2],
                                ) by {
                                    if k2 < pq@.len() - 1 {
                                        assert(pq@[k2] == q_pre2[k2]);
                                        assert(entry_anchored(wi, hi, self.owners@, q_pre2[k2]));
                                    }
                                }
                                assert(nc >= e.cost);
                                assert(o0[j as int] == 0);
                                assert forall|k2: int|
                                    0 <= k2 < pq@.len() implies (#[trigger] pq@[k2]).cost as int
                                    >= floor && o0[pq@[k2].index as int] == 0 by {
                                    if k2 < pq@.len() - 1 {
                                        assert(pq@[k2] == q_pre2[k2]);
                                    }
                                }
                                assert forall|i: int|
                                    0 <= i < size_n && o0[i] == 0 && (#[trigger] self.owners@[i])
                                        != 0 implies self.dist_vector@[i] == local_dist@[i] by {
                                    assert(i != j as int);
                                }
                                if !budget_hit(counts@, size) {
                                    assert forall|i: int|
                                        0 <= i < size_n && o0[i] == 0
                                            && tiles[i].spec_is_liveable()
                                            && #[trigger] local_dist@[i]
                                            != u32::MAX implies self.owners@[i] != 0 || (exists|
                                        k2: int,
                                    |
                                        0 <= k2 < pq@.len() && (#[trigger] pq@[k2]).index as int
                                            == i && pq@[k2].cost == local_dist@[i]) by {
                                        if i == j as int {
                                            assert(pq@[pq@.len() - 1].index as int == i
                                                && pq@[pq@.len() - 1].cost == local_dist@[i]);
                                        } else {
                                            if exists|k2: int|
                                                0 <= k2 < q_pre2.len() && (#[trigger] q_pre2[k2]).index as int
                                                    == i && q_pre2[k2].cost == dl_pre2[i] {
                                                let k2 = choose|k2: int|
                                                    0 <= k2 < q_pre2.len()
                                                        && (#[trigger] q_pre2[k2]).index as int
                                                        == i && q_pre2[k2].cost == dl_pre2[i];
                                                assert(pq@[k2] == q_pre2[k2]);
                                                assert(local_dist@[i] == dl_pre2[i]);
                                            }
                                        }
                                    }
                                    assert forall|j2: int, i2: int| #[trigger]
                                        is_live_candidate(w0, j2, i2) implies (self.owners@[i2]
                                        != 0 && self.dist_vector@[i2] <= frontier_entry(
                                        w0,
                                        j2,
                                        i2,
                                    ).cost) || local_dist@[i2] <= frontier_entry(w0, j2, i2).cost
                                        || (exists|k2: int|
                                        0 <= k2 < pq@.len() && #[trigger] pq@[k2]
                                            == frontier_entry(w0, j2, i2)) by {
                                        if exists|k2: int|
                                            0 <= k2 < q_pre2.len() && #[trigger] q_pre2[k2]
                                                == frontier_entry(w0, j2, i2) {
                                            let k2 = choose|k2: int|
                                                0 <= k2 < q_pre2.len() && #[trigger] q_pre2[k2]
                                                    == frontier_entry(w0, j2, i2);
                                            assert(pq@[k2] == q_pre2[k2]);
                                        } else {
                                            if i2 == j as int {
                                                assert(local_dist@[i2] <= dl_pre2[i2]);
                                            }
                                        }
                                    }
                                    assert forall|i2: int, j2: int|
                                        0 <= i2 < size_n && o0[i2] == 0 && self.owners@[i2] != 0
                                            && i2 != e.index as int && #[trigger] adjacent(
                                            wi,
                                            hi,
                                            i2,
                                            j2,
                                        ) && tiles[j2].spec_is_liveable() && o0[j2]
                                            == 0 implies (self.owners@[j2] != 0
                                        && self.dist_vector@[j2] as int <= grow_step(
                                            w0,
                                            *self,
                                            i2,
                                            j2,
                                        )) || local_dist@[j2] as int <= grow_step(
                                        w0,
                                        *self,
                                        i2,
                                        j2,
                                    ) by {
                                        if j2 == j as int {
                                            assert(local_dist@[j2] <= dl_pre2[j2]);
                                        }
                                    }
                                }
                            }
                        }
                    }
                    k += 1;
                }
                proof {
                    lemma_sum_u32_nonneg(local_dist@);
                    let tei = e.index as int;
                    assert forall|j2: int|
                        #[trigger] adjacent(wi, hi, tei, j2) && tiles[j2].spec_is_liveable()
                            && o0[j2] == 0 implies (self.owners@[j2] != 0
                        && self.dist_vector@[j2] as int <= grow_step(w0, *self, tei, j2))
                        || local_dist@[j2] as int <= grow_step(w0, *self, tei, j2) by {
                        let k0 = choose|k0: int|
                            0 <= k0 < ns@.len() && (#[trigger] ns@[k0]) as int == j2;
                        assert(self.owners@[ns@[k0] as int] != 0 || local_dist@[ns@[k0] as int] as int
                            <= spec_relaxed(
                            e.cost as int,
                            cse,
                            tiles[tei],
                            tiles[ns@[k0] as int],
                        ));
                        assert(grow_step(w0, *self, tei, j2) == spec_relaxed(
                            e.cost as int,
                            cse,
                            tiles[tei],
                            tiles[j2],
                        ));
                        if self.owners@[j2] != 0 {
                            assert(self.dist_vector@[j2] as int <= floor);
                            assert(floor == e.cost as int);
                            assert(spec_relaxed(e.cost as int, cse, tiles[tei], tiles[j2])
                                >= e.cost as int);
                        }
                    }
                    if !budget_hit(counts@, size) {
                        assert forall|i2: int, j2: int|
                            0 <= i2 < size_n && o0[i2] == 0 && self.owners@[i2] != 0
                                && #[trigger] adjacent(wi, hi, i2, j2)
                                && tiles[j2].spec_is_liveable() && o0[j2] == 0 implies (
                        self.owners@[j2] != 0 && self.dist_vector@[j2] as int <= grow_step(
                            w0,
                            *self,
                            i2,
                            j2,
                        )) || local_dist@[j2] as int <= grow_step(w0, *self, i2, j2) by {}
                    }
                }
            }
        }
        proof {
            if forall|e2: u32|
                e2 != 0 ==> #[trigger] num_claimed_by(o0, self.owners@, e2) < size {
                if budget_hit(counts@, size) {
                    if size == 0 {
                        lemma_num_claimed_by_nonneg(o0, self.owners@, 1u32);
                        assert(num_claimed_by(o0, self.owners@, 1u32) < 0);
                    } else {
                        let e2 = choose|e2: u32|
                            counts@.contains_key(e2) && #[trigger] counts@[e2] >= size;
                        assert(e2 != 0);
                        assert(num_claimed_by(o0, self.owners@, e2) == counts@[e2] as int);
                    }
                    assert(false);
                }
                assert(pq@.len() == 0);
                assert(size_n as int == w0.size());
                assert forall|j2: int, i2: int| #[trigger]
                    is_live_candidate(w0, j2, i2) implies self.owners@[i2] != 0
                    && self.dist_vector@[i2] <= frontier_entry(w0, j2, i2).cost by {
                    assert(0 <= i2 < size_n && o0[i2] == 0 && tiles[i2].spec_is_liveable());
                    if !(self.owners@[i2] != 0 && self.dist_vector@[i2] <= frontier_entry(
                        w0,
                        j2,
                        i2,
                    ).cost) {
                        assert(local_dist@[i2] <= frontier_entry(w0, j2, i2).cost);
                        assert(frontier_entry(w0, j2, i2).cost < u32::MAX);
                        assert(local_dist@[i2] != u32::MAX);
                        assert(self.owners@[i2] != 0);
                        assert(self.dist_vector@[i2] == local_dist@[i2]);
                    }
                }
                assert forall|i2: int, j2: int|
                    0 <= i2 < w0.size() && w0.owners@[i2] == 0 && self.owners@[i2] != 0
                        && #[trigger] adjacent(wi, hi, i2, j2) && w0.tiles@[j2].spec_is_liveable()
                        && w0.owners@[j2] == 0 implies grow_step(w0, *self, i2, j2)
                    == u32::MAX as int || (self.owners@[j2] != 0
                    && self.dist_vector@[j2] as int <= grow_step(w0, *self, i2, j2)) by {
                    let x = grow_step(w0, *self, i2, j2);
                    if x != u32::MAX as int {
                        if !(self.owners@[j2] != 0 && self.dist_vector@[j2] as int <= x) {
                            assert(local_dist@[j2] as int <= x);
                            assert(0 <= x <= u32::MAX as int);
                            assert(local_dist@[j2] != u32::MAX);
                            assert(0 <= j2 < size_n && o0[j2] == 0
                                && tiles[j2].spec_is_liveable());
                            assert(self.owners@[j2] != 0);
                            assert(self.dist_vector@[j2] == local_dist@[j2]);
                        }
                    }
                }
                assert(grow_complete(local_dist@, w0, *self));
            }
            if size >= 1 && exists|j: int, i: int| is_live_candidate(w0, j, i) {
                if grow_pending(w0, *self, counts@, local_dist@, pq@) {
                    let (j, i): (int, int) = choose|j: int, i: int| is_live_candidate(w0, j, i);
                    assert(is_live_candidate(w0, j, i));
                    assert(exists|k: int|
                        0 <= k < pq@.len() && #[trigger] pq@[k] == frontier_entry(w0, j, i));
                    assert(false);
                }
                assert(grow_done(w0, *self));
            }
            assert forall|j: int, i: int|
                size >= 1 && #[trigger] is_minimal_live_candidate(w0, j, i) implies self.owners@[i]
                == frontier_entry(w0, j, i).empire by {
                assert(is_live_candidate(w0, j, i));
            }
            if old(self).consistent() {
                assert forall|i: int|
                    0 <= i < old(self).size() implies ((#[trigger] self.owners@[i]) != 0
                    <==> self.dist_vector@[i] != u32::MAX) by {}
                assert forall|i: int|
                    0 <= i < old(self).size() && (#[trigger] self.owners@[i]) != 0 implies self.empires@.contains_key(
                    self.owners@[i],
                ) by {}
            }
        }
    }
}

} // verus!
