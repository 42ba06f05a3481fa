//! The world: the fixed-size tile, owner, resource, and distance arrays,
//! the pixel buffers derived from them, and the empire registry.

use vstd::prelude::*;
use vstd::pervasive::VecAdditionalExecFns;

use std::collections::HashMap;

use crate::empire::Empire;
use crate::resource::Resource;
use crate::terrain::Terrain;
use crate::text;

verus! {

broadcast use vstd::std_specs::hash::group_hash_axioms;

/// The aggregate state of one simulated map.
///
/// The grid is `width * height` tiles, row-major (`index = y * width + x`).
/// All parallel arrays keep that length from construction on. `owners`
/// holds an empire identifier per tile, with zero meaning unowned;
/// `dist_vector` the best committed claim cost per tile, with `u32::MAX` as
/// the "unclaimed" sentinel; `dist_map` the scratch field recomputed by
/// every point-distance query. The four buffers hold one packed
/// `0xAABBGGRR` color per tile and are regenerated only by explicit render
/// calls, so they may lag behind the logical arrays.
pub struct World {
    pub width: usize,
    pub height: usize,
    pub tiles: Vec<Terrain>,
    pub owners: Vec<u32>,
    pub resources: Vec<Resource>,
    pub terrain_buffer: Vec<u32>,
    pub ownership_buffer: Vec<u32>,
    pub dist_buffer: Vec<u32>,
    pub resource_buffer: Vec<u32>,
    pub dist_vector: Vec<u32>,
    pub dist_map: Vec<u32>,
    pub empires: HashMap<u32, Empire>,
}

impl World {
    /// Number of tiles of the grid.
    pub open spec fn size(self) -> int {
        self.width * self.height
    }

    /// Dimensional well-formedness: every parallel array has one entry per
    /// tile. Established at construction and preserved by every operation.
    pub open spec fn wf(self) -> bool {
        &&& self.tiles@.len() == self.size()
        &&& self.owners@.len() == self.size()
        &&& self.resources@.len() == self.size()
        &&& self.dist_vector@.len() == self.size()
        &&& self.dist_map@.len() == self.size()
        &&& self.terrain_buffer@.len() == self.size()
        &&& self.ownership_buffer@.len() == self.size()
        &&& self.dist_buffer@.len() == self.size()
        &&& self.resource_buffer@.len() == self.size()
    }

    /// The registry invariant: an owned tile always carries a committed
    /// claim cost, an unowned tile never does, every owner is present in
    /// the registry, and zero never names an empire. Placing a capital on
    /// ground that is not liveable is the one operation that leaves an
    /// owner dangling without a registry record.
    pub open spec fn consistent(self) -> bool {
        &&& forall|i: int|
            0 <= i < self.size() ==> ((#[trigger] self.owners@[i]) != 0 <==> self.dist_vector@[i]
                != u32::MAX)
        &&& forall|i: int|
            0 <= i < self.size() ==> (#[trigger] self.owners@[i]) != 0
                ==> self.empires@.contains_key(self.owners@[i])
        &&& !self.empires@.contains_key(0)
    }

    /// Builds a world from a text terrain map and an optional resource map
    /// of the same dimensions (a mismatched resource map silently yields an
    /// all-`Empty` overlay). The grid is sized by the map, every tile
    /// starts unowned and unclaimed, and the terrain buffer is rendered
    /// before returning; the other buffers start fully transparent.
    pub fn new(map_str: &str, value_str: Option<String>) -> (w: World)
        requires
            text::rectangular(map_str@),
            text::parse_width(map_str@) * text::parse_height(map_str@) <= usize::MAX,
        ensures
            w.wf(),
            w.consistent(),
            w.width == text::parse_width(map_str@),
            w.height == text::parse_height(map_str@),
            w.tiles@ == text::parse_terrains(map_str@),
            w.owners@ == Seq::new(w.size() as nat, |i: int| 0u32),
            w.resources@ == match value_str {
                Some(vs) => text::resource_overlay(vs@, w.size()),
                None => Seq::new(w.size() as nat, |i: int| Resource::Empty),
            },
            w.dist_vector@ == Seq::new(w.size() as nat, |i: int| u32::MAX),
            w.dist_map@ == Seq::new(w.size() as nat, |i: int| u32::MAX),
            w.empires@ == Map::<u32, Empire>::empty(),
            w.terrain_buffer@ == Seq::new(w.size() as nat, |i: int| w.tiles@[i].spec_color()),
            w.ownership_buffer@ == Seq::new(w.size() as nat, |i: int| 0u32),
            w.dist_buffer@ == Seq::new(w.size() as nat, |i: int| 0u32),
            w.resource_buffer@ == Seq::new(w.size() as nat, |i: int| 0u32),
    {
        let (tiles, width, height) = text::parse_terrain_grid(map_str);
        let size = width * height;
        let resources = match value_str {
            Some(rd) => text::parse_resource_overlay(rd.as_str(), size),
            None => {
                let r = vec![Resource::Empty; size];
                proof {
                    assert(r@ =~= Seq::new(size as nat, |i: int| Resource::Empty));
                }
                r
            },
        };
        let mut world = World {
            width,
            height,
            tiles,
            owners: vec![0u32; size],
            resources,
            terrain_buffer: vec![0xFF000000u32; size],
            ownership_buffer: vec![0x00000000u32; size],
            dist_buffer: vec![0x00000000u32; size],
            resource_buffer: vec![0x00000000u32; size],
            dist_vector: vec![u32::MAX; size],
            dist_map: vec![u32::MAX; size],
            empires: HashMap::new(),
        };
        proof {
            assert(world.owners@ =~= Seq::new(world.size() as nat, |i: int| 0u32));
            assert(world.dist_vector@ =~= Seq::new(world.size() as nat, |i: int| u32::MAX));
            assert(world.dist_map@ =~= Seq::new(world.size() as nat, |i: int| u32::MAX));
            assert(world.ownership_buffer@ =~= Seq::new(world.size() as nat, |i: int| 0u32));
            assert(world.dist_buffer@ =~= Seq::new(world.size() as nat, |i: int| 0u32));
            assert(world.resource_buffer@ =~= Seq::new(world.size() as nat, |i: int| 0u32));
        }
        world.render_terrain();
        proof {
            assert(world.terrain_buffer@ =~= Seq::new(
                world.size() as nat,
                |i: int| world.tiles@[i].spec_color(),
            ));
        }
        world
    }

    pub fn width(&self) -> (r: usize)
        ensures
            r == self.width,
    {
        self.width
    }

    pub fn height(&self) -> (r: usize)
        ensures
            r == self.height,
    {
        self.height
    }

    /// Read-only view of the terrain pixel buffer.
    pub fn get_terrain_buffer_ptr(&self) -> (r: &Vec<u32>)
        ensures
            r@ == self.terrain_buffer@,
    {
        &self.terrain_buffer
    }

    /// Read-only view of the ownership pixel buffer.
    pub fn get_ownership_buffer_ptr(&self) -> (r: &Vec<u32>)
        ensures
            r@ == self.ownership_buffer@,
    {
        &self.ownership_buffer
    }

    /// Read-only view of the distance-field pixel buffer.
    pub fn get_dist_buffer_ptr(&self) -> (r: &Vec<u32>)
        ensures
            r@ == self.dist_buffer@,
    {
        &self.dist_buffer
    }

    /// Read-only view of the resource pixel buffer.
    pub fn get_resource_buffer_ptr(&self) -> (r: &Vec<u32>)
        ensures
            r@ == self.resource_buffer@,
    {
        &self.resource_buffer
    }

    /// Registers an empire with its capital at `(x, y)` and runs its
    /// initial territory claim with budget `size`. Returns whether the
    /// capital tile is liveable. The capital's owner and committed cost
    /// are written before that check: a capital on ground that is not
    /// liveable returns `false` with that one write left in place and no
    /// registry record — the documented side effect of a failed placement,
    /// and the one way a dangling owner can arise.
    pub fn add_empire(
        &mut self,
        x: usize,
        y: usize,
        empire_id: u32,
        color: u32,
        size: u32,
        settings: Vec<u32>,
    ) -> (ok: bool)
        requires
            old(self).wf(),
            empire_id != 0,
            settings@.len() == 8,
            y * old(self).width + x < old(self).size(),
        ensures
            final(self).wf(),
            *final(self) == (World {
                owners: final(self).owners,
                dist_vector: final(self).dist_vector,
                empires: final(self).empires,
                ..*old(self)
            }),
            ok == old(self).tiles@[y * old(self).width + x].spec_is_liveable(),
            !ok ==> final(self).owners@ == old(self).owners@.update(
                y * old(self).width + x,
                empire_id,
            ) && final(self).dist_vector@ == old(self).dist_vector@.update(
                y * old(self).width + x,
                0u32,
            ) && final(self).empires@ == old(self).empires@,
            ok ==> forall|i: int|
                0 <= i < old(self).size() && ((#[trigger] final(self).owners@[i]) != old(
                    self,
                ).owners@[i] || final(self).dist_vector@[i] != old(self).dist_vector@[i])
                    ==> crate::influence::reachable_at_cost(
                    settings@,
                    old(self).tiles@,
                    old(self).width as int,
                    old(self).height as int,
                    y * old(self).width + x,
                    i,
                    final(self).dist_vector@[i] as int,
                ),
            ok && crate::influence::num_changed(
                old(self).owners@.update(y * old(self).width + x, empire_id),
                final(self).owners@,
            ) < size ==> exists|dl: Seq<u32>|
                #[trigger] crate::influence::claim_complete(
                    dl,
                    final(self).dist_vector@,
                    settings@,
                    old(self).tiles@,
                    old(self).width as int,
                    old(self).height as int,
                    y * old(self).width + x,
                ),
            ok ==> {
                let idx = y * old(self).width + x;
                let mid = old(self).owners@.update(idx, empire_id);
                &&& final(self).empires@.contains_key(empire_id)
                &&& final(self).empires@ == old(self).empires@.insert(
                    empire_id,
                    final(self).empires@[empire_id],
                )
                &&& final(self).empires@[empire_id].id == empire_id
                &&& final(self).empires@[empire_id].color == color
                &&& final(self).empires@[empire_id].size == size
                &&& final(self).empires@[empire_id].cap_index == idx
                &&& final(self).empires@[empire_id].costs@ == settings@
                &&& final(self).owners@[idx] == empire_id
                &&& final(self).dist_vector@[idx] == 0
                &&& forall|i: int|
                    0 <= i < old(self).size() && i != idx ==> #[trigger] final(self).dist_vector@[i] <= old(self).dist_vector@[i]
                &&& forall|i: int|
                    0 <= i < old(self).size() ==> (#[trigger] final(self).owners@[i]) == old(
                        self,
                    ).owners@[i] || final(self).owners@[i] == empire_id
                &&& forall|i: int|
                    0 <= i < old(self).size() && i != idx && ((#[trigger] final(self).owners@[i])
                        != old(self).owners@[i] || final(self).dist_vector@[i] != old(
                        self,
                    ).dist_vector@[i]) ==> final(self).owners@[i] == empire_id && old(
                        self,
                    ).tiles@[i].spec_is_liveable() && final(self).dist_vector@[i] < u32::MAX
                &&& crate::influence::num_changed(mid, final(self).owners@) <= size
            },
            ok && old(self).consistent() ==> final(self).consistent(),
    {
        let n = self.owners.len();
        proof {
            assert(n == old(self).size());
        }
        let index = y * self.width + x;
        self.owners.set(index, empire_id);
        self.dist_vector.set(index, 0);
        if !self.tiles[index].is_liveable() {
            return false;
        }
        let costs: [u32; 8] = [
            settings[0],
            settings[1],
            settings[2],
            settings[3],
            settings[4],
            settings[5],
            settings[6],
            settings[7],
        ];
        proof {
            assert(costs@ =~= settings@);
        }
        let empire = Empire::new(empire_id, color, size, costs, index);
        self.empires.insert(empire_id, empire);
        let ghost mid_world = *self;
        proof {
            if old(self).consistent() {
                assert forall|i: int|
                    0 <= i < self.size() implies ((#[trigger] self.owners@[i]) != 0
                    <==> self.dist_vector@[i] != u32::MAX) by {}
                assert forall|i: int|
                    0 <= i < self.size() && (#[trigger] self.owners@[i]) != 0 implies self.empires@.contains_key(
                    self.owners@[i],
                ) by {}
                assert(self.consistent());
            }
        }
        self.calc_teritory(index, empire_id, size);
        proof {
            assert forall|i: int|
                0 <= i < old(self).size() && i != index as int implies #[trigger] self.dist_vector@[i]
                <= old(self).dist_vector@[i] by {
                assert(self.dist_vector@[i] <= mid_world.dist_vector@[i]);
                assert(mid_world.dist_vector@[i] == old(self).dist_vector@[i]);
            }
            let idx = index as int;
            let cs = mid_world.empires@[empire_id].costs@;
            assert(cs == settings@);
            assert(mid_world.tiles@ == old(self).tiles@);
            assert forall|i: int|
                0 <= i < old(self).size() && ((#[trigger] self.owners@[i]) != old(self).owners@[i]
                    || self.dist_vector@[i] != old(self).dist_vector@[i])
                    implies crate::influence::reachable_at_cost(
                settings@,
                old(self).tiles@,
                old(self).width as int,
                old(self).height as int,
                idx,
                i,
                self.dist_vector@[i] as int,
            ) by {
                if i == idx {
                    if self.owners@[i] == mid_world.owners@[i] && self.dist_vector@[i]
                        == mid_world.dist_vector@[i] {
                        crate::influence::lemma_walk_single(
                            settings@,
                            old(self).tiles@,
                            old(self).width as int,
                            old(self).height as int,
                            idx,
                        );
                    }
                } else {
                    assert(mid_world.owners@[i] == old(self).owners@[i]);
                    assert(mid_world.dist_vector@[i] == old(self).dist_vector@[i]);
                }
            }
            assert(mid_world.owners@ == old(self).owners@.update(idx, empire_id));
        }
        true
    }

    /// Recolors a registered empire; unknown identifiers change nothing.
    pub fn set_empire_color(&mut self, empire_id: u32, color: u32)
        ensures
            *final(self) == (World { empires: final(self).empires, ..*old(self) }),
            old(self).empires@.contains_key(empire_id) ==> final(self).empires@ == old(
                self,
            ).empires@.insert(
                empire_id,
                (Empire { color, ..old(self).empires@[empire_id] }),
            ),
            !old(self).empires@.contains_key(empire_id) ==> final(self).empires@ == old(
                self,
            ).empires@,
            old(self).consistent() ==> final(self).consistent(),
    {
        let found = match self.empires.get(&empire_id) {
            Some(e) => Some(*e),
            None => None,
        };
        if let Some(e) = found {
            let mut e2 = e;
            e2.color = color;
            self.empires.insert(empire_id, e2);
        }
        proof {
            if old(self).empires@.contains_key(empire_id) {
            } else {
                assert(self.empires@ =~= old(self).empires@);
            }
        }
    }

    /// Replaces a registered empire's cost vector; unknown identifiers
    /// change nothing. The vector must have exactly eight entries, one per
    /// terrain ordinal.
    pub fn set_empire_settings(&mut self, empire_id: u32, settings: Vec<u32>)
        requires
            settings@.len() == 8,
        ensures
            *final(self) == (World { empires: final(self).empires, ..*old(self) }),
            old(self).empires@.contains_key(empire_id) ==> {
                let e = final(self).empires@[empire_id];
                &&& final(self).empires@ == old(self).empires@.insert(empire_id, e)
                &&& e.costs@ == settings@
                &&& e.id == old(self).empires@[empire_id].id
                &&& e.color == old(self).empires@[empire_id].color
                &&& e.size == old(self).empires@[empire_id].size
                &&& e.cap_index == old(self).empires@[empire_id].cap_index
            },
            !old(self).empires@.contains_key(empire_id) ==> final(self).empires@ == old(
                self,
            ).empires@,
            old(self).consistent() ==> final(self).consistent(),
    {
        let costs: [u32; 8] = [
            settings[0],
            settings[1],
            settings[2],
            settings[3],
            settings[4],
            settings[5],
            settings[6],
            settings[7],
        ];
        proof {
            assert(costs@ =~= settings@);
        }
        let found = match self.empires.get(&empire_id) {
            Some(e) => Some(*e),
            None => None,
        };
        if let Some(e) = found {
            let mut e2 = e;
            e2.costs = costs;
            self.empires.insert(empire_id, e2);
        }
        proof {
            if old(self).empires@.contains_key(empire_id) {
            } else {
                assert(self.empires@ =~= old(self).empires@);
            }
        }
    }

    /// Removes an empire from the registry and sweeps the grid, resetting
    /// the owner and committed cost of every tile it held in lockstep.
    pub fn delete_empire(&mut self, empire_id: u32)
        requires
            old(self).wf(),
        ensures
            final(self).wf(),
            *final(self) == (World {
                owners: final(self).owners,
                dist_vector: final(self).dist_vector,
                empires: final(self).empires,
                ..*old(self)
            }),
            final(self).empires@ == old(self).empires@.remove(empire_id),
            forall|i: int|
                0 <= i < old(self).size() ==> #[trigger] final(self).owners@[i] == (
                if old(self).owners@[i] == empire_id {
                    0u32
                } else {
                    old(self).owners@[i]
                }),
            forall|i: int|
                0 <= i < old(self).size() ==> #[trigger] final(self).dist_vector@[i] == (
                if old(self).owners@[i] == empire_id {
                    u32::MAX
                } else {
                    old(self).dist_vector@[i]
                }),
            old(self).consistent() ==> final(self).consistent(),
    {
        self.empires.remove(&empire_id);
        let size = self.owners.len();
        let mut i: usize = 0;
        while i < size
            invariant
                size == old(self).size(),
                i <= size,
                self.wf(),
                *self == (World {
                    owners: self.owners,
                    dist_vector: self.dist_vector,
                    empires: self.empires,
                    ..*old(self)
                }),
                self.empires@ == old(self).empires@.remove(empire_id),
                forall|k: int|
                    0 <= k < i ==> #[trigger] self.owners@[k] == (
                    if old(self).owners@[k] == empire_id {
                        0u32
                    } else {
                        old(self).owners@[k]
                    }),
                forall|k: int|
                    0 <= k < i ==> #[trigger] self.dist_vector@[k] == (
                    if old(self).owners@[k] == empire_id {
                        u32::MAX
                    } else {
                        old(self).dist_vector@[k]
                    }),
                forall|k: int| i <= k < size ==> #[trigger] self.owners@[k] == old(self).owners@[k],
                forall|k: int|
                    i <= k < size ==> #[trigger] self.dist_vector@[k] == old(self).dist_vector@[k],
            decreases size - i,
        {
            if self.owners[i] == empire_id {
                self.owners.set(i, 0);
                self.dist_vector.set(i, u32::MAX);
            }
            i += 1;
        }
    }

    /// Writes the terrain grid back out as text: one character per tile,
    /// one newline-terminated line per row.
    pub fn export_map_to_string(&self) -> (out: String)
        requires
            self.wf(),
        ensures
            out@ == text::export_text(self.tiles@, self.width as int, self.height as int),
    {
        let w = self.width;
        let h = self.height;
        let n = self.tiles.len();
        let ghost tiles = self.tiles@;
        let mut out = String::new();
        let mut y: usize = 0;
        proof {
            assert(out@ + text::export_from(tiles, w as int, 0, h as int) =~= text::export_text(
                tiles,
                w as int,
                h as int,
            ));
        }
        while y < h
            invariant
                self.wf(),
                w == self.width,
                h == self.height,
                n == self.tiles@.len(),
                tiles == self.tiles@,
                y <= h,
                out@ + text::export_from(tiles, w as int, y as int, h as int) == text::export_text(
                    tiles,
                    w as int,
                    h as int,
                ),
            decreases h - y,
        {
            let ghost row_start = out@;
            let mut x: usize = 0;
            while x < w
                invariant
                    self.wf(),
                    w == self.width,
                    h == self.height,
                    n == self.tiles@.len(),
                    tiles == self.tiles@,
                    y < h,
                    x <= w,
                    out@ == row_start + text::export_row(tiles, w as int, y as int).take(x as int),
                decreases w - x,
            {
                proof {
                    assert((y as int) * (w as int) + (x as int) < (w as int) * (h as int)
                        && 0 <= (y as int) * (w as int)) by (nonlinear_arith)
                        requires 0 <= (y as int) < (h as int) && 0 <= (x as int) < (w as int);
                }
                let c = self.tiles[y * w + x].to_char();
                text::push_char(&mut out, c);
                x += 1;
                proof {
                    assert(out@ =~= row_start + text::export_row(tiles, w as int, y as int).take(
                        x as int,
                    ));
                }
            }
            text::push_char(&mut out, '\n');
            y += 1;
            proof {
                assert(text::export_row(tiles, w as int, (y - 1) as int).take(w as int)
                    =~= text::export_row(tiles, w as int, (y - 1) as int));
                assert(text::export_from(tiles, w as int, (y - 1) as int, h as int)
                    == text::export_row(tiles, w as int, (y - 1) as int) + seq!['\n']
                    + text::export_from(tiles, w as int, y as int, h as int));
                assert(out@ + text::export_from(tiles, w as int, y as int, h as int)
                    =~= (row_start + text::export_from(tiles, w as int, (y - 1) as int, h as int)));
            }
        }
        out
    }
}

} // verus!
