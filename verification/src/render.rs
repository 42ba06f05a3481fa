//! The render pipeline: stateless per-tile transforms from the logical
//! arrays to the packed-color pixel buffers, including the heat-map ramp
//! for distance fields.
//!
//! Each output cell depends only on the corresponding input cell, so every
//! pass is an independent per-element map; a host that wants to fill the
//! buffers in parallel can apply the same per-tile color functions itself.

use vstd::prelude::*;
use vstd::pervasive::VecAdditionalExecFns;

use crate::world::World;

verus! {

broadcast use vstd::std_specs::hash::group_hash_axioms;

/// The heat-ramp channels (red, green, blue) for a distance `d` under a
/// maximum `m`, as exact integer arithmetic over the quarters `q = 4d` of
/// the normalized position `d/m`: red fades into yellow, then green, cyan,
/// and finally dark blue at the maximum. Distances past the maximum keep
/// fading as the last blend continues below zero and clamps at black.
pub open spec fn heat_channels(d: int, m: int) -> (int, int, int) {
    if 4 * d < m {
        (255, 255 * (4 * d) / m, 0)
    } else if 4 * d < 2 * m {
        (255 * (2 * m - 4 * d) / m, 255, 0)
    } else if 4 * d < 3 * m {
        (0, 255, 255 * (4 * d - 2 * m) / m)
    } else {
        (
            0,
            if 4 * d >= 4 * m {
                0
            } else {
                255 * (4 * m - 4 * d) / m
            },
            if 464 * d >= 603 * m {
                0
            } else {
                (603 * m - 464 * d) / m
            },
        )
    }
}

/// The packed `0xAABBGGRR` heat color for a distance under a maximum, with
/// full alpha. A maximum of zero leaves no scale to normalize by and
/// renders black.
pub open spec fn spec_heat_color(d: int, m: int) -> int {
    if m <= 0 {
        0xFF000000
    } else {
        let (r, g, b) = heat_channels(d, m);
        0xFF000000 + b * 0x10000 + g * 0x100 + r
    }
}

/// Maps a distance to its heat color, given the maximum distance of the
/// field: distance 0 is red (`0xFF0000FF`), the maximum is dark blue
/// (`0xFF8B0000`), with yellow, green, and cyan between.
pub fn heat_map_color(dist: u32, max: u32) -> (color: u32)
    ensures
        color as int == spec_heat_color(dist as int, max as int),
{
    if max == 0 {
        return 0xFF000000;
    }
    let d = dist as u64;
    let m = max as u64;
    let q = 4 * d;
    let r: u64;
    let g: u64;
    let b: u64;
    if q < m {
        r = 255;
        g = 255 * q / m;
        b = 0;
        proof {
            assert(255int * (q as int) / (m as int) <= 255) by (nonlinear_arith)
                requires 0 < (m as int) && 0 <= (q as int) < (m as int);
        }
    } else if q < 2 * m {
        r = 255 * (2 * m - q) / m;
        g = 255;
        b = 0;
        proof {
            assert(255int * (2 * (m as int) - q as int) / (m as int) <= 255) by (nonlinear_arith)
                requires 0 < (m as int) && 0 <= 2 * (m as int) - (q as int) <= (m as int);
        }
    } else if q < 3 * m {
        r = 0;
        g = 255;
        b = 255 * (q - 2 * m) / m;
        proof {
            assert(255int * (q as int - 2 * (m as int)) / (m as int) <= 255) by (nonlinear_arith)
                requires 0 < (m as int) && 0 <= (q as int) - 2 * (m as int) < (m as int);
        }
    } else {
        r = 0;
        g = if q >= 4 * m {
            0
        } else {
            255 * (4 * m - q) / m
        };
        b = if 464 * d >= 603 * m {
            0
        } else {
            (603 * m - 464 * d) / m
        };
        proof {
            if q < 4 * m {
                assert(255int * (4 * (m as int) - q as int) / (m as int) <= 255) by (nonlinear_arith)
                    requires 0 < (m as int) && 0 <= 4 * (m as int) - (q as int) <= (m as int);
            }
            if 464 * d < 603 * m {
                assert((603 * (m as int) - 464 * (d as int)) / (m as int) <= 255) by (nonlinear_arith)
                    requires 0 < (m as int) && 0 <= 603 * (m as int) - 464 * (d as int) <= 255 * (m as int);
            }
            assert(603 * (m as int) - 464 * (d as int) <= 255 * (m as int)) by (nonlinear_arith)
                requires 0 < (m as int) && 3 * (m as int) <= (q as int) && (q as int) == 4 * (d as int);
        }
    }
    0xFF000000u32 + (b as u32) * 0x10000 + (g as u32) * 0x100 + (r as u32)
}

/// The greatest distance of a field, ignoring the `u32::MAX` sentinel;
/// zero when nothing is finite.
pub open spec fn max_finite(s: Seq<u32>) -> int
    decreases s.len(),
{
    if s.len() == 0 {
        0
    } else {
        let m0 = max_finite(s.drop_last());
        if s.last() != u32::MAX && s.last() > m0 {
            s.last() as int
        } else {
            m0
        }
    }
}

/// The maximum a distance render normalizes by when the caller supplies
/// none: the greatest finite distance of the field, or 1 if the whole
/// field is unreachable.
pub open spec fn spec_auto_max(s: Seq<u32>) -> int {
    if exists|i: int| 0 <= i < s.len() && s[i] != u32::MAX {
        max_finite(s)
    } else {
        1
    }
}

/// The maximum a distance render normalizes by, given the caller's choice.
pub open spec fn spec_render_max(s: Seq<u32>, max_dist_option: Option<u32>) -> int {
    match max_dist_option {
        Some(v) => v as int,
        None => spec_auto_max(s),
    }
}

impl World {
    /// Renders every tile's terrain color into the terrain buffer.
    pub fn render_terrain(&mut self)
        requires
            old(self).wf(),
        ensures
            final(self).wf(),
            *final(self) == (World { terrain_buffer: final(self).terrain_buffer, ..*old(self) }),
            final(self).terrain_buffer@ == Seq::new(
                old(self).size() as nat,
                |i: int| old(self).tiles@[i].spec_color(),
            ),
    {
        let n = self.tiles.len();
        let mut i: usize = 0;
        while i < n
            invariant
                n == old(self).size(),
                i <= n,
                self.wf(),
                *self == (World { terrain_buffer: self.terrain_buffer, ..*old(self) }),
                self.terrain_buffer@.len() == n,
                forall|k: int|
                    0 <= k < i ==> #[trigger] self.terrain_buffer@[k] == old(
                        self,
                    ).tiles@[k].spec_color(),
            decreases n - i,
        {
            let c = self.tiles[i].get_color();
            self.terrain_buffer.set(i, c);
            i += 1;
        }
        proof {
            assert(self.terrain_buffer@ =~= Seq::new(
                old(self).size() as nat,
                |i: int| old(self).tiles@[i].spec_color(),
            ));
        }
    }

    /// The color the ownership overlay shows for a tile owner: transparent
    /// for unowned ground, the empire's color for a registered owner, and
    /// opaque white as the sentinel for a dangling owner that the registry
    /// no longer contains.
    pub open spec fn spec_owner_color(self, owner: u32) -> u32 {
        if owner == 0 {
            0u32
        } else if self.empires@.contains_key(owner) {
            self.empires@[owner].color
        } else {
            0xFFFFFFFFu32
        }
    }

    /// Renders the ownership overlay into the ownership buffer.
    pub fn render_ownership(&mut self)
        requires
            old(self).wf(),
        ensures
            final(self).wf(),
            *final(self) == (World { ownership_buffer: final(self).ownership_buffer, ..*old(self) }),
            final(self).ownership_buffer@ == Seq::new(
                old(self).size() as nat,
                |i: int| old(self).spec_owner_color(old(self).owners@[i]),
            ),
    {
        let n = self.owners.len();
        let mut i: usize = 0;
        while i < n
            invariant
                n == old(self).size(),
                i <= n,
                self.wf(),
                *self == (World { ownership_buffer: self.ownership_buffer, ..*old(self) }),
                self.ownership_buffer@.len() == n,
                forall|k: int|
                    0 <= k < i ==> #[trigger] self.ownership_buffer@[k] == old(
                        self,
                    ).spec_owner_color(old(self).owners@[k]),
            decreases n - i,
        {
            let owner = self.owners[i];
            let pixel: u32;
            if owner == 0 {
                pixel = 0x00000000;
            } else {
                pixel = match self.empires.get(&owner) {
                    Some(emp) => emp.color,
                    None => 0xFFFFFFFF,
                };
            }
            self.ownership_buffer.set(i, pixel);
            i += 1;
        }
        proof {
            assert(self.ownership_buffer@ =~= Seq::new(
                old(self).size() as nat,
                |i: int| old(self).spec_owner_color(old(self).owners@[i]),
            ));
        }
    }

    /// Renders the point-distance field into the distance buffer: the
    /// sentinel renders transparent, every finite distance through the heat
    /// ramp, normalized by the caller's maximum or, if none is given, by
    /// the greatest finite distance of the field.
    pub fn render_dist_map(&mut self, max_dist_option: Option<u32>)
        requires
            old(self).wf(),
        ensures
            final(self).wf(),
            *final(self) == (World { dist_buffer: final(self).dist_buffer, ..*old(self) }),
            final(self).dist_buffer@.len() == old(self).size(),
            forall|i: int|
                0 <= i < old(self).size() ==> #[trigger] final(self).dist_buffer@[i] as int == (
                if old(self).dist_map@[i] == u32::MAX {
                    0
                } else {
                    spec_heat_color(
                        old(self).dist_map@[i] as int,
                        spec_render_max(old(self).dist_map@, max_dist_option),
                    )
                }),
    {
        let n = self.dist_map.len();
        let max_dist: u32;
        match max_dist_option {
            Some(v) => {
                max_dist = v;
            },
            None => {
                let mut best: u32 = 0;
                let mut found = false;
                let mut i: usize = 0;
                while i < n
                    invariant
                        n == self.dist_map@.len(),
                        i <= n,
                        best as int == max_finite(self.dist_map@.take(i as int)),
                        found == exists|k: int|
                            0 <= k < i && #[trigger] self.dist_map@[k] != u32::MAX,
                    decreases n - i,
                {
                    let d = self.dist_map[i];
                    proof {
                        assert(self.dist_map@.take(i + 1 as int).drop_last() =~= self.dist_map@.take(
                            i as int,
                        ));
                        assert(self.dist_map@.take(i + 1 as int).last() == self.dist_map@[i as int]);
                    }
                    if d != u32::MAX {
                        found = true;
                        if d > best {
                            best = d;
                        }
                    }
                    i += 1;
                }
                proof {
                    assert(self.dist_map@.take(n as int) =~= self.dist_map@);
                }
                max_dist = if found {
                    best
                } else {
                    1
                };
            },
        }
        let ghost m = spec_render_max(old(self).dist_map@, max_dist_option);
        assert(max_dist as int == m);
        let mut i: usize = 0;
        while i < n
            invariant
                n == old(self).size(),
                i <= n,
                self.wf(),
                *self == (World { dist_buffer: self.dist_buffer, ..*old(self) }),
                self.dist_buffer@.len() == n,
                max_dist as int == m,
                forall|k: int|
                    0 <= k < i ==> #[trigger] self.dist_buffer@[k] as int == (
                    if old(self).dist_map@[k] == u32::MAX {
                        0
                    } else {
                        spec_heat_color(old(self).dist_map@[k] as int, m)
                    }),
            decreases n - i,
        {
            let d = self.dist_map[i];
            let pixel: u32;
            if d == u32::MAX {
                pixel = 0x00000000;
            } else {
                pixel = heat_map_color(d, max_dist);
            }
            self.dist_buffer.set(i, pixel);
            i += 1;
        }
    }

    /// Renders every tile's resource color into the resource buffer.
    pub fn render_resources(&mut self)
        requires
            old(self).wf(),
        ensures
            final(self).wf(),
            *final(self) == (World { resource_buffer: final(self).resource_buffer, ..*old(self) }),
            final(self).resource_buffer@ == Seq::new(
                old(self).size() as nat,
                |i: int| old(self).resources@[i].spec_color(),
            ),
    {
        let n = self.resources.len();
        let mut i: usize = 0;
        while i < n
            invariant
                n == old(self).size(),
                i <= n,
                self.wf(),
                *self == (World { resource_buffer: self.resource_buffer, ..*old(self) }),
                self.resource_buffer@.len() == n,
                forall|k: int|
                    0 <= k < i ==> #[trigger] self.resource_buffer@[k] == old(
                        self,
                    ).resources@[k].spec_color(),
            decreases n - i,
        {
            let c = self.resources[i].get_color();
            self.resource_buffer.set(i, c);
            i += 1;
        }
        proof {
            assert(self.resource_buffer@ =~= Seq::new(
                old(self).size() as nat,
                |i: int| old(self).resources@[i].spec_color(),
            ));
        }
    }
}

} // verus!
