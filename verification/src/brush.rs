//! Brush edits: overwriting a filled disc of tiles with a terrain or a
//! resource, in the logical array and its render buffer at once, clipped
//! to the grid.
//!
//! The disc is an integer-arithmetic circle: radius `diameter / 2`
//! (truncated, so a diameter of 1 paints exactly the center tile) and a
//! squared-distance test, with no floating point. Ownership and distance
//! state are untouched.

use vstd::prelude::*;
use vstd::pervasive::VecAdditionalExecFns;

use crate::resource::Resource;
use crate::terrain::Terrain;
use crate::world::World;

verus! {

/// Whether the tile at column `x`, row `y` lies in the brush disc of
/// radius `r` centered at `(cx, cy)`: squared distance at most `r * r`.
pub open spec fn in_brush(cx: int, cy: int, r: int, x: int, y: int) -> bool {
    (x - cx) * (x - cx) + (y - cy) * (y - cy) <= r * r
}

/// ASCII uppercase folding: the lowercase letters map to their uppercase
/// counterparts, everything else is unchanged. The terrain brush accepts
/// its code letter in either case.
pub open spec fn spec_ascii_upper(c: char) -> char {
    match c {
        'a' => 'A',
        'b' => 'B',
        'c' => 'C',
        'd' => 'D',
        'e' => 'E',
        'f' => 'F',
        'g' => 'G',
        'h' => 'H',
        'i' => 'I',
        'j' => 'J',
        'k' => 'K',
        'l' => 'L',
        'm' => 'M',
        'n' => 'N',
        'o' => 'O',
        'p' => 'P',
        'q' => 'Q',
        'r' => 'R',
        's' => 'S',
        't' => 'T',
        'u' => 'U',
        'v' => 'V',
        'w' => 'W',
        'x' => 'X',
        'y' => 'Y',
        'z' => 'Z',
        _ => c,
    }
}

fn ascii_upper(c: char) -> (r: char)
    ensures
        r == spec_ascii_upper(c),
{
    match c {
        'a' => 'A',
        'b' => 'B',
        'c' => 'C',
        'd' => 'D',
        'e' => 'E',
        'f' => 'F',
        'g' => 'G',
        'h' => 'H',
        'i' => 'I',
        'j' => 'J',
        'k' => 'K',
        'l' => 'L',
        'm' => 'M',
        'n' => 'N',
        'o' => 'O',
        'p' => 'P',
        'q' => 'Q',
        'r' => 'R',
        's' => 'S',
        't' => 'T',
        'u' => 'U',
        'v' => 'V',
        'w' => 'W',
        'x' => 'X',
        'y' => 'Y',
        'z' => 'Z',
        _ => c,
    }
}

impl World {
    /// Paints a filled disc of terrain: every grid tile within radius
    /// `diameter / 2` of the center (by squared distance) takes the
    /// terrain encoded by `terrain_val` (folded to uppercase), in `tiles`
    /// and in the terrain buffer at once; every other tile is untouched,
    /// as are ownership and distance state. The bounds keep the integer
    /// circle test within `i32`.
    #[verifier::loop_isolation(false)]
    pub fn paint_terrain_brush(
        &mut self,
        center_x: i32,
        center_y: i32,
        diameter: i32,
        terrain_val: char,
    )
        requires
            old(self).wf(),
            old(self).width <= i32::MAX,
            old(self).height <= i32::MAX,
            old(self).size() <= i32::MAX,
            0 <= diameter < 65536,
            -0x4000_0000 <= center_x <= 0x4000_0000,
            -0x4000_0000 <= center_y <= 0x4000_0000,
        ensures
            final(self).wf(),
            *final(self) == (World {
                tiles: final(self).tiles,
                terrain_buffer: final(self).terrain_buffer,
                ..*old(self)
            }),
            forall|yy: int, xx: int|
                #![trigger final(self).tiles@[yy * old(self).width + xx]]
                0 <= yy < old(self).height && 0 <= xx < old(self).width ==> {
                    let t = Terrain::spec_from_char(spec_ascii_upper(terrain_val));
                    let idx = yy * old(self).width + xx;
                    if in_brush(center_x as int, center_y as int, diameter as int / 2, xx, yy) {
                        final(self).tiles@[idx] == t && final(self).terrain_buffer@[idx] == t.spec_color()
                    } else {
                        final(self).tiles@[idx] == old(self).tiles@[idx] && final(self).terrain_buffer@[idx] == old(self).terrain_buffer@[idx]
                    }
                },
    {
        let ghost w = old(self).width as int;
        let ghost h = old(self).height as int;
        let width = self.width as i32;
        let height = self.height as i32;
        let terrain_type = Terrain::from_char(ascii_upper(terrain_val));
        let ghost t = Terrain::spec_from_char(spec_ascii_upper(terrain_val));
        let color = terrain_type.get_color();
        let radius = diameter / 2;
        let ghost r = radius as int;
        proof {
            assert(0 <= r * r < 0x4000_0000) by (nonlinear_arith)
                requires 0 <= r < 32768;
        }
        let radius_sq = radius * radius;
        let min_x = if center_x - radius > 0 {
            center_x - radius
        } else {
            0
        };
        let max_x = if center_x + radius < width - 1 {
            center_x + radius
        } else {
            width - 1
        };
        let min_y = if center_y - radius > 0 {
            center_y - radius
        } else {
            0
        };
        let max_y = if center_y + radius < height - 1 {
            center_y + radius
        } else {
            height - 1
        };
        proof {
            assert(radius_sq == r * r) by (nonlinear_arith)
                requires 0 <= r < 32768 && radius_sq == radius * radius && r == radius as int;
        }
        let mut y = min_y;
        while y <= max_y
            invariant
                min_y <= y <= max_y + 1 || y == min_y,
                self.wf(),
                *self == (World {
                    tiles: self.tiles,
                    terrain_buffer: self.terrain_buffer,
                    ..*old(self)
                }),
                forall|yy: int, xx: int|
                    #![trigger self.tiles@[yy * w + xx]]
                    0 <= yy < h && 0 <= xx < w ==> {
                        let idx = yy * w + xx;
                        if min_y <= yy < y && min_x <= xx <= max_x && in_brush(
                            center_x as int,
                            center_y as int,
                            r,
                            xx,
                            yy,
                        ) {
                            self.tiles@[idx] == t && self.terrain_buffer@[idx]
                                == t.spec_color()
                        } else {
                            self.tiles@[idx] == old(self).tiles@[idx] && self.terrain_buffer@[idx]
                                == old(self).terrain_buffer@[idx]
                        }
                    },
            decreases max_y - y + 1,
        {
            let mut x = min_x;
            while x <= max_x
                invariant
                    min_x <= x <= max_x + 1 || x == min_x,
                    min_y <= y <= max_y,
                    self.wf(),
                    *self == (World {
                        tiles: self.tiles,
                        terrain_buffer: self.terrain_buffer,
                        ..*old(self)
                    }),
                    forall|yy: int, xx: int|
                        #![trigger self.tiles@[yy * w + xx]]
                        0 <= yy < h && 0 <= xx < w ==> {
                            let idx = yy * w + xx;
                            if (min_y <= yy < y && min_x <= xx <= max_x && in_brush(
                                center_x as int,
                                center_y as int,
                                r,
                                xx,
                                yy,
                            )) || (yy == y && min_x <= xx < x && in_brush(
                                center_x as int,
                                center_y as int,
                                r,
                                xx,
                                yy,
                            )) {
                                self.tiles@[idx] == t && self.terrain_buffer@[idx]
                                    == t.spec_color()
                            } else {
                                self.tiles@[idx] == old(self).tiles@[idx]
                                    && self.terrain_buffer@[idx] == old(self).terrain_buffer@[idx]
                            }
                        },
                decreases max_x - x + 1,
            {
                let ghost tb = self.tiles@;
                let ghost bufb = self.terrain_buffer@;
                let dx = x - center_x;
                let dy = y - center_y;
                proof {
                    assert(dx * dx <= radius_sq && dy * dy <= radius_sq && dx * dx >= 0 && dy * dy
                        >= 0) by (nonlinear_arith)
                        requires
                            -32768 < dx as int <= 32767 && -32768 < dy as int <= 32767 && dx as int
                                == x as int - center_x as int && dy as int == y as int
                                - center_y as int && radius_sq as int == r * r && 0 <= r < 32768
                                && x as int - center_x as int <= r && center_x as int - x as int
                                <= r && y as int - center_y as int <= r && center_y as int
                                - y as int <= r;
                }
                if dx * dx + dy * dy <= radius_sq {
                    proof {
                        assert((y as int) * w + (x as int) < w * h && 0 <= (y as int) * w + (x as int))
                            by (nonlinear_arith)
                            requires 0 <= (y as int) < h && 0 <= (x as int) < w;
                    }
                    let index = (y * width + x) as usize;
                    self.tiles.set(index, terrain_type);
                    self.terrain_buffer.set(index, color);
                    proof {
                        assert(index as int == (y as int) * w + (x as int));
                        assert(self.tiles@ == tb.update((y as int) * w + (x as int), terrain_type));
                        assert(self.terrain_buffer@ == bufb.update(
                            (y as int) * w + (x as int),
                            color,
                        ));
                    }
                }
                x += 1;
                proof {
                    let xt = x as int - 1;
                    let cx = center_x as int;
                    let cy = center_y as int;
                    assert forall|yy: int, xx: int|
                        #![trigger self.tiles@[yy * w + xx]]
                    0 <= yy < h && 0 <= xx < w implies {
                        let idx = yy * w + xx;
                        if (min_y <= yy < y && min_x <= xx <= max_x && in_brush(cx, cy, r, xx, yy))
                            || (yy == y as int && min_x <= xx < x && in_brush(cx, cy, r, xx, yy)) {
                            self.tiles@[idx] == t && self.terrain_buffer@[idx] == t.spec_color()
                        } else {
                            self.tiles@[idx] == old(self).tiles@[idx] && self.terrain_buffer@[idx]
                                == old(self).terrain_buffer@[idx]
                        }
                    } by {
                        assert(0 <= yy * w + xx < w * h) by (nonlinear_arith)
                            requires 0 <= yy < h && 0 <= xx < w;
                        if yy == y as int && xx == xt {
                            assert((dx as int) == xt - cx);
                            assert((dy as int) == yy - cy);
                            if in_brush(cx, cy, r, xx, yy) {
                                assert((dx as int) * (dx as int) + (dy as int) * (dy as int)
                                    <= r * r);
                                assert(dx * dx + dy * dy <= radius_sq);
                            } else {
                                assert(!(dx * dx + dy * dy <= radius_sq));
                            }
                        } else {
                            assert(yy * w + xx != (y as int) * w + xt) by (nonlinear_arith)
                                requires
                                    0 <= yy < h && 0 <= xx < w && 0 <= (y as int) < h && 0 <= xt
                                        < w && (yy != y as int || xx != xt);
                            assert(self.tiles@[yy * w + xx] == tb[yy * w + xx]);
                            assert(self.terrain_buffer@[yy * w + xx] == bufb[yy * w + xx]);
                        }
                    }
                }
            }
            y += 1;
        }
        proof {
            assert forall|yy: int, xx: int|
                #![trigger self.tiles@[yy * w + xx]]
            0 <= yy < h && 0 <= xx < w implies {
                let idx = yy * w + xx;
                if in_brush(center_x as int, center_y as int, diameter as int / 2, xx, yy) {
                    self.tiles@[idx] == t && self.terrain_buffer@[idx]
                        == t.spec_color()
                } else {
                    self.tiles@[idx] == old(self).tiles@[idx] && self.terrain_buffer@[idx] == old(
                        self,
                    ).terrain_buffer@[idx]
                }
            } by {
                assert(diameter as int / 2 == r);
                if in_brush(center_x as int, center_y as int, r, xx, yy) {
                    assert(xx - center_x <= r && center_x - xx <= r && yy - center_y <= r
                        && center_y - yy <= r) by (nonlinear_arith)
                        requires
                            (xx - center_x) * (xx - center_x) + (yy - center_y) * (yy - center_y)
                                <= r * r && r >= 0;
                    assert(min_y <= yy <= max_y && min_x <= xx <= max_x);
                }
            }
        }
    }

    /// Paints a filled disc of resource, exactly as the terrain brush
    /// does, but reading the resource code as it is (no case folding) and
    /// writing `resources` and the resource buffer.
    #[verifier::loop_isolation(false)]
    pub fn paint_resource_brush(
        &mut self,
        center_x: i32,
        center_y: i32,
        diameter: i32,
        resource_val: char,
    )
        requires
            old(self).wf(),
            old(self).width <= i32::MAX,
            old(self).height <= i32::MAX,
            old(self).size() <= i32::MAX,
            0 <= diameter < 65536,
            -0x4000_0000 <= center_x <= 0x4000_0000,
            -0x4000_0000 <= center_y <= 0x4000_0000,
        ensures
            final(self).wf(),
            *final(self) == (World {
                resources: final(self).resources,
                resource_buffer: final(self).resource_buffer,
                ..*old(self)
            }),
            forall|yy: int, xx: int|
                #![trigger final(self).resources@[yy * old(self).width + xx]]
                0 <= yy < old(self).height && 0 <= xx < old(self).width ==> {
                    let rs = Resource::spec_from_char(resource_val);
                    let idx = yy * old(self).width + xx;
                    if in_brush(center_x as int, center_y as int, diameter as int / 2, xx, yy) {
                        final(self).resources@[idx] == rs && final(self).resource_buffer@[idx] == rs.spec_color()
                    } else {
                        final(self).resources@[idx] == old(self).resources@[idx] && final(self).resource_buffer@[idx] == old(self).resource_buffer@[idx]
                    }
                },
    {
        let ghost w = old(self).width as int;
        let ghost h = old(self).height as int;
        let width = self.width as i32;
        let height = self.height as i32;
        let resource_type = Resource::from_char(resource_val);
        let ghost rs = Resource::spec_from_char(resource_val);
        let color = resource_type.get_color();
        let radius = diameter / 2;
        let ghost r = radius as int;
        proof {
            assert(0 <= r * r < 0x4000_0000) by (nonlinear_arith)
                requires 0 <= r < 32768;
        }
        let radius_sq = radius * radius;
        let min_x = if center_x - radius > 0 {
            center_x - radius
        } else {
            0
        };
        let max_x = if center_x + radius < width - 1 {
            center_x + radius
        } else {
            width - 1
        };
        let min_y = if center_y - radius > 0 {
            center_y - radius
        } else {
            0
        };
        let max_y = if center_y + radius < height - 1 {
            center_y + radius
        } else {
            height - 1
        };
        proof {
            assert(radius_sq == r * r) by (nonlinear_arith)
                requires 0 <= r < 32768 && radius_sq == radius * radius && r == radius as int;
        }
        let mut y = min_y;
        while y <= max_y
            invariant
                min_y <= y <= max_y + 1 || y == min_y,
                self.wf(),
                *self == (World {
                    resources: self.resources,
                    resource_buffer: self.resource_buffer,
                    ..*old(self)
                }),
                forall|yy: int, xx: int|
                    #![trigger self.resources@[yy * w + xx]]
                    0 <= yy < h && 0 <= xx < w ==> {
                        let idx = yy * w + xx;
                        if min_y <= yy < y && min_x <= xx <= max_x && in_brush(
                            center_x as int,
                            center_y as int,
                            r,
                            xx,
                            yy,
                        ) {
                            self.resources@[idx] == rs && self.resource_buffer@[idx]
                                == rs.spec_color()
                        } else {
                            self.resources@[idx] == old(self).resources@[idx]
                                && self.resource_buffer@[idx] == old(self).resource_buffer@[idx]
                        }
                    },
            decreases max_y - y + 1,
        {
            let mut x = min_x;
            while x <= max_x
                invariant
                    min_x <= x <= max_x + 1 || x == min_x,
                    min_y <= y <= max_y,
                    self.wf(),
                    *self == (World {
                        resources: self.resources,
                        resource_buffer: self.resource_buffer,
                        ..*old(self)
                    }),
                    forall|yy: int, xx: int|
                        #![trigger self.resources@[yy * w + xx]]
                        0 <= yy < h && 0 <= xx < w ==> {
                            let idx = yy * w + xx;
                            if (min_y <= yy < y && min_x <= xx <= max_x && in_brush(
                                center_x as int,
                                center_y as int,
                                r,
                                xx,
                                yy,
                            )) || (yy == y && min_x <= xx < x && in_brush(
                                center_x as int,
                                center_y as int,
                                r,
                                xx,
                                yy,
                            )) {
                                self.resources@[idx] == rs
                                    && self.resource_buffer@[idx] == rs.spec_color()
                            } else {
                                self.resources@[idx] == old(self).resources@[idx]
                                    && self.resource_buffer@[idx] == old(self).resource_buffer@[idx]
                            }
                        },
                decreases max_x - x + 1,
            {
                let ghost tb = self.resources@;
                let ghost bufb = self.resource_buffer@;
                let dx = x - center_x;
                let dy = y - center_y;
                proof {
                    assert(dx * dx <= radius_sq && dy * dy <= radius_sq && dx * dx >= 0 && dy * dy
                        >= 0) by (nonlinear_arith)
                        requires
                            -32768 < dx as int <= 32767 && -32768 < dy as int <= 32767 && dx as int
                                == x as int - center_x as int && dy as int == y as int
                                - center_y as int && radius_sq as int == r * r && 0 <= r < 32768
                                && x as int - center_x as int <= r && center_x as int - x as int
                                <= r && y as int - center_y as int <= r && center_y as int
                                - y as int <= r;
                }
                if dx * dx + dy * dy <= radius_sq {
                    proof {
                        assert((y as int) * w + (x as int) < w * h && 0 <= (y as int) * w + (x as int))
                            by (nonlinear_arith)
                            requires 0 <= (y as int) < h && 0 <= (x as int) < w;
                    }
                    let index = (y * width + x) as usize;
                    self.resources.set(index, resource_type);
                    self.resource_buffer.set(index, color);
                    proof {
                        assert(index as int == (y as int) * w + (x as int));
                        assert(self.resources@ == tb.update(
                            (y as int) * w + (x as int),
                            resource_type,
                        ));
                        assert(self.resource_buffer@ == bufb.update(
                            (y as int) * w + (x as int),
                            color,
                        ));
                    }
                }
                x += 1;
                proof {
                    let xt = x as int - 1;
                    let cx = center_x as int;
                    let cy = center_y as int;
                    assert forall|yy: int, xx: int|
                        #![trigger self.resources@[yy * w + xx]]
                    0 <= yy < h && 0 <= xx < w implies {
                        let idx = yy * w + xx;
                        if (min_y <= yy < y && min_x <= xx <= max_x && in_brush(cx, cy, r, xx, yy))
                            || (yy == y as int && min_x <= xx < x && in_brush(cx, cy, r, xx, yy)) {
                            self.resources@[idx] == rs && self.resource_buffer@[idx] == rs.spec_color()
                        } else {
                            self.resources@[idx] == old(self).resources@[idx] && self.resource_buffer@[idx]
                                == old(self).resource_buffer@[idx]
                        }
                    } by {
                        assert(0 <= yy * w + xx < w * h) by (nonlinear_arith)
                            requires 0 <= yy < h && 0 <= xx < w;
                        if yy == y as int && xx == xt {
                            assert((dx as int) == xt - cx);
                            assert((dy as int) == yy - cy);
                            if in_brush(cx, cy, r, xx, yy) {
                                assert((dx as int) * (dx as int) + (dy as int) * (dy as int)
                                    <= r * r);
                                assert(dx * dx + dy * dy <= radius_sq);
                            } else {
                                assert(!(dx * dx + dy * dy <= radius_sq));
                            }
                        } else {
                            assert(yy * w + xx != (y as int) * w + xt) by (nonlinear_arith)
                                requires
                                    0 <= yy < h && 0 <= xx < w && 0 <= (y as int) < h && 0 <= xt
                                        < w && (yy != y as int || xx != xt);
                            assert(self.resources@[yy * w + xx] == tb[yy * w + xx]);
                            assert(self.resource_buffer@[yy * w + xx] == bufb[yy * w + xx]);
                        }
                    }
                }
            }
            y += 1;
        }
        proof {
            assert forall|yy: int, xx: int|
                #![trigger self.resources@[yy * w + xx]]
            0 <= yy < h && 0 <= xx < w implies {
                let idx = yy * w + xx;
                if in_brush(center_x as int, center_y as int, diameter as int / 2, xx, yy) {
                    self.resources@[idx] == rs && self.resource_buffer@[idx]
                        == rs.spec_color()
                } else {
                    self.resources@[idx] == old(self).resources@[idx] && self.resource_buffer@[idx]
                        == old(self).resource_buffer@[idx]
                }
            } by {
                assert(diameter as int / 2 == r);
                if in_brush(center_x as int, center_y as int, r, xx, yy) {
                    assert(xx - center_x <= r && center_x - xx <= r && yy - center_y <= r
                        && center_y - yy <= r) by (nonlinear_arith)
                        requires
                            (xx - center_x) * (xx - center_x) + (yy - center_y) * (yy - center_y)
                                <= r * r && r >= 0;
                    assert(min_y <= yy <= max_y && min_x <= xx <= max_x);
                }
            }
        }
    }
}

} // verus!
