//! The neighbor-access layer.
//!
//! `Oo` names a cell of the grid and is the only place that knows the
//! staggered offset convention: every read or write of a face sample, and
//! every relative classification lookup, goes through it.  Directions other
//! than the four axis neighbors are contract violations and are excluded
//! by `requires`.

use vstd::prelude::*;

use crate::fluid::dir_ok;
use crate::fluid::ele_wf;
use crate::fluid::lemma_grid_idx;
use crate::fluid::lemma_grid_idx_inj;
use crate::fluid::Ele;
use crate::fluid::Fluid;
use crate::fluid::GridModel;
use crate::units::mag;
use crate::units::VMAX;
use crate::utils::Vector;

verus! {

/// A coordinate in the cartesian fluid grid; methods take the fluid they
/// act on explicitly, so no mutable state is ever aliased.
pub struct Oo {
    /// The x coordinate of the cell in the fluid grid.
    pub x: usize,
    /// The y coordinate of the cell in the fluid grid.
    pub y: usize,
}

/// A direction admitted by `peek_element_here`: the four axis neighbors
/// or the cell itself.
pub open spec fn dir0_ok(dx: int, dy: int) -> bool {
    dir_ok(dx, dy) || (dx == 0 && dy == 0)
}

impl Oo {
    pub open spec fn wf(self, m: GridModel) -> bool {
        m.in_grid(self.x as int, self.y as int)
    }

    pub fn construct(x: usize, y: usize) -> (r: Oo)
        ensures
            r.x == x,
            r.y == y,
    {
        Oo { x, y }
    }

    /// Converts relative coordinates into absolute indices in the fluid's
    /// grid.
    pub fn index(&self, dx: isize, dy: isize) -> (r: (usize, usize))
        requires
            dir0_ok(dx as int, dy as int),
            0 <= self.x + dx <= usize::MAX,
            0 <= self.y + dy <= usize::MAX,
        ensures
            r.0 == self.x + dx,
            r.1 == self.y + dy,
    {
        let nx: usize = if dx >= 0 {
            self.x + (dx as usize)
        } else {
            self.x - 1
        };
        let ny: usize = if dy >= 0 {
            self.y + (dy as usize)
        } else {
            self.y - 1
        };
        (nx, ny)
    }

    /// The classification of the cell at relative offset `(dx, dy)`,
    /// reading Static anywhere out of bounds.
    pub fn peek_element_here(&self, fluid: &Fluid, dx: isize, dy: isize) -> (r: Ele)
        requires
            fluid@.wf(),
            self.wf(fluid@),
            dir0_ok(dx as int, dy as int),
        ensures
            r == fluid@.cell_or_static(self.x + dx, self.y + dy),
    {
        if dx < 0 && self.x == 0 {
            return Ele::Static;
        }
        if dy < 0 && self.y == 0 {
            return Ele::Static;
        }
        let nx: usize = if dx >= 0 {
            self.x + (dx as usize)
        } else {
            self.x - 1
        };
        let ny: usize = if dy >= 0 {
            self.y + (dy as usize)
        } else {
            self.y - 1
        };
        if nx < fluid.x && ny < fluid.y {
            proof {
                lemma_grid_idx(fluid@.x, fluid@.y, nx as int, ny as int);
            }
            fluid.element[ny * fluid.x + nx]
        } else {
            Ele::Static
        }
    }

    /// The face sample shared with the neighbor in direction `(dx, dy)`.
    pub fn peek_velocity(&self, fluid: &Fluid, dx: isize, dy: isize) -> (r: i64)
        requires
            fluid@.wf(),
            self.wf(fluid@),
            dir_ok(dx as int, dy as int),
        ensures
            r == fluid@.face(self.x as int, self.y as int, dx as int, dy as int),
            mag(r as int) <= VMAX as int,
    {
        let ghost xx: int = self.x as int;
        let ghost yy: int = self.y as int;
        if dy == 0 {
            let fx: usize = if dx == 1 {
                self.x + 1
            } else {
                self.x
            };
            proof {
                lemma_grid_idx(fluid@.x + 1, fluid@.y, fx as int, yy);
                assert(fluid@.u_face_idx(xx, yy, dx as int) == yy * (fluid@.x + 1) + fx);
            }
            fluid.u[self.y * (fluid.x + 1) + fx]
        } else {
            let fy: usize = if dy == 1 {
                self.y + 1
            } else {
                self.y
            };
            proof {
                lemma_grid_idx(fluid@.x, fluid@.y + 1, xx, fy as int);
                assert(fluid@.v_face_idx(xx, yy, dy as int) == fy * fluid@.x + xx);
            }
            fluid.v[fy * fluid.x + self.x]
        }
    }

    /// Writes the face sample shared with the neighbor in direction
    /// `(dx, dy)`; the only path that mutates a velocity array.
    pub fn poke_velocity(&self, fluid: &mut Fluid, dx: isize, dy: isize, val: i64)
        requires
            old(fluid)@.wf(),
            self.wf(old(fluid)@),
            dir_ok(dx as int, dy as int),
            mag(val as int) <= VMAX as int,
        ensures
            final(fluid)@ == old(fluid)@.with_face(
                self.x as int,
                self.y as int,
                dx as int,
                dy as int,
                val,
            ),
            final(fluid)@.wf(),
    {
        let ghost xx: int = self.x as int;
        let ghost yy: int = self.y as int;
        if dy == 0 {
            let fx: usize = if dx == 1 {
                self.x + 1
            } else {
                self.x
            };
            proof {
                lemma_grid_idx(fluid@.x + 1, fluid@.y, fx as int, yy);
                assert(fluid@.u_face_idx(xx, yy, dx as int) == yy * (fluid@.x + 1) + fx);
            }
            let idx: usize = self.y * (fluid.x + 1) + fx;
            fluid.u.set(idx, val);
            proof {
                assert forall|i: int| 0 <= i < fluid@.u.len() implies mag(
                    (#[trigger] fluid@.u[i]) as int,
                ) <= VMAX as int by {
                    if i != idx {
                        assert(fluid@.u[i] == old(fluid)@.u[i]);
                    }
                }
            }
        } else {
            let fy: usize = if dy == 1 {
                self.y + 1
            } else {
                self.y
            };
            proof {
                lemma_grid_idx(fluid@.x, fluid@.y + 1, xx, fy as int);
                assert(fluid@.v_face_idx(xx, yy, dy as int) == fy * fluid@.x + xx);
            }
            let idx: usize = fy * fluid.x + self.x;
            fluid.v.set(idx, val);
            proof {
                assert forall|i: int| 0 <= i < fluid@.v.len() implies mag(
                    (#[trigger] fluid@.v[i]) as int,
                ) <= VMAX as int by {
                    if i != idx {
                        assert(fluid@.v[i] == old(fluid)@.v[i]);
                    }
                }
            }
        }
        proof {
            crate::fluid::lemma_registry_wf_same_cells(old(fluid)@, fluid@);
        }
    }

    /// Signed sum of the four adjoining face samples, outflow positive.
    pub fn divergence_here(&self, fluid: &Fluid) -> (r: i64)
        requires
            fluid@.wf(),
            self.wf(fluid@),
        ensures
            r == fluid@.divergence(self.x as int, self.y as int),
            mag(r as int) <= 4 * VMAX as int,
    {
        let pr: i64 = self.peek_velocity(fluid, 1, 0);
        let pl: i64 = self.peek_velocity(fluid, -1, 0);
        let pd: i64 = self.peek_velocity(fluid, 0, 1);
        let pu: i64 = self.peek_velocity(fluid, 0, -1);
        pr - pl + pd - pu
    }

    /// How many of the four neighbors are permeable (Fluid or Clone).
    pub fn afflicted_area(&self, fluid: &Fluid) -> (r: i64)
        requires
            fluid@.wf(),
            self.wf(fluid@),
        ensures
            r == fluid@.sides(self.x as int, self.y as int),
            0 <= r <= 4,
    {
        let mut sides: i64 = 0;
        if self.peek_element_here(fluid, 1, 0).is_fluid() {
            sides = sides + 1;
        }
        if self.peek_element_here(fluid, -1, 0).is_fluid() {
            sides = sides + 1;
        }
        if self.peek_element_here(fluid, 0, 1).is_fluid() {
            sides = sides + 1;
        }
        if self.peek_element_here(fluid, 0, -1).is_fluid() {
            sides = sides + 1;
        }
        sides
    }

    /// Zeroes the four adjoining faces; what `enforce` does at a Static
    /// cell.
    pub fn set_velocity_zeros(&self, fluid: &mut Fluid)
        requires
            old(fluid)@.wf(),
            self.wf(old(fluid)@),
        ensures
            final(fluid)@ == old(fluid)@.with_faces(self.x as int, self.y as int, 0, 0, 0, 0),
            final(fluid)@.wf(),
    {
        self.poke_velocity(fluid, 1, 0, 0);
        self.poke_velocity(fluid, -1, 0, 0);
        self.poke_velocity(fluid, 0, 1, 0);
        self.poke_velocity(fluid, 0, -1, 0);
    }

    /// Pins the four adjoining faces to `(set_x, set_y)`; what `enforce`
    /// does at a Source cell.
    pub fn set_velocity_polarized(&self, fluid: &mut Fluid, set_x: i64, set_y: i64)
        requires
            old(fluid)@.wf(),
            self.wf(old(fluid)@),
            mag(set_x as int) <= VMAX as int,
            mag(set_y as int) <= VMAX as int,
        ensures
            final(fluid)@ == old(fluid)@.with_faces(
                self.x as int,
                self.y as int,
                set_x,
                set_x,
                set_y,
                set_y,
            ),
            final(fluid)@.wf(),
    {
        self.poke_velocity(fluid, 1, 0, set_x);
        self.poke_velocity(fluid, -1, 0, set_x);
        self.poke_velocity(fluid, 0, 1, set_y);
        self.poke_velocity(fluid, 0, -1, set_y);
    }

    /// Copies the four faces of the cell at relative offset
    /// `(dref_x, dref_y)` onto this cell's faces, reading all four before
    /// writing any; what `enforce` does at a Clone cell.  A master outside
    /// the grid leaves the state unchanged.
    pub fn set_velocity_matched(&self, fluid: &mut Fluid, dref_x: isize, dref_y: isize)
        requires
            old(fluid)@.wf(),
            self.wf(old(fluid)@),
        ensures
            final(fluid)@ == (if old(fluid)@.in_grid(self.x + dref_x, self.y + dref_y) {
                old(fluid)@.with_faces(
                    self.x as int,
                    self.y as int,
                    old(fluid)@.face(self.x + dref_x, self.y + dref_y, 1, 0) as i64,
                    old(fluid)@.face(self.x + dref_x, self.y + dref_y, -1, 0) as i64,
                    old(fluid)@.face(self.x + dref_x, self.y + dref_y, 0, 1) as i64,
                    old(fluid)@.face(self.x + dref_x, self.y + dref_y, 0, -1) as i64,
                )
            } else {
                old(fluid)@
            }),
            final(fluid)@.wf(),
    {
        let mx_w: i128 = self.x as i128 + dref_x as i128;
        let my_w: i128 = self.y as i128 + dref_y as i128;
        if 0 <= mx_w && mx_w < fluid.x as i128 && 0 <= my_w && my_w < fluid.y as i128 {
            let rx: usize = mx_w as usize;
            let ry: usize = my_w as usize;
            let refr = Oo::construct(rx, ry);
            let v10: i64 = refr.peek_velocity(fluid, 1, 0);
            let vn0: i64 = refr.peek_velocity(fluid, -1, 0);
            let v01: i64 = refr.peek_velocity(fluid, 0, 1);
            let v0n: i64 = refr.peek_velocity(fluid, 0, -1);
            self.poke_velocity(fluid, 1, 0, v10);
            self.poke_velocity(fluid, -1, 0, vn0);
            self.poke_velocity(fluid, 0, 1, v01);
            self.poke_velocity(fluid, 0, -1, v0n);
        }
    }

    /// Adds `adjustment` to the permeable adjoining faces only, with the
    /// sign each face carries in the divergence formula, leaving faces
    /// that border Static or Source cells untouched.
    pub fn modify_adjacent(&self, fluid: &mut Fluid, adjustment: i64)
        requires
            old(fluid)@.wf(),
            self.wf(old(fluid)@),
            old(fluid)@.correction_fits(self.x as int, self.y as int, adjustment as int),
        ensures
            final(fluid)@ == old(fluid)@.modify_adjacent_spec(
                self.x as int,
                self.y as int,
                adjustment as int,
            ),
            final(fluid)@.wf(),
    {
        let ghost m0: GridModel = fluid@;
        let ghost xx: int = self.x as int;
        let ghost yy: int = self.y as int;
        let ghost c: int = adjustment as int;
        if self.peek_element_here(fluid, 1, 0).is_fluid() {
            let f: i64 = self.peek_velocity(fluid, 1, 0);
            proof {
                assert(mag(m0.corrected(xx, yy, 1, 0, c)) <= VMAX as int);
            }
            self.poke_velocity(fluid, 1, 0, f + adjustment);
            proof {
                crate::fluid::lemma_with_face_reads(m0, xx, yy, 1, 0, (f + adjustment) as i64);
            }
        }
        let ghost m1: GridModel = fluid@;
        proof {
            assert(m1.face(xx, yy, -1, 0) == m0.face(xx, yy, -1, 0));
            assert(m1.face(xx, yy, 0, 1) == m0.face(xx, yy, 0, 1));
            assert(m1.face(xx, yy, 0, -1) == m0.face(xx, yy, 0, -1));
            assert(m1.element == m0.element && m1.x == m0.x && m1.y == m0.y);
        }
        if self.peek_element_here(fluid, -1, 0).is_fluid() {
            let f: i64 = self.peek_velocity(fluid, -1, 0);
            proof {
                assert(f as int == m0.face(xx, yy, -1, 0));
                assert(mag(m0.corrected(xx, yy, -1, 0, c)) <= VMAX as int);
            }
            self.poke_velocity(fluid, -1, 0, f - adjustment);
            proof {
                crate::fluid::lemma_with_face_reads(m1, xx, yy, -1, 0, (f - adjustment) as i64);
            }
        }
        let ghost m2: GridModel = fluid@;
        proof {
            assert(m2.face(xx, yy, 0, 1) == m0.face(xx, yy, 0, 1));
            assert(m2.face(xx, yy, 0, -1) == m0.face(xx, yy, 0, -1));
            assert(m2.element == m0.element && m2.x == m0.x && m2.y == m0.y);
        }
        if self.peek_element_here(fluid, 0, 1).is_fluid() {
            let f: i64 = self.peek_velocity(fluid, 0, 1);
            proof {
                assert(f as int == m0.face(xx, yy, 0, 1));
                assert(mag(m0.corrected(xx, yy, 0, 1, c)) <= VMAX as int);
            }
            self.poke_velocity(fluid, 0, 1, f + adjustment);
            proof {
                crate::fluid::lemma_with_face_reads(m2, xx, yy, 0, 1, (f + adjustment) as i64);
            }
        }
        let ghost m3: GridModel = fluid@;
        proof {
            assert(m3.face(xx, yy, 0, -1) == m0.face(xx, yy, 0, -1));
            assert(m3.element == m0.element && m3.x == m0.x && m3.y == m0.y);
        }
        if self.peek_element_here(fluid, 0, -1).is_fluid() {
            let f: i64 = self.peek_velocity(fluid, 0, -1);
            proof {
                assert(f as int == m0.face(xx, yy, 0, -1));
                assert(mag(m0.corrected(xx, yy, 0, -1, c)) <= VMAX as int);
            }
            self.poke_velocity(fluid, 0, -1, f - adjustment);
        }
        proof {
            assert(fluid@ == m0.modify_adjacent_spec(xx, yy, c));
        }
    }

    /// Places an Ele at this location, keeping the boundary registry in
    /// step: a non-Fluid kind is registered exactly once, the Fluid kind
    /// deregisters the coordinate.
    pub fn set_here(&self, fluid: &mut Fluid, cell: Ele)
        requires
            old(fluid)@.wf(),
            self.wf(old(fluid)@),
            ele_wf(cell),
        ensures
            final(fluid)@ == old(fluid)@.place_cell(self.x as int, self.y as int, cell),
            final(fluid)@.wf(),
            old(fluid)@.registry_complete() ==> final(fluid)@.registry_complete(),
    {
        proof {
            lemma_grid_idx(fluid@.x, fluid@.y, self.x as int, self.y as int);
        }
        let idx: usize = self.y * fluid.x + self.x;
        fluid.element.set(idx, cell);
        let pos: Option<usize> = registry_find(fluid, self.x, self.y);
        let ghost mo: GridModel = old(fluid)@;
        let ghost mc: GridModel = fluid@;
        let ghost c: Vector<usize> = Vector { x: self.x, y: self.y };
        proof {
            crate::fluid::lemma_place_cell_props(mo, self.x as int, self.y as int, cell);
        }
        if matches!(cell, Ele::Fluid) {
            match pos {
                Some(k) => {
                    fluid.boundaries.remove(k);
                    proof {
                        crate::fluid::lemma_registry_after_place_is_remove(
                            mo,
                            self.x as int,
                            self.y as int,
                            cell,
                            k as int,
                        );
                    }
                },
                None => {
                    proof {
                        assert(mo.registry_after_place(self.x as int, self.y as int, cell)
                            == mo.boundaries);
                    }
                },
            }
        } else {
            match pos {
                Some(k) => {
                    proof {
                        assert(mo.boundaries.contains(c)) by {
                            assert(mo.boundaries[k as int] == c);
                        }
                    }
                },
                None => {
                    fluid.boundaries.push(Vector { x: self.x, y: self.y });
                    proof {
                        assert(mo.registry_after_place(self.x as int, self.y as int, cell)
                            == mo.boundaries.push(c));
                    }
                },
            }
        }
    }

    /// Reverts this cell to Fluid and deregisters it.
    pub fn remove_here(&self, fluid: &mut Fluid)
        requires
            old(fluid)@.wf(),
            self.wf(old(fluid)@),
        ensures
            final(fluid)@ == old(fluid)@.place_cell(self.x as int, self.y as int, Ele::Fluid),
            final(fluid)@.wf(),
            old(fluid)@.registry_complete() ==> final(fluid)@.registry_complete(),
    {
        self.set_here(fluid, Ele::Fluid);
    }
}

/// The position of `(x, y)` in the boundary registry, if present.
fn registry_find(fluid: &Fluid, x: usize, y: usize) -> (r: Option<usize>)
    ensures
        match r {
            Some(k) => k < fluid@.boundaries.len() && fluid@.boundaries[k as int] == (Vector {
                x,
                y,
            }),
            None => !fluid@.boundaries.contains(Vector { x, y }),
        },
{
    let n: usize = fluid.boundaries.len();
    let mut k: usize = 0;
    while k < n
        invariant
            k <= n,
            n == fluid@.boundaries.len(),
            forall|j: int| 0 <= j < k ==> #[trigger] fluid@.boundaries[j] != (Vector { x, y }),
        decreases n - k,
    {
        let b = fluid.boundaries[k];
        if b.x == x && b.y == y {
            return Some(k);
        }
        k = k + 1;
    }
    None
}

} // verus!
