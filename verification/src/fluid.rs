//! The solver state: staggered velocity arrays, cell classification, the
//! boundary registry, and the mathematical model they are verified against.
//!
//! The staggered (MAC) layout stores horizontal samples `u` on vertical
//! faces — row `y` holds `x + 1` samples — and vertical samples `v` on
//! horizontal faces — `y + 1` rows of `x` samples.  All arrays are flat,
//! indexed row-major; the `GridModel` ghost view mirrors them as sequences,
//! and every solver pass is specified as a pure transformation of that view.

use vstd::prelude::*;

use crate::config::Config;
use crate::mirror::Mirror;
use crate::source::Source;
use crate::units::mag;
use crate::units::tdiv;
use crate::units::DMAX;
use crate::units::SCALE;
use crate::units::ORMAX;
use crate::units::PMAX;
use crate::units::VMAX;
use crate::units::WMAX;
use crate::utils::sqrt_floor;
use crate::utils::Clamp;
use crate::utils::Vector;

verus! {

/// Union enum used to store the state of the grid's contained elements.
#[derive(Clone, Copy, Debug, PartialEq, Eq, Structural)]
pub enum Ele {
    /// Carries no additional information and is subject to all state changes.
    Fluid,
    /// A wall or solid object: zero flux through all four adjoining faces.
    Static,
    /// Maintains a fixed velocity on the four adjoining faces; an
    /// inflow/outflow boundary.
    Source(Source),
    /// Mirrors the faces of the cell at a stored relative offset,
    /// approximating an unbounded domain.
    Clone(Mirror),
}

impl Ele {
    pub fn to_strslice(self) -> (r: &'static str)
        ensures
            r@ == (match self {
                Ele::Fluid => "Fluid"@,
                Ele::Static => "Solid"@,
                Ele::Source(_) => "Emitter"@,
                Ele::Clone(_) => "Match"@,
            }),
    {
        match self {
            Self::Fluid => "Fluid",
            Self::Static => "Solid",
            Self::Source(_) => "Emitter",
            Self::Clone(_) => "Match",
        }
    }

    /// Fluid and Clone cells both contribute divergence and may be
    /// corrected by projection.
    pub open spec fn is_fluid_spec(self) -> bool {
        self is Fluid || self is Clone
    }

    pub fn is_fluid(&self) -> (r: bool)
        ensures
            r == self.is_fluid_spec(),
    {
        matches!(*self, Self::Fluid | Self::Clone(_))
    }

    pub open spec fn is_static_spec(self) -> bool {
        self is Static
    }

    pub fn is_static(&self) -> (r: bool)
        ensures
            r == self.is_static_spec(),
    {
        matches!(*self, Self::Static)
    }
}

/// Which staggered field an interpolation reads.
#[derive(Clone, Copy, Debug, PartialEq, Eq, Structural)]
pub enum Field {
    U,
    V,
}

/// A value pulled into a closed interval.
pub open spec fn clamp_int(v: int, lo: int, hi: int) -> int {
    if v < lo {
        lo
    } else if v > hi {
        hi
    } else {
        v
    }
}

/// The smaller of two integers.
pub open spec fn min_int(a: int, b: int) -> int {
    if a < b {
        a
    } else {
        b
    }
}

/// The ghost mirror of a `Fluid` value: sequences in place of vectors,
/// unbounded integers in place of machine integers.
pub ghost struct GridModel {
    pub x: int,
    pub y: int,
    pub u: Seq<i64>,
    pub v: Seq<i64>,
    pub nu: Seq<i64>,
    pub nv: Seq<i64>,
    pub vorticity: Seq<i64>,
    pub element: Seq<Ele>,
    pub overrelaxation: int,
    pub iters: int,
    pub delta_t: int,
    pub source_velocity: int,
    pub grid_size: int,
    pub epsilon: int,
    pub boundaries: Seq<Vector<usize>>,
}

/// A relative direction admitted by the neighbor-access layer.
pub open spec fn dir_ok(dx: int, dy: int) -> bool {
    ||| (dx == 1 && dy == 0)
    ||| (dx == -1 && dy == 0)
    ||| (dx == 0 && dy == 1)
    ||| (dx == 0 && dy == -1)
}

impl GridModel {
    pub open spec fn u_len(self) -> int {
        self.y * (self.x + 1)
    }

    pub open spec fn v_len(self) -> int {
        (self.y + 1) * self.x
    }

    pub open spec fn c_len(self) -> int {
        self.y * self.x
    }

    pub open spec fn in_grid(self, x: int, y: int) -> bool {
        0 <= x < self.x && 0 <= y < self.y
    }

    pub open spec fn c_idx(self, x: int, y: int) -> int {
        y * self.x + x
    }

    pub open spec fn u_idx(self, x: int, y: int) -> int {
        y * (self.x + 1) + x
    }

    pub open spec fn v_idx(self, x: int, y: int) -> int {
        y * self.x + x
    }

    pub open spec fn cell(self, x: int, y: int) -> Ele {
        self.element[self.c_idx(x, y)]
    }

    /// Classification with the closed-world default: anything outside the
    /// grid reads as Static.
    pub open spec fn cell_or_static(self, x: int, y: int) -> Ele {
        if self.in_grid(x, y) {
            self.cell(x, y)
        } else {
            Ele::Static
        }
    }

    pub open spec fn u_at(self, x: int, y: int) -> int {
        self.u[self.u_idx(x, y)] as int
    }

    pub open spec fn v_at(self, x: int, y: int) -> int {
        self.v[self.v_idx(x, y)] as int
    }

    /// Index into `u` of the sample on the face shared by cell `(x, y)`
    /// and its horizontal neighbor in direction `dx`.
    pub open spec fn u_face_idx(self, x: int, y: int, dx: int) -> int {
        self.u_idx(if dx == 1 { x + 1 } else { x }, y)
    }

    /// Index into `v` of the sample on the face shared by cell `(x, y)`
    /// and its vertical neighbor in direction `dy`.
    pub open spec fn v_face_idx(self, x: int, y: int, dy: int) -> int {
        self.v_idx(x, if dy == 1 { y + 1 } else { y })
    }

    /// The staggered sample representing flux across the face of cell
    /// `(x, y)` shared with its neighbor in direction `(dx, dy)`.
    pub open spec fn face(self, x: int, y: int, dx: int, dy: int) -> int {
        if dy == 0 {
            self.u[self.u_face_idx(x, y, dx)] as int
        } else {
            self.v[self.v_face_idx(x, y, dy)] as int
        }
    }

    /// Net outflow through the four faces of cell `(x, y)`; projection
    /// drives this toward zero.
    pub open spec fn divergence(self, x: int, y: int) -> int {
        self.face(x, y, 1, 0) - self.face(x, y, -1, 0) + self.face(x, y, 0, 1) - self.face(
            x,
            y,
            0,
            -1,
        )
    }

    /// How many of the four neighbors are permeable (Fluid or Clone).
    pub open spec fn sides(self, x: int, y: int) -> int {
        (if self.cell_or_static(x + 1, y).is_fluid_spec() {
            1int
        } else {
            0int
        }) + (if self.cell_or_static(x - 1, y).is_fluid_spec() {
            1int
        } else {
            0int
        }) + (if self.cell_or_static(x, y + 1).is_fluid_spec() {
            1int
        } else {
            0int
        }) + (if self.cell_or_static(x, y - 1).is_fluid_spec() {
            1int
        } else {
            0int
        })
    }

    /// The model with one staggered face sample replaced.
    pub open spec fn with_face(self, x: int, y: int, dx: int, dy: int, val: i64) -> GridModel {
        if dy == 0 {
            GridModel { u: self.u.update(self.u_face_idx(x, y, dx), val), ..self }
        } else {
            GridModel { v: self.v.update(self.v_face_idx(x, y, dy), val), ..self }
        }
    }

    /// The model with all four faces of cell `(x, y)` replaced, in the
    /// order right, left, down, up.
    pub open spec fn with_faces(self, x: int, y: int, r: i64, l: i64, d: i64, up: i64) -> GridModel {
        self.with_face(x, y, 1, 0, r).with_face(x, y, -1, 0, l).with_face(x, y, 0, 1, d).with_face(
            x,
            y,
            0,
            -1,
            up,
        )
    }

    pub open spec fn params_wf(self) -> bool {
        &&& 2 <= self.x <= DMAX as int
        &&& 2 <= self.y <= DMAX as int
        &&& 0 <= self.overrelaxation <= ORMAX as int
        &&& 0 <= self.delta_t <= PMAX as int
        &&& 1 <= self.grid_size <= PMAX as int
        &&& mag(self.source_velocity) <= VMAX as int
        &&& 0 <= self.epsilon <= PMAX as int
        &&& 0 <= self.iters <= 1000000
    }

    pub open spec fn shapes_wf(self) -> bool {
        &&& self.u.len() == self.u_len()
        &&& self.v.len() == self.v_len()
        &&& self.nu.len() == self.u_len()
        &&& self.nv.len() == self.v_len()
        &&& self.vorticity.len() == self.c_len()
        &&& self.element.len() == self.c_len()
    }

    /// Every registry entry is in bounds, classifies as non-Fluid, and no
    /// coordinate is registered twice.
    pub open spec fn registry_wf(self) -> bool {
        &&& forall|k: int|
            0 <= k < self.boundaries.len() ==> self.in_grid(
                (#[trigger] self.boundaries[k]).x as int,
                self.boundaries[k].y as int,
            )
        &&& forall|k: int|
            0 <= k < self.boundaries.len() ==> !((#[trigger] self.cell(
                self.boundaries[k].x as int,
                self.boundaries[k].y as int,
            )) is Fluid)
        &&& forall|j: int, k: int|
            0 <= j < k < self.boundaries.len() ==> #[trigger] self.boundaries[j]
                != #[trigger] self.boundaries[k]
    }

    /// Payload bounds a classification entry must satisfy so that
    /// enforcing it stays within the sample range.
    pub open spec fn cells_wf(self) -> bool {
        forall|i: int| 0 <= i < self.element.len() ==> ele_wf(#[trigger] self.element[i])
    }

    pub open spec fn wf(self) -> bool {
        &&& self.params_wf()
        &&& self.shapes_wf()
        &&& samples_ok(self.u, VMAX as int)
        &&& samples_ok(self.v, VMAX as int)
        &&& samples_ok(self.nu, VMAX as int)
        &&& samples_ok(self.nv, VMAX as int)
        &&& samples_ok(self.vorticity, WMAX as int)
        &&& self.cells_wf()
        &&& self.registry_wf()
    }

    /// Every non-Fluid cell is registered; together with `registry_wf`
    /// this is the registry–classification bijection.
    pub open spec fn registry_complete(self) -> bool {
        forall|x: int, y: int|
            self.in_grid(x, y) && !((#[trigger] self.cell(x, y)) is Fluid)
                ==> self.boundaries.contains(Vector { x: x as usize, y: y as usize })
    }
}

/// All samples of a field bounded in magnitude.
pub open spec fn samples_ok(s: Seq<i64>, bound: int) -> bool {
    forall|i: int| 0 <= i < s.len() ==> mag((#[trigger] s[i]) as int) <= bound
}

/// A Source cell's pinned velocity must fit the sample range; other kinds
/// carry no velocity payload.
pub open spec fn ele_wf(e: Ele) -> bool {
    match e {
        Ele::Source(s) => mag(s.velocity.x as int) <= VMAX as int && mag(s.velocity.y as int)
            <= VMAX as int,
        _ => true,
    }
}

/// Registry well-formedness depends only on the classification array, the
/// dimensions and the registry itself.
pub proof fn lemma_registry_wf_same_cells(m1: GridModel, m2: GridModel)
    requires
        m1.registry_wf(),
        m2.element == m1.element,
        m2.x == m1.x,
        m2.y == m1.y,
        m2.boundaries == m1.boundaries,
    ensures
        m2.registry_wf(),
{
    assert forall|k: int| 0 <= k < m2.boundaries.len() implies m2.in_grid(
        (#[trigger] m2.boundaries[k]).x as int,
        m2.boundaries[k].y as int,
    ) by {
        assert(m1.in_grid(m1.boundaries[k].x as int, m1.boundaries[k].y as int));
    }
    assert forall|k: int| 0 <= k < m2.boundaries.len() implies !((#[trigger] m2.cell(
        m2.boundaries[k].x as int,
        m2.boundaries[k].y as int,
    )) is Fluid) by {
        assert(!(m1.cell(m1.boundaries[k].x as int, m1.boundaries[k].y as int) is Fluid));
        assert(m2.cell(m2.boundaries[k].x as int, m2.boundaries[k].y as int) == m1.cell(
            m1.boundaries[k].x as int,
            m1.boundaries[k].y as int,
        ));
    }
    assert forall|j: int, k: int| 0 <= j < k < m2.boundaries.len() implies #[trigger] m2.boundaries[j]
        != #[trigger] m2.boundaries[k] by {
        assert(m1.boundaries[j] != m1.boundaries[k]);
    }
}

/// Registry completeness likewise carries over between models that agree
/// on classification, dimensions and registry.
pub proof fn lemma_registry_complete_same_cells(m1: GridModel, m2: GridModel)
    requires
        m1.registry_complete(),
        m2.element == m1.element,
        m2.x == m1.x,
        m2.y == m1.y,
        m2.boundaries == m1.boundaries,
    ensures
        m2.registry_complete(),
{
    assert forall|x: int, y: int|
        m2.in_grid(x, y) && !((#[trigger] m2.cell(x, y)) is Fluid) implies m2.boundaries.contains(
        Vector { x: x as usize, y: y as usize },
    ) by {
        assert(m2.cell(x, y) == m1.cell(x, y));
        assert(m1.boundaries.contains(Vector { x: x as usize, y: y as usize }));
    }
}

/// Row-major indices of a `w`-wide, `h`-high grid stay inside the array
/// and inside `usize` range.
pub proof fn lemma_grid_idx(w: int, h: int, x: int, y: int)
    requires
        0 <= x < w,
        0 <= y < h,
        w <= DMAX as int + 1,
        h <= DMAX as int + 1,
    ensures
        0 <= y * w + x < h * w,
        h * w <= 100020001,
{
    assert(0 <= y * w + x < h * w && h * w <= 100020001) by (nonlinear_arith)
        requires
            0 <= x < w,
            0 <= y < h,
            w <= 10001,
            h <= 10001,
    ;
}

/// Row-major indexing is injective: two coordinates sharing an index are
/// the same coordinate.
pub proof fn lemma_grid_idx_inj(w: int, x1: int, y1: int, x2: int, y2: int)
    requires
        0 <= x1 < w,
        0 <= x2 < w,
        0 <= y1,
        0 <= y2,
        y1 * w + x1 == y2 * w + x2,
    ensures
        x1 == x2 && y1 == y2,
{
    assert(x1 == x2 && y1 == y2) by (nonlinear_arith)
        requires
            0 <= x1 < w,
            0 <= x2 < w,
            0 <= y1,
            0 <= y2,
            y1 * w + x1 == y2 * w + x2,
    ;
}

impl GridModel {
    /// What one pass of `enforce` does at a single registry entry: a
    /// Static cell zeroes its four faces, a Source cell pins them to its
    /// stored velocity, a Clone cell copies its master's four faces — all
    /// read before any of its own are written — and a master outside the
    /// grid leaves the state unchanged.
    pub open spec fn enforce_cell(self, x: int, y: int) -> GridModel {
        match self.cell(x, y) {
            Ele::Fluid => self,
            Ele::Static => self.with_faces(x, y, 0, 0, 0, 0),
            Ele::Source(s) => self.with_faces(
                x,
                y,
                s.velocity.x,
                s.velocity.x,
                s.velocity.y,
                s.velocity.y,
            ),
            Ele::Clone(m) => {
                let mx = x + m.master.x;
                let my = y + m.master.y;
                if self.in_grid(mx, my) {
                    self.with_faces(
                        x,
                        y,
                        self.face(mx, my, 1, 0) as i64,
                        self.face(mx, my, -1, 0) as i64,
                        self.face(mx, my, 0, 1) as i64,
                        self.face(mx, my, 0, -1) as i64,
                    )
                } else {
                    self
                }
            },
        }
    }

    /// The state after enforcing the first `k` registry entries in order.
    pub open spec fn enforce_upto(self, k: int) -> GridModel
        decreases k,
    {
        if k <= 0 {
            self
        } else {
            self.enforce_upto(k - 1).enforce_cell(
                self.boundaries[k - 1].x as int,
                self.boundaries[k - 1].y as int,
            )
        }
    }

    /// The face sample of cell `(x, y)` toward `(dx, dy)` after adding a
    /// correction `c`, signed as in the divergence formula.
    pub open spec fn corrected(self, x: int, y: int, dx: int, dy: int, c: int) -> int {
        self.face(x, y, dx, dy) + if dx == 1 || dy == 1 {
            c
        } else {
            -c
        }
    }

    /// Whether adding correction `c` keeps every permeable face of cell
    /// `(x, y)` inside the sample range; a cell that fails this guard is
    /// skipped for the sweep, like one with no permeable neighbor.
    pub open spec fn correction_fits(self, x: int, y: int, c: int) -> bool {
        &&& (self.cell_or_static(x + 1, y).is_fluid_spec() ==> mag(self.corrected(x, y, 1, 0, c))
            <= VMAX as int)
        &&& (self.cell_or_static(x - 1, y).is_fluid_spec() ==> mag(self.corrected(x, y, -1, 0, c))
            <= VMAX as int)
        &&& (self.cell_or_static(x, y + 1).is_fluid_spec() ==> mag(self.corrected(x, y, 0, 1, c))
            <= VMAX as int)
        &&& (self.cell_or_static(x, y - 1).is_fluid_spec() ==> mag(self.corrected(x, y, 0, -1, c))
            <= VMAX as int)
    }

    /// Adds correction `c` on the permeable faces of cell `(x, y)` only,
    /// one face at a time in the order right, left, down, up.
    pub open spec fn modify_adjacent_spec(self, x: int, y: int, c: int) -> GridModel {
        let m1 = if self.cell_or_static(x + 1, y).is_fluid_spec() {
            self.with_face(x, y, 1, 0, (self.face(x, y, 1, 0) + c) as i64)
        } else {
            self
        };
        let m2 = if self.cell_or_static(x - 1, y).is_fluid_spec() {
            m1.with_face(x, y, -1, 0, (m1.face(x, y, -1, 0) - c) as i64)
        } else {
            m1
        };
        let m3 = if self.cell_or_static(x, y + 1).is_fluid_spec() {
            m2.with_face(x, y, 0, 1, (m2.face(x, y, 0, 1) + c) as i64)
        } else {
            m2
        };
        let m4 = if self.cell_or_static(x, y - 1).is_fluid_spec() {
            m3.with_face(x, y, 0, -1, (m3.face(x, y, 0, -1) - c) as i64)
        } else {
            m3
        };
        m4
    }

    /// One Gauss-Seidel visit to cell `(x, y)`: a non-Fluid cell, a fully
    /// enclosed cell, or one whose correction would leave the sample
    /// range, is skipped; otherwise the correction
    /// `-divergence / sides * overrelaxation` (truncating division) is
    /// applied to the permeable faces.
    pub open spec fn project_cell(self, x: int, y: int) -> GridModel {
        if !(self.cell(x, y) is Fluid) {
            self
        } else {
            let div = self.divergence(x, y);
            let s = self.sides(x, y);
            if s == 0 {
                self
            } else {
                let c = tdiv(-(div * self.overrelaxation), s * (SCALE as int));
                if self.correction_fits(x, y, c) {
                    self.modify_adjacent_spec(x, y, c)
                } else {
                    self
                }
            }
        }
    }

    /// The sweep state after visiting cells `(0..xs, y)` of one row.
    pub open spec fn project_row(self, y: int, xs: int) -> GridModel
        decreases xs,
    {
        if xs <= 0 {
            self
        } else {
            self.project_row(y, xs - 1).project_cell(xs - 1, y)
        }
    }

    /// The sweep state after visiting rows `0..ys` completely, in
    /// row-major order.
    pub open spec fn project_pass(self, ys: int) -> GridModel
        decreases ys,
    {
        if ys <= 0 {
            self
        } else {
            let prev = self.project_pass(ys - 1);
            prev.project_row(ys - 1, self.x)
        }
    }

    /// The state after `k` full Gauss-Seidel sweeps.
    pub open spec fn project_all(self, k: int) -> GridModel
        decreases k,
    {
        if k <= 0 {
            self
        } else {
            let prev = self.project_all(k - 1);
            prev.project_pass(self.y)
        }
    }

    /// The solver parameters agree between the two models.
    pub open spec fn same_params(self, m2: GridModel) -> bool {
        &&& m2.overrelaxation == self.overrelaxation
        &&& m2.iters == self.iters
        &&& m2.delta_t == self.delta_t
        &&& m2.source_velocity == self.source_velocity
        &&& m2.grid_size == self.grid_size
        &&& m2.epsilon == self.epsilon
    }

    /// Everything but classification and registry agrees between the two
    /// models.
    pub open spec fn same_but_cells(self, m2: GridModel) -> bool {
        &&& m2.x == self.x
        &&& m2.y == self.y
        &&& m2.u == self.u
        &&& m2.v == self.v
        &&& m2.nu == self.nu
        &&& m2.nv == self.nv
        &&& m2.vorticity == self.vorticity
        &&& m2.overrelaxation == self.overrelaxation
        &&& m2.iters == self.iters
        &&& m2.delta_t == self.delta_t
        &&& m2.source_velocity == self.source_velocity
        &&& m2.grid_size == self.grid_size
        &&& m2.epsilon == self.epsilon
    }

    /// One staggered sample of the chosen field.
    pub open spec fn sample(self, f: Field, x: int, y: int) -> int {
        if f is U {
            self.u_at(x, y)
        } else {
            self.v_at(x, y)
        }
    }

    /// Bilinear interpolation of a staggered field at the continuous
    /// position `(px, py)` in ticks, after shifting by the field's
    /// half-cell offset and clamping into the grid.
    pub open spec fn interp_at(self, px: int, py: int, f: Field) -> int {
        let ox = if f is U {
            0int
        } else {
            500int
        };
        let oy = if f is U {
            500int
        } else {
            0int
        };
        let cx = clamp_int(px - ox, 0, (self.x - 1) * 1000);
        let cy = clamp_int(py - oy, 0, (self.y - 1) * 1000);
        let x0 = cx / 1000;
        let y0 = cy / 1000;
        let x1 = min_int(x0 + 1, self.x - 1);
        let y1 = min_int(y0 + 1, self.y - 1);
        let tx = cx - x0 * 1000;
        let ty = cy - y0 * 1000;
        let sx = 1000 - tx;
        let sy = 1000 - ty;
        tdiv(
            sx * sy * self.sample(f, x0, y0) + tx * sy * self.sample(f, x1, y0) + tx * ty
                * self.sample(f, x1, y1) + sx * ty * self.sample(f, x0, y1),
            1000000,
        )
    }

    /// Whether the `u` sample at `(x, y)` is advected: interior for the
    /// staggered layout and not adjacent to a Static cell.
    pub open spec fn u_advect_active(self, x: int, y: int) -> bool {
        &&& 1 <= x < self.x
        &&& 1 <= y < self.y - 1
        &&& !self.cell(x - 1, y).is_static_spec()
        &&& !self.cell(x, y).is_static_spec()
    }

    /// Whether the `v` sample at `(x, y)` is advected.
    pub open spec fn v_advect_active(self, x: int, y: int) -> bool {
        &&& 1 <= x < self.x - 1
        &&& 1 <= y < self.y
        &&& !self.cell(x, y - 1).is_static_spec()
        &&& !self.cell(x, y).is_static_spec()
    }

    /// Four-point average of `v` around the `u` sample at `(x, y)`.
    pub open spec fn average_v_spec(self, x: int, y: int) -> int {
        tdiv(
            self.v_at(x - 1, y + 1) + self.v_at(x, y + 1) + self.v_at(x - 1, y) + self.v_at(x, y),
            4,
        )
    }

    /// Four-point average of `u` around the `v` sample at `(x, y)`.
    pub open spec fn average_u_spec(self, x: int, y: int) -> int {
        tdiv(
            self.u_at(x, y - 1) + self.u_at(x + 1, y - 1) + self.u_at(x, y) + self.u_at(x + 1, y),
            4,
        )
    }

    /// The semi-Lagrangian value of an active `u` sample: its position
    /// backtraced by `velocity * delta_t / grid_size`, then bilinearly
    /// resampled.
    pub open spec fn backtraced_u(self, x: int, y: int) -> int {
        let u_loc = self.u_at(x, y);
        let v_avg = self.average_v_spec(x, y);
        let px = x * 1000 - tdiv(u_loc * self.delta_t, self.grid_size);
        let py = y * 1000 + 500 - tdiv(v_avg * self.delta_t, self.grid_size);
        self.interp_at(px, py, Field::U)
    }

    /// The semi-Lagrangian value of an active `v` sample.
    pub open spec fn backtraced_v(self, x: int, y: int) -> int {
        let u_avg = self.average_u_spec(x, y);
        let v_loc = self.v_at(x, y);
        let px = x * 1000 + 500 - tdiv(u_avg * self.delta_t, self.grid_size);
        let py = y * 1000 - tdiv(v_loc * self.delta_t, self.grid_size);
        self.interp_at(px, py, Field::V)
    }

    /// The scratch value for `u` slot `i` after one advection sweep: the
    /// backtraced value for active samples, the old scratch value for the
    /// rest.
    pub open spec fn advected_nu_at(self, i: int) -> i64 {
        let x = i % (self.x + 1);
        let y = i / (self.x + 1);
        if self.u_advect_active(x, y) {
            self.backtraced_u(x, y) as i64
        } else {
            self.nu[i]
        }
    }

    /// The scratch value for `v` slot `i` after one advection sweep.
    pub open spec fn advected_nv_at(self, i: int) -> i64 {
        let x = i % self.x;
        let y = i / self.x;
        if self.v_advect_active(x, y) {
            self.backtraced_v(x, y) as i64
        } else {
            self.nv[i]
        }
    }

    /// One full advection sweep: every active sample is backtraced into
    /// the scratch arrays, which then replace the velocity arrays.
    pub open spec fn advect_spec(self) -> GridModel {
        let nu2 = Seq::new(self.nu.len(), |i: int| self.advected_nu_at(i));
        let nv2 = Seq::new(self.nv.len(), |i: int| self.advected_nv_at(i));
        GridModel { u: nu2, v: nv2, nu: nu2, nv: nv2, ..self }
    }

    /// The state after `k` consecutive advection sweeps.
    pub open spec fn advect_iter(self, k: int) -> GridModel
        decreases k,
    {
        if k <= 0 {
            self
        } else {
            self.advect_iter(k - 1).advect_spec()
        }
    }

    /// The vorticity sample stored for cell `(x, y)`.
    pub open spec fn w_at(self, x: int, y: int) -> int {
        self.vorticity[self.c_idx(x, y)] as int
    }

    /// Central-difference curl of the velocity field at an interior cell.
    pub open spec fn vorticity_at(self, x: int, y: int) -> int {
        tdiv(self.v_at(x + 1, y) - self.v_at(x - 1, y), 2) - tdiv(
            self.u_at(x, y + 1) - self.u_at(x, y - 1),
            2,
        )
    }

    /// The vorticity array entry for slot `i` after one recomputation:
    /// the curl for interior cells, the old value on the outermost ring,
    /// where central differences have no data.
    pub open spec fn vorticity_field_at(self, i: int) -> i64 {
        let x = i % self.x;
        let y = i / self.x;
        if 1 <= x < self.x - 1 && 1 <= y < self.y - 1 {
            self.vorticity_at(x, y) as i64
        } else {
            self.vorticity[i]
        }
    }

    /// The model with the vorticity field recomputed from the velocity
    /// field.
    pub open spec fn compute_vorticity_spec(self) -> GridModel {
        GridModel {
            vorticity: Seq::new(self.vorticity.len(), |i: int| self.vorticity_field_at(i)),
            ..self
        }
    }

    /// Central-difference gradient of the vorticity magnitude field.
    pub open spec fn grad_wx(self, x: int, y: int) -> int {
        tdiv(mag(self.w_at(x + 1, y)) - mag(self.w_at(x - 1, y)), 2)
    }

    pub open spec fn grad_wy(self, x: int, y: int) -> int {
        tdiv(mag(self.w_at(x, y + 1)) - mag(self.w_at(x, y - 1)), 2)
    }

    /// The confinement force injected at cell `(x, y)`, already scaled by
    /// the timestep: the gradient of the vorticity magnitude is
    /// normalized, turned
    /// perpendicular, and scaled by the confinement coefficient and the
    /// local vorticity.
    pub open spec fn force_delta(self, gwx: int, gwy: int, mg: int, x: int, y: int) -> (int, int) {
        let nxn = tdiv(gwx * 1000, mg);
        let nyn = tdiv(gwy * 1000, mg);
        let w0 = self.w_at(x, y);
        let fx = tdiv(self.epsilon * nyn * w0, 1000000);
        let fy = -tdiv(self.epsilon * nxn * w0, 1000000);
        (tdiv(fx * self.delta_t, 1000), tdiv(fy * self.delta_t, 1000))
    }

    /// The model after injecting the confinement force at `(x, y)` into
    /// the two face samples stored at that cell, skipped whole if either
    /// sum would leave the sample range.
    pub open spec fn force_applied(self, gwx: int, gwy: int, mg: int, x: int, y: int) -> GridModel {
        let d = self.force_delta(gwx, gwy, mg, x, y);
        let nu_ = self.u_at(x, y) + d.0;
        let nv_ = self.v_at(x, y) + d.1;
        if mag(nu_) <= VMAX as int && mag(nv_) <= VMAX as int {
            GridModel {
                u: self.u.update(self.u_idx(x, y), nu_ as i64),
                v: self.v.update(self.v_idx(x, y), nv_ as i64),
                ..self
            }
        } else {
            self
        }
    }

    /// One confinement visit to an interior cell: cells whose vorticity
    /// gradient has magnitude zero are skipped.
    pub open spec fn confine_cell(self, x: int, y: int) -> GridModel {
        let gx = self.grad_wx(x, y);
        let gy = self.grad_wy(x, y);
        let mg = sqrt_floor((gx * gx + gy * gy) as nat) as int;
        if mg > 0 {
            self.force_applied(gx, gy, mg, x, y)
        } else {
            self
        }
    }

    /// The confinement state after visiting cells `(1..xs, y)`.
    pub open spec fn confine_row(self, y: int, xs: int) -> GridModel
        decreases xs,
    {
        if xs <= 1 {
            self
        } else {
            self.confine_row(y, xs - 1).confine_cell(xs - 1, y)
        }
    }

    /// The confinement state after visiting rows `1..ys` completely.
    pub open spec fn confine_pass(self, ys: int) -> GridModel
        decreases ys,
    {
        if ys <= 1 {
            self
        } else {
            let prev = self.confine_pass(ys - 1);
            prev.confine_row(ys - 1, self.x - 1)
        }
    }

    /// One full vorticity-confinement step: recompute the vorticity
    /// field, then inject the confinement force at every interior cell.
    pub open spec fn confine_spec(self) -> GridModel {
        self.compute_vorticity_spec().confine_pass(self.y - 1)
    }

    /// The state after placing `fill` at cells `(0..k, ry)` of one row,
    /// in order.
    pub open spec fn fill_row_upto(self, ry: int, fill: Ele, k: int) -> GridModel
        decreases k,
    {
        if k <= 0 {
            self
        } else {
            self.fill_row_upto(ry, fill, k - 1).place_cell(k - 1, ry, fill)
        }
    }

    /// The state after placing `fill` at cells `(cx, 0..k)` of one
    /// column, in order.
    pub open spec fn fill_col_upto(self, cx: int, fill: Ele, k: int) -> GridModel
        decreases k,
    {
        if k <= 0 {
            self
        } else {
            self.fill_col_upto(cx, fill, k - 1).place_cell(cx, k - 1, fill)
        }
    }

    /// The state after placing the left column's wall and inlet segment
    /// at cells `(0, 0..k)`, in order.
    pub open spec fn fill_inlet_upto(self, k: int) -> GridModel
        decreases k,
    {
        if k <= 0 {
            self
        } else {
            self.fill_inlet_upto(k - 1).place_cell(
                0,
                k - 1,
                if in_source_range(self.y, k - 1) {
                    Ele::Source(
                        Source { velocity: Vector { x: self.source_velocity as i64, y: 0i64 } },
                    )
                } else {
                    Ele::Static
                },
            )
        }
    }

    /// The state after placing the circular obstacle over cells
    /// `(0..k, ry)` of one row.
    pub open spec fn circle_row_upto(self, cx: int, cy: int, r: int, ry: int, k: int) -> GridModel
        decreases k,
    {
        if k <= 0 {
            self
        } else {
            let prev = self.circle_row_upto(cx, cy, r, ry, k - 1);
            if in_circle(cx, cy, r, k - 1, ry) {
                prev.place_cell(k - 1, ry, Ele::Static)
            } else {
                prev
            }
        }
    }

    /// The state after placing the circular obstacle over rows `0..k`.
    pub open spec fn circle_upto(self, cx: int, cy: int, r: int, k: int) -> GridModel
        decreases k,
    {
        if k <= 0 {
            self
        } else {
            let prev = self.circle_upto(cx, cy, r, k - 1);
            prev.circle_row_upto(cx, cy, r, k - 1, self.x)
        }
    }

    /// The model with every field reallocated to zero, every cell Fluid,
    /// and the registry empty.
    pub open spec fn zeroed(self) -> GridModel {
        GridModel {
            u: Seq::new(self.u_len() as nat, |i: int| 0i64),
            v: Seq::new(self.v_len() as nat, |i: int| 0i64),
            nu: Seq::new(self.u_len() as nat, |i: int| 0i64),
            nv: Seq::new(self.v_len() as nat, |i: int| 0i64),
            vorticity: Seq::new(self.c_len() as nat, |i: int| 0i64),
            element: Seq::new(self.c_len() as nat, |i: int| Ele::Fluid),
            boundaries: Seq::empty(),
            ..self
        }
    }

    /// The canonical boundary layout applied in full and enforced once.
    pub open spec fn layout_spec(self) -> GridModel {
        let s1 = self.fill_col_upto(
            self.x - 1,
            Ele::Clone(Mirror { master: Vector { x: -1isize, y: 0isize } }),
            self.y,
        );
        let s2 = s1.fill_row_upto(0, Ele::Static, self.x);
        let s3 = s2.fill_row_upto(self.y - 1, Ele::Static, self.x);
        let s4 = s3.fill_inlet_upto(self.y);
        let s5 = s4.circle_upto(self.x / 5, self.y / 2, self.y / 11, self.y);
        s5.enforce_upto(s5.boundaries.len() as int)
    }

    /// The registry after placing `cell` at `(x, y)`: a non-Fluid kind is
    /// registered once, the Fluid kind deregisters the coordinate.
    pub open spec fn registry_after_place(self, x: int, y: int, cell: Ele) -> Seq<Vector<usize>> {
        let c = Vector { x: x as usize, y: y as usize };
        if cell is Fluid {
            if self.boundaries.contains(c) {
                self.boundaries.remove(
                    choose|i: int| 0 <= i < self.boundaries.len() && self.boundaries[i] == c,
                )
            } else {
                self.boundaries
            }
        } else {
            if self.boundaries.contains(c) {
                self.boundaries
            } else {
                self.boundaries.push(c)
            }
        }
    }

    /// The whole model after placing `cell` at `(x, y)`.
    pub open spec fn place_cell(self, x: int, y: int, cell: Ele) -> GridModel {
        GridModel {
            element: self.element.update(self.c_idx(x, y), cell),
            boundaries: self.registry_after_place(x, y, cell),
            ..self
        }
    }
}

/// When the registry holds `c` at position `k` and registers nothing
/// twice, deregistering `c` removes exactly position `k`.
pub proof fn lemma_registry_after_place_is_remove(m: GridModel, x: int, y: int, cell: Ele, k: int)
    requires
        m.registry_wf(),
        cell is Fluid,
        0 <= k < m.boundaries.len(),
        m.boundaries[k] == (Vector { x: x as usize, y: y as usize }),
    ensures
        m.registry_after_place(x, y, cell) == m.boundaries.remove(k),
{
    let c = Vector { x: x as usize, y: y as usize };
    assert(m.boundaries.contains(c)) by {
        assert(m.boundaries[k] == c);
    }
    let i = choose|i: int| 0 <= i < m.boundaries.len() && m.boundaries[i] == c;
    if i != k {
        if i < k {
            assert(m.boundaries[i] != m.boundaries[k]);
        } else {
            assert(m.boundaries[k] != m.boundaries[i]);
        }
    }
    assert(i == k);
}

/// Placing a kind at an in-grid cell keeps the invariant and the
/// registry–classification bijection.
pub proof fn lemma_place_cell_props(m: GridModel, x: int, y: int, cell: Ele)
    requires
        m.wf(),
        m.in_grid(x, y),
        ele_wf(cell),
    ensures
        m.place_cell(x, y, cell).wf(),
        m.registry_complete() ==> m.place_cell(x, y, cell).registry_complete(),
        m.place_cell(x, y, cell).cell(x, y) == cell,
{
    let c = Vector { x: x as usize, y: y as usize };
    let m2 = m.place_cell(x, y, cell);
    let b = m.boundaries;
    let b2 = m2.boundaries;
    lemma_grid_idx(m.x, m.y, x, y);
    assert(m2.element.len() == m.element.len());
    assert forall|x2: int, y2: int| m.in_grid(x2, y2) implies #[trigger] m2.cell(x2, y2) == (if x2
        == x && y2 == y {
        cell
    } else {
        m.cell(x2, y2)
    }) by {
        lemma_grid_idx(m.x, m.y, x2, y2);
        if !(x2 == x && y2 == y) {
            if m.c_idx(x2, y2) == m.c_idx(x, y) {
                lemma_grid_idx_inj(m.x, x2, y2, x, y);
            }
            assert(m2.element[m.c_idx(x2, y2)] == m.element[m.c_idx(x2, y2)]);
        }
    }
    assert forall|i: int| 0 <= i < m2.element.len() implies ele_wf(#[trigger] m2.element[i]) by {
        if i != m.c_idx(x, y) {
            assert(m2.element[i] == m.element[i]);
        }
    }
    // a registry entry other than `c` names a cell other than `(x, y)`,
    // so its classification is untouched
    assert forall|e: Vector<usize>| m.in_grid(e.x as int, e.y as int) && e != c implies !(e.x as int
        == x && e.y as int == y) by {
        if e.x as int == x && e.y as int == y {
            assert(e.x == x as usize && e.y == y as usize);
        }
    }
    if cell is Fluid {
        if b.contains(c) {
            let k = choose|i: int| 0 <= i < b.len() && b[i] == c;
            assert(0 <= k < b.len() && b[k] == c);
            assert(b2 == b.remove(k));
            b.remove_ensures(k);
            assert forall|j: int| 0 <= j < b2.len() implies m2.in_grid(
                (#[trigger] b2[j]).x as int,
                b2[j].y as int,
            ) && !(m2.cell(b2[j].x as int, b2[j].y as int) is Fluid) by {
                let jj: int = if j < k {
                    j
                } else {
                    j + 1
                };
                assert(b2[j] == b[jj]);
                assert(m.in_grid(b[jj].x as int, b[jj].y as int));
                assert(!(m.cell(b[jj].x as int, b[jj].y as int) is Fluid));
                if jj < k {
                    assert(b[jj] != b[k]);
                } else {
                    assert(b[k] != b[jj]);
                }
                assert(!(b[jj].x as int == x && b[jj].y as int == y));
            }
            assert forall|j1: int, j2: int| 0 <= j1 < j2 < b2.len() implies #[trigger] b2[j1]
                != #[trigger] b2[j2] by {
                let jj1: int = if j1 < k {
                    j1
                } else {
                    j1 + 1
                };
                let jj2: int = if j2 < k {
                    j2
                } else {
                    j2 + 1
                };
                assert(b2[j1] == b[jj1] && b2[j2] == b[jj2]);
                assert(b[jj1] != b[jj2]);
            }
            if m.registry_complete() {
                assert forall|x2: int, y2: int|
                    m2.in_grid(x2, y2) && !((#[trigger] m2.cell(x2, y2)) is Fluid) implies m2
                    .boundaries.contains(Vector { x: x2 as usize, y: y2 as usize }) by {
                    let c2 = Vector { x: x2 as usize, y: y2 as usize };
                    assert(!(x2 == x && y2 == y));
                    assert(m.cell(x2, y2) == m2.cell(x2, y2));
                    assert(b.contains(c2));
                    let i2 = choose|i: int| 0 <= i < b.len() && b[i] == c2;
                    assert(c2.x as int == x2 && c2.y as int == y2);
                    assert(c2 != c) by {
                        if c2 == c {
                            assert(x2 == x && y2 == y);
                        }
                    }
                    assert(i2 != k);
                    let j2: int = if i2 < k {
                        i2
                    } else {
                        i2 - 1
                    };
                    assert(b2[j2] == b[i2]);
                    assert(b2.contains(c2)) by {
                        assert(0 <= j2 < b2.len() && b2[j2] == c2);
                    }
                }
            }
        } else {
            assert(b2 == b);
            assert forall|j: int| 0 <= j < b2.len() implies !(#[trigger] m2.cell(
                b2[j].x as int,
                b2[j].y as int,
            ) is Fluid) by {
                assert(b[j] != c) by {
                    if b[j] == c {
                        assert(b.contains(c));
                    }
                }
                assert(!(b[j].x as int == x && b[j].y as int == y));
                assert(!(m.cell(b[j].x as int, b[j].y as int) is Fluid));
            }
            if m.registry_complete() {
                assert forall|x2: int, y2: int|
                    m2.in_grid(x2, y2) && !((#[trigger] m2.cell(x2, y2)) is Fluid) implies m2
                    .boundaries.contains(Vector { x: x2 as usize, y: y2 as usize }) by {
                    assert(!(x2 == x && y2 == y));
                    assert(m.cell(x2, y2) == m2.cell(x2, y2));
                }
            }
        }
    } else {
        if b.contains(c) {
            assert(b2 == b);
            assert forall|j: int| 0 <= j < b2.len() implies !(#[trigger] m2.cell(
                b2[j].x as int,
                b2[j].y as int,
            ) is Fluid) by {
                if b[j] == c {
                    assert(m2.cell(b[j].x as int, b[j].y as int) == cell);
                } else {
                    assert(!(b[j].x as int == x && b[j].y as int == y));
                    assert(!(m.cell(b[j].x as int, b[j].y as int) is Fluid));
                }
            }
            if m.registry_complete() {
                assert forall|x2: int, y2: int|
                    m2.in_grid(x2, y2) && !((#[trigger] m2.cell(x2, y2)) is Fluid) implies m2
                    .boundaries.contains(Vector { x: x2 as usize, y: y2 as usize }) by {
                    if x2 == x && y2 == y {
                        assert(b.contains(c));
                    } else {
                        assert(m.cell(x2, y2) == m2.cell(x2, y2));
                    }
                }
            }
        } else {
            assert(b2 == b.push(c));
            assert forall|j: int| 0 <= j < b2.len() implies m2.in_grid(
                (#[trigger] b2[j]).x as int,
                b2[j].y as int,
            ) && !(m2.cell(b2[j].x as int, b2[j].y as int) is Fluid) by {
                if j < b.len() {
                    assert(b2[j] == b[j]);
                    assert(b[j] != c) by {
                        if b[j] == c {
                            assert(b.contains(c));
                        }
                    }
                    assert(!(b[j].x as int == x && b[j].y as int == y));
                    assert(!(m.cell(b[j].x as int, b[j].y as int) is Fluid));
                } else {
                    assert(b2[j] == c);
                    assert(m2.cell(x, y) == cell);
                }
            }
            assert forall|j1: int, j2: int| 0 <= j1 < j2 < b2.len() implies #[trigger] b2[j1]
                != #[trigger] b2[j2] by {
                if j2 < b.len() {
                    assert(b2[j1] == b[j1] && b2[j2] == b[j2]);
                } else {
                    assert(b2[j2] == c && b2[j1] == b[j1]);
                    assert(b[j1] != c) by {
                        if b[j1] == c {
                            assert(b.contains(c));
                        }
                    }
                }
            }
            if m.registry_complete() {
                assert forall|x2: int, y2: int|
                    m2.in_grid(x2, y2) && !((#[trigger] m2.cell(x2, y2)) is Fluid) implies m2
                    .boundaries.contains(Vector { x: x2 as usize, y: y2 as usize }) by {
                    let c2 = Vector { x: x2 as usize, y: y2 as usize };
                    if x2 == x && y2 == y {
                        assert(b2[b.len() as int] == c);
                        assert(c2 == c);
                    } else {
                        assert(m.cell(x2, y2) == m2.cell(x2, y2));
                        assert(b.contains(c2));
                        let i2 = choose|i: int| 0 <= i < b.len() && b[i] == c2;
                        assert(b2[i2] == c2);
                    }
                }
            }
        }
    }
}

/// What each cell classifies as after a placement: the placed cell takes
/// the new kind, every other cell keeps its old one.
pub proof fn lemma_place_cell_lookup(m: GridModel, x: int, y: int, cell: Ele, x2: int, y2: int)
    requires
        m.wf(),
        m.in_grid(x, y),
        m.in_grid(x2, y2),
    ensures
        m.place_cell(x, y, cell).cell(x2, y2) == (if x2 == x && y2 == y {
            cell
        } else {
            m.cell(x2, y2)
        }),
{
    lemma_grid_idx(m.x, m.y, x, y);
    lemma_grid_idx(m.x, m.y, x2, y2);
    if !(x2 == x && y2 == y) {
        if m.c_idx(x2, y2) == m.c_idx(x, y) {
            lemma_grid_idx_inj(m.x, x2, y2, x, y);
        }
        assert(m.place_cell(x, y, cell).element[m.c_idx(x2, y2)] == m.element[m.c_idx(x2, y2)]);
    }
}

/// Whether cell `(a, b)` lies strictly inside the circle of radius `r`
/// around `(cx, cy)`.
pub open spec fn in_circle(cx: int, cy: int, r: int, a: int, b: int) -> bool {
    (a - cx) * (a - cx) + (b - cy) * (b - cy) < r * r
}

/// Whether row `b` belongs to the inlet segment of the left column.
pub open spec fn in_source_range(yy: int, b: int) -> bool {
    yy * 5 / 11 < b && b < yy * 6 / 11
}

/// What the canonical boundary layout leaves at `(a, b)`, placed over the
/// classification of `m0`: a circular Static obstacle, a left column of
/// Static wall with an inlet Source segment, Static top and bottom rows,
/// and a mirroring right column.  Later layers placed over earlier ones.
pub open spec fn layered_kind(m0: GridModel, a: int, b: int) -> Ele {
    if in_circle(m0.x / 5, m0.y / 2, m0.y / 11, a, b) {
        Ele::Static
    } else if a == 0 {
        if in_source_range(m0.y, b) {
            Ele::Source(
                Source { velocity: Vector { x: m0.source_velocity as i64, y: 0i64 } },
            )
        } else {
            Ele::Static
        }
    } else if b == 0 || b == m0.y - 1 {
        Ele::Static
    } else if a == m0.x - 1 {
        Ele::Clone(Mirror { master: Vector { x: -1isize, y: 0isize } })
    } else {
        m0.cell(a, b)
    }
}

/// `layered_kind` over an all-Fluid grid.
pub open spec fn canonical_kind(xx: int, yy: int, sv: int, a: int, b: int) -> Ele {
    if in_circle(xx / 5, yy / 2, yy / 11, a, b) {
        Ele::Static
    } else if a == 0 {
        if in_source_range(yy, b) {
            Ele::Source(Source { velocity: Vector { x: sv as i64, y: 0i64 } })
        } else {
            Ele::Static
        }
    } else if b == 0 || b == yy - 1 {
        Ele::Static
    } else if a == xx - 1 {
        Ele::Clone(Mirror { master: Vector { x: -1isize, y: 0isize } })
    } else {
        Ele::Fluid
    }
}

/// Writing one bounded face sample of an in-grid cell preserves the
/// invariant and touches nothing but that sample's field.
pub proof fn lemma_with_face_wf(m: GridModel, x: int, y: int, dx: int, dy: int, val: i64)
    requires
        m.wf(),
        m.in_grid(x, y),
        dir_ok(dx, dy),
        mag(val as int) <= VMAX as int,
    ensures
        m.with_face(x, y, dx, dy, val).wf(),
        m.with_face(x, y, dx, dy, val) == if dy == 0 {
            GridModel { u: m.u.update(m.u_face_idx(x, y, dx), val), ..m }
        } else {
            GridModel { v: m.v.update(m.v_face_idx(x, y, dy), val), ..m }
        },
{
    let m2 = m.with_face(x, y, dx, dy, val);
    if dy == 0 {
        let fx = if dx == 1 {
            x + 1
        } else {
            x
        };
        lemma_grid_idx(m.x + 1, m.y, fx, y);
        assert forall|i: int| 0 <= i < m2.u.len() implies mag((#[trigger] m2.u[i]) as int)
            <= VMAX as int by {
            if i != m.u_face_idx(x, y, dx) {
                assert(m2.u[i] == m.u[i]);
            }
        }
    } else {
        let fy = if dy == 1 {
            y + 1
        } else {
            y
        };
        lemma_grid_idx(m.x, m.y + 1, x, fy);
        assert forall|i: int| 0 <= i < m2.v.len() implies mag((#[trigger] m2.v[i]) as int)
            <= VMAX as int by {
            if i != m.v_face_idx(x, y, dy) {
                assert(m2.v[i] == m.v[i]);
            }
        }
    }
    lemma_registry_wf_same_cells(m, m2);
}

/// Writing all four bounded faces of an in-grid cell preserves the
/// invariant.
pub proof fn lemma_with_faces_wf(m: GridModel, x: int, y: int, r: i64, l: i64, d: i64, up: i64)
    requires
        m.wf(),
        m.in_grid(x, y),
        mag(r as int) <= VMAX as int,
        mag(l as int) <= VMAX as int,
        mag(d as int) <= VMAX as int,
        mag(up as int) <= VMAX as int,
    ensures
        m.with_faces(x, y, r, l, d, up).wf(),
        m.with_faces(x, y, r, l, d, up).element == m.element,
        m.with_faces(x, y, r, l, d, up).boundaries == m.boundaries,
        m.with_faces(x, y, r, l, d, up).nu == m.nu,
        m.with_faces(x, y, r, l, d, up).nv == m.nv,
        m.with_faces(x, y, r, l, d, up).vorticity == m.vorticity,
        m.with_faces(x, y, r, l, d, up).x == m.x,
        m.with_faces(x, y, r, l, d, up).y == m.y,
        m.same_params(m.with_faces(x, y, r, l, d, up)),
{
    lemma_with_face_wf(m, x, y, 1, 0, r);
    let m1 = m.with_face(x, y, 1, 0, r);
    lemma_with_face_wf(m1, x, y, -1, 0, l);
    let m2 = m1.with_face(x, y, -1, 0, l);
    lemma_with_face_wf(m2, x, y, 0, 1, d);
    let m3 = m2.with_face(x, y, 0, 1, d);
    lemma_with_face_wf(m3, x, y, 0, -1, up);
}

/// Writing one face of a cell changes that face alone; the cell's three
/// other faces read unchanged.
pub proof fn lemma_with_face_reads(m: GridModel, x: int, y: int, dx: int, dy: int, val: i64)
    requires
        m.wf(),
        m.in_grid(x, y),
        dir_ok(dx, dy),
    ensures
        m.with_face(x, y, dx, dy, val).face(x, y, dx, dy) == val as int,
        !(dx == 1 && dy == 0) ==> m.with_face(x, y, dx, dy, val).face(x, y, 1, 0) == m.face(
            x,
            y,
            1,
            0,
        ),
        !(dx == -1 && dy == 0) ==> m.with_face(x, y, dx, dy, val).face(x, y, -1, 0) == m.face(
            x,
            y,
            -1,
            0,
        ),
        !(dx == 0 && dy == 1) ==> m.with_face(x, y, dx, dy, val).face(x, y, 0, 1) == m.face(
            x,
            y,
            0,
            1,
        ),
        !(dx == 0 && dy == -1) ==> m.with_face(x, y, dx, dy, val).face(x, y, 0, -1) == m.face(
            x,
            y,
            0,
            -1,
        ),
        m.with_face(x, y, dx, dy, val).element == m.element,
        m.with_face(x, y, dx, dy, val).x == m.x,
        m.with_face(x, y, dx, dy, val).y == m.y,
{
    lemma_grid_idx(m.x + 1, m.y, x, y);
    lemma_grid_idx(m.x + 1, m.y, x + 1, y);
    lemma_grid_idx(m.x, m.y + 1, x, y);
    lemma_grid_idx(m.x, m.y + 1, x, y + 1);
    if m.u_idx(x + 1, y) == m.u_idx(x, y) {
        lemma_grid_idx_inj(m.x + 1, x + 1, y, x, y);
    }
    if m.v_idx(x, y + 1) == m.v_idx(x, y) {
        lemma_grid_idx_inj(m.x, x, y + 1, x, y);
    }
}

/// What `modify_adjacent` leaves on the four faces of the corrected
/// cell: the correction added with the divergence sign on each permeable
/// face, the other faces untouched.
pub proof fn lemma_modify_adjacent_faces(m: GridModel, x: int, y: int, c: int)
    requires
        m.wf(),
        m.in_grid(x, y),
        m.correction_fits(x, y, c),
    ensures
        m.modify_adjacent_spec(x, y, c).wf(),
        m.modify_adjacent_spec(x, y, c).element == m.element,
        m.modify_adjacent_spec(x, y, c).boundaries == m.boundaries,
        m.modify_adjacent_spec(x, y, c).nu == m.nu,
        m.modify_adjacent_spec(x, y, c).nv == m.nv,
        m.modify_adjacent_spec(x, y, c).vorticity == m.vorticity,
        m.modify_adjacent_spec(x, y, c).x == m.x,
        m.modify_adjacent_spec(x, y, c).y == m.y,
        m.same_params(m.modify_adjacent_spec(x, y, c)),
        forall|dx: int, dy: int|
            dir_ok(dx, dy) ==> #[trigger] m.modify_adjacent_spec(x, y, c).face(x, y, dx, dy) == (
            if m.cell_or_static(x + dx, y + dy).is_fluid_spec() {
                m.corrected(x, y, dx, dy, c)
            } else {
                m.face(x, y, dx, dy)
            }),
{
    let pr = m.cell_or_static(x + 1, y).is_fluid_spec();
    let pl = m.cell_or_static(x - 1, y).is_fluid_spec();
    let pd = m.cell_or_static(x, y + 1).is_fluid_spec();
    let pu = m.cell_or_static(x, y - 1).is_fluid_spec();
    let m1 = if pr {
        m.with_face(x, y, 1, 0, (m.face(x, y, 1, 0) + c) as i64)
    } else {
        m
    };
    if pr {
        lemma_with_face_wf(m, x, y, 1, 0, (m.face(x, y, 1, 0) + c) as i64);
        lemma_with_face_reads(m, x, y, 1, 0, (m.face(x, y, 1, 0) + c) as i64);
        assert(mag(m.corrected(x, y, 1, 0, c)) <= VMAX as int);
        assert(m1.face(x, y, 1, 0) == m.corrected(x, y, 1, 0, c));
    }
    let m2 = if pl {
        m1.with_face(x, y, -1, 0, (m1.face(x, y, -1, 0) - c) as i64)
    } else {
        m1
    };
    if pl {
        if pr {
            assert(m1 == m.with_face(x, y, 1, 0, (m.face(x, y, 1, 0) + c) as i64));
            assert(m1.face(x, y, -1, 0) == m.face(x, y, -1, 0));
        }
        assert(m1.face(x, y, -1, 0) == m.face(x, y, -1, 0));
        lemma_with_face_wf(m1, x, y, -1, 0, (m1.face(x, y, -1, 0) - c) as i64);
        lemma_with_face_reads(m1, x, y, -1, 0, (m1.face(x, y, -1, 0) - c) as i64);
        assert(mag(m.corrected(x, y, -1, 0, c)) <= VMAX as int);
        assert(m2.face(x, y, -1, 0) == m.corrected(x, y, -1, 0, c));
    }
    let m3 = if pd {
        m2.with_face(x, y, 0, 1, (m2.face(x, y, 0, 1) + c) as i64)
    } else {
        m2
    };
    if pd {
        assert(m2.v == m.v && m2.x == m.x);
        assert(m2.face(x, y, 0, 1) == m.face(x, y, 0, 1));
        lemma_with_face_wf(m2, x, y, 0, 1, (m2.face(x, y, 0, 1) + c) as i64);
        lemma_with_face_reads(m2, x, y, 0, 1, (m2.face(x, y, 0, 1) + c) as i64);
        assert(mag(m.corrected(x, y, 0, 1, c)) <= VMAX as int);
        assert(m3.face(x, y, 0, 1) == m.corrected(x, y, 0, 1, c));
    }
    let m4 = if pu {
        m3.with_face(x, y, 0, -1, (m3.face(x, y, 0, -1) - c) as i64)
    } else {
        m3
    };
    if pu {
        assert(m2.v == m.v && m2.x == m.x);
        assert(m2.face(x, y, 0, -1) == m.face(x, y, 0, -1));
        if pd {
            assert(m3 == m2.with_face(x, y, 0, 1, (m2.face(x, y, 0, 1) + c) as i64));
            assert(m3.face(x, y, 0, -1) == m2.face(x, y, 0, -1));
        }
        assert(m3.face(x, y, 0, -1) == m.face(x, y, 0, -1));
        lemma_with_face_wf(m3, x, y, 0, -1, (m3.face(x, y, 0, -1) - c) as i64);
        lemma_with_face_reads(m3, x, y, 0, -1, (m3.face(x, y, 0, -1) - c) as i64);
        assert(mag(m.corrected(x, y, 0, -1, c)) <= VMAX as int);
        assert(m4.face(x, y, 0, -1) == m.corrected(x, y, 0, -1, c));
    }
    assert(m4 == m.modify_adjacent_spec(x, y, c));
    assert forall|dx: int, dy: int| dir_ok(dx, dy) implies #[trigger] m.modify_adjacent_spec(
        x,
        y,
        c,
    ).face(x, y, dx, dy) == (if m.cell_or_static(x + dx, y + dy).is_fluid_spec() {
        m.corrected(x, y, dx, dy, c)
    } else {
        m.face(x, y, dx, dy)
    }) by {
        if dx == 1 && dy == 0 {
            if !pr {
                assert(m4.face(x, y, 1, 0) == m.face(x, y, 1, 0));
            }
        } else if dx == -1 && dy == 0 {
            if !pl {
                assert(m4.face(x, y, -1, 0) == m.face(x, y, -1, 0));
            }
        } else if dx == 0 && dy == 1 {
            if !pd {
                assert(m4.face(x, y, 0, 1) == m.face(x, y, 0, 1));
            }
        } else {
            if !pu {
                assert(m4.face(x, y, 0, -1) == m.face(x, y, 0, -1));
            }
        }
    }
}

/// One Gauss-Seidel cell visit preserves the invariant and the
/// non-velocity state.
pub proof fn lemma_project_cell_wf(m: GridModel, x: int, y: int)
    requires
        m.wf(),
        m.in_grid(x, y),
    ensures
        m.project_cell(x, y).wf(),
        m.project_cell(x, y).element == m.element,
        m.project_cell(x, y).boundaries == m.boundaries,
        m.project_cell(x, y).nu == m.nu,
        m.project_cell(x, y).nv == m.nv,
        m.project_cell(x, y).vorticity == m.vorticity,
        m.project_cell(x, y).x == m.x,
        m.project_cell(x, y).y == m.y,
        m.same_params(m.project_cell(x, y)),
{
    lemma_grid_idx(m.x, m.y, x, y);
    if m.cell(x, y) is Fluid {
        let div = m.divergence(x, y);
        let s = m.sides(x, y);
        if s != 0 {
            let c = tdiv(-(div * m.overrelaxation), s * (SCALE as int));
            if m.correction_fits(x, y, c) {
                lemma_modify_adjacent_faces(m, x, y, c);
            }
        }
    }
}

/// A partial row sweep preserves the invariant and the non-velocity
/// state.
pub proof fn lemma_project_row_wf(m: GridModel, y: int, xs: int)
    requires
        m.wf(),
        0 <= y < m.y,
        xs <= m.x,
    ensures
        m.project_row(y, xs).wf(),
        m.project_row(y, xs).element == m.element,
        m.project_row(y, xs).boundaries == m.boundaries,
        m.project_row(y, xs).nu == m.nu,
        m.project_row(y, xs).nv == m.nv,
        m.project_row(y, xs).vorticity == m.vorticity,
        m.project_row(y, xs).x == m.x,
        m.project_row(y, xs).y == m.y,
        m.same_params(m.project_row(y, xs)),
    decreases xs,
{
    if xs > 0 {
        lemma_project_row_wf(m, y, xs - 1);
        lemma_project_cell_wf(m.project_row(y, xs - 1), xs - 1, y);
    }
}

/// A partial pass preserves the invariant and the non-velocity state.
pub proof fn lemma_project_pass_wf(m: GridModel, ys: int)
    requires
        m.wf(),
        ys <= m.y,
    ensures
        m.project_pass(ys).wf(),
        m.project_pass(ys).element == m.element,
        m.project_pass(ys).boundaries == m.boundaries,
        m.project_pass(ys).nu == m.nu,
        m.project_pass(ys).nv == m.nv,
        m.project_pass(ys).vorticity == m.vorticity,
        m.project_pass(ys).x == m.x,
        m.project_pass(ys).y == m.y,
        m.same_params(m.project_pass(ys)),
    decreases ys,
{
    if ys > 0 {
        lemma_project_pass_wf(m, ys - 1);
        lemma_project_row_wf(m.project_pass(ys - 1), ys - 1, m.x);
    }
}

/// Any number of full sweeps preserves the invariant and the
/// non-velocity state.
pub proof fn lemma_project_all_wf(m: GridModel, k: int)
    requires
        m.wf(),
    ensures
        m.project_all(k).wf(),
        m.project_all(k).element == m.element,
        m.project_all(k).boundaries == m.boundaries,
        m.project_all(k).nu == m.nu,
        m.project_all(k).nv == m.nv,
        m.project_all(k).vorticity == m.vorticity,
        m.project_all(k).x == m.x,
        m.project_all(k).y == m.y,
        m.same_params(m.project_all(k)),
    decreases k,
{
    if k > 0 {
        lemma_project_all_wf(m, k - 1);
        lemma_project_pass_wf(m.project_all(k - 1), m.y);
    }
}

/// A face bordering a Static or Source cell (or the grid's outside) is
/// never written by a Gauss-Seidel visit, wherever the visit lands: the
/// visited cell skips that face as impermeable, and the bordering cell
/// itself is never corrected.
pub proof fn lemma_project_cell_boundary_face(
    m: GridModel,
    x: int,
    y: int,
    x2: int,
    y2: int,
    dx: int,
    dy: int,
)
    requires
        m.wf(),
        m.in_grid(x, y),
        m.in_grid(x2, y2),
        dir_ok(dx, dy),
        !m.cell_or_static(x2 + dx, y2 + dy).is_fluid_spec(),
    ensures
        m.project_cell(x, y).face(x2, y2, dx, dy) == m.face(x2, y2, dx, dy),
{
    lemma_grid_idx(m.x, m.y, x, y);
    if m.cell(x, y) is Fluid {
        let div = m.divergence(x, y);
        let s = m.sides(x, y);
        if s != 0 {
            let c = tdiv(-(div * m.overrelaxation), s * (SCALE as int));
            if m.correction_fits(x, y, c) {
                let pr = m.cell_or_static(x + 1, y).is_fluid_spec();
                let pl = m.cell_or_static(x - 1, y).is_fluid_spec();
                let pd = m.cell_or_static(x, y + 1).is_fluid_spec();
                let pu = m.cell_or_static(x, y - 1).is_fluid_spec();
                let m1 = if pr {
                    m.with_face(x, y, 1, 0, (m.face(x, y, 1, 0) + c) as i64)
                } else {
                    m
                };
                let m2 = if pl {
                    m1.with_face(x, y, -1, 0, (m1.face(x, y, -1, 0) - c) as i64)
                } else {
                    m1
                };
                let m3 = if pd {
                    m2.with_face(x, y, 0, 1, (m2.face(x, y, 0, 1) + c) as i64)
                } else {
                    m2
                };
                let m4 = if pu {
                    m3.with_face(x, y, 0, -1, (m3.face(x, y, 0, -1) - c) as i64)
                } else {
                    m3
                };
                assert(m4 == m.modify_adjacent_spec(x, y, c));
                if dy == 0 {
                    let fx = if dx == 1 {
                        x2 + 1
                    } else {
                        x2
                    };
                    lemma_grid_idx(m.x + 1, m.y, fx, y2);
                    lemma_grid_idx(m.x + 1, m.y, x + 1, y);
                    lemma_grid_idx(m.x + 1, m.y, x, y);
                    let si = m.u_idx(fx, y2);
                    assert(m1.u[si] == m.u[si]) by {
                        if pr {
                            if m.u_idx(x + 1, y) == si {
                                lemma_grid_idx_inj(m.x + 1, x + 1, y, fx, y2);
                                if dx == 1 {
                                    assert(m.cell_or_static(x + 1, y) == m.cell_or_static(
                                        x2 + dx,
                                        y2 + dy,
                                    ));
                                    assert(false);
                                } else {
                                    assert(m.cell_or_static(x2 + dx, y2 + dy) == m.cell(x, y));
                                    assert(false);
                                }
                            }
                        }
                    }
                    assert(m2.u[si] == m1.u[si]) by {
                        if pl {
                            if m.u_idx(x, y) == si {
                                lemma_grid_idx_inj(m.x + 1, x, y, fx, y2);
                                if dx == 1 {
                                    assert(m.cell_or_static(x2 + dx, y2 + dy) == m.cell(x, y));
                                    assert(false);
                                } else {
                                    assert(m.cell_or_static(x - 1, y) == m.cell_or_static(
                                        x2 + dx,
                                        y2 + dy,
                                    ));
                                    assert(false);
                                }
                            }
                        }
                    }
                    assert(m3.u == m2.u && m4.u == m3.u);
                    assert(m4.face(x2, y2, dx, dy) == m.face(x2, y2, dx, dy));
                } else {
                    let fy = if dy == 1 {
                        y2 + 1
                    } else {
                        y2
                    };
                    lemma_grid_idx(m.x, m.y + 1, x2, fy);
                    lemma_grid_idx(m.x, m.y + 1, x, y + 1);
                    lemma_grid_idx(m.x, m.y + 1, x, y);
                    let si = m.v_idx(x2, fy);
                    assert(m1.v == m.v && m2.v == m1.v);
                    assert(m3.v[si] == m2.v[si]) by {
                        if pd {
                            if m.v_idx(x, y + 1) == si {
                                lemma_grid_idx_inj(m.x, x, y + 1, x2, fy);
                                if dy == 1 {
                                    assert(m.cell_or_static(x, y + 1) == m.cell_or_static(
                                        x2 + dx,
                                        y2 + dy,
                                    ));
                                    assert(false);
                                } else {
                                    assert(m.cell_or_static(x2 + dx, y2 + dy) == m.cell(x, y));
                                    assert(false);
                                }
                            }
                        }
                    }
                    assert(m4.v[si] == m3.v[si]) by {
                        if pu {
                            if m.v_idx(x, y) == si {
                                lemma_grid_idx_inj(m.x, x, y, x2, fy);
                                if dy == 1 {
                                    assert(m.cell_or_static(x2 + dx, y2 + dy) == m.cell(x, y));
                                    assert(false);
                                } else {
                                    assert(m.cell_or_static(x, y - 1) == m.cell_or_static(
                                        x2 + dx,
                                        y2 + dy,
                                    ));
                                    assert(false);
                                }
                            }
                        }
                    }
                    assert(m4.face(x2, y2, dx, dy) == m.face(x2, y2, dx, dy));
                }
            }
        }
    }
}

/// A partial row sweep never writes a face bordering a Static or Source
/// cell.
pub proof fn lemma_project_row_boundary_face(
    m: GridModel,
    yr: int,
    xs: int,
    x2: int,
    y2: int,
    dx: int,
    dy: int,
)
    requires
        m.wf(),
        0 <= yr < m.y,
        xs <= m.x,
        m.in_grid(x2, y2),
        dir_ok(dx, dy),
        !m.cell_or_static(x2 + dx, y2 + dy).is_fluid_spec(),
    ensures
        m.project_row(yr, xs).face(x2, y2, dx, dy) == m.face(x2, y2, dx, dy),
    decreases xs,
{
    if xs > 0 {
        lemma_project_row_boundary_face(m, yr, xs - 1, x2, y2, dx, dy);
        lemma_project_row_wf(m, yr, xs - 1);
        let prev = m.project_row(yr, xs - 1);
        assert(prev.cell_or_static(x2 + dx, y2 + dy) == m.cell_or_static(x2 + dx, y2 + dy));
        lemma_project_cell_boundary_face(prev, xs - 1, yr, x2, y2, dx, dy);
    }
}

/// A partial pass never writes a face bordering a Static or Source cell.
pub proof fn lemma_project_pass_boundary_face(
    m: GridModel,
    ys: int,
    x2: int,
    y2: int,
    dx: int,
    dy: int,
)
    requires
        m.wf(),
        ys <= m.y,
        m.in_grid(x2, y2),
        dir_ok(dx, dy),
        !m.cell_or_static(x2 + dx, y2 + dy).is_fluid_spec(),
    ensures
        m.project_pass(ys).face(x2, y2, dx, dy) == m.face(x2, y2, dx, dy),
    decreases ys,
{
    if ys > 0 {
        lemma_project_pass_boundary_face(m, ys - 1, x2, y2, dx, dy);
        lemma_project_pass_wf(m, ys - 1);
        let prev = m.project_pass(ys - 1);
        assert(prev.cell_or_static(x2 + dx, y2 + dy) == m.cell_or_static(x2 + dx, y2 + dy));
        lemma_project_row_boundary_face(prev, ys - 1, m.x, x2, y2, dx, dy);
    }
}

/// Recomputing the vorticity field preserves the invariant and the
/// non-vorticity state.
pub proof fn lemma_compute_vorticity_wf(m: GridModel)
    requires
        m.wf(),
    ensures
        m.compute_vorticity_spec().wf(),
        m.compute_vorticity_spec().u == m.u,
        m.compute_vorticity_spec().v == m.v,
        m.compute_vorticity_spec().nu == m.nu,
        m.compute_vorticity_spec().nv == m.nv,
        m.compute_vorticity_spec().element == m.element,
        m.compute_vorticity_spec().boundaries == m.boundaries,
        m.compute_vorticity_spec().x == m.x,
        m.compute_vorticity_spec().y == m.y,
        m.same_params(m.compute_vorticity_spec()),
{
    let m2 = m.compute_vorticity_spec();
    assert forall|i: int| 0 <= i < m2.vorticity.len() implies mag(
        (#[trigger] m2.vorticity[i]) as int,
    ) <= WMAX as int by {
        vstd::arithmetic::div_mod::lemma_fundamental_div_mod(i, m.x);
        let x = i % m.x;
        let y = i / m.x;
        if 1 <= x < m.x - 1 && 1 <= y < m.y - 1 {
            assert(0 <= y < m.y) by (nonlinear_arith)
                requires
                    i == m.x * y + x,
                    0 <= x < m.x,
                    0 <= i < m.y * m.x,
                    m.x >= 2,
            ;
            lemma_grid_idx(m.x + 1, m.y, x, y + 1);
            lemma_grid_idx(m.x + 1, m.y, x, y - 1);
            lemma_grid_idx(m.x, m.y + 1, x + 1, y);
            lemma_grid_idx(m.x, m.y + 1, x - 1, y);
            crate::units::lemma_tdiv_bounds(m.u_at(x, y + 1) - m.u_at(x, y - 1), 2);
            crate::units::lemma_tdiv_bounds(m.v_at(x + 1, y) - m.v_at(x - 1, y), 2);
            assert(mag(tdiv(m.u_at(x, y + 1) - m.u_at(x, y - 1), 2)) * 2 <= 2 * (VMAX as int));
            assert(mag(tdiv(m.v_at(x + 1, y) - m.v_at(x - 1, y), 2)) * 2 <= 2 * (VMAX as int));
        }
    }
    lemma_registry_wf_same_cells(m, m2);
}

/// One confinement visit preserves the invariant and the non-velocity
/// state.
pub proof fn lemma_confine_cell_wf(m: GridModel, x: int, y: int)
    requires
        m.wf(),
        1 <= x < m.x - 1,
        1 <= y < m.y - 1,
    ensures
        m.confine_cell(x, y).wf(),
        m.confine_cell(x, y).element == m.element,
        m.confine_cell(x, y).boundaries == m.boundaries,
        m.confine_cell(x, y).nu == m.nu,
        m.confine_cell(x, y).nv == m.nv,
        m.confine_cell(x, y).vorticity == m.vorticity,
        m.confine_cell(x, y).x == m.x,
        m.confine_cell(x, y).y == m.y,
        m.same_params(m.confine_cell(x, y)),
{
    let m2 = m.confine_cell(x, y);
    let gx = m.grad_wx(x, y);
    let gy = m.grad_wy(x, y);
    let mg = sqrt_floor((gx * gx + gy * gy) as nat) as int;
    if mg > 0 {
        let m3 = m.force_applied(gx, gy, mg, x, y);
        lemma_grid_idx(m.x + 1, m.y, x, y);
        lemma_grid_idx(m.x, m.y + 1, x, y);
        let d = m.force_delta(gx, gy, mg, x, y);
        let nu_ = m.u_at(x, y) + d.0;
        let nv_ = m.v_at(x, y) + d.1;
        if mag(nu_) <= VMAX as int && mag(nv_) <= VMAX as int {
            assert forall|i: int| 0 <= i < m3.u.len() implies mag((#[trigger] m3.u[i]) as int)
                <= VMAX as int by {
                if i != m.u_idx(x, y) {
                    assert(m3.u[i] == m.u[i]);
                }
            }
            assert forall|i: int| 0 <= i < m3.v.len() implies mag((#[trigger] m3.v[i]) as int)
                <= VMAX as int by {
                if i != m.v_idx(x, y) {
                    assert(m3.v[i] == m.v[i]);
                }
            }
            lemma_registry_wf_same_cells(m, m3);
        }
    }
}

/// A partial confinement row preserves the invariant and the
/// non-velocity state.
pub proof fn lemma_confine_row_wf(m: GridModel, y: int, xs: int)
    requires
        m.wf(),
        1 <= y < m.y - 1,
        xs <= m.x - 1,
    ensures
        m.confine_row(y, xs).wf(),
        m.confine_row(y, xs).element == m.element,
        m.confine_row(y, xs).boundaries == m.boundaries,
        m.confine_row(y, xs).nu == m.nu,
        m.confine_row(y, xs).nv == m.nv,
        m.confine_row(y, xs).vorticity == m.vorticity,
        m.confine_row(y, xs).x == m.x,
        m.confine_row(y, xs).y == m.y,
        m.same_params(m.confine_row(y, xs)),
    decreases xs,
{
    if xs > 1 {
        lemma_confine_row_wf(m, y, xs - 1);
        lemma_confine_cell_wf(m.confine_row(y, xs - 1), xs - 1, y);
    }
}

/// A partial confinement pass preserves the invariant and the
/// non-velocity state.
pub proof fn lemma_confine_pass_wf(m: GridModel, ys: int)
    requires
        m.wf(),
        ys <= m.y - 1,
    ensures
        m.confine_pass(ys).wf(),
        m.confine_pass(ys).element == m.element,
        m.confine_pass(ys).boundaries == m.boundaries,
        m.confine_pass(ys).nu == m.nu,
        m.confine_pass(ys).nv == m.nv,
        m.confine_pass(ys).vorticity == m.vorticity,
        m.confine_pass(ys).x == m.x,
        m.confine_pass(ys).y == m.y,
        m.same_params(m.confine_pass(ys)),
    decreases ys,
{
    if ys > 1 {
        lemma_confine_pass_wf(m, ys - 1);
        lemma_confine_row_wf(m.confine_pass(ys - 1), ys - 1, m.x - 1);
    }
}

/// Two cells share a staggered face sample exactly when they are equal
/// or axis-adjacent.
pub open spec fn shares_face(ax: int, ay: int, bx: int, by: int) -> bool {
    (ay == by && (ax == bx || ax == bx + 1 || ax == bx - 1)) || (ax == bx && (ay == by + 1 || ay
        == by - 1))
}

/// Reading the four faces of a cell directly after writing them gives
/// back the written values.
pub proof fn lemma_with_faces_same(m: GridModel, x: int, y: int, r: i64, l: i64, d: i64, up: i64)
    requires
        m.wf(),
        m.in_grid(x, y),
    ensures
        m.with_faces(x, y, r, l, d, up).face(x, y, 1, 0) == r as int,
        m.with_faces(x, y, r, l, d, up).face(x, y, -1, 0) == l as int,
        m.with_faces(x, y, r, l, d, up).face(x, y, 0, 1) == d as int,
        m.with_faces(x, y, r, l, d, up).face(x, y, 0, -1) == up as int,
{
    let m2 = m.with_faces(x, y, r, l, d, up);
    lemma_grid_idx(m.x + 1, m.y, x, y);
    lemma_grid_idx(m.x + 1, m.y, x + 1, y);
    lemma_grid_idx(m.x, m.y + 1, x, y);
    lemma_grid_idx(m.x, m.y + 1, x, y + 1);
    if m.u_idx(x + 1, y) == m.u_idx(x, y) {
        lemma_grid_idx_inj(m.x + 1, x + 1, y, x, y);
    }
    if m.v_idx(x, y + 1) == m.v_idx(x, y) {
        lemma_grid_idx_inj(m.x, x, y + 1, x, y);
    }
}

/// Writing the four faces of one cell leaves every face of a cell that
/// shares no face sample with it unchanged.
pub proof fn lemma_with_faces_frame(
    m: GridModel,
    x: int,
    y: int,
    r: i64,
    l: i64,
    d: i64,
    up: i64,
    x2: int,
    y2: int,
    dx: int,
    dy: int,
)
    requires
        m.wf(),
        m.in_grid(x, y),
        m.in_grid(x2, y2),
        dir_ok(dx, dy),
        !shares_face(x, y, x2, y2),
    ensures
        m.with_faces(x, y, r, l, d, up).face(x2, y2, dx, dy) == m.face(x2, y2, dx, dy),
{
    let m2 = m.with_faces(x, y, r, l, d, up);
    if dy == 0 {
        let rx = if dx == 1 {
            x2 + 1
        } else {
            x2
        };
        lemma_grid_idx(m.x + 1, m.y, rx, y2);
        lemma_grid_idx(m.x + 1, m.y, x + 1, y);
        lemma_grid_idx(m.x + 1, m.y, x, y);
        if m.u_idx(rx, y2) == m.u_idx(x + 1, y) {
            lemma_grid_idx_inj(m.x + 1, rx, y2, x + 1, y);
        }
        if m.u_idx(rx, y2) == m.u_idx(x, y) {
            lemma_grid_idx_inj(m.x + 1, rx, y2, x, y);
        }
        assert(m2.u[m.u_face_idx(x2, y2, dx)] == m.u[m.u_face_idx(x2, y2, dx)]);
    } else {
        let ry = if dy == 1 {
            y2 + 1
        } else {
            y2
        };
        lemma_grid_idx(m.x, m.y + 1, x2, ry);
        lemma_grid_idx(m.x, m.y + 1, x, y + 1);
        lemma_grid_idx(m.x, m.y + 1, x, y);
        if m.v_idx(x2, ry) == m.v_idx(x, y + 1) {
            lemma_grid_idx_inj(m.x, x2, ry, x, y + 1);
        }
        if m.v_idx(x2, ry) == m.v_idx(x, y) {
            lemma_grid_idx_inj(m.x, x2, ry, x, y);
        }
        assert(m2.v[m.v_face_idx(x2, y2, dy)] == m.v[m.v_face_idx(x2, y2, dy)]);
    }
}

/// Enforcing a registry entry leaves every face of a cell that shares no
/// face sample with that entry unchanged.
pub proof fn lemma_enforce_cell_face_frame(
    m: GridModel,
    ex: int,
    ey: int,
    x2: int,
    y2: int,
    dx: int,
    dy: int,
)
    requires
        m.wf(),
        m.in_grid(ex, ey),
        m.in_grid(x2, y2),
        dir_ok(dx, dy),
        !shares_face(ex, ey, x2, y2),
    ensures
        m.enforce_cell(ex, ey).face(x2, y2, dx, dy) == m.face(x2, y2, dx, dy),
{
    lemma_grid_idx(m.x, m.y, ex, ey);
    match m.cell(ex, ey) {
        Ele::Fluid => {},
        Ele::Static => {
            lemma_with_faces_frame(m, ex, ey, 0, 0, 0, 0, x2, y2, dx, dy);
        },
        Ele::Source(sv) => {
            lemma_with_faces_frame(
                m,
                ex,
                ey,
                sv.velocity.x,
                sv.velocity.x,
                sv.velocity.y,
                sv.velocity.y,
                x2,
                y2,
                dx,
                dy,
            );
        },
        Ele::Clone(mi) => {
            let mx = ex + mi.master.x;
            let my = ey + mi.master.y;
            if m.in_grid(mx, my) {
                lemma_with_faces_frame(
                    m,
                    ex,
                    ey,
                    m.face(mx, my, 1, 0) as i64,
                    m.face(mx, my, -1, 0) as i64,
                    m.face(mx, my, 0, 1) as i64,
                    m.face(mx, my, 0, -1) as i64,
                    x2,
                    y2,
                    dx,
                    dy,
                );
            }
        },
    }
}

/// A face of a cell that no registry entry in `[i, k)` adjoins reads the
/// same in the states after enforcing `i` and after enforcing `k`
/// entries.
pub proof fn lemma_enforce_tail_preserves_face(
    m: GridModel,
    i: int,
    k: int,
    x2: int,
    y2: int,
    dx: int,
    dy: int,
)
    requires
        m.wf(),
        0 <= i <= k <= m.boundaries.len(),
        m.in_grid(x2, y2),
        dir_ok(dx, dy),
        forall|j: int|
            i <= j < k ==> !shares_face(
                (#[trigger] m.boundaries[j]).x as int,
                m.boundaries[j].y as int,
                x2,
                y2,
            ),
    ensures
        m.enforce_upto(k).face(x2, y2, dx, dy) == m.enforce_upto(i).face(x2, y2, dx, dy),
    decreases k - i,
{
    if k > i {
        lemma_enforce_tail_preserves_face(m, i, k - 1, x2, y2, dx, dy);
        lemma_enforce_upto_wf(m, k - 1);
        let prev = m.enforce_upto(k - 1);
        let bx = m.boundaries[k - 1].x as int;
        let by = m.boundaries[k - 1].y as int;
        assert(m.in_grid(bx, by));
        lemma_enforce_cell_face_frame(prev, bx, by, x2, y2, dx, dy);
    }
}

/// Enforcing one in-grid registry entry preserves the invariant and the
/// non-velocity state.
pub proof fn lemma_enforce_cell_wf(m: GridModel, x: int, y: int)
    requires
        m.wf(),
        m.in_grid(x, y),
    ensures
        m.enforce_cell(x, y).wf(),
        m.enforce_cell(x, y).element == m.element,
        m.enforce_cell(x, y).boundaries == m.boundaries,
        m.enforce_cell(x, y).nu == m.nu,
        m.enforce_cell(x, y).nv == m.nv,
        m.enforce_cell(x, y).vorticity == m.vorticity,
        m.enforce_cell(x, y).x == m.x,
        m.enforce_cell(x, y).y == m.y,
        m.same_params(m.enforce_cell(x, y)),
{
    lemma_grid_idx(m.x, m.y, x, y);
    match m.cell(x, y) {
        Ele::Fluid => {},
        Ele::Static => {
            lemma_with_faces_wf(m, x, y, 0, 0, 0, 0);
        },
        Ele::Source(sv) => {
            assert(ele_wf(m.element[m.c_idx(x, y)]));
            lemma_with_faces_wf(m, x, y, sv.velocity.x, sv.velocity.x, sv.velocity.y, sv.velocity.y);
        },
        Ele::Clone(mi) => {
            let mx = x + mi.master.x;
            let my = y + mi.master.y;
            if m.in_grid(mx, my) {
                let fr = m.face(mx, my, 1, 0);
                let fl = m.face(mx, my, -1, 0);
                let fd = m.face(mx, my, 0, 1);
                let fu = m.face(mx, my, 0, -1);
                lemma_grid_idx(m.x + 1, m.y, mx + 1, my);
                lemma_grid_idx(m.x + 1, m.y, mx, my);
                lemma_grid_idx(m.x, m.y + 1, mx, my + 1);
                lemma_grid_idx(m.x, m.y + 1, mx, my);
                lemma_with_faces_wf(m, x, y, fr as i64, fl as i64, fd as i64, fu as i64);
            }
        },
    }
}

/// Enforcing the first `k` registry entries preserves the invariant and
/// the non-velocity state.
pub proof fn lemma_enforce_upto_wf(m: GridModel, k: int)
    requires
        m.wf(),
        k <= m.boundaries.len(),
    ensures
        m.enforce_upto(k).wf(),
        m.enforce_upto(k).element == m.element,
        m.enforce_upto(k).boundaries == m.boundaries,
        m.enforce_upto(k).nu == m.nu,
        m.enforce_upto(k).nv == m.nv,
        m.enforce_upto(k).vorticity == m.vorticity,
        m.enforce_upto(k).x == m.x,
        m.enforce_upto(k).y == m.y,
        m.same_params(m.enforce_upto(k)),
    decreases k,
{
    if k > 0 {
        lemma_enforce_upto_wf(m, k - 1);
        let prev = m.enforce_upto(k - 1);
        let bx = m.boundaries[k - 1].x as int;
        let by = m.boundaries[k - 1].y as int;
        assert(m.in_grid(bx, by));
        lemma_enforce_cell_wf(prev, bx, by);
    }
}

/// Decoding a row-major index recovers the coordinate it encodes.
pub proof fn lemma_rowmajor_decode(w: int, x: int, y: int)
    requires
        w >= 1,
        0 <= x < w,
        0 <= y,
    ensures
        (y * w + x) / w == y,
        (y * w + x) % w == x,
{
    vstd::arithmetic::div_mod::lemma_fundamental_div_mod_converse(y * w + x, w, y, x);
}

/// Whether two cells are 4-connected neighbors.
pub open spec fn adjacent(a: (int, int), b: (int, int)) -> bool {
    (a.0 == b.0 && (a.1 == b.1 + 1 || a.1 == b.1 - 1)) || (a.1 == b.1 && (a.0 == b.0 + 1 || a.0
        == b.0 - 1))
}

/// A path of in-grid, non-Static, 4-connected cells.
pub open spec fn path_ok(m: GridModel, p: Seq<(int, int)>) -> bool {
    &&& p.len() >= 1
    &&& forall|k: int| 0 <= k < p.len() ==> m.in_grid((#[trigger] p[k]).0, p[k].1)
    &&& forall|k: int| 0 <= k < p.len() ==> !(m.cell((#[trigger] p[k]).0, p[k].1) is Static)
    &&& forall|k: int| 0 <= k < p.len() - 1 ==> adjacent(#[trigger] p[k], p[k + 1])
}

/// Whether `(a, b)` can be reached from `(sx, sy)` through 4-connected
/// non-Static cells.
#[verifier::opaque]
pub open spec fn reachable(m: GridModel, sx: int, sy: int, a: int, b: int) -> bool {
    exists|p: Seq<(int, int)>|
        path_ok(m, p) && p[0] == (sx, sy) && p[p.len() - 1] == (a, b)
}

/// A non-Static seed reaches itself.
pub proof fn lemma_reachable_seed(m: GridModel, sx: int, sy: int)
    requires
        m.in_grid(sx, sy),
        !(m.cell(sx, sy) is Static),
    ensures
        reachable(m, sx, sy, sx, sy),
{
    reveal(reachable);
    let p = seq![(sx, sy)];
    assert(path_ok(m, p) && p[0] == (sx, sy) && p[p.len() - 1] == (sx, sy));
}

/// Reachability extends across one step to an adjacent non-Static cell.
pub proof fn lemma_reachable_step(m: GridModel, sx: int, sy: int, dx: int, dy: int, a: int, b: int)
    requires
        reachable(m, sx, sy, dx, dy),
        m.in_grid(a, b),
        !(m.cell(a, b) is Static),
        adjacent((dx, dy), (a, b)),
    ensures
        reachable(m, sx, sy, a, b),
{
    reveal(reachable);
    let p = choose|p: Seq<(int, int)>|
        path_ok(m, p) && p[0] == (sx, sy) && p[p.len() - 1] == (dx, dy);
    let p2 = p.push((a, b));
    assert forall|k: int| 0 <= k < p2.len() implies m.in_grid((#[trigger] p2[k]).0, p2[k].1) by {
        if k < p.len() {
            assert(p2[k] == p[k]);
        }
    }
    assert forall|k: int| 0 <= k < p2.len() implies !(m.cell((#[trigger] p2[k]).0, p2[k].1)
        is Static) by {
        if k < p.len() {
            assert(p2[k] == p[k]);
        }
    }
    assert forall|k: int| 0 <= k < p2.len() - 1 implies adjacent(#[trigger] p2[k], p2[k + 1]) by {
        if k < p.len() - 1 {
            assert(p2[k] == p[k] && p2[k + 1] == p[k + 1]);
        } else {
            assert(p2[k] == p[p.len() - 1] && p2[k + 1] == (a, b));
        }
    }
    assert(path_ok(m, p2) && p2[0] == (sx, sy) && p2[p2.len() - 1] == (a, b));
}

/// A path whose cells are all unvisited.
pub open spec fn avoid_path_ok(m: GridModel, seen: Seq<bool>, p: Seq<(int, int)>) -> bool {
    &&& path_ok(m, p)
    &&& forall|k: int| 0 <= k < p.len() ==> !seen[m.c_idx((#[trigger] p[k]).0, p[k].1)]
}

/// Whether `(a, b)` can be reached from `(wx, wy)` through unvisited,
/// non-Static, 4-connected cells.
#[verifier::opaque]
pub open spec fn reach_avoid(
    m: GridModel,
    seen: Seq<bool>,
    wx: int,
    wy: int,
    a: int,
    b: int,
) -> bool {
    exists|p: Seq<(int, int)>|
        avoid_path_ok(m, seen, p) && p[0] == (wx, wy) && p[p.len() - 1] == (a, b)
}

/// A path that never runs through the newly visited cell is still a
/// path of unvisited cells afterward.
pub proof fn lemma_avoid_path_still(
    m: GridModel,
    seen: Seq<bool>,
    ex: int,
    ey: int,
    p: Seq<(int, int)>,
)
    requires
        m.wf(),
        m.in_grid(ex, ey),
        seen.len() == m.c_len(),
        avoid_path_ok(m, seen, p),
        forall|k: int| 0 <= k < p.len() ==> #[trigger] p[k] != (ex, ey),
    ensures
        avoid_path_ok(m, seen.update(m.c_idx(ex, ey), true), p),
{
    let seen2 = seen.update(m.c_idx(ex, ey), true);
    lemma_grid_idx(m.x, m.y, ex, ey);
    assert forall|k: int| 0 <= k < p.len() implies !seen2[m.c_idx(
        (#[trigger] p[k]).0,
        p[k].1,
    )] by {
        assert(p[k] != (ex, ey));
        assert(m.in_grid(p[k].0, p[k].1));
        lemma_grid_idx(m.x, m.y, p[k].0, p[k].1);
        if m.c_idx(p[k].0, p[k].1) == m.c_idx(ex, ey) {
            lemma_grid_idx_inj(m.x, p[k].0, p[k].1, ex, ey);
        }
        assert(!seen[m.c_idx(p[k].0, p[k].1)]);
    }
}

/// Marking one cell visited cannot cut a target off: either the witness
/// path never ran through the marked cell and still stands from its own
/// start, or the walk can restart at an unvisited neighbor of the marked
/// cell.  `i` names the suffix of the path under consideration.
#[verifier::rlimit(100)]
#[verifier::spinoff_prover]
pub proof fn lemma_avoid_reroute(
    m: GridModel,
    seen: Seq<bool>,
    ex: int,
    ey: int,
    p: Seq<(int, int)>,
    i: int,
    a: int,
    b: int,
)
    requires
        m.wf(),
        m.in_grid(ex, ey),
        seen.len() == m.c_len(),
        avoid_path_ok(m, seen, p),
        0 <= i < p.len(),
        p[p.len() - 1] == (a, b),
        !(a == ex && b == ey),
    ensures
        ({
            let seen2 = seen.update(m.c_idx(ex, ey), true);
            reach_avoid(m, seen2, p[i].0, p[i].1, a, b) || (exists|n: (int, int)|
                m.in_grid(n.0, n.1) && adjacent((ex, ey), n) && !seen2[m.c_idx(n.0, n.1)]
                    && reach_avoid(m, seen2, n.0, n.1, a, b))
        }),
    decreases p.len() - i,
{
    let seen2 = seen.update(m.c_idx(ex, ey), true);
    if exists|k: int| i <= k < p.len() && #[trigger] p[k] == (ex, ey) {
        let k = choose|k: int| i <= k < p.len() && #[trigger] p[k] == (ex, ey);
        assert(p[p.len() - 1] != (ex, ey));
        assert(k < p.len() - 1);
        lemma_avoid_reroute(m, seen, ex, ey, p, k + 1, a, b);
        if reach_avoid(m, seen2, p[k + 1].0, p[k + 1].1, a, b) {
            assert(!seen2[m.c_idx(p[k + 1].0, p[k + 1].1)]) by {
                reveal(reach_avoid);
                let w = choose|w: Seq<(int, int)>|
                    avoid_path_ok(m, seen2, w) && w[0] == (p[k + 1].0, p[k + 1].1) && w[w.len()
                        - 1] == (a, b);
                assert(!seen2[m.c_idx(w[0].0, w[0].1)]);
            }
            let n0 = (p[k + 1].0, p[k + 1].1);
            assert(adjacent(p[k], p[k + 1]));
            assert(m.in_grid(n0.0, n0.1) && adjacent((ex, ey), n0) && !seen2[m.c_idx(n0.0, n0.1)]
                && reach_avoid(m, seen2, n0.0, n0.1, a, b));
        }
    } else {
        let q = p.subrange(i, p.len() as int);
        assert forall|j: int| 0 <= j < q.len() implies #[trigger] q[j] == p[i + j] by {}
        assert(path_ok(m, q)) by {
            assert forall|j: int| 0 <= j < q.len() implies m.in_grid((#[trigger] q[j]).0, q[j].1)
                && !(m.cell(q[j].0, q[j].1) is Static) by {
                assert(q[j] == p[i + j]);
            }
            assert forall|j: int| 0 <= j < q.len() - 1 implies adjacent(
                #[trigger] q[j],
                q[j + 1],
            ) by {
                assert(q[j] == p[i + j] && q[j + 1] == p[i + j + 1]);
            }
        }
        assert(avoid_path_ok(m, seen, q)) by {
            assert forall|j: int| 0 <= j < q.len() implies !seen[m.c_idx(
                (#[trigger] q[j]).0,
                q[j].1,
            )] by {
                assert(q[j] == p[i + j]);
            }
        }
        assert forall|j: int| 0 <= j < q.len() implies #[trigger] q[j] != (ex, ey) by {
            assert(q[j] == p[i + j]);
        }
        lemma_avoid_path_still(m, seen, ex, ey, q);
        assert(q[0] == p[i] && q[q.len() - 1] == (a, b));
        assert(reach_avoid(m, seen2, p[i].0, p[i].1, a, b)) by {
            reveal(reach_avoid);
            assert(avoid_path_ok(m, seen2, q) && q[0] == (p[i].0, p[i].1) && q[q.len() - 1] == (
            a,
            b,
            ));
        }
    }
}

/// A pushed stack still holds every value it held before.
pub proof fn lemma_stack_member_push(s: Seq<(usize, usize)>, w: (usize, usize), v: (usize, usize))
    requires
        s.contains(v),
    ensures
        s.push(w).contains(v),
{
    let k = choose|k: int| 0 <= k < s.len() && s[k] == v;
    assert(s.push(w)[k] == v);
}

/// Every reachable, still-unvisited cell can be walked to from some
/// stack entry through unvisited cells: nothing reachable is ever lost.
pub open spec fn frontier_inv(
    m: GridModel,
    seen: Seq<bool>,
    stack: Seq<(usize, usize)>,
    sx: int,
    sy: int,
) -> bool {
    forall|a: int, b: int|
        m.in_grid(a, b) && #[trigger] reachable(m, sx, sy, a, b) && !seen[m.c_idx(a, b)]
            ==> exists|k: int|
            0 <= k < stack.len() && reach_avoid(
                m,
                seen,
                (#[trigger] stack[k]).0 as int,
                stack[k].1 as int,
                a,
                b,
            )
}

/// With nothing visited and the seed on the stack, the frontier
/// invariant holds.
pub proof fn lemma_frontier_init(
    m: GridModel,
    seen: Seq<bool>,
    stack: Seq<(usize, usize)>,
    sx: int,
    sy: int,
)
    requires
        m.wf(),
        m.in_grid(sx, sy),
        seen.len() == m.c_len(),
        forall|i: int| 0 <= i < seen.len() ==> !(#[trigger] seen[i]),
        stack.len() == 1,
        stack[0] == ((sx as usize, sy as usize)),
    ensures
        frontier_inv(m, seen, stack, sx, sy),
{
    assert forall|a: int, b: int|
        m.in_grid(a, b) && #[trigger] reachable(m, sx, sy, a, b) && !seen[m.c_idx(a, b)] implies exists|
        k: int,
    |
        0 <= k < stack.len() && reach_avoid(
            m,
            seen,
            (#[trigger] stack[k]).0 as int,
            stack[k].1 as int,
            a,
            b,
        ) by {
        reveal(reachable);
        reveal(reach_avoid);
        let p = choose|p: Seq<(int, int)>|
            path_ok(m, p) && p[0] == (sx, sy) && p[p.len() - 1] == (a, b);
        assert(avoid_path_ok(m, seen, p)) by {
            assert forall|j: int| 0 <= j < p.len() implies !seen[m.c_idx(
                (#[trigger] p[j]).0,
                p[j].1,
            )] by {
                lemma_grid_idx(m.x, m.y, p[j].0, p[j].1);
            }
        }
        assert(reach_avoid(m, seen, stack[0].0 as int, stack[0].1 as int, a, b));
    }
}

/// Popping an already-visited or Static entry keeps the frontier
/// invariant.
pub proof fn lemma_frontier_skip(
    m: GridModel,
    seen: Seq<bool>,
    stack: Seq<(usize, usize)>,
    sx: int,
    sy: int,
)
    requires
        m.wf(),
        seen.len() == m.c_len(),
        frontier_inv(m, seen, stack, sx, sy),
        stack.len() >= 1,
        ({
            let f = stack[stack.len() - 1];
            m.in_grid(f.0 as int, f.1 as int) && (seen[m.c_idx(f.0 as int, f.1 as int)] || m.cell(
                f.0 as int,
                f.1 as int,
            ) is Static)
        }),
    ensures
        frontier_inv(m, seen, stack.drop_last(), sx, sy),
{
    let stack2 = stack.drop_last();
    assert forall|a: int, b: int|
        m.in_grid(a, b) && #[trigger] reachable(m, sx, sy, a, b) && !seen[m.c_idx(a, b)] implies exists|
        k: int,
    |
        0 <= k < stack2.len() && reach_avoid(
            m,
            seen,
            (#[trigger] stack2[k]).0 as int,
            stack2[k].1 as int,
            a,
            b,
        ) by {
        let k = choose|k: int|
            0 <= k < stack.len() && reach_avoid(
                m,
                seen,
                (#[trigger] stack[k]).0 as int,
                stack[k].1 as int,
                a,
                b,
            );
        if k < stack.len() - 1 {
            assert(stack2[k] == stack[k]);
            assert(reach_avoid(m, seen, stack2[k].0 as int, stack2[k].1 as int, a, b));
        } else {
            let f = stack[stack.len() - 1];
            assert(reach_avoid(m, seen, f.0 as int, f.1 as int, a, b));
            reveal(reach_avoid);
            let p = choose|p: Seq<(int, int)>|
                avoid_path_ok(m, seen, p) && p[0] == (f.0 as int, f.1 as int) && p[p.len() - 1]
                    == (a, b);
            assert(!seen[m.c_idx(p[0].0, p[0].1)]);
            assert(!(m.cell(p[0].0, p[0].1) is Static));
            assert(false);
        }
    }
}

/// Visiting the popped cell keeps the frontier invariant, provided the
/// surviving entries stay on the stack and every unvisited in-grid
/// neighbor of the visited cell was pushed.
#[verifier::rlimit(100)]
#[verifier::spinoff_prover]
pub proof fn lemma_frontier_mark(
    m: GridModel,
    seen: Seq<bool>,
    stack_old: Seq<(usize, usize)>,
    stack_new: Seq<(usize, usize)>,
    ex: int,
    ey: int,
    sx: int,
    sy: int,
)
    requires
        m.wf(),
        seen.len() == m.c_len(),
        m.in_grid(ex, ey),
        !seen[m.c_idx(ex, ey)],
        frontier_inv(m, seen, stack_old, sx, sy),
        stack_old.len() >= 1,
        stack_old[stack_old.len() - 1] == ((ex as usize, ey as usize)),
        forall|k: int|
            0 <= k < stack_old.len() - 1 ==> exists|k2: int|
                0 <= k2 < stack_new.len() && #[trigger] stack_new[k2] == #[trigger] stack_old[k],
        forall|n: (int, int)|
            m.in_grid(n.0, n.1) && #[trigger] adjacent((ex, ey), n) && !seen.update(
                m.c_idx(ex, ey),
                true,
            )[m.c_idx(n.0, n.1)] ==> exists|k2: int|
                0 <= k2 < stack_new.len() && #[trigger] stack_new[k2] == ((
                n.0 as usize,
                n.1 as usize,
                )),
    ensures
        frontier_inv(m, seen.update(m.c_idx(ex, ey), true), stack_new, sx, sy),
{
    let seen2 = seen.update(m.c_idx(ex, ey), true);
    lemma_grid_idx(m.x, m.y, ex, ey);
    assert forall|a: int, b: int|
        m.in_grid(a, b) && #[trigger] reachable(m, sx, sy, a, b) && !seen2[m.c_idx(a, b)] implies exists|
        k: int,
    |
        0 <= k < stack_new.len() && reach_avoid(
            m,
            seen2,
            (#[trigger] stack_new[k]).0 as int,
            stack_new[k].1 as int,
            a,
            b,
        ) by {
        lemma_grid_idx(m.x, m.y, a, b);
        assert(!seen[m.c_idx(a, b)]);
        assert(!(a == ex && b == ey)) by {
            if a == ex && b == ey {
                assert(seen2[m.c_idx(ex, ey)]);
            }
        }
        let k = choose|k: int|
            0 <= k < stack_old.len() && reach_avoid(
                m,
                seen,
                (#[trigger] stack_old[k]).0 as int,
                stack_old[k].1 as int,
                a,
                b,
            );
        let w = stack_old[k];
        let p = ({
            reveal(reach_avoid);
            choose|p: Seq<(int, int)>|
                avoid_path_ok(m, seen, p) && p[0] == (w.0 as int, w.1 as int) && p[p.len() - 1]
                    == (a, b)
        });
        lemma_avoid_reroute(m, seen, ex, ey, p, 0, a, b);
        if reach_avoid(m, seen2, p[0].0, p[0].1, a, b) {
            assert(!seen2[m.c_idx(p[0].0, p[0].1)]) by {
                reveal(reach_avoid);
                let v = choose|v: Seq<(int, int)>|
                    avoid_path_ok(m, seen2, v) && v[0] == (p[0].0, p[0].1) && v[v.len() - 1] == (
                    a,
                    b,
                    );
                assert(!seen2[m.c_idx(v[0].0, v[0].1)]);
            }
            assert(k < stack_old.len() - 1) by {
                if k == stack_old.len() - 1 {
                    assert(p[0] == (ex, ey));
                    assert(seen2[m.c_idx(ex, ey)]);
                }
            }
            let k2 = choose|k2: int|
                0 <= k2 < stack_new.len() && #[trigger] stack_new[k2] == stack_old[k];
            assert(reach_avoid(m, seen2, stack_new[k2].0 as int, stack_new[k2].1 as int, a, b));
        } else {
            let n = choose|n: (int, int)|
                m.in_grid(n.0, n.1) && adjacent((ex, ey), n) && !seen2[m.c_idx(n.0, n.1)]
                    && reach_avoid(m, seen2, n.0, n.1, a, b);
            assert(adjacent((ex, ey), n));
            let k2 = choose|k2: int|
                0 <= k2 < stack_new.len() && #[trigger] stack_new[k2] == ((
                n.0 as usize,
                n.1 as usize,
                ));
            assert(stack_new[k2].0 as int == n.0 && stack_new[k2].1 as int == n.1);
            assert(reach_avoid(m, seen2, stack_new[k2].0 as int, stack_new[k2].1 as int, a, b));
        }
    }
}

/// A stack entry of the flood fill is justified by a reachable neighbor.
pub open spec fn fill_justified(m: GridModel, sx: int, sy: int, a: int, b: int) -> bool {
    exists|d: (int, int)|
        m.in_grid(d.0, d.1) && reachable(m, sx, sy, d.0, d.1) && adjacent(d, (a, b))
}

/// How many cells the flood fill has not yet visited.
pub open spec fn count_false(s: Seq<bool>) -> nat
    decreases s.len(),
{
    if s.len() == 0 {
        0nat
    } else {
        ((if s[0] {
            0nat
        } else {
            1nat
        }) + count_false(s.drop_first())) as nat
    }
}

/// Visiting one unvisited cell lowers the unvisited count by one.
pub proof fn lemma_count_false_update(s: Seq<bool>, i: int)
    requires
        0 <= i < s.len(),
        !s[i],
    ensures
        count_false(s.update(i, true)) + 1 == count_false(s),
    decreases s.len(),
{
    let s2 = s.update(i, true);
    if i == 0 {
        assert(s2.drop_first() =~= s.drop_first());
    } else {
        assert(s2[0] == s[0]);
        assert(s2.drop_first() =~= s.drop_first().update(i - 1, true));
        lemma_count_false_update(s.drop_first(), i - 1);
    }
}

/// Owns the staggered velocity arrays, the classification array, the
/// solver parameters, and the boundary registry.
#[derive(Debug)]
pub struct Fluid {
    pub x: usize,
    pub y: usize,
    pub u: Vec<i64>,
    pub v: Vec<i64>,
    pub nu: Vec<i64>,
    pub nv: Vec<i64>,
    pub vorticity: Vec<i64>,
    pub element: Vec<Ele>,
    pub overrelaxation: i64,
    pub iters: usize,
    pub delta_t: i64,
    pub source_velocity: i64,
    pub grid_size: i64,
    pub epsilon: i64,
    pub boundaries: Vec<Vector<usize>>,
}

impl View for Fluid {
    type V = GridModel;

    open spec fn view(&self) -> GridModel {
        GridModel {
            x: self.x as int,
            y: self.y as int,
            u: self.u@,
            v: self.v@,
            nu: self.nu@,
            nv: self.nv@,
            vorticity: self.vorticity@,
            element: self.element@,
            overrelaxation: self.overrelaxation as int,
            iters: self.iters as int,
            delta_t: self.delta_t as int,
            source_velocity: self.source_velocity as int,
            grid_size: self.grid_size as int,
            epsilon: self.epsilon as int,
            boundaries: self.boundaries@,
        }
    }
}

/// A vector of `n` zero samples.
fn zeros(n: usize) -> (r: Vec<i64>)
    ensures
        r@.len() == n,
        forall|i: int| 0 <= i < n ==> r@[i] == 0i64,
{
    let mut r: Vec<i64> = Vec::new();
    let mut k: usize = 0;
    while k < n
        invariant
            k <= n,
            r@.len() == k,
            forall|i: int| 0 <= i < k ==> r@[i] == 0i64,
        decreases n - k,
    {
        r.push(0);
        k = k + 1;
    }
    r
}

/// A fresh copy of a sample vector.
fn copy_samples(src: &Vec<i64>) -> (r: Vec<i64>)
    ensures
        r@ == src@,
{
    let mut r: Vec<i64> = Vec::new();
    let mut k: usize = 0;
    while k < src.len()
        invariant
            k <= src@.len(),
            r@ == src@.subrange(0, k as int),
        decreases src@.len() - k,
    {
        r.push(src[k]);
        proof {
            assert(src@.subrange(0, k as int).push(src@[k as int]) =~= src@.subrange(
                0,
                k as int + 1,
            ));
        }
        k = k + 1;
    }
    proof {
        assert(r@ =~= src@);
    }
    r
}

/// A vector of `n` unvisited marks.
fn vec_false(n: usize) -> (r: Vec<bool>)
    ensures
        r@.len() == n,
        forall|i: int| 0 <= i < n ==> !r@[i],
{
    let mut r: Vec<bool> = Vec::new();
    let mut k: usize = 0;
    while k < n
        invariant
            k <= n,
            r@.len() == k,
            forall|i: int| 0 <= i < k ==> !r@[i],
        decreases n - k,
    {
        r.push(false);
        k = k + 1;
    }
    r
}

/// A vector of `n` Fluid cells.
fn all_fluid(n: usize) -> (r: Vec<Ele>)
    ensures
        r@.len() == n,
        forall|i: int| 0 <= i < n ==> r@[i] is Fluid,
{
    let mut r: Vec<Ele> = Vec::new();
    let mut k: usize = 0;
    while k < n
        invariant
            k <= n,
            r@.len() == k,
            forall|i: int| 0 <= i < k ==> r@[i] is Fluid,
        decreases n - k,
    {
        r.push(Ele::Fluid);
        k = k + 1;
    }
    r
}

impl Fluid {
    pub fn construct(config: &Config) -> (r: Fluid)
        requires
            config.wf(),
        ensures
            r@.wf(),
            r@.registry_complete(),
            r@.x == config.x,
            r@.y == config.y,
            r@.overrelaxation == config.overrelaxation,
            r@.iters == config.iters,
            r@.delta_t == config.delta_t,
            r@.source_velocity == config.source_velocity,
            r@.grid_size == config.grid_size,
            r@.epsilon == config.epsilon,
            forall|i: int| 0 <= i < r@.u.len() ==> r@.u[i] == 0i64,
            forall|i: int| 0 <= i < r@.v.len() ==> r@.v[i] == 0i64,
            forall|i: int| 0 <= i < r@.nu.len() ==> r@.nu[i] == 0i64,
            forall|i: int| 0 <= i < r@.nv.len() ==> r@.nv[i] == 0i64,
            forall|x: int, y: int| r@.in_grid(x, y) ==> (#[trigger] r@.cell(x, y)) is Fluid,
            r@.boundaries.len() == 0,
    {
        proof {
            lemma_grid_idx((config.x + 1) as int, config.y as int, 0, 0);
            lemma_grid_idx(config.x as int, (config.y + 1) as int, 0, 0);
        }
        proof {
            assert((config.y as int) * (config.x as int) <= 100020001) by (nonlinear_arith)
                requires
                    config.x <= 10000,
                    config.y <= 10000,
            ;
        }
        let ulen: usize = config.y * (config.x + 1);
        let vlen: usize = (config.y + 1) * config.x;
        let clen: usize = config.y * config.x;
        let r = Fluid {
            x: config.x,
            y: config.y,
            u: zeros(ulen),
            v: zeros(vlen),
            nu: zeros(ulen),
            nv: zeros(vlen),
            vorticity: zeros(clen),
            element: all_fluid(clen),
            overrelaxation: config.overrelaxation,
            iters: config.iters,
            delta_t: config.delta_t,
            source_velocity: config.source_velocity,
            grid_size: config.grid_size,
            epsilon: config.epsilon,
            boundaries: Vec::new(),
        };
        proof {
            assert forall|x: int, y: int| r@.in_grid(x, y) implies (#[trigger] r@.cell(x, y))
                is Fluid by {
                lemma_grid_idx(r@.x, r@.y, x, y);
            }
        }
        r
    }

    /// Whether `(x, y)` is a cell of the grid.
    pub fn inbounds(&self, x: usize, y: usize) -> (r: bool)
        ensures
            r == self@.in_grid(x as int, y as int),
    {
        x < self.x && y < self.y
    }

    /// Places a Static boundary at `(x, y)`; out-of-bounds coordinates
    /// are silently ignored.
    pub fn assert_boundary_place(&mut self, x: usize, y: usize)
        requires
            old(self)@.wf(),
        ensures
            final(self)@ == (if old(self)@.in_grid(x as int, y as int) {
                old(self)@.place_cell(x as int, y as int, Ele::Static)
            } else {
                old(self)@
            }),
            final(self)@.wf(),
            old(self)@.registry_complete() ==> final(self)@.registry_complete(),
    {
        if self.inbounds(x, y) {
            let oo = crate::fluidapi::Oo::construct(x, y);
            oo.set_here(self, Ele::Static);
        }
    }

    /// Reverts the cell at `(x, y)` to Fluid; out-of-bounds coordinates
    /// are silently ignored.
    pub fn assert_boundary_delete(&mut self, x: usize, y: usize)
        requires
            old(self)@.wf(),
        ensures
            final(self)@ == (if old(self)@.in_grid(x as int, y as int) {
                old(self)@.place_cell(x as int, y as int, Ele::Fluid)
            } else {
                old(self)@
            }),
            final(self)@.wf(),
            old(self)@.registry_complete() ==> final(self)@.registry_complete(),
    {
        if self.inbounds(x, y) {
            let oo = crate::fluidapi::Oo::construct(x, y);
            oo.remove_here(self);
        }
    }

    /// Fills the top row with `fill`.
    fn fill_top_border(&mut self, fill: Ele)
        requires
            old(self)@.wf(),
            ele_wf(fill),
        ensures
            final(self)@.wf(),
            old(self)@.registry_complete() ==> final(self)@.registry_complete(),
            old(self)@.same_but_cells(final(self)@),
            forall|a: int, b: int|
                old(self)@.in_grid(a, b) ==> final(self)@.cell(a, b) == (if b == 0 {
                    fill
                } else {
                    old(self)@.cell(a, b)
                }),
            final(self)@ == old(self)@.fill_row_upto(0, fill, old(self)@.x),
    {
        let ghost m0: GridModel = self@;
        let xs: usize = self.x;
        let mut x: usize = 0;
        while x < xs
            invariant
                m0.wf(),
                self@.wf(),
                x <= xs,
                xs == m0.x,
                ele_wf(fill),
                m0.registry_complete() ==> self@.registry_complete(),
                m0.same_but_cells(self@),
                self@ == m0.fill_row_upto(0, fill, x as int),
                forall|a: int, b: int|
                    m0.in_grid(a, b) ==> self@.cell(a, b) == (if b == 0 && a < x {
                        fill
                    } else {
                        m0.cell(a, b)
                    }),
            decreases xs - x,
        {
            let ghost prev: GridModel = self@;
            let oo = crate::fluidapi::Oo::construct(x, 0);
            oo.set_here(self, fill);
            proof {
                assert(self@ == m0.fill_row_upto(0, fill, x as int + 1));
                assert forall|a: int, b: int| m0.in_grid(a, b) implies self@.cell(a, b) == (if b
                    == 0 && a < x + 1 {
                    fill
                } else {
                    m0.cell(a, b)
                }) by {
                    lemma_place_cell_lookup(prev, x as int, 0, fill, a, b);
                }
            }
            x = x + 1;
        }
    }

    /// Fills the bottom row with `fill`.
    fn fill_bot_border(&mut self, fill: Ele)
        requires
            old(self)@.wf(),
            ele_wf(fill),
        ensures
            final(self)@.wf(),
            old(self)@.registry_complete() ==> final(self)@.registry_complete(),
            old(self)@.same_but_cells(final(self)@),
            forall|a: int, b: int|
                old(self)@.in_grid(a, b) ==> final(self)@.cell(a, b) == (if b == old(self)@.y - 1 {
                    fill
                } else {
                    old(self)@.cell(a, b)
                }),
            final(self)@ == old(self)@.fill_row_upto(old(self)@.y - 1, fill, old(self)@.x),
    {
        let ghost m0: GridModel = self@;
        let xs: usize = self.x;
        let yb: usize = self.y - 1;
        let mut x: usize = 0;
        while x < xs
            invariant
                m0.wf(),
                self@.wf(),
                x <= xs,
                xs == m0.x,
                yb == m0.y - 1,
                ele_wf(fill),
                m0.registry_complete() ==> self@.registry_complete(),
                m0.same_but_cells(self@),
                self@ == m0.fill_row_upto(m0.y - 1, fill, x as int),
                forall|a: int, b: int|
                    m0.in_grid(a, b) ==> self@.cell(a, b) == (if b == m0.y - 1 && a < x {
                        fill
                    } else {
                        m0.cell(a, b)
                    }),
            decreases xs - x,
        {
            let ghost prev: GridModel = self@;
            let oo = crate::fluidapi::Oo::construct(x, yb);
            oo.set_here(self, fill);
            proof {
                assert(self@ == m0.fill_row_upto(m0.y - 1, fill, x as int + 1));
                assert forall|a: int, b: int| m0.in_grid(a, b) implies self@.cell(a, b) == (if b
                    == m0.y - 1 && a < x + 1 {
                    fill
                } else {
                    m0.cell(a, b)
                }) by {
                    lemma_place_cell_lookup(prev, x as int, yb as int, fill, a, b);
                }
            }
            x = x + 1;
        }
    }

    /// Fills the right column with `fill`.
    fn fill_right_border(&mut self, fill: Ele)
        requires
            old(self)@.wf(),
            ele_wf(fill),
        ensures
            final(self)@.wf(),
            old(self)@.registry_complete() ==> final(self)@.registry_complete(),
            old(self)@.same_but_cells(final(self)@),
            forall|a: int, b: int|
                old(self)@.in_grid(a, b) ==> final(self)@.cell(a, b) == (if a == old(self)@.x - 1 {
                    fill
                } else {
                    old(self)@.cell(a, b)
                }),
            final(self)@ == old(self)@.fill_col_upto(old(self)@.x - 1, fill, old(self)@.y),
    {
        let ghost m0: GridModel = self@;
        let ys: usize = self.y;
        let xr: usize = self.x - 1;
        let mut y: usize = 0;
        while y < ys
            invariant
                m0.wf(),
                self@.wf(),
                y <= ys,
                ys == m0.y,
                xr == m0.x - 1,
                ele_wf(fill),
                m0.registry_complete() ==> self@.registry_complete(),
                m0.same_but_cells(self@),
                self@ == m0.fill_col_upto(m0.x - 1, fill, y as int),
                forall|a: int, b: int|
                    m0.in_grid(a, b) ==> self@.cell(a, b) == (if a == m0.x - 1 && b < y {
                        fill
                    } else {
                        m0.cell(a, b)
                    }),
            decreases ys - y,
        {
            let ghost prev: GridModel = self@;
            let oo = crate::fluidapi::Oo::construct(xr, y);
            oo.set_here(self, fill);
            proof {
                assert(self@ == m0.fill_col_upto(m0.x - 1, fill, y as int + 1));
                assert forall|a: int, b: int| m0.in_grid(a, b) implies self@.cell(a, b) == (if a
                    == m0.x - 1 && b < y + 1 {
                    fill
                } else {
                    m0.cell(a, b)
                }) by {
                    lemma_place_cell_lookup(prev, xr as int, y as int, fill, a, b);
                }
            }
            y = y + 1;
        }
    }

    /// Fills the left column with `fill`.
    #[allow(dead_code)]
    fn fill_left_border(&mut self, fill: Ele)
        requires
            old(self)@.wf(),
            ele_wf(fill),
        ensures
            final(self)@.wf(),
            old(self)@.registry_complete() ==> final(self)@.registry_complete(),
            old(self)@.same_but_cells(final(self)@),
            forall|a: int, b: int|
                old(self)@.in_grid(a, b) ==> final(self)@.cell(a, b) == (if a == 0 {
                    fill
                } else {
                    old(self)@.cell(a, b)
                }),
    {
        let ghost m0: GridModel = self@;
        let ys: usize = self.y;
        let mut y: usize = 0;
        while y < ys
            invariant
                m0.wf(),
                self@.wf(),
                y <= ys,
                ys == m0.y,
                ele_wf(fill),
                m0.registry_complete() ==> self@.registry_complete(),
                m0.same_but_cells(self@),
                forall|a: int, b: int|
                    m0.in_grid(a, b) ==> self@.cell(a, b) == (if a == 0 && b < y {
                        fill
                    } else {
                        m0.cell(a, b)
                    }),
            decreases ys - y,
        {
            let ghost prev: GridModel = self@;
            let oo = crate::fluidapi::Oo::construct(0, y);
            oo.set_here(self, fill);
            proof {
                assert forall|a: int, b: int| m0.in_grid(a, b) implies self@.cell(a, b) == (if a
                    == 0 && b < y + 1 {
                    fill
                } else {
                    m0.cell(a, b)
                }) by {
                    lemma_place_cell_lookup(prev, 0, y as int, fill, a, b);
                }
            }
            y = y + 1;
        }
    }

    /// Places circular Static geometry of the given radius around
    /// `(center_x, center_y)`.
    fn create_circle(&mut self, center_x: usize, center_y: usize, radius: i64)
        requires
            old(self)@.wf(),
            center_x <= DMAX,
            center_y <= DMAX,
            0 <= radius <= DMAX,
        ensures
            final(self)@.wf(),
            old(self)@.registry_complete() ==> final(self)@.registry_complete(),
            old(self)@.same_but_cells(final(self)@),
            forall|a: int, b: int|
                old(self)@.in_grid(a, b) ==> final(self)@.cell(a, b) == (if in_circle(
                    center_x as int,
                    center_y as int,
                    radius as int,
                    a,
                    b,
                ) {
                    Ele::Static
                } else {
                    old(self)@.cell(a, b)
                }),
            final(self)@ == old(self)@.circle_upto(
                center_x as int,
                center_y as int,
                radius as int,
                old(self)@.y,
            ),
    {
        let ghost m0: GridModel = self@;
        let ghost cx: int = center_x as int;
        let ghost cy: int = center_y as int;
        let ghost rr: int = radius as int;
        let ys: usize = self.y;
        let xs: usize = self.x;
        let mut y: usize = 0;
        while y < ys
            invariant
                m0.wf(),
                self@.wf(),
                y <= ys,
                ys == m0.y,
                xs == m0.x,
                cx <= 10000 && cy <= 10000 && 0 <= rr <= 10000,
                cx == center_x as int && cy == center_y as int && rr == radius as int,
                m0.registry_complete() ==> self@.registry_complete(),
                m0.same_but_cells(self@),
                self@ == m0.circle_upto(cx, cy, rr, y as int),
                forall|a: int, b: int|
                    m0.in_grid(a, b) ==> self@.cell(a, b) == (if b < y && in_circle(
                        cx,
                        cy,
                        rr,
                        a,
                        b,
                    ) {
                        Ele::Static
                    } else {
                        m0.cell(a, b)
                    }),
            decreases ys - y,
        {
            let ghost rowbase: GridModel = self@;
            let mut x: usize = 0;
            while x < xs
                invariant
                    m0.wf(),
                    self@.wf(),
                    y < ys,
                    x <= xs,
                    ys == m0.y,
                    xs == m0.x,
                    cx <= 10000 && cy <= 10000 && 0 <= rr <= 10000,
                    cx == center_x as int && cy == center_y as int && rr == radius as int,
                    m0.registry_complete() ==> self@.registry_complete(),
                    m0.same_but_cells(self@),
                    rowbase == m0.circle_upto(cx, cy, rr, y as int),
                    self@ == rowbase.circle_row_upto(cx, cy, rr, y as int, x as int),
                    forall|a: int, b: int|
                        m0.in_grid(a, b) ==> self@.cell(a, b) == (if (b < y || (b == y && a < x))
                            && in_circle(cx, cy, rr, a, b) {
                            Ele::Static
                        } else {
                            m0.cell(a, b)
                        }),
                decreases xs - x,
            {
                let dx: i64 = x as i64 - center_x as i64;
                let dy: i64 = y as i64 - center_y as i64;
                proof {
                    assert(mag(dx as int) <= 20000 && mag(dy as int) <= 20000);
                    assert(dx as int * (dx as int) <= 400000000 && dy as int * (dy as int)
                        <= 400000000 && dx as int * (dx as int) >= 0 && dy as int * (dy as int)
                        >= 0 && rr * rr <= 100000000 && rr * rr >= 0) by (nonlinear_arith)
                        requires
                            mag(dx as int) <= 20000,
                            mag(dy as int) <= 20000,
                            0 <= rr <= 10000,
                    ;
                }
                let inside: bool = dx * dx + dy * dy < radius * radius;
                let ghost prev: GridModel = self@;
                if inside {
                    let oo = crate::fluidapi::Oo::construct(x, y);
                    oo.set_here(self, Ele::Static);
                }
                proof {
                    assert(inside == in_circle(cx, cy, rr, x as int, y as int));
                    assert(self@ == rowbase.circle_row_upto(cx, cy, rr, y as int, x as int + 1));
                    assert forall|a: int, b: int| m0.in_grid(a, b) implies self@.cell(a, b) == (
                    if (b < y || (b == y && a < x + 1)) && in_circle(cx, cy, rr, a, b) {
                        Ele::Static
                    } else {
                        m0.cell(a, b)
                    }) by {
                        if inside {
                            lemma_place_cell_lookup(prev, x as int, y as int, Ele::Static, a, b);
                        }
                    }
                }
                x = x + 1;
            }
            proof {
                assert(self@ == m0.circle_upto(cx, cy, rr, y as int + 1));
            }
            y = y + 1;
        }
    }

    /// Places rectangular Static geometry covering
    /// `[x0, x1) × [y0, y1)`.
    #[allow(dead_code)]
    fn create_rectangle(&mut self, x0: usize, y0: usize, x1: usize, y1: usize)
        requires
            old(self)@.wf(),
            x1 <= old(self)@.x,
            y1 <= old(self)@.y,
        ensures
            final(self)@.wf(),
            old(self)@.registry_complete() ==> final(self)@.registry_complete(),
            old(self)@.same_but_cells(final(self)@),
            forall|a: int, b: int|
                old(self)@.in_grid(a, b) ==> final(self)@.cell(a, b) == (if x0 <= a < x1 && y0 <= b
                    < y1 {
                    Ele::Static
                } else {
                    old(self)@.cell(a, b)
                }),
    {
        let ghost m0: GridModel = self@;
        let mut y: usize = y0;
        while y < y1
            invariant
                m0.wf(),
                self@.wf(),
                y0 <= y <= y1 || (y == y0 && y1 < y0),
                x1 <= m0.x,
                y1 <= m0.y,
                m0.registry_complete() ==> self@.registry_complete(),
                m0.same_but_cells(self@),
                forall|a: int, b: int|
                    m0.in_grid(a, b) ==> self@.cell(a, b) == (if x0 <= a < x1 && y0 <= b < y {
                        Ele::Static
                    } else {
                        m0.cell(a, b)
                    }),
            decreases y1 - y,
        {
            let mut x: usize = x0;
            while x < x1
                invariant
                    m0.wf(),
                    self@.wf(),
                    y0 <= y < y1,
                    x0 <= x <= x1 || (x == x0 && x1 < x0),
                    x1 <= m0.x,
                    y1 <= m0.y,
                    m0.registry_complete() ==> self@.registry_complete(),
                    m0.same_but_cells(self@),
                    forall|a: int, b: int|
                        m0.in_grid(a, b) ==> self@.cell(a, b) == (if (x0 <= a < x1 && y0 <= b < y)
                            || (y0 <= y == b && x0 <= a < x) {
                            Ele::Static
                        } else {
                            m0.cell(a, b)
                        }),
                decreases x1 - x,
            {
                let ghost prev: GridModel = self@;
                let oo = crate::fluidapi::Oo::construct(x, y);
                oo.set_here(self, Ele::Static);
                proof {
                    assert forall|a: int, b: int| m0.in_grid(a, b) implies self@.cell(a, b) == (
                    if (x0 <= a < x1 && y0 <= b < y) || (y0 <= y == b && x0 <= a < x + 1) {
                        Ele::Static
                    } else {
                        m0.cell(a, b)
                    }) by {
                        lemma_place_cell_lookup(prev, x as int, y as int, Ele::Static, a, b);
                    }
                }
                x = x + 1;
            }
            y = y + 1;
        }
    }

    /// One staggered sample of the chosen field.
    fn sample_at(&self, f: Field, x: usize, y: usize) -> (r: i64)
        requires
            self@.wf(),
            x < self@.x,
            y < self@.y,
        ensures
            r as int == self@.sample(f, x as int, y as int),
            mag(r as int) <= VMAX as int,
    {
        if matches!(f, Field::U) {
            proof {
                lemma_grid_idx(self@.x + 1, self@.y, x as int, y as int);
            }
            self.u[y * (self.x + 1) + x]
        } else {
            proof {
                lemma_grid_idx(self@.x, self@.y + 1, x as int, y as int);
            }
            self.v[y * self.x + x]
        }
    }

    /// Four-point average of `u` around the `v` sample at `(x, y)`.
    fn average_u(&self, x: usize, y: usize) -> (r: i64)
        requires
            self@.wf(),
            x + 1 <= self@.x,
            1 <= y < self@.y,
        ensures
            r as int == self@.average_u_spec(x as int, y as int),
            mag(r as int) <= VMAX as int,
    {
        proof {
            lemma_grid_idx(self@.x + 1, self@.y, x as int, y as int - 1);
            lemma_grid_idx(self@.x + 1, self@.y, x as int + 1, y as int - 1);
            lemma_grid_idx(self@.x + 1, self@.y, x as int, y as int);
            lemma_grid_idx(self@.x + 1, self@.y, x as int + 1, y as int);
        }
        let w: usize = self.x + 1;
        let a: i64 = self.u[(y - 1) * w + x];
        let b: i64 = self.u[(y - 1) * w + x + 1];
        let c: i64 = self.u[y * w + x];
        let d: i64 = self.u[y * w + x + 1];
        let sum: i64 = a + b + c + d;
        let r: i64 = crate::units::div_trunc(sum, 4);
        proof {
            crate::units::lemma_tdiv_bounds(sum as int, 4);
            assert(mag(r as int) * 4 <= mag(sum as int));
            assert(mag(r as int) <= VMAX as int) by (nonlinear_arith)
                requires
                    mag(r as int) * 4 <= mag(sum as int),
                    mag(sum as int) <= 4 * (VMAX as int),
            ;
        }
        r
    }

    /// Four-point average of `v` around the `u` sample at `(x, y)`.
    fn average_v(&self, x: usize, y: usize) -> (r: i64)
        requires
            self@.wf(),
            1 <= x < self@.x,
            y + 1 <= self@.y,
        ensures
            r as int == self@.average_v_spec(x as int, y as int),
            mag(r as int) <= VMAX as int,
    {
        proof {
            lemma_grid_idx(self@.x, self@.y + 1, x as int - 1, y as int + 1);
            lemma_grid_idx(self@.x, self@.y + 1, x as int, y as int + 1);
            lemma_grid_idx(self@.x, self@.y + 1, x as int - 1, y as int);
            lemma_grid_idx(self@.x, self@.y + 1, x as int, y as int);
        }
        let w: usize = self.x;
        let a: i64 = self.v[(y + 1) * w + x - 1];
        let b: i64 = self.v[(y + 1) * w + x];
        let c: i64 = self.v[y * w + x - 1];
        let d: i64 = self.v[y * w + x];
        let sum: i64 = a + b + c + d;
        let r: i64 = crate::units::div_trunc(sum, 4);
        proof {
            crate::units::lemma_tdiv_bounds(sum as int, 4);
            assert(mag(r as int) * 4 <= mag(sum as int));
            assert(mag(r as int) <= VMAX as int) by (nonlinear_arith)
                requires
                    mag(r as int) * 4 <= mag(sum as int),
                    mag(sum as int) <= 4 * (VMAX as int),
            ;
        }
        r
    }

    /// Bilinear interpolation of a staggered field at the continuous
    /// position `(px, py)` in ticks: the position is shifted by the
    /// field's half-cell offset, clamped into the grid, and resampled
    /// from the four surrounding samples.
    fn double_lin_int(&self, px: i64, py: i64, field: Field) -> (r: i64)
        requires
            self@.wf(),
            mag(px as int) <= 2000000000000000000,
            mag(py as int) <= 2000000000000000000,
        ensures
            r as int == self@.interp_at(px as int, py as int, field),
            mag(r as int) <= VMAX as int,
    {
        let ox: i64 = if matches!(field, Field::U) {
            0
        } else {
            500
        };
        let oy: i64 = if matches!(field, Field::U) {
            500
        } else {
            0
        };
        let hix: i64 = (self.x as i64 - 1) * 1000;
        let hiy: i64 = (self.y as i64 - 1) * 1000;
        let cx: i64 = (px - ox).clamped(0, hix);
        let cy: i64 = (py - oy).clamped(0, hiy);
        proof {
            assert(cx as int == clamp_int(px as int - ox as int, 0, (self@.x - 1) * 1000));
            assert(cy as int == clamp_int(py as int - oy as int, 0, (self@.y - 1) * 1000));
            vstd::arithmetic::div_mod::lemma_fundamental_div_mod(cx as int, 1000);
            vstd::arithmetic::div_mod::lemma_fundamental_div_mod(cy as int, 1000);
            assert(0 <= cx as int / 1000 <= self@.x - 1 && 0 <= cy as int / 1000 <= self@.y - 1)
                by (nonlinear_arith)
                requires
                    0 <= cx as int <= (self@.x - 1) * 1000,
                    0 <= cy as int <= (self@.y - 1) * 1000,
                    cx as int == 1000 * (cx as int / 1000) + cx as int % 1000,
                    cy as int == 1000 * (cy as int / 1000) + cy as int % 1000,
                    0 <= cx as int % 1000 < 1000,
                    0 <= cy as int % 1000 < 1000,
                    self@.x >= 2,
                    self@.y >= 2,
            ;
        }
        let x0: i64 = crate::units::div_trunc(cx, 1000);
        let y0: i64 = crate::units::div_trunc(cy, 1000);
        let xm: i64 = self.x as i64 - 1;
        let ym: i64 = self.y as i64 - 1;
        let x1: i64 = if x0 + 1 < xm {
            x0 + 1
        } else {
            xm
        };
        let y1: i64 = if y0 + 1 < ym {
            y0 + 1
        } else {
            ym
        };
        let tx: i64 = cx - x0 * 1000;
        let ty: i64 = cy - y0 * 1000;
        let sx: i64 = 1000 - tx;
        let sy: i64 = 1000 - ty;
        proof {
            assert(0 <= tx <= 999 && 0 <= ty <= 999);
            assert(x1 as int == min_int(x0 as int + 1, self@.x - 1));
            assert(y1 as int == min_int(y0 as int + 1, self@.y - 1));
        }
        let f00: i64 = self.sample_at(field, x0 as usize, y0 as usize);
        let f10: i64 = self.sample_at(field, x1 as usize, y0 as usize);
        let f11: i64 = self.sample_at(field, x1 as usize, y1 as usize);
        let f01: i64 = self.sample_at(field, x0 as usize, y1 as usize);
        proof {
            assert(0 <= sx as int * (sy as int) <= 1000000 && 0 <= tx as int * (sy as int)
                <= 1000000 && 0 <= tx as int * (ty as int) <= 1000000 && 0 <= sx as int
                * (ty as int) <= 1000000) by (nonlinear_arith)
                requires
                    0 <= tx <= 999,
                    0 <= ty <= 999,
                    sx == 1000 - tx,
                    sy == 1000 - ty,
            ;
            assert(mag(sx as int * (sy as int) * (f00 as int)) <= sx as int * (sy as int) * (
            VMAX as int) && mag(tx as int * (sy as int) * (f10 as int)) <= tx as int * (sy as int)
                * (VMAX as int) && mag(tx as int * (ty as int) * (f11 as int)) <= tx as int * (
            ty as int) * (VMAX as int) && mag(sx as int * (ty as int) * (f01 as int)) <= sx as int
                * (ty as int) * (VMAX as int)) by (nonlinear_arith)
                requires
                    0 <= sx as int * (sy as int) <= 1000000,
                    0 <= tx as int * (sy as int) <= 1000000,
                    0 <= tx as int * (ty as int) <= 1000000,
                    0 <= sx as int * (ty as int) <= 1000000,
                    mag(f00 as int) <= VMAX as int,
                    mag(f10 as int) <= VMAX as int,
                    mag(f11 as int) <= VMAX as int,
                    mag(f01 as int) <= VMAX as int,
            ;
            assert(sx as int * (sy as int) + tx as int * (sy as int) + tx as int * (ty as int)
                + sx as int * (ty as int) == 1000000) by (nonlinear_arith)
                requires
                    sx == 1000 - tx,
                    sy == 1000 - ty,
            ;
        }
        let t1: i64 = sx * sy * f00;
        let t2: i64 = tx * sy * f10;
        let t3: i64 = tx * ty * f11;
        let t4: i64 = sx * ty * f01;
        let sum: i64 = t1 + t2 + t3 + t4;
        let r: i64 = crate::units::div_trunc(sum, 1000000);
        proof {
            crate::units::lemma_tdiv_bounds(sum as int, 1000000);
            assert(mag(r as int) * 1000000 <= mag(sum as int));
            assert(mag(sum as int) <= 1000000 * (VMAX as int));
            assert(mag(r as int) <= VMAX as int) by (nonlinear_arith)
                requires
                    mag(r as int) * 1000000 <= mag(sum as int),
                    mag(sum as int) <= 1000000 * (VMAX as int),
            ;
        }
        r
    }

    /// Semi-Lagrangian advection: every interior face sample whose two
    /// adjoining cells are not Static is backtraced by
    /// `velocity * delta_t / grid_size` and bilinearly resampled into the
    /// scratch arrays, which then replace the velocity arrays.
    fn semi_lagrangian_advection(&mut self)
        requires
            old(self)@.wf(),
        ensures
            final(self)@ == old(self)@.advect_spec(),
            final(self)@.wf(),
    {
        let ghost m0: GridModel = self@;
        let ys: usize = self.y;
        let xs: usize = self.x;
        let mut i: usize = 1;
        while i < ys
            invariant
                m0.wf(),
                self@.wf(),
                1 <= i <= ys,
                ys == m0.y,
                xs == m0.x,
                self@.u == m0.u,
                self@.v == m0.v,
                self@.element == m0.element,
                self@.boundaries == m0.boundaries,
                self@.vorticity == m0.vorticity,
                self@.x == m0.x,
                self@.y == m0.y,
                m0.same_params(self@),
                self@.nu.len() == m0.nu.len(),
                self@.nv.len() == m0.nv.len(),
                samples_ok(self@.nu, VMAX as int),
                samples_ok(self@.nv, VMAX as int),
                forall|idx: int|
                    0 <= idx < m0.nu.len() ==> self@.nu[idx] == (if idx / (m0.x + 1) < i as int {
                        m0.advected_nu_at(idx)
                    } else {
                        m0.nu[idx]
                    }),
                forall|idx: int|
                    0 <= idx < m0.nv.len() ==> self@.nv[idx] == (if idx / m0.x < i as int {
                        m0.advected_nv_at(idx)
                    } else {
                        m0.nv[idx]
                    }),
            decreases ys - i,
        {
            let mut j: usize = 1;
            while j < xs
                invariant
                    m0.wf(),
                    self@.wf(),
                    1 <= i < ys,
                    1 <= j <= xs,
                    ys == m0.y,
                    xs == m0.x,
                    self@.u == m0.u,
                    self@.v == m0.v,
                    self@.element == m0.element,
                    self@.boundaries == m0.boundaries,
                    self@.vorticity == m0.vorticity,
                    self@.x == m0.x,
                    self@.y == m0.y,
                    m0.same_params(self@),
                    self@.nu.len() == m0.nu.len(),
                    self@.nv.len() == m0.nv.len(),
                    samples_ok(self@.nu, VMAX as int),
                    samples_ok(self@.nv, VMAX as int),
                    forall|idx: int|
                        0 <= idx < m0.nu.len() ==> self@.nu[idx] == (if idx / (m0.x + 1)
                            < i as int || (idx / (m0.x + 1) == i as int && idx % (m0.x + 1)
                            < j as int) {
                            m0.advected_nu_at(idx)
                        } else {
                            m0.nu[idx]
                        }),
                    forall|idx: int|
                        0 <= idx < m0.nv.len() ==> self@.nv[idx] == (if idx / m0.x < i as int || (
                        idx / m0.x == i as int && idx % m0.x < j as int) {
                            m0.advected_nv_at(idx)
                        } else {
                            m0.nv[idx]
                        }),
                decreases xs - j,
            {
                let ghost ii: int = i as int;
                let ghost jj: int = j as int;
                let oo = crate::fluidapi::Oo::construct(j, i);
                let adv_u: bool = i < ys - 1 && !oo.peek_element_here(self, -1, 0).is_static()
                    && !oo.peek_element_here(self, 0, 0).is_static();
                proof {
                    assert(adv_u == m0.u_advect_active(jj, ii));
                }
                if adv_u {
                    let u_loc: i64 = oo.peek_velocity(self, -1, 0);
                    let v_avg: i64 = self.average_v(j, i);
                    proof {
                        assert(u_loc as int == m0.u_at(jj, ii));
                        assert(v_avg as int == m0.average_v_spec(jj, ii));
                        assert(mag(u_loc as int * (self.delta_t as int)) <= 1000000000000000000
                            && mag(v_avg as int * (self.delta_t as int)) <= 1000000000000000000)
                            by (nonlinear_arith)
                            requires
                                mag(u_loc as int) <= 1000000000000,
                                mag(v_avg as int) <= 1000000000000,
                                0 <= self.delta_t <= 1000000,
                        ;
                    }
                    let offx: i64 = crate::units::div_trunc(u_loc * self.delta_t, self.grid_size);
                    let offy: i64 = crate::units::div_trunc(v_avg * self.delta_t, self.grid_size);
                    let px: i64 = (j as i64) * 1000 - offx;
                    let py: i64 = (i as i64) * 1000 + 500 - offy;
                    let val: i64 = self.double_lin_int(px, py, Field::U);
                    proof {
                        assert(self@.interp_at(px as int, py as int, Field::U) == m0.interp_at(
                            px as int,
                            py as int,
                            Field::U,
                        ));
                        assert(val as int == m0.backtraced_u(jj, ii));
                        lemma_grid_idx(m0.x + 1, m0.y, jj, ii);
                    }
                    let idxu: usize = i * (self.x + 1) + j;
                    let ghost pre: GridModel = self@;
                    self.nu.set(idxu, val);
                    proof {
                        assert forall|t: int| 0 <= t < self@.nu.len() implies mag(
                            (#[trigger] self@.nu[t]) as int,
                        ) <= VMAX as int by {
                            if t != idxu {
                                assert(self@.nu[t] == pre.nu[t]);
                            }
                        }
                    }
                }
                proof {
                    lemma_registry_wf_same_cells(m0, self@);
                    assert(self@.wf());
                    lemma_rowmajor_decode(m0.x + 1, jj, ii);
                    lemma_grid_idx(m0.x + 1, m0.y, jj, ii);
                    assert forall|idx: int| 0 <= idx < m0.nu.len() implies self@.nu[idx] == (if idx
                        / (m0.x + 1) < ii || (idx / (m0.x + 1) == ii && idx % (m0.x + 1) < jj + 1) {
                        m0.advected_nu_at(idx)
                    } else {
                        m0.nu[idx]
                    }) by {
                        vstd::arithmetic::div_mod::lemma_fundamental_div_mod(idx, m0.x + 1);
                        if idx == ii * (m0.x + 1) + jj {
                            assert(idx / (m0.x + 1) == ii && idx % (m0.x + 1) == jj);
                            assert(self@.nu[idx] == m0.advected_nu_at(idx));
                        } else {
                            if idx / (m0.x + 1) == ii && idx % (m0.x + 1) == jj {
                                assert(idx == (m0.x + 1) * ii + jj);
                            }
                        }
                    }
                }
                let adv_v: bool = j < xs - 1 && !oo.peek_element_here(self, 0, -1).is_static()
                    && !oo.peek_element_here(self, 0, 0).is_static();
                proof {
                    assert(adv_v == m0.v_advect_active(jj, ii));
                }
                if adv_v {
                    let u_avg: i64 = self.average_u(j, i);
                    let v_loc: i64 = oo.peek_velocity(self, 0, -1);
                    proof {
                        assert(v_loc as int == m0.v_at(jj, ii));
                        assert(u_avg as int == m0.average_u_spec(jj, ii));
                        assert(mag(v_loc as int * (self.delta_t as int)) <= 1000000000000000000
                            && mag(u_avg as int * (self.delta_t as int)) <= 1000000000000000000)
                            by (nonlinear_arith)
                            requires
                                mag(v_loc as int) <= 1000000000000,
                                mag(u_avg as int) <= 1000000000000,
                                0 <= self.delta_t <= 1000000,
                        ;
                    }
                    let offx: i64 = crate::units::div_trunc(u_avg * self.delta_t, self.grid_size);
                    let offy: i64 = crate::units::div_trunc(v_loc * self.delta_t, self.grid_size);
                    let px: i64 = (j as i64) * 1000 + 500 - offx;
                    let py: i64 = (i as i64) * 1000 - offy;
                    let val: i64 = self.double_lin_int(px, py, Field::V);
                    proof {
                        assert(self@.interp_at(px as int, py as int, Field::V) == m0.interp_at(
                            px as int,
                            py as int,
                            Field::V,
                        ));
                        assert(val as int == m0.backtraced_v(jj, ii));
                        lemma_grid_idx(m0.x, m0.y + 1, jj, ii);
                    }
                    let idxv: usize = i * self.x + j;
                    let ghost pre: GridModel = self@;
                    self.nv.set(idxv, val);
                    proof {
                        assert forall|t: int| 0 <= t < self@.nv.len() implies mag(
                            (#[trigger] self@.nv[t]) as int,
                        ) <= VMAX as int by {
                            if t != idxv {
                                assert(self@.nv[t] == pre.nv[t]);
                            }
                        }
                    }
                }
                proof {
                    lemma_registry_wf_same_cells(m0, self@);
                    assert(self@.wf());
                    lemma_rowmajor_decode(m0.x, jj, ii);
                    lemma_grid_idx(m0.x, m0.y + 1, jj, ii);
                    assert forall|idx: int| 0 <= idx < m0.nv.len() implies self@.nv[idx] == (if idx
                        / m0.x < ii || (idx / m0.x == ii && idx % m0.x < jj + 1) {
                        m0.advected_nv_at(idx)
                    } else {
                        m0.nv[idx]
                    }) by {
                        vstd::arithmetic::div_mod::lemma_fundamental_div_mod(idx, m0.x);
                        if idx == ii * m0.x + jj {
                            assert(idx / m0.x == ii && idx % m0.x == jj);
                            assert(self@.nv[idx] == m0.advected_nv_at(idx));
                        } else {
                            if idx / m0.x == ii && idx % m0.x == jj {
                                assert(idx == m0.x * ii + jj);
                            }
                        }
                    }
                }
                proof {
                    lemma_registry_wf_same_cells(m0, self@);
                    assert(self@.wf());
                }
                j = j + 1;
            }
            proof {
                assert forall|idx: int| 0 <= idx < m0.nu.len() implies self@.nu[idx] == (if idx / (
                m0.x + 1) < i as int + 1 {
                    m0.advected_nu_at(idx)
                } else {
                    m0.nu[idx]
                }) by {
                    vstd::arithmetic::div_mod::lemma_fundamental_div_mod(idx, m0.x + 1);
                }
                assert forall|idx: int| 0 <= idx < m0.nv.len() implies self@.nv[idx] == (if idx
                    / m0.x < i as int + 1 {
                    m0.advected_nv_at(idx)
                } else {
                    m0.nv[idx]
                }) by {
                    vstd::arithmetic::div_mod::lemma_fundamental_div_mod(idx, m0.x);
                }
            }
            i = i + 1;
        }
        let newu: Vec<i64> = copy_samples(&self.nu);
        let newv: Vec<i64> = copy_samples(&self.nv);
        self.u = newu;
        self.v = newv;
        proof {
            assert forall|idx: int| 0 <= idx < m0.nu.len() implies self@.nu[idx]
                == m0.advected_nu_at(idx) by {
                vstd::arithmetic::div_mod::lemma_fundamental_div_mod(idx, m0.x + 1);
            }
            assert forall|idx: int| 0 <= idx < m0.nv.len() implies self@.nv[idx]
                == m0.advected_nv_at(idx) by {
                vstd::arithmetic::div_mod::lemma_fundamental_div_mod(idx, m0.x);
                if !(idx / m0.x < m0.y) {
                    assert(!m0.v_advect_active(idx % m0.x, idx / m0.x));
                }
            }
            assert(self@.nu =~= Seq::new(m0.nu.len(), |idx: int| m0.advected_nu_at(idx)));
            assert(self@.nv =~= Seq::new(m0.nv.len(), |idx: int| m0.advected_nv_at(idx)));
            assert(self@ == m0.advect_spec());
            lemma_registry_wf_same_cells(m0, self@);
        }
    }

    /// Iterative divergence correction: for the configured iteration
    /// count, sweeps every cell in row-major order, correcting each Fluid
    /// cell's permeable faces by `-divergence / sides * overrelaxation`
    /// (truncating division).  Corrections made earlier in a sweep are
    /// visible to later cells in the same sweep: in-place Gauss-Seidel,
    /// which practical convergence within a bounded iteration budget
    /// depends on.
    fn projection_gauss_seidel(&mut self)
        requires
            old(self)@.wf(),
        ensures
            final(self)@ == old(self)@.project_all(old(self)@.iters),
            final(self)@.wf(),
    {
        let ghost mo: GridModel = self@;
        let iters: usize = self.iters;
        let mut it: usize = 0;
        while it < iters
            invariant
                mo.wf(),
                it <= iters,
                iters == mo.iters,
                self@ == mo.project_all(it as int),
            decreases iters - it,
        {
            proof {
                lemma_project_all_wf(mo, it as int);
            }
            let ghost base: GridModel = self@;
            let ys: usize = self.y;
            let mut y: usize = 0;
            while y < ys
                invariant
                    base.wf(),
                    y <= ys,
                    ys == base.y,
                    self@ == base.project_pass(y as int),
                decreases ys - y,
            {
                proof {
                    lemma_project_pass_wf(base, y as int);
                }
                let ghost rowbase: GridModel = self@;
                let xs: usize = self.x;
                let mut x: usize = 0;
                while x < xs
                    invariant
                        base.wf(),
                        rowbase.wf(),
                        x <= xs,
                        y < base.y,
                        ys == base.y,
                        xs == base.x,
                        rowbase == base.project_pass(y as int),
                        rowbase.x == base.x && rowbase.y == base.y,
                        self@ == rowbase.project_row(y as int, x as int),
                    decreases xs - x,
                {
                    proof {
                        lemma_project_row_wf(rowbase, y as int, x as int);
                    }
                    let ghost cur: GridModel = self@;
                    let ghost xx: int = x as int;
                    let ghost yy: int = y as int;
                    let oo = crate::fluidapi::Oo::construct(x, y);
                    let e: Ele = oo.peek_element_here(self, 0, 0);
                    if matches!(e, Ele::Fluid) {
                        let divergence: i64 = oo.divergence_here(self);
                        let sides: i64 = oo.afflicted_area(self);
                        if sides != 0 {
                            proof {
                                assert(mag((divergence as int) * (self.overrelaxation as int))
                                    <= 40000000000000000) by (nonlinear_arith)
                                    requires
                                        mag(divergence as int) <= 4000000000000,
                                        0 <= self.overrelaxation <= 10000,
                                ;
                            }
                            let num: i64 = -(divergence * self.overrelaxation);
                            let den: i64 = sides * SCALE;
                            let correction: i64 = crate::units::div_trunc(num, den);
                            proof {
                                crate::units::lemma_tdiv_bounds(num as int, den as int);
                                assert(mag(correction as int) <= 40000000000000) by (nonlinear_arith)
                                    requires
                                        mag(correction as int) * (den as int) <= mag(num as int),
                                        mag(num as int) <= 40000000000000000,
                                        den >= 1000,
                                ;
                            }
                            let fr: i64 = oo.peek_velocity(self, 1, 0);
                            let fl: i64 = oo.peek_velocity(self, -1, 0);
                            let fd: i64 = oo.peek_velocity(self, 0, 1);
                            let fu: i64 = oo.peek_velocity(self, 0, -1);
                            let okr: bool = if oo.peek_element_here(self, 1, 0).is_fluid() {
                                let t: i64 = fr + correction;
                                -VMAX <= t && t <= VMAX
                            } else {
                                true
                            };
                            let okl: bool = if oo.peek_element_here(self, -1, 0).is_fluid() {
                                let t: i64 = fl - correction;
                                -VMAX <= t && t <= VMAX
                            } else {
                                true
                            };
                            let okd: bool = if oo.peek_element_here(self, 0, 1).is_fluid() {
                                let t: i64 = fd + correction;
                                -VMAX <= t && t <= VMAX
                            } else {
                                true
                            };
                            let oku: bool = if oo.peek_element_here(self, 0, -1).is_fluid() {
                                let t: i64 = fu - correction;
                                -VMAX <= t && t <= VMAX
                            } else {
                                true
                            };
                            if okr && okl && okd && oku {
                                proof {
                                    assert(cur.correction_fits(xx, yy, correction as int));
                                }
                                oo.modify_adjacent(self, correction);
                            } else {
                                proof {
                                    assert(!cur.correction_fits(xx, yy, correction as int));
                                }
                            }
                            proof {
                                assert(self@ == cur.project_cell(xx, yy));
                            }
                        }
                    }
                    proof {
                        assert(self@ == cur.project_cell(xx, yy));
                        assert(self@ == rowbase.project_row(yy, xx + 1));
                    }
                    x = x + 1;
                }
                proof {
                    assert(self@ == base.project_pass(y as int + 1));
                }
                y = y + 1;
            }
            proof {
                assert(self@ == mo.project_all(it as int + 1));
            }
            it = it + 1;
        }
        proof {
            lemma_project_all_wf(mo, iters as int);
        }
    }

    /// Sets the canonical initial boundary layout — a mirroring right
    /// column, Static top and bottom rows, a left column of Static wall
    /// with an inlet Source segment, and a circular Static obstacle,
    /// later layers placed over earlier ones — then enforces every
    /// registered cell once.  Should be called once per simulation.
    pub fn assert_boundary_conditions(&mut self)
        requires
            old(self)@.wf(),
        ensures
            final(self)@.wf(),
            old(self)@.registry_complete() ==> final(self)@.registry_complete(),
            final(self)@.x == old(self)@.x,
            final(self)@.y == old(self)@.y,
            final(self)@.nu == old(self)@.nu,
            final(self)@.nv == old(self)@.nv,
            final(self)@.vorticity == old(self)@.vorticity,
            final(self)@.overrelaxation == old(self)@.overrelaxation,
            final(self)@.iters == old(self)@.iters,
            final(self)@.delta_t == old(self)@.delta_t,
            final(self)@.source_velocity == old(self)@.source_velocity,
            final(self)@.grid_size == old(self)@.grid_size,
            final(self)@.epsilon == old(self)@.epsilon,
            forall|a: int, b: int|
                old(self)@.in_grid(a, b) ==> final(self)@.cell(a, b) == layered_kind(
                    old(self)@,
                    a,
                    b,
                ),
            final(self)@ == old(self)@.layout_spec(),
    {
        let ghost s0: GridModel = self@;
        self.fill_right_border(Ele::Clone(Mirror::construct(-1, 0)));
        let ghost s1: GridModel = self@;
        self.fill_top_border(Ele::Static);
        let ghost s2: GridModel = self@;
        self.fill_bot_border(Ele::Static);
        let ghost s3: GridModel = self@;
        let ys: usize = self.y;
        let lo: usize = self.y * 5 / 11;
        let hi: usize = self.y * 6 / 11;
        let mut i: usize = 0;
        while i < ys
            invariant
                s0.wf(),
                s3.wf(),
                self@.wf(),
                i <= ys,
                ys == s0.y,
                lo == s0.y * 5 / 11,
                hi == s0.y * 6 / 11,
                s0.same_but_cells(s3),
                s3.same_but_cells(self@),
                s0.registry_complete() ==> self@.registry_complete(),
                self@ == s3.fill_inlet_upto(i as int),
                forall|a: int, b: int|
                    s0.in_grid(a, b) ==> self@.cell(a, b) == (if a == 0 && b < i {
                        if in_source_range(s0.y, b) {
                            Ele::Source(
                                Source {
                                    velocity: Vector { x: s0.source_velocity as i64, y: 0i64 },
                                },
                            )
                        } else {
                            Ele::Static
                        }
                    } else {
                        s3.cell(a, b)
                    }),
            decreases ys - i,
        {
            let ghost prev: GridModel = self@;
            let oo = crate::fluidapi::Oo::construct(0, i);
            if lo < i && i < hi {
                oo.set_here(self, Ele::Source(Source::construct(self.source_velocity, 0)));
            } else {
                oo.set_here(self, Ele::Static);
            }
            proof {
                assert((lo < i && i < hi) == in_source_range(s3.y, i as int));
                assert(self@ == s3.fill_inlet_upto(i as int + 1));
                assert forall|a: int, b: int| s0.in_grid(a, b) implies self@.cell(a, b) == (if a
                    == 0 && b < i + 1 {
                    if in_source_range(s0.y, b) {
                        Ele::Source(
                            Source { velocity: Vector { x: s0.source_velocity as i64, y: 0i64 } },
                        )
                    } else {
                        Ele::Static
                    }
                } else {
                    s3.cell(a, b)
                }) by {
                    if lo < i && i < hi {
                        lemma_place_cell_lookup(
                            prev,
                            0,
                            i as int,
                            Ele::Source(
                                Source {
                                    velocity: Vector { x: s0.source_velocity as i64, y: 0i64 },
                                },
                            ),
                            a,
                            b,
                        );
                    } else {
                        lemma_place_cell_lookup(prev, 0, i as int, Ele::Static, a, b);
                    }
                }
            }
            i = i + 1;
        }
        let ghost s4: GridModel = self@;
        self.create_circle(self.x / 5, self.y / 2, (self.y / 11) as i64);
        let ghost s5: GridModel = self@;
        self.enforce_boundary_conditions();
        proof {
            lemma_enforce_upto_wf(s5, s5.boundaries.len() as int);
            assert(s1 == s0.fill_col_upto(
                s0.x - 1,
                Ele::Clone(Mirror { master: Vector { x: -1isize, y: 0isize } }),
                s0.y,
            ));
            assert(s2 == s1.fill_row_upto(0, Ele::Static, s0.x));
            assert(s3 == s2.fill_row_upto(s0.y - 1, Ele::Static, s0.x));
            assert(s4 == s3.fill_inlet_upto(s0.y));
            assert(s5 == s4.circle_upto(s0.x / 5, s0.y / 2, s0.y / 11, s0.y));
            assert(self@ == s5.enforce_upto(s5.boundaries.len() as int));
            assert(self@ == s0.layout_spec());
            assert forall|a: int, b: int| s0.in_grid(a, b) implies self@.cell(a, b)
                == layered_kind(s0, a, b) by {
                assert(self@.cell(a, b) == s5.cell(a, b));
                assert(s5.cell(a, b) == (if in_circle(s0.x / 5, s0.y / 2, s0.y / 11, a, b) {
                    Ele::Static
                } else {
                    s4.cell(a, b)
                }));
                assert(s1.cell(a, b) == (if a == s0.x - 1 {
                    Ele::Clone(Mirror { master: Vector { x: -1isize, y: 0isize } })
                } else {
                    s0.cell(a, b)
                }));
                assert(s2.cell(a, b) == (if b == 0 {
                    Ele::Static
                } else {
                    s1.cell(a, b)
                }));
                assert(s3.cell(a, b) == (if b == s0.y - 1 {
                    Ele::Static
                } else {
                    s2.cell(a, b)
                }));
            }
        }
    }

    /// Resets all state of the fluid: velocity and scratch fields to
    /// zero, every cell to Fluid, the registry to empty, then re-applies
    /// the canonical initial boundary conditions.
    pub fn reset(&mut self)
        requires
            old(self)@.wf(),
        ensures
            final(self)@.wf(),
            final(self)@.registry_complete(),
            final(self)@.x == old(self)@.x,
            final(self)@.y == old(self)@.y,
            final(self)@.overrelaxation == old(self)@.overrelaxation,
            final(self)@.iters == old(self)@.iters,
            final(self)@.delta_t == old(self)@.delta_t,
            final(self)@.source_velocity == old(self)@.source_velocity,
            final(self)@.grid_size == old(self)@.grid_size,
            final(self)@.epsilon == old(self)@.epsilon,
            forall|i: int| 0 <= i < final(self)@.nu.len() ==> final(self)@.nu[i] == 0i64,
            forall|i: int| 0 <= i < final(self)@.nv.len() ==> final(self)@.nv[i] == 0i64,
            forall|i: int|
                0 <= i < final(self)@.vorticity.len() ==> final(self)@.vorticity[i] == 0i64,
            forall|a: int, b: int|
                old(self)@.in_grid(a, b) ==> final(self)@.cell(a, b) == canonical_kind(
                    old(self)@.x,
                    old(self)@.y,
                    old(self)@.source_velocity,
                    a,
                    b,
                ),
            final(self)@ == old(self)@.zeroed().layout_spec(),
    {
        let ghost m0: GridModel = self@;
        proof {
            lemma_grid_idx(m0.x + 1, m0.y, 0, 0);
            lemma_grid_idx(m0.x, m0.y + 1, 0, 0);
            assert((self.y as int) * (self.x as int) <= 100020001) by (nonlinear_arith)
                requires
                    self.x <= 10000,
                    self.y <= 10000,
            ;
        }
        let ulen: usize = self.y * (self.x + 1);
        let vlen: usize = (self.y + 1) * self.x;
        let clen: usize = self.y * self.x;
        self.u = zeros(ulen);
        self.v = zeros(vlen);
        self.nu = zeros(ulen);
        self.nv = zeros(vlen);
        self.vorticity = zeros(clen);
        self.element = all_fluid(clen);
        self.boundaries = Vec::new();
        let ghost mz: GridModel = self@;
        proof {
            assert forall|a: int, b: int| mz.in_grid(a, b) implies (#[trigger] mz.cell(a, b))
                is Fluid by {
                lemma_grid_idx(mz.x, mz.y, a, b);
            }
            assert(mz.wf());
            assert(mz.registry_complete());
            assert(mz.u =~= m0.zeroed().u);
            assert(mz.v =~= m0.zeroed().v);
            assert(mz.nu =~= m0.zeroed().nu);
            assert(mz.nv =~= m0.zeroed().nv);
            assert(mz.vorticity =~= m0.zeroed().vorticity);
            assert(mz.element =~= m0.zeroed().element);
            assert(mz.boundaries =~= m0.zeroed().boundaries);
            assert(mz == m0.zeroed());
        }
        self.assert_boundary_conditions();
        proof {
            assert forall|a: int, b: int| m0.in_grid(a, b) implies self@.cell(a, b)
                == canonical_kind(m0.x, m0.y, m0.source_velocity, a, b) by {
                assert(self@.cell(a, b) == layered_kind(mz, a, b));
                assert(mz.cell(a, b) is Fluid);
            }
        }
    }

    /// Recomputes the scalar vorticity field as the central-difference
    /// curl of the velocity field, skipping the outermost ring, which has
    /// no data for central differences.
    fn compute_vorticity(&mut self)
        requires
            old(self)@.wf(),
        ensures
            final(self)@ == old(self)@.compute_vorticity_spec(),
            final(self)@.wf(),
    {
        let ghost m0: GridModel = self@;
        let ys: usize = self.y;
        let xs: usize = self.x;
        let mut i: usize = 1;
        while i < ys - 1
            invariant
                m0.wf(),
                self@.wf(),
                1 <= i <= ys - 1,
                ys == m0.y,
                xs == m0.x,
                self@.u == m0.u,
                self@.v == m0.v,
                self@.nu == m0.nu,
                self@.nv == m0.nv,
                self@.element == m0.element,
                self@.boundaries == m0.boundaries,
                self@.x == m0.x,
                self@.y == m0.y,
                m0.same_params(self@),
                self@.vorticity.len() == m0.vorticity.len(),
                forall|idx: int|
                    0 <= idx < m0.vorticity.len() ==> self@.vorticity[idx] == (if idx / m0.x
                        < i as int {
                        m0.vorticity_field_at(idx)
                    } else {
                        m0.vorticity[idx]
                    }),
            decreases ys - 1 - i,
        {
            let mut j: usize = 1;
            while j < xs - 1
                invariant
                    m0.wf(),
                    self@.wf(),
                    1 <= i < ys - 1,
                    1 <= j <= xs - 1,
                    ys == m0.y,
                    xs == m0.x,
                    self@.u == m0.u,
                    self@.v == m0.v,
                    self@.nu == m0.nu,
                    self@.nv == m0.nv,
                    self@.element == m0.element,
                    self@.boundaries == m0.boundaries,
                    self@.x == m0.x,
                    self@.y == m0.y,
                    m0.same_params(self@),
                    self@.vorticity.len() == m0.vorticity.len(),
                    forall|idx: int|
                        0 <= idx < m0.vorticity.len() ==> self@.vorticity[idx] == (if idx / m0.x
                            < i as int || (idx / m0.x == i as int && idx % m0.x < j as int) {
                            m0.vorticity_field_at(idx)
                        } else {
                            m0.vorticity[idx]
                        }),
                decreases xs - 1 - j,
            {
                let ghost ii: int = i as int;
                let ghost jj: int = j as int;
                proof {
                    lemma_grid_idx(m0.x + 1, m0.y, jj, ii + 1);
                    lemma_grid_idx(m0.x + 1, m0.y, jj, ii - 1);
                    lemma_grid_idx(m0.x, m0.y + 1, jj + 1, ii);
                    lemma_grid_idx(m0.x, m0.y + 1, jj - 1, ii);
                    lemma_grid_idx(m0.x, m0.y, jj, ii);
                }
                let w: usize = self.x + 1;
                let dvdx_num: i64 = self.v[i * self.x + j + 1] - self.v[i * self.x + j - 1];
                let dudy_num: i64 = self.u[(i + 1) * w + j] - self.u[(i - 1) * w + j];
                let dvdx: i64 = crate::units::div_trunc(dvdx_num, 2);
                let dudy: i64 = crate::units::div_trunc(dudy_num, 2);
                proof {
                    crate::units::lemma_tdiv_bounds(dvdx_num as int, 2);
                    crate::units::lemma_tdiv_bounds(dudy_num as int, 2);
                    assert(mag(dvdx as int) * 2 <= 2 * (VMAX as int));
                    assert(mag(dudy as int) * 2 <= 2 * (VMAX as int));
                }
                let val: i64 = dvdx - dudy;
                proof {
                    assert(val as int == m0.vorticity_at(jj, ii));
                    assert(mag(val as int) <= WMAX as int);
                }
                let idx: usize = i * self.x + j;
                let ghost pre: GridModel = self@;
                self.vorticity.set(idx, val);
                proof {
                    assert forall|t: int| 0 <= t < self@.vorticity.len() implies mag(
                        (#[trigger] self@.vorticity[t]) as int,
                    ) <= WMAX as int by {
                        if t != idx {
                            assert(self@.vorticity[t] == pre.vorticity[t]);
                        }
                    }
                    lemma_registry_wf_same_cells(m0, self@);
                    assert(self@.wf());
                    lemma_rowmajor_decode(m0.x, jj, ii);
                    assert forall|t: int| 0 <= t < m0.vorticity.len() implies self@.vorticity[t]
                        == (if t / m0.x < ii || (t / m0.x == ii && t % m0.x < jj + 1) {
                        m0.vorticity_field_at(t)
                    } else {
                        m0.vorticity[t]
                    }) by {
                        vstd::arithmetic::div_mod::lemma_fundamental_div_mod(t, m0.x);
                        if t == ii * m0.x + jj {
                            assert(t / m0.x == ii && t % m0.x == jj);
                            assert(self@.vorticity[t] == m0.vorticity_field_at(t));
                        } else {
                            if t / m0.x == ii && t % m0.x == jj {
                                assert(t == m0.x * ii + jj);
                            }
                        }
                    }
                }
                j = j + 1;
            }
            proof {
                assert forall|t: int| 0 <= t < m0.vorticity.len() implies self@.vorticity[t] == (
                if t / m0.x < i as int + 1 {
                    m0.vorticity_field_at(t)
                } else {
                    m0.vorticity[t]
                }) by {
                    vstd::arithmetic::div_mod::lemma_fundamental_div_mod(t, m0.x);
                }
            }
            i = i + 1;
        }
        proof {
            assert forall|t: int| 0 <= t < m0.vorticity.len() implies self@.vorticity[t]
                == m0.vorticity_field_at(t) by {
                vstd::arithmetic::div_mod::lemma_fundamental_div_mod(t, m0.x);
                if !(t / m0.x < ys - 1) {
                    assert(!(1 <= t / m0.x < m0.y - 1));
                }
            }
            assert(self@.vorticity =~= Seq::new(
                m0.vorticity.len(),
                |t: int| m0.vorticity_field_at(t),
            ));
            assert(self@ == m0.compute_vorticity_spec());
        }
    }

    /// Injects the confinement force derived from the given vorticity
    /// gradient into the two face samples stored at cell `(j, i)`; the
    /// cell is skipped whole if either sum would leave the sample range.
    fn apply_vorticity_force(&mut self, grad_w_x: i64, grad_w_y: i64, magnitude: i64, i: usize, j: usize)
        requires
            old(self)@.wf(),
            1 <= j < old(self)@.x - 1,
            1 <= i < old(self)@.y - 1,
            magnitude > 0,
            mag(grad_w_x as int) <= WMAX as int,
            mag(grad_w_y as int) <= WMAX as int,
            magnitude >= mag(grad_w_x as int),
            magnitude >= mag(grad_w_y as int),
        ensures
            final(self)@ == old(self)@.force_applied(
                grad_w_x as int,
                grad_w_y as int,
                magnitude as int,
                j as int,
                i as int,
            ),
            final(self)@.wf(),
    {
        let ghost m0: GridModel = self@;
        let ghost xx: int = j as int;
        let ghost yy: int = i as int;
        proof {
            lemma_grid_idx(m0.x, m0.y, xx, yy);
            lemma_grid_idx(m0.x + 1, m0.y, xx, yy);
            lemma_grid_idx(m0.x, m0.y + 1, xx, yy);
        }
        let nxn: i64 = crate::units::div_trunc(grad_w_x * 1000, magnitude);
        let nyn: i64 = crate::units::div_trunc(grad_w_y * 1000, magnitude);
        proof {
            crate::units::lemma_tdiv_bounds(grad_w_x as int * 1000, magnitude as int);
            crate::units::lemma_tdiv_bounds(grad_w_y as int * 1000, magnitude as int);
            assert(mag(nxn as int) <= 1000 && mag(nyn as int) <= 1000) by (nonlinear_arith)
                requires
                    mag(nxn as int) * (magnitude as int) <= mag(grad_w_x as int * 1000),
                    mag(nyn as int) * (magnitude as int) <= mag(grad_w_y as int * 1000),
                    mag(grad_w_x as int * 1000) == mag(grad_w_x as int) * 1000,
                    mag(grad_w_y as int * 1000) == mag(grad_w_y as int) * 1000,
                    magnitude >= mag(grad_w_x as int),
                    magnitude >= mag(grad_w_y as int),
                    magnitude > 0,
                    mag(nxn as int) >= 0,
                    mag(nyn as int) >= 0,
            ;
        }
        let w0: i64 = self.vorticity[i * self.x + j];
        let eps: i64 = self.epsilon;
        let dt: i64 = self.delta_t;
        proof {
            assert(mag((eps as int) * (nyn as int) * (w0 as int)) <= 2000000000000000000000
                && mag((eps as int) * (nxn as int) * (w0 as int)) <= 2000000000000000000000
                && mag((eps as int) * (nyn as int)) <= 1000000000 && mag(
                (eps as int) * (nxn as int),
            ) <= 1000000000) by (nonlinear_arith)
                requires
                    0 <= eps <= 1000000,
                    mag(nxn as int) <= 1000,
                    mag(nyn as int) <= 1000,
                    mag(w0 as int) <= 2000000000000,
            ;
        }
        let px: i128 = (eps as i128) * (nyn as i128) * (w0 as i128);
        let py: i128 = (eps as i128) * (nxn as i128) * (w0 as i128);
        let fx: i128 = crate::units::div_trunc_i128(px, 1000000);
        let fy: i128 = -crate::units::div_trunc_i128(py, 1000000);
        proof {
            assert(mag((fx as int) * (dt as int)) <= 2000000000000000000000000000 && mag(
                (fy as int) * (dt as int),
            ) <= 2000000000000000000000000000) by (nonlinear_arith)
                requires
                    mag(fx as int) <= 2000000000000000000000,
                    mag(fy as int) <= 2000000000000000000000,
                    0 <= dt <= 1000000,
            ;
        }
        let dxv: i128 = crate::units::div_trunc_i128(fx * (dt as i128), 1000);
        let dyv: i128 = crate::units::div_trunc_i128(fy * (dt as i128), 1000);
        let uidx: usize = i * (self.x + 1) + j;
        let vidx: usize = i * self.x + j;
        let u_old: i64 = self.u[uidx];
        let v_old: i64 = self.v[vidx];
        let nu_: i128 = (u_old as i128) + dxv;
        let nv_: i128 = (v_old as i128) + dyv;
        let ghost d: (int, int) = m0.force_delta(
            grad_w_x as int,
            grad_w_y as int,
            magnitude as int,
            xx,
            yy,
        );
        proof {
            assert(d.0 == dxv as int && d.1 == dyv as int);
        }
        if -VMAX as i128 <= nu_ && nu_ <= VMAX as i128 && -VMAX as i128 <= nv_ && nv_ <= VMAX as i128 {
            self.u.set(uidx, nu_ as i64);
            self.v.set(vidx, nv_ as i64);
            proof {
                assert forall|t: int| 0 <= t < self@.u.len() implies mag(
                    (#[trigger] self@.u[t]) as int,
                ) <= VMAX as int by {
                    if t != uidx {
                        assert(self@.u[t] == m0.u[t]);
                    }
                }
                assert forall|t: int| 0 <= t < self@.v.len() implies mag(
                    (#[trigger] self@.v[t]) as int,
                ) <= VMAX as int by {
                    if t != vidx {
                        assert(self@.v[t] == m0.v[t]);
                    }
                }
                lemma_registry_wf_same_cells(m0, self@);
                assert(self@ == m0.force_applied(
                    grad_w_x as int,
                    grad_w_y as int,
                    magnitude as int,
                    xx,
                    yy,
                ));
            }
        } else {
            proof {
                assert(self@ == m0.force_applied(
                    grad_w_x as int,
                    grad_w_y as int,
                    magnitude as int,
                    xx,
                    yy,
                ));
            }
        }
    }

    /// Vorticity confinement: recomputes the vorticity field, then adds
    /// a force perpendicular to the normalized gradient of the vorticity
    /// magnitude, scaled
    /// by the confinement coefficient, the local vorticity and the
    /// timestep, at every interior cell whose gradient is non-zero.
    fn apply_vorticity_confinement(&mut self)
        requires
            old(self)@.wf(),
        ensures
            final(self)@ == old(self)@.confine_spec(),
            final(self)@.wf(),
    {
        self.compute_vorticity();
        let ghost vm: GridModel = self@;
        let ys: usize = self.y;
        let xs: usize = self.x;
        let mut i: usize = 1;
        while i < ys - 1
            invariant
                vm.wf(),
                1 <= i <= ys - 1,
                ys == vm.y,
                xs == vm.x,
                self@ == vm.confine_pass(i as int),
            decreases ys - 1 - i,
        {
            proof {
                lemma_confine_pass_wf(vm, i as int);
            }
            let ghost rowbase: GridModel = self@;
            let mut j: usize = 1;
            while j < xs - 1
                invariant
                    vm.wf(),
                    rowbase.wf(),
                    1 <= i < ys - 1,
                    1 <= j <= xs - 1,
                    ys == vm.y,
                    xs == vm.x,
                    rowbase == vm.confine_pass(i as int),
                    rowbase.x == vm.x && rowbase.y == vm.y,
                    self@ == rowbase.confine_row(i as int, j as int),
                decreases xs - 1 - j,
            {
                proof {
                    lemma_confine_row_wf(rowbase, i as int, j as int);
                }
                let ghost cur: GridModel = self@;
                let ghost ii: int = i as int;
                let ghost jj: int = j as int;
                proof {
                    lemma_grid_idx(cur.x, cur.y, jj + 1, ii);
                    lemma_grid_idx(cur.x, cur.y, jj - 1, ii);
                    lemma_grid_idx(cur.x, cur.y, jj, ii + 1);
                    lemma_grid_idx(cur.x, cur.y, jj, ii - 1);
                }
                let wd: usize = self.x;
                let wxp: i64 = self.vorticity[i * wd + j + 1];
                let wxm: i64 = self.vorticity[i * wd + j - 1];
                let wyp: i64 = self.vorticity[(i + 1) * wd + j];
                let wym: i64 = self.vorticity[(i - 1) * wd + j];
                let axp: i64 = if wxp >= 0 {
                    wxp
                } else {
                    -wxp
                };
                let axm: i64 = if wxm >= 0 {
                    wxm
                } else {
                    -wxm
                };
                let ayp: i64 = if wyp >= 0 {
                    wyp
                } else {
                    -wyp
                };
                let aym: i64 = if wym >= 0 {
                    wym
                } else {
                    -wym
                };
                let gx_num: i64 = axp - axm;
                let gy_num: i64 = ayp - aym;
                let gwx: i64 = crate::units::div_trunc(gx_num, 2);
                let gwy: i64 = crate::units::div_trunc(gy_num, 2);
                proof {
                    crate::units::lemma_tdiv_bounds(gx_num as int, 2);
                    crate::units::lemma_tdiv_bounds(gy_num as int, 2);
                    assert(mag(gwx as int) * 2 <= 4 * (VMAX as int));
                    assert(mag(gwy as int) * 2 <= 4 * (VMAX as int));
                    assert(gwx as int == cur.grad_wx(jj, ii) && gwy as int == cur.grad_wy(jj, ii));
                }
                let ax: u128 = crate::utils::abs_u128(gwx);
                let ay: u128 = crate::utils::abs_u128(gwy);
                proof {
                    assert((ax as int) * (ax as int) == (gwx as int) * (gwx as int) && (ay as int)
                        * (ay as int) == (gwy as int) * (gwy as int) && (ax as int) * (ax as int)
                        + (ay as int) * (ay as int) <= 8000000000000000000000000)
                        by (nonlinear_arith)
                        requires
                            ax == mag(gwx as int),
                            ay == mag(gwy as int),
                            0 <= ax <= 2000000000000,
                            0 <= ay <= 2000000000000,
                    ;
                }
                let sq: u128 = ax * ax + ay * ay;
                let magnitude: u64 = crate::utils::isqrt(sq);
                proof {
                    assert(magnitude as nat == sqrt_floor(
                        ((gwx as int) * (gwx as int) + (gwy as int) * (gwy as int)) as nat,
                    ));
                    if magnitude < ax {
                        assert((magnitude as int + 1) * (magnitude as int + 1) <= (ax as int) * (
                        ax as int)) by (nonlinear_arith)
                            requires
                                magnitude as int + 1 <= ax as int,
                                magnitude >= 0,
                        ;
                    }
                    if magnitude < ay {
                        assert((magnitude as int + 1) * (magnitude as int + 1) <= (ay as int) * (
                        ay as int)) by (nonlinear_arith)
                            requires
                                magnitude as int + 1 <= ay as int,
                                magnitude >= 0,
                        ;
                    }
                    assert(magnitude >= ax && magnitude >= ay);
                    assert(magnitude <= 4000000000000) by (nonlinear_arith)
                        requires
                            (magnitude as int) * (magnitude as int) <= sq,
                            sq <= 8000000000000000000000000,
                            magnitude >= 0,
                    ;
                }
                if magnitude > 0 {
                    self.apply_vorticity_force(gwx, gwy, magnitude as i64, i, j);
                }
                proof {
                    assert(self@ == cur.confine_cell(jj, ii));
                    assert(self@ == rowbase.confine_row(ii, jj + 1));
                }
                j = j + 1;
            }
            proof {
                assert(self@ == vm.confine_pass(i as int + 1));
            }
            i = i + 1;
        }
        proof {
            lemma_confine_pass_wf(vm, ys as int - 1);
            assert(self@ == old(self)@.confine_spec());
        }
    }

    /// Flood-fills from a seed over 4-connected non-Static cells,
    /// converting every visited cell directly to Static in the
    /// classification array.  This deliberately bypasses the registry:
    /// filled pockets are permanently inert and need no per-cell
    /// treatment, and cells removed this way no longer cost projection or
    /// advection work.
    #[verifier::rlimit(100)]
    pub fn fill_dfs(&mut self, x: usize, y: usize)
        requires
            old(self)@.wf(),
            old(self)@.in_grid(x as int, y as int),
        ensures
            final(self)@.wf(),
            final(self)@.u == old(self)@.u,
            final(self)@.v == old(self)@.v,
            final(self)@.nu == old(self)@.nu,
            final(self)@.nv == old(self)@.nv,
            final(self)@.vorticity == old(self)@.vorticity,
            final(self)@.boundaries == old(self)@.boundaries,
            final(self)@.x == old(self)@.x,
            final(self)@.y == old(self)@.y,
            old(self)@.same_params(final(self)@),
            forall|a: int, b: int|
                old(self)@.in_grid(a, b) ==> (final(self)@.cell(a, b) == old(self)@.cell(a, b) || (
                final(self)@.cell(a, b) is Static && reachable(old(self)@, x as int, y as int, a, b))),
            forall|a: int, b: int|
                old(self)@.in_grid(a, b) && old(self)@.cell(a, b) is Static ==> final(self)@.cell(
                    a,
                    b,
                ) is Static,
            forall|a: int, b: int|
                old(self)@.in_grid(a, b) && reachable(old(self)@, x as int, y as int, a, b)
                    ==> final(self)@.cell(a, b) is Static,
            final(self)@.cell(x as int, y as int) is Static,
    {
        let ghost m0: GridModel = self@;
        let mut stack: Vec<(usize, usize)> = Vec::new();
        stack.push((x, y));
        proof {
            assert((self.y as int) * (self.x as int) <= 100020001) by (nonlinear_arith)
                requires
                    self.x <= 10000,
                    self.y <= 10000,
            ;
        }
        let clen: usize = self.y * self.x;
        let mut seen: Vec<bool> = vec_false(clen);
        proof {
            assert(stack@[0] == (x, y));
            assert forall|a: int, b: int| m0.in_grid(a, b) implies #[trigger] self@.cell(a, b) == (
            if seen@[m0.c_idx(a, b)] {
                Ele::Static
            } else {
                m0.cell(a, b)
            }) by {
                lemma_grid_idx(m0.x, m0.y, a, b);
            }
            lemma_frontier_init(m0, seen@, stack@, x as int, y as int);
        }
        while stack.len() > 0
            invariant
                m0.wf(),
                self@.wf(),
                m0.in_grid(x as int, y as int),
                self@.u == m0.u,
                self@.v == m0.v,
                self@.nu == m0.nu,
                self@.nv == m0.nv,
                self@.vorticity == m0.vorticity,
                self@.boundaries == m0.boundaries,
                self@.x == m0.x,
                self@.y == m0.y,
                m0.same_params(self@),
                seen@.len() == m0.c_len(),
                forall|k: int|
                    0 <= k < stack@.len() ==> m0.in_grid(
                        (#[trigger] stack@[k]).0 as int,
                        stack@[k].1 as int,
                    ),
                forall|k: int|
                    0 <= k < stack@.len() ==> ((#[trigger] stack@[k]).0 == x && stack@[k].1 == y)
                        || fill_justified(
                        m0,
                        x as int,
                        y as int,
                        stack@[k].0 as int,
                        stack@[k].1 as int,
                    ),
                forall|idx: int|
                    0 <= idx < seen@.len() && #[trigger] seen@[idx] ==> reachable(
                        m0,
                        x as int,
                        y as int,
                        idx % m0.x,
                        idx / m0.x,
                    ),
                forall|a: int, b: int|
                    m0.in_grid(a, b) ==> #[trigger] self@.cell(a, b) == (if seen@[m0.c_idx(a, b)] {
                        Ele::Static
                    } else {
                        m0.cell(a, b)
                    }),
                seen@[m0.c_idx(x as int, y as int)] || m0.cell(x as int, y as int) is Static || (
                exists|k: int| 0 <= k < stack@.len() && (#[trigger] stack@[k]) == (x, y)),
                frontier_inv(m0, seen@, stack@, x as int, y as int),
            decreases stack@.len() + 5 * count_false(seen@),
        {
            let ghost old_stack: Seq<(usize, usize)> = stack@;
            let ghost old_seen: Seq<bool> = seen@;
            let cxy: (usize, usize) = stack.pop().unwrap();
            let cx: usize = cxy.0;
            let cy: usize = cxy.1;
            proof {
                assert(cxy == old_stack[old_stack.len() - 1]);
                assert(m0.in_grid(cx as int, cy as int));
                lemma_grid_idx(m0.x, m0.y, cx as int, cy as int);
                lemma_rowmajor_decode(m0.x, cx as int, cy as int);
            }
            let cidx: usize = cy * self.x + cx;
            let is_static_now: bool = matches!(self.element[cidx], Ele::Static);
            let was_seen: bool = seen[cidx];
            if !is_static_now && !was_seen {
                proof {
                    assert(self@.cell(cx as int, cy as int) == self@.element[cidx as int]);
                    assert(!(m0.cell(cx as int, cy as int) is Static));
                    if cx == x && cy == y {
                        lemma_reachable_seed(m0, x as int, y as int);
                    } else {
                        assert(fill_justified(m0, x as int, y as int, cx as int, cy as int));
                        let d = choose|d: (int, int)|
                            m0.in_grid(d.0, d.1) && reachable(m0, x as int, y as int, d.0, d.1)
                                && adjacent(d, (cx as int, cy as int));
                        lemma_reachable_step(
                            m0,
                            x as int,
                            y as int,
                            d.0,
                            d.1,
                            cx as int,
                            cy as int,
                        );
                    }
                    assert(reachable(m0, x as int, y as int, cx as int, cy as int));
                }
                let ghost pre: GridModel = self@;
                seen.set(cidx, true);
                self.element.set(cidx, Ele::Static);
                proof {
                    lemma_count_false_update(old_seen, cidx as int);
                    assert forall|a: int, b: int| m0.in_grid(a, b) implies #[trigger] self@.cell(
                        a,
                        b,
                    ) == (if seen@[m0.c_idx(a, b)] {
                        Ele::Static
                    } else {
                        m0.cell(a, b)
                    }) by {
                        lemma_grid_idx(m0.x, m0.y, a, b);
                        let ci = m0.c_idx(a, b);
                        if ci != cidx {
                            assert(self@.element[ci] == pre.element[ci]);
                            assert(seen@[ci] == old_seen[ci]);
                            assert(pre.cell(a, b) == (if old_seen[ci] {
                                Ele::Static
                            } else {
                                m0.cell(a, b)
                            }));
                        }
                    }
                    assert forall|idx: int|
                        0 <= idx < seen@.len() && #[trigger] seen@[idx] implies reachable(
                        m0,
                        x as int,
                        y as int,
                        idx % m0.x,
                        idx / m0.x,
                    ) by {
                        if idx != cidx {
                            assert(old_seen[idx]);
                        }
                    }
                    assert forall|i2: int| 0 <= i2 < self@.element.len() implies ele_wf(
                        #[trigger] self@.element[i2],
                    ) by {
                        if i2 != cidx {
                            assert(self@.element[i2] == pre.element[i2]);
                            assert(ele_wf(pre.element[i2]));
                        }
                    }
                    assert forall|k: int| 0 <= k < self@.boundaries.len() implies !((
                    #[trigger] self@.cell(
                        self@.boundaries[k].x as int,
                        self@.boundaries[k].y as int,
                    )) is Fluid) by {
                        assert(m0.in_grid(m0.boundaries[k].x as int, m0.boundaries[k].y as int));
                        assert(!(m0.cell(m0.boundaries[k].x as int, m0.boundaries[k].y as int)
                            is Fluid));
                    }
                    assert forall|k: int| 0 <= k < self@.boundaries.len() implies self@.in_grid(
                        (#[trigger] self@.boundaries[k]).x as int,
                        self@.boundaries[k].y as int,
                    ) by {
                        assert(m0.in_grid(m0.boundaries[k].x as int, m0.boundaries[k].y as int));
                    }
                    assert(self@.wf());
                }
                proof {
                    assert(fill_justified(m0, x as int, y as int, cx as int - 1, cy as int)
                        && fill_justified(m0, x as int, y as int, cx as int + 1, cy as int)
                        && fill_justified(m0, x as int, y as int, cx as int, cy as int - 1)
                        && fill_justified(m0, x as int, y as int, cx as int, cy as int + 1)) by {
                        let d = (cx as int, cy as int);
                        assert(m0.in_grid(d.0, d.1) && reachable(m0, x as int, y as int, d.0, d.1));
                        assert(adjacent(d, (cx as int - 1, cy as int)) && adjacent(
                            d,
                            (cx as int + 1, cy as int),
                        ) && adjacent(d, (cx as int, cy as int - 1)) && adjacent(
                            d,
                            (cx as int, cy as int + 1),
                        ));
                    }
                }
                let ghost s0: Seq<(usize, usize)> = stack@;
                let ghost vl: (usize, usize) = (((cx - 1) as usize, cy));
                let ghost vr: (usize, usize) = (((cx + 1) as usize, cy));
                let ghost vu: (usize, usize) = ((cx, (cy - 1) as usize));
                let ghost vd: (usize, usize) = ((cx, (cy + 1) as usize));
                let mut pushed_left: bool = false;
                if cx > 0 {
                    let nidx: usize = cy * self.x + cx - 1;
                    proof {
                        lemma_grid_idx(m0.x, m0.y, cx as int - 1, cy as int);
                    }
                    if !seen[nidx] {
                        stack.push((cx - 1, cy));
                        pushed_left = true;
                    }
                }
                let ghost s1: Seq<(usize, usize)> = stack@;
                proof {
                    if pushed_left {
                        assert(s1[s1.len() - 1] == vl);
                        assert(s1.contains(vl));
                    }
                }
                let mut pushed_right: bool = false;
                if cx + 1 < self.x {
                    let nidx: usize = cy * self.x + cx + 1;
                    proof {
                        lemma_grid_idx(m0.x, m0.y, cx as int + 1, cy as int);
                    }
                    if !seen[nidx] {
                        stack.push((cx + 1, cy));
                        pushed_right = true;
                    }
                }
                let ghost s2: Seq<(usize, usize)> = stack@;
                proof {
                    if pushed_right {
                        assert(s2[s2.len() - 1] == vr);
                        assert(s2.contains(vr));
                    }
                    if pushed_left {
                        if pushed_right {
                            lemma_stack_member_push(s1, vr, vl);
                        }
                        assert(s2.contains(vl));
                    }
                }
                let mut pushed_up: bool = false;
                if cy > 0 {
                    proof {
                        lemma_grid_idx(m0.x, m0.y, cx as int, cy as int - 1);
                    }
                    let nidx: usize = (cy - 1) * self.x + cx;
                    if !seen[nidx] {
                        stack.push((cx, cy - 1));
                        pushed_up = true;
                    }
                }
                let ghost s3: Seq<(usize, usize)> = stack@;
                proof {
                    if pushed_up {
                        assert(s3[s3.len() - 1] == vu);
                        assert(s3.contains(vu));
                        if pushed_left {
                            lemma_stack_member_push(s2, vu, vl);
                        }
                        if pushed_right {
                            lemma_stack_member_push(s2, vu, vr);
                        }
                    }
                    if pushed_left {
                        assert(s3.contains(vl));
                    }
                    if pushed_right {
                        assert(s3.contains(vr));
                    }
                }
                let mut pushed_down: bool = false;
                if cy + 1 < self.y {
                    proof {
                        lemma_grid_idx(m0.x, m0.y, cx as int, cy as int + 1);
                    }
                    let nidx: usize = (cy + 1) * self.x + cx;
                    if !seen[nidx] {
                        stack.push((cx, cy + 1));
                        pushed_down = true;
                    }
                }
                proof {
                    if pushed_down {
                        assert(stack@[stack@.len() - 1] == vd);
                        assert(stack@.contains(vd));
                        if pushed_left {
                            lemma_stack_member_push(s3, vd, vl);
                        }
                        if pushed_right {
                            lemma_stack_member_push(s3, vd, vr);
                        }
                        if pushed_up {
                            lemma_stack_member_push(s3, vd, vu);
                        }
                    }
                    if pushed_left {
                        assert(stack@.contains(vl));
                    }
                    if pushed_right {
                        assert(stack@.contains(vr));
                    }
                    if pushed_up {
                        assert(stack@.contains(vu));
                    }
                    assert(stack@.len() <= old_stack.len() - 1 + 4);
                    assert(count_false(seen@) + 1 == count_false(old_seen));
                }
                proof {
                    let exi: int = cx as int;
                    let eyi: int = cy as int;
                    assert forall|k: int| 0 <= k < old_stack.len() - 1 implies exists|k2: int|
                        0 <= k2 < stack@.len() && #[trigger] stack@[k2]
                        == #[trigger] old_stack[k] by {
                        assert(s0[k] == old_stack[k]);
                        assert(s1[k] == s0[k] && s2[k] == s1[k] && s3[k] == s2[k] && stack@[k]
                            == s3[k]);
                    }
                    assert forall|n: (int, int)|
                        m0.in_grid(n.0, n.1) && #[trigger] adjacent((exi, eyi), n)
                            && !seen@[m0.c_idx(n.0, n.1)] implies exists|k2: int|
                        0 <= k2 < stack@.len() && #[trigger] stack@[k2] == ((
                        n.0 as usize,
                        n.1 as usize,
                        )) by {
                        lemma_grid_idx(m0.x, m0.y, n.0, n.1);
                        if n.0 == exi - 1 && n.1 == eyi {
                            assert(pushed_left);
                            assert(stack@.contains(vl));
                        } else if n.0 == exi + 1 && n.1 == eyi {
                            assert(pushed_right);
                            assert(stack@.contains(vr));
                        } else if n.0 == exi && n.1 == eyi - 1 {
                            assert(pushed_up);
                            assert(stack@.contains(vu));
                        } else {
                            assert(n.0 == exi && n.1 == eyi + 1);
                            assert(pushed_down);
                            assert(stack@.contains(vd));
                        }
                    }
                    lemma_frontier_mark(
                        m0,
                        old_seen,
                        old_stack,
                        stack@,
                        exi,
                        eyi,
                        x as int,
                        y as int,
                    );
                }
            } else {
                proof {
                    if !was_seen {
                        assert(m0.cell(cx as int, cy as int) is Static);
                    }
                    lemma_frontier_skip(m0, old_seen, old_stack, x as int, y as int);
                    assert(stack@ == old_stack.drop_last());
                }
            }
            proof {
                if !(seen@[m0.c_idx(x as int, y as int)] || m0.cell(x as int, y as int)
                    is Static) {
                    lemma_grid_idx(m0.x, m0.y, x as int, y as int);
                    assert(!old_seen[m0.c_idx(x as int, y as int)]);
                    assert(exists|k: int|
                        0 <= k < old_stack.len() && (#[trigger] old_stack[k]) == (x, y));
                    let k = choose|k: int|
                        0 <= k < old_stack.len() && (#[trigger] old_stack[k]) == (x, y);
                    if k < old_stack.len() - 1 {
                        assert(stack@[k] == (x, y));
                    } else {
                        assert(cxy == (x, y));
                        assert(cidx == m0.c_idx(x as int, y as int));
                        assert(!seen@[cidx as int]);
                        assert(is_static_now || was_seen);
                        assert(!was_seen);
                        assert(m0.cell(x as int, y as int) is Static);
                        assert(false);
                    }
                }
            }
        }
        proof {
            lemma_rowmajor_decode(m0.x, x as int, y as int);
            assert forall|a: int, b: int| m0.in_grid(a, b) implies (self@.cell(a, b) == m0.cell(
                a,
                b,
            ) || (self@.cell(a, b) is Static && reachable(m0, x as int, y as int, a, b))) by {
                lemma_grid_idx(m0.x, m0.y, a, b);
                lemma_rowmajor_decode(m0.x, a, b);
                if seen@[m0.c_idx(a, b)] {
                    assert(reachable(m0, x as int, y as int, a, b));
                }
            }
            assert forall|a: int, b: int|
                m0.in_grid(a, b) && reachable(m0, x as int, y as int, a, b) implies self@.cell(
                a,
                b,
            ) is Static by {
                lemma_grid_idx(m0.x, m0.y, a, b);
                if !seen@[m0.c_idx(a, b)] {
                    assert(exists|k: int|
                        0 <= k < stack@.len() && reach_avoid(
                            m0,
                            seen@,
                            (#[trigger] stack@[k]).0 as int,
                            stack@[k].1 as int,
                            a,
                            b,
                        ));
                    assert(false);
                }
            }
        }
    }

    /// One simulation step: each flag independently gates one pipeline
    /// stage, run in the order advect, confine vorticity, enforce
    /// boundary conditions, project.
    pub fn update_fluid(&mut self, project: bool, advect: bool, enforce_bc: bool, vort_confinement: bool)
        requires
            old(self)@.wf(),
        ensures
            final(self)@ == ({
                let s1 = if advect {
                    old(self)@.advect_spec()
                } else {
                    old(self)@
                };
                let s2 = if vort_confinement {
                    s1.confine_spec()
                } else {
                    s1
                };
                let s3 = if enforce_bc {
                    s2.enforce_upto(s2.boundaries.len() as int)
                } else {
                    s2
                };
                if project {
                    s3.project_all(s3.iters)
                } else {
                    s3
                }
            }),
            final(self)@.wf(),
            old(self)@.registry_complete() ==> final(self)@.registry_complete(),
    {
        let ghost m0: GridModel = self@;
        if advect {
            self.semi_lagrangian_advection();
            proof {
                if m0.registry_complete() {
                    crate::fluid::lemma_registry_complete_same_cells(m0, self@);
                }
            }
        }
        let ghost s1: GridModel = self@;
        if vort_confinement {
            self.apply_vorticity_confinement();
            proof {
                lemma_compute_vorticity_wf(s1);
                lemma_confine_pass_wf(s1.compute_vorticity_spec(), s1.y - 1);
                if s1.registry_complete() {
                    crate::fluid::lemma_registry_complete_same_cells(s1, self@);
                }
            }
        }
        let ghost s2: GridModel = self@;
        if enforce_bc {
            self.enforce_boundary_conditions();
        }
        let ghost s3: GridModel = self@;
        if project {
            self.projection_gauss_seidel();
            proof {
                lemma_project_all_wf(s3, s3.iters);
                if s3.registry_complete() {
                    crate::fluid::lemma_registry_complete_same_cells(s3, self@);
                }
            }
        }
    }

    /// Walks the boundary registry once, in insertion order, re-asserting
    /// each registered cell's condition on its four adjoining faces.
    pub fn enforce_boundary_conditions(&mut self)
        requires
            old(self)@.wf(),
        ensures
            final(self)@ == old(self)@.enforce_upto(old(self)@.boundaries.len() as int),
            final(self)@.wf(),
            old(self)@.registry_complete() ==> final(self)@.registry_complete(),
    {
        let ghost mo: GridModel = self@;
        let n: usize = self.boundaries.len();
        let mut k: usize = 0;
        while k < n
            invariant
                k <= n,
                mo.wf(),
                n == mo.boundaries.len(),
                self@ == mo.enforce_upto(k as int),
            decreases n - k,
        {
            proof {
                lemma_enforce_upto_wf(mo, k as int);
            }
            let bx: usize = self.boundaries[k].x;
            let by: usize = self.boundaries[k].y;
            proof {
                assert(mo.boundaries[k as int].x == bx && mo.boundaries[k as int].y == by);
                assert(mo.in_grid(bx as int, by as int));
                lemma_grid_idx(mo.x, mo.y, bx as int, by as int);
            }
            let oo = crate::fluidapi::Oo::construct(bx, by);
            let e: Ele = oo.peek_element_here(self, 0, 0);
            let ghost prev: GridModel = self@;
            match e {
                Ele::Fluid => {},
                Ele::Static => {
                    oo.set_velocity_zeros(self);
                },
                Ele::Source(sour) => {
                    proof {
                        assert(ele_wf(prev.element[prev.c_idx(bx as int, by as int)]));
                    }
                    oo.set_velocity_polarized(self, sour.velocity.x, sour.velocity.y);
                },
                Ele::Clone(clo) => {
                    oo.set_velocity_matched(self, clo.master.x, clo.master.y);
                },
            }
            proof {
                assert(self@ == prev.enforce_cell(bx as int, by as int));
                assert(self@ == mo.enforce_upto(k + 1int));
            }
            k = k + 1;
        }
        proof {
            lemma_enforce_upto_wf(mo, n as int);
            if mo.registry_complete() {
                lemma_registry_complete_same_cells(mo, self@);
            }
        }
    }
}

} // verus!
