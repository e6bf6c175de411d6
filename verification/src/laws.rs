//! The boundary-condition laws of the solver, proved once and for all
//! over the grid model.

use vstd::prelude::*;

use crate::fluid::dir_ok;
use crate::fluid::clamp_int;
use crate::fluid::ele_wf;
use crate::fluid::lemma_registry_wf_same_cells;
use crate::fluid::samples_ok;
use crate::units::VMAX;
use crate::fluid::lemma_grid_idx;
use crate::fluid::lemma_modify_adjacent_faces;
use crate::fluid::Field;
use crate::fluid::lemma_enforce_cell_wf;
use crate::fluid::lemma_project_all_wf;
use crate::fluid::lemma_project_pass_boundary_face;
use crate::fluid::lemma_enforce_tail_preserves_face;
use crate::fluid::lemma_enforce_upto_wf;
use crate::fluid::lemma_with_faces_same;
use crate::fluid::shares_face;
use crate::fluid::Ele;
use crate::fluid::GridModel;
use crate::mirror::Mirror;
use crate::source::Source;
use crate::units::mag;
use crate::units::tdiv;
use crate::units::SCALE;
use crate::utils::Vector;

verus! {

/// Law: projection corrects only the permeable faces of Fluid cells, so
/// a face bordering a Static or Source cell — an enforced zero or a
/// pinned source velocity — survives any number of full Gauss-Seidel
/// sweeps exactly unchanged.
pub proof fn projection_boundary_face_invariant(
    m: GridModel,
    k: int,
    x2: int,
    y2: int,
    dx: int,
    dy: int,
)
    requires
        m.wf(),
        0 <= k,
        m.in_grid(x2, y2),
        dir_ok(dx, dy),
        !m.cell_or_static(x2 + dx, y2 + dy).is_fluid_spec(),
    ensures
        m.project_all(k).face(x2, y2, dx, dy) == m.face(x2, y2, dx, dy),
    decreases k,
{
    if k > 0 {
        projection_boundary_face_invariant(m, k - 1, x2, y2, dx, dy);
        lemma_project_all_wf(m, k - 1);
        let prev = m.project_all(k - 1);
        assert(prev.cell_or_static(x2 + dx, y2 + dy) == m.cell_or_static(x2 + dx, y2 + dy));
        lemma_project_pass_boundary_face(prev, m.y, x2, y2, dx, dy);
    }
}

/// Law: adding a correction on the permeable faces shifts the cell's own
/// divergence by exactly `sides * c`: each permeable face contributes the
/// correction once, with the sign it carries in the divergence formula,
/// and the faces bordering Static or Source cells contribute nothing.
pub proof fn correction_shifts_divergence(m: GridModel, x: int, y: int, c: int)
    requires
        m.wf(),
        m.in_grid(x, y),
        m.correction_fits(x, y, c),
    ensures
        m.modify_adjacent_spec(x, y, c).divergence(x, y) == m.divergence(x, y) + m.sides(x, y)
            * c,
{
    lemma_modify_adjacent_faces(m, x, y, c);
    let m2 = m.modify_adjacent_spec(x, y, c);
    let div = m.divergence(x, y);
    let s = m.sides(x, y);
    let ir: int = if m.cell_or_static(x + 1, y).is_fluid_spec() {
        1
    } else {
        0
    };
    let il: int = if m.cell_or_static(x - 1, y).is_fluid_spec() {
        1
    } else {
        0
    };
    let id: int = if m.cell_or_static(x, y + 1).is_fluid_spec() {
        1
    } else {
        0
    };
    let iu: int = if m.cell_or_static(x, y - 1).is_fluid_spec() {
        1
    } else {
        0
    };
    assert(s == ir + il + id + iu);
    assert(m2.face(x, y, 1, 0) == m.face(x, y, 1, 0) + ir * c) by {
        if ir == 1 {
            assert(m2.face(x, y, 1, 0) == m.corrected(x, y, 1, 0, c));
            assert(1 * c == c) by (nonlinear_arith);
        } else {
            assert(0 * c == 0) by (nonlinear_arith);
        }
    }
    assert(m2.face(x, y, -1, 0) == m.face(x, y, -1, 0) - il * c) by {
        if il == 1 {
            assert(m2.face(x, y, -1, 0) == m.corrected(x, y, -1, 0, c));
            assert(1 * c == c) by (nonlinear_arith);
        } else {
            assert(0 * c == 0) by (nonlinear_arith);
        }
    }
    assert(m2.face(x, y, 0, 1) == m.face(x, y, 0, 1) + id * c) by {
        if id == 1 {
            assert(m2.face(x, y, 0, 1) == m.corrected(x, y, 0, 1, c));
            assert(1 * c == c) by (nonlinear_arith);
        } else {
            assert(0 * c == 0) by (nonlinear_arith);
        }
    }
    assert(m2.face(x, y, 0, -1) == m.face(x, y, 0, -1) - iu * c) by {
        if iu == 1 {
            assert(m2.face(x, y, 0, -1) == m.corrected(x, y, 0, -1, c));
            assert(1 * c == c) by (nonlinear_arith);
        } else {
            assert(0 * c == 0) by (nonlinear_arith);
        }
    }
    assert(m2.divergence(x, y) == div + (ir * c + il * c + id * c + iu * c));
    assert(ir * c + il * c + id * c + iu * c == s * c) by (nonlinear_arith)
        requires
            s == ir + il + id + iu,
    ;
}

/// Law: one Gauss-Seidel visit never grows the magnitude of the visited
/// cell's own divergence, for any overrelaxation factor up to two.  A
/// skipped cell (non-Fluid, fully enclosed, or out of sample range) keeps
/// its divergence; a corrected cell's divergence moves toward zero.
pub proof fn projection_step_divergence(m: GridModel, x: int, y: int)
    requires
        m.wf(),
        m.in_grid(x, y),
        m.overrelaxation <= 2 * (SCALE as int),
    ensures
        mag(m.project_cell(x, y).divergence(x, y)) <= mag(m.divergence(x, y)),
{
    if m.cell(x, y) is Fluid {
        let div = m.divergence(x, y);
        let s = m.sides(x, y);
        let or = m.overrelaxation;
        if s != 0 {
            let c = tdiv(-(div * or), s * (SCALE as int));
            if m.correction_fits(x, y, c) {
                correction_shifts_divergence(m, x, y, c);
                let m2 = m.project_cell(x, y);
                assert(m2 == m.modify_adjacent_spec(x, y, c));
                let d2 = m2.divergence(x, y);
                assert(d2 == div + s * c);
                crate::units::lemma_tdiv_bounds(-(div * or), s * (SCALE as int));
                assert(mag(c) * (s * (SCALE as int)) <= mag(-(div * or)));
                assert(mag(-(div * or)) == mag(div) * or) by (nonlinear_arith)
                    requires
                        or >= 0,
                ;
                assert(s * mag(c) <= 2 * mag(div)) by (nonlinear_arith)
                    requires
                        mag(c) * (s * (SCALE as int)) <= mag(div) * or,
                        or <= 2 * (SCALE as int),
                        SCALE == 1000,
                        s >= 1,
                        mag(c) >= 0,
                        mag(div) >= 0,
                ;
                if div >= 0 {
                    assert(-(div * or) <= 0) by (nonlinear_arith)
                        requires
                            div >= 0,
                            or >= 0,
                    ;
                    assert(c <= 0);
                    assert(-(2 * mag(div)) <= s * c <= 0) by (nonlinear_arith)
                        requires
                            c <= 0,
                            s >= 1,
                            s * mag(c) <= 2 * mag(div),
                            mag(c) == -c,
                    ;
                    assert(mag(d2) <= mag(div));
                } else {
                    assert(-(div * or) >= 0) by (nonlinear_arith)
                        requires
                            div < 0,
                            or >= 0,
                    ;
                    assert(c >= 0);
                    assert(0 <= s * c <= 2 * mag(div)) by (nonlinear_arith)
                        requires
                            c >= 0,
                            s >= 1,
                            s * mag(c) <= 2 * mag(div),
                            mag(c) == c,
                    ;
                    assert(mag(d2) <= mag(div));
                }
            }
        }
    }
}

/// On an all-zero velocity field, bilinear interpolation yields zero at
/// every position.
pub proof fn lemma_interp_zero(m: GridModel, px: int, py: int, f: Field)
    requires
        m.wf(),
        forall|i: int| 0 <= i < m.u.len() ==> m.u[i] == 0i64,
        forall|i: int| 0 <= i < m.v.len() ==> m.v[i] == 0i64,
    ensures
        m.interp_at(px, py, f) == 0,
{
    let ox: int = if f is U {
        0
    } else {
        500
    };
    let oy: int = if f is U {
        500
    } else {
        0
    };
    let cx = clamp_int(px - ox, 0, (m.x - 1) * 1000);
    let cy = clamp_int(py - oy, 0, (m.y - 1) * 1000);
    vstd::arithmetic::div_mod::lemma_fundamental_div_mod(cx, 1000);
    vstd::arithmetic::div_mod::lemma_fundamental_div_mod(cy, 1000);
    let x0 = cx / 1000;
    let y0 = cy / 1000;
    assert(0 <= x0 <= m.x - 1 && 0 <= y0 <= m.y - 1) by (nonlinear_arith)
        requires
            0 <= cx <= (m.x - 1) * 1000,
            0 <= cy <= (m.y - 1) * 1000,
            cx == 1000 * x0 + cx % 1000,
            cy == 1000 * y0 + cy % 1000,
            0 <= cx % 1000 < 1000,
            0 <= cy % 1000 < 1000,
            m.x >= 2,
            m.y >= 2,
    ;
    let x1 = crate::fluid::min_int(x0 + 1, m.x - 1);
    let y1 = crate::fluid::min_int(y0 + 1, m.y - 1);
    lemma_grid_idx(m.x + 1, m.y, x0, y0);
    lemma_grid_idx(m.x + 1, m.y, x1, y0);
    lemma_grid_idx(m.x + 1, m.y, x1, y1);
    lemma_grid_idx(m.x + 1, m.y, x0, y1);
    lemma_grid_idx(m.x, m.y + 1, x0, y0);
    lemma_grid_idx(m.x, m.y + 1, x1, y0);
    lemma_grid_idx(m.x, m.y + 1, x1, y1);
    lemma_grid_idx(m.x, m.y + 1, x0, y1);
    assert(m.sample(f, x0, y0) == 0 && m.sample(f, x1, y0) == 0 && m.sample(f, x1, y1) == 0
        && m.sample(f, x0, y1) == 0);
    let tx = cx - x0 * 1000;
    let ty = cy - y0 * 1000;
    let sx = 1000 - tx;
    let sy = 1000 - ty;
    assert(sx * sy * 0 == 0 && tx * sy * 0 == 0 && tx * ty * 0 == 0 && sx * ty * 0 == 0)
        by (nonlinear_arith);
    assert(tdiv(0, 1000000) == 0);
}

/// Law: with zero velocity everywhere, zero scratch state and zero
/// forcing, an advection sweep leaves every velocity and scratch sample
/// unchanged at zero: advection seeds no motion of its own.
pub proof fn advection_mass_sanity(m: GridModel)
    requires
        m.wf(),
        forall|i: int| 0 <= i < m.u.len() ==> m.u[i] == 0i64,
        forall|i: int| 0 <= i < m.v.len() ==> m.v[i] == 0i64,
        forall|i: int| 0 <= i < m.nu.len() ==> m.nu[i] == 0i64,
        forall|i: int| 0 <= i < m.nv.len() ==> m.nv[i] == 0i64,
    ensures
        forall|i: int| 0 <= i < m.advect_spec().u.len() ==> m.advect_spec().u[i] == 0i64,
        forall|i: int| 0 <= i < m.advect_spec().v.len() ==> m.advect_spec().v[i] == 0i64,
        forall|i: int| 0 <= i < m.advect_spec().nu.len() ==> m.advect_spec().nu[i] == 0i64,
        forall|i: int| 0 <= i < m.advect_spec().nv.len() ==> m.advect_spec().nv[i] == 0i64,
        m.advect_spec().element == m.element,
        m.advect_spec().boundaries == m.boundaries,
{
    assert forall|i: int| 0 <= i < m.nu.len() implies m.advected_nu_at(i) == 0i64 by {
        let x = i % (m.x + 1);
        let y = i / (m.x + 1);
        if m.u_advect_active(x, y) {
            let u_loc = m.u_at(x, y);
            let v_avg = m.average_v_spec(x, y);
            let px = x * 1000 - tdiv(u_loc * m.delta_t, m.grid_size);
            let py = y * 1000 + 500 - tdiv(v_avg * m.delta_t, m.grid_size);
            lemma_interp_zero(m, px, py, Field::U);
            assert(m.backtraced_u(x, y) == 0);
        }
    }
    assert forall|i: int| 0 <= i < m.nv.len() implies m.advected_nv_at(i) == 0i64 by {
        let x = i % m.x;
        let y = i / m.x;
        if m.v_advect_active(x, y) {
            let u_avg = m.average_u_spec(x, y);
            let v_loc = m.v_at(x, y);
            let px = x * 1000 + 500 - tdiv(u_avg * m.delta_t, m.grid_size);
            let py = y * 1000 - tdiv(v_loc * m.delta_t, m.grid_size);
            lemma_interp_zero(m, px, py, Field::V);
            assert(m.backtraced_v(x, y) == 0);
        }
    }
}

/// Law: the still fluid is a fixed point of advection: with zero
/// velocity and zero scratch state, any number of consecutive advection
/// sweeps leaves every velocity and scratch sample at zero and the
/// classification and registry untouched.
pub proof fn advection_mass_sanity_repeated(m: GridModel, k: int)
    requires
        m.wf(),
        0 <= k,
        forall|i: int| 0 <= i < m.u.len() ==> m.u[i] == 0i64,
        forall|i: int| 0 <= i < m.v.len() ==> m.v[i] == 0i64,
        forall|i: int| 0 <= i < m.nu.len() ==> m.nu[i] == 0i64,
        forall|i: int| 0 <= i < m.nv.len() ==> m.nv[i] == 0i64,
    ensures
        forall|i: int| 0 <= i < m.advect_iter(k).u.len() ==> m.advect_iter(k).u[i] == 0i64,
        forall|i: int| 0 <= i < m.advect_iter(k).v.len() ==> m.advect_iter(k).v[i] == 0i64,
        forall|i: int| 0 <= i < m.advect_iter(k).nu.len() ==> m.advect_iter(k).nu[i] == 0i64,
        forall|i: int| 0 <= i < m.advect_iter(k).nv.len() ==> m.advect_iter(k).nv[i] == 0i64,
        m.advect_iter(k).u.len() == m.u.len(),
        m.advect_iter(k).v.len() == m.v.len(),
        m.advect_iter(k).nu.len() == m.nu.len(),
        m.advect_iter(k).nv.len() == m.nv.len(),
        m.advect_iter(k).vorticity == m.vorticity,
        m.advect_iter(k).element == m.element,
        m.advect_iter(k).boundaries == m.boundaries,
        m.advect_iter(k).x == m.x,
        m.advect_iter(k).y == m.y,
        m.same_params(m.advect_iter(k)),
    decreases k,
{
    if k > 0 {
        advection_mass_sanity_repeated(m, k - 1);
        let p = m.advect_iter(k - 1);
        assert(p.wf()) by {
            lemma_registry_wf_same_cells(m, p);
            assert forall|i: int| 0 <= i < p.element.len() implies ele_wf(
                #[trigger] p.element[i],
            ) by {
                assert(p.element[i] == m.element[i]);
            }
            assert forall|i: int| 0 <= i < p.u.len() implies mag((#[trigger] p.u[i]) as int)
                <= VMAX as int by {
                assert(p.u[i] == 0i64);
            }
            assert forall|i: int| 0 <= i < p.v.len() implies mag((#[trigger] p.v[i]) as int)
                <= VMAX as int by {
                assert(p.v[i] == 0i64);
            }
            assert forall|i: int| 0 <= i < p.nu.len() implies mag((#[trigger] p.nu[i]) as int)
                <= VMAX as int by {
                assert(p.nu[i] == 0i64);
            }
            assert forall|i: int| 0 <= i < p.nv.len() implies mag((#[trigger] p.nv[i]) as int)
                <= VMAX as int by {
                assert(p.nv[i] == 0i64);
            }
            assert(samples_ok(p.vorticity, crate::units::WMAX as int));
        }
        advection_mass_sanity(p);
        assert(m.advect_iter(k) == p.advect_spec());
    }
}

/// Law: after a full `enforce` pass, the four adjoining faces of a
/// Static-classified registry cell are zero — provided no later registry
/// entry adjoins one of those faces, since a later entry sharing a face
/// writes it afterward.
pub proof fn static_cell_invariant(m: GridModel, i: int, dx: int, dy: int)
    requires
        m.wf(),
        0 <= i < m.boundaries.len(),
        m.cell(m.boundaries[i].x as int, m.boundaries[i].y as int) is Static,
        dir_ok(dx, dy),
        forall|j: int|
            i < j < m.boundaries.len() ==> !shares_face(
                (#[trigger] m.boundaries[j]).x as int,
                m.boundaries[j].y as int,
                m.boundaries[i].x as int,
                m.boundaries[i].y as int,
            ),
    ensures
        m.enforce_upto(m.boundaries.len() as int).face(
            m.boundaries[i].x as int,
            m.boundaries[i].y as int,
            dx,
            dy,
        ) == 0,
{
    let bx = m.boundaries[i].x as int;
    let by = m.boundaries[i].y as int;
    assert(m.in_grid(bx, by));
    lemma_enforce_upto_wf(m, i);
    let prev = m.enforce_upto(i);
    assert(prev.cell(bx, by) == m.cell(bx, by));
    assert(m.enforce_upto(i + 1) == prev.enforce_cell(bx, by));
    lemma_with_faces_same(prev, bx, by, 0, 0, 0, 0);
    assert(m.enforce_upto(i + 1).face(bx, by, dx, dy) == 0);
    lemma_enforce_tail_preserves_face(m, i + 1, m.boundaries.len() as int, bx, by, dx, dy);
}

/// Law: after a full `enforce` pass, the four adjoining faces of a
/// Source-classified registry cell carry its configured velocity — the
/// horizontal faces its x component, the vertical faces its y component —
/// provided no later registry entry adjoins one of those faces.
pub proof fn source_cell_invariant(m: GridModel, i: int, s: Source, dx: int, dy: int)
    requires
        m.wf(),
        0 <= i < m.boundaries.len(),
        m.cell(m.boundaries[i].x as int, m.boundaries[i].y as int) == Ele::Source(s),
        dir_ok(dx, dy),
        forall|j: int|
            i < j < m.boundaries.len() ==> !shares_face(
                (#[trigger] m.boundaries[j]).x as int,
                m.boundaries[j].y as int,
                m.boundaries[i].x as int,
                m.boundaries[i].y as int,
            ),
    ensures
        m.enforce_upto(m.boundaries.len() as int).face(
            m.boundaries[i].x as int,
            m.boundaries[i].y as int,
            dx,
            dy,
        ) == (if dy == 0 {
            s.velocity.x as int
        } else {
            s.velocity.y as int
        }),
{
    let bx = m.boundaries[i].x as int;
    let by = m.boundaries[i].y as int;
    assert(m.in_grid(bx, by));
    lemma_enforce_upto_wf(m, i);
    let prev = m.enforce_upto(i);
    assert(prev.cell(bx, by) == m.cell(bx, by));
    assert(m.enforce_upto(i + 1) == prev.enforce_cell(bx, by));
    lemma_with_faces_same(prev, bx, by, s.velocity.x, s.velocity.x, s.velocity.y, s.velocity.y);
    lemma_enforce_tail_preserves_face(m, i + 1, m.boundaries.len() as int, bx, by, dx, dy);
}

/// Law: directly after `enforce` processes a Clone-classified registry
/// entry, each of its four adjoining faces equals the corresponding face
/// of the cell at its stored offset as that face stood before any of the
/// entry's own writes in the same pass.
pub proof fn clone_cell_invariant(m: GridModel, i: int, mi: Mirror, dx: int, dy: int)
    requires
        m.wf(),
        0 <= i < m.boundaries.len(),
        m.cell(m.boundaries[i].x as int, m.boundaries[i].y as int) == Ele::Clone(mi),
        m.in_grid(
            m.boundaries[i].x as int + mi.master.x,
            m.boundaries[i].y as int + mi.master.y,
        ),
        dir_ok(dx, dy),
    ensures
        m.enforce_upto(i + 1).face(m.boundaries[i].x as int, m.boundaries[i].y as int, dx, dy)
            == m.enforce_upto(i).face(
            m.boundaries[i].x as int + mi.master.x,
            m.boundaries[i].y as int + mi.master.y,
            dx,
            dy,
        ),
{
    let bx = m.boundaries[i].x as int;
    let by = m.boundaries[i].y as int;
    let mx = bx + mi.master.x;
    let my = by + mi.master.y;
    assert(m.in_grid(bx, by));
    lemma_enforce_upto_wf(m, i);
    let prev = m.enforce_upto(i);
    assert(prev.cell(bx, by) == m.cell(bx, by));
    assert(m.enforce_upto(i + 1) == prev.enforce_cell(bx, by));
    lemma_enforce_cell_wf(prev, bx, by);
    lemma_with_faces_same(
        prev,
        bx,
        by,
        prev.face(mx, my, 1, 0) as i64,
        prev.face(mx, my, -1, 0) as i64,
        prev.face(mx, my, 0, 1) as i64,
        prev.face(mx, my, 0, -1) as i64,
    );
    crate::fluid::lemma_grid_idx(prev.x + 1, prev.y, mx + 1, my);
    crate::fluid::lemma_grid_idx(prev.x + 1, prev.y, mx, my);
    crate::fluid::lemma_grid_idx(prev.x, prev.y + 1, mx, my + 1);
    crate::fluid::lemma_grid_idx(prev.x, prev.y + 1, mx, my);
}

/// How often a coordinate occurs in the registry.
pub open spec fn count_of(s: Seq<Vector<usize>>, c: Vector<usize>) -> nat
    decreases s.len(),
{
    if s.len() == 0 {
        0nat
    } else {
        (if s[0] == c {
            1nat
        } else {
            0nat
        }) + count_of(s.drop_first(), c)
    }
}

/// A coordinate occurring nowhere has count zero.
pub proof fn lemma_count_of_zero(s: Seq<Vector<usize>>, c: Vector<usize>)
    requires
        forall|j: int| 0 <= j < s.len() ==> #[trigger] s[j] != c,
    ensures
        count_of(s, c) == 0,
    decreases s.len(),
{
    if s.len() > 0 {
        assert(s[0] != c);
        assert forall|j: int| 0 <= j < s.drop_first().len() implies #[trigger] s.drop_first()[j]
            != c by {
            assert(s.drop_first()[j] == s[j + 1]);
        }
        lemma_count_of_zero(s.drop_first(), c);
    }
}

/// In a duplicate-free registry, a coordinate counts one if present and
/// zero if not.
pub proof fn lemma_count_of_distinct(s: Seq<Vector<usize>>, c: Vector<usize>)
    requires
        forall|j: int, k: int| 0 <= j < k < s.len() ==> #[trigger] s[j] != #[trigger] s[k],
    ensures
        count_of(s, c) == (if s.contains(c) {
            1nat
        } else {
            0nat
        }),
    decreases s.len(),
{
    if s.len() > 0 {
        let t = s.drop_first();
        assert forall|j: int, k: int| 0 <= j < k < t.len() implies #[trigger] t[j]
            != #[trigger] t[k] by {
            assert(t[j] == s[j + 1] && t[k] == s[k + 1]);
        }
        lemma_count_of_distinct(t, c);
        if s[0] == c {
            assert forall|j: int| 0 <= j < t.len() implies #[trigger] t[j] != c by {
                assert(t[j] == s[j + 1]);
                assert(s[0] != s[j + 1]);
            }
            lemma_count_of_zero(t, c);
            assert(s.contains(c));
        } else {
            if s.contains(c) {
                let w = choose|w: int| 0 <= w < s.len() && s[w] == c;
                assert(w != 0);
                assert(t[w - 1] == s[w]);
                assert(t.contains(c));
            } else {
                if t.contains(c) {
                    let w = choose|w: int| 0 <= w < t.len() && t[w] == c;
                    assert(t[w] == s[w + 1]);
                    assert(s.contains(c));
                }
            }
        }
    }
}

/// Law: under the registry–classification bijection, a cell classifies
/// as non-Fluid exactly when its coordinate appears exactly once in the
/// boundary registry.
pub proof fn registry_classification_bijection(m: GridModel, x: int, y: int)
    requires
        m.wf(),
        m.registry_complete(),
        m.in_grid(x, y),
    ensures
        !(m.cell(x, y) is Fluid) <==> count_of(
            m.boundaries,
            Vector { x: x as usize, y: y as usize },
        ) == 1,
{
    let c = Vector { x: x as usize, y: y as usize };
    lemma_count_of_distinct(m.boundaries, c);
    if !(m.cell(x, y) is Fluid) {
        assert(m.boundaries.contains(c));
    }
    if count_of(m.boundaries, c) == 1 {
        assert(m.boundaries.contains(c));
        let i = choose|i: int| 0 <= i < m.boundaries.len() && m.boundaries[i] == c;
        assert(!(m.cell(m.boundaries[i].x as int, m.boundaries[i].y as int) is Fluid));
        assert(m.boundaries[i].x as int == x && m.boundaries[i].y as int == y);
    }
}

} // verus!
