use fluid::config::Config;
use fluid::fluid::{Ele, Fluid};
use fluid::fluidapi::Oo;
use fluid::source::Source;

fn small_config(x: usize, y: usize, overrelaxation: i64, iters: usize, source_velocity: i64) -> Config {
    Config {
        x,
        y,
        overrelaxation,
        iters,
        delta_t: 200,
        source_velocity,
        grid_size: 2000,
        epsilon: 300,
    }
}

fn face(fluid: &Fluid, x: usize, y: usize, dx: isize, dy: isize) -> i64 {
    Oo::construct(x, y).peek_velocity(fluid, dx, dy)
}

fn divergence(fluid: &Fluid, x: usize, y: usize) -> i64 {
    Oo::construct(x, y).divergence_here(fluid)
}

/// A 4x4 grid, all Fluid, one Source(vx=2.0, vy=0) cell at (0,1), Static
/// border elsewhere: after one enforce, the source's horizontal faces
/// carry 2.0 and its vertical faces 0; one projection sweep with
/// overrelaxation 1.0 then strictly shrinks the one nonzero interior
/// divergence.
#[test]
fn source_grid_enforce_and_projection() {
    let config = small_config(4, 4, 1000, 1, 2000);
    let mut f = Fluid::construct(&config);
    for x in 0..4usize {
        for y in 0..4usize {
            let border = x == 0 || y == 0 || x == 3 || y == 3;
            if border && !(x == 0 && y == 1) {
                f.assert_boundary_place(x, y);
            }
        }
    }
    Oo::construct(0, 1).set_here(&mut f, Ele::Source(Source::construct(2000, 0)));
    f.enforce_boundary_conditions();

    assert_eq!(face(&f, 0, 1, 1, 0), 2000);
    assert_eq!(face(&f, 0, 1, -1, 0), 2000);
    assert_eq!(face(&f, 0, 1, 0, 1), 0);
    assert_eq!(face(&f, 0, 1, 0, -1), 0);

    let before = [
        divergence(&f, 1, 1),
        divergence(&f, 2, 1),
        divergence(&f, 1, 2),
        divergence(&f, 2, 2),
    ];
    assert_eq!(before, [-2000, 0, 0, 0]);

    f.update_fluid(true, false, false, false);

    let after = [
        divergence(&f, 1, 1),
        divergence(&f, 2, 1),
        divergence(&f, 1, 2),
        divergence(&f, 2, 2),
    ];
    assert_eq!(after, [-1000, -500, -500, 0]);
    assert!(after[0].abs() < before[0].abs());

    // the exact face values left by the sweep
    assert_eq!(face(&f, 1, 1, 1, 0), 500);
    assert_eq!(face(&f, 2, 2, 1, 0), 0);
    assert_eq!(face(&f, 1, 1, 0, 1), 500);
    assert_eq!(face(&f, 2, 2, 0, 1), 0);
}

/// After enforce, a Static cell's four adjoining faces are zero, whatever
/// they held before.
#[test]
fn static_cell_faces_zeroed() {
    let config = small_config(4, 4, 1970, 2, 1000);
    let mut f = Fluid::construct(&config);
    f.assert_boundary_place(1, 1);
    let oo = Oo::construct(1, 1);
    oo.poke_velocity(&mut f, 1, 0, 777);
    oo.poke_velocity(&mut f, -1, 0, -5);
    oo.poke_velocity(&mut f, 0, 1, 123);
    oo.poke_velocity(&mut f, 0, -1, 9);
    f.enforce_boundary_conditions();
    assert_eq!(face(&f, 1, 1, 1, 0), 0);
    assert_eq!(face(&f, 1, 1, -1, 0), 0);
    assert_eq!(face(&f, 1, 1, 0, 1), 0);
    assert_eq!(face(&f, 1, 1, 0, -1), 0);
}

/// A Source cell's faces carry the configured velocity after enforce,
/// even after an intervening advection/projection pass re-runs the
/// pipeline around it.
#[test]
fn source_cell_faces_survive_pipeline() {
    let config = small_config(5, 5, 1970, 3, 1500);
    let mut f = Fluid::construct(&config);
    Oo::construct(2, 2).set_here(&mut f, Ele::Source(Source::construct(1500, -250)));
    f.enforce_boundary_conditions();
    for _ in 0..3 {
        f.update_fluid(true, true, true, true);
        assert_eq!(face(&f, 2, 2, 1, 0), 1500);
        assert_eq!(face(&f, 2, 2, -1, 0), 1500);
        assert_eq!(face(&f, 2, 2, 0, 1), -250);
        assert_eq!(face(&f, 2, 2, 0, -1), -250);
    }
}

/// A Clone cell's four faces exactly equal the master's faces as they
/// stood before the clone's own writes, reads happening before writes
/// even when master and clone share a face.
#[test]
fn clone_cell_copies_master_faces() {
    let config = small_config(4, 3, 1970, 2, 1000);
    let mut f = Fluid::construct(&config);
    // master (0,1) and clone (1,1) are adjacent: the clone's left face is
    // the master's right face
    let master = Oo::construct(0, 1);
    master.poke_velocity(&mut f, 1, 0, 40);  // shared face
    master.poke_velocity(&mut f, -1, 0, 10);
    master.poke_velocity(&mut f, 0, 1, 20);
    master.poke_velocity(&mut f, 0, -1, 30);
    Oo::construct(1, 1).set_here(
        &mut f,
        Ele::Clone(fluid::mirror::Mirror::construct(-1, 0)),
    );
    f.enforce_boundary_conditions();
    assert_eq!(face(&f, 1, 1, 1, 0), 40);
    assert_eq!(face(&f, 1, 1, -1, 0), 10);
    assert_eq!(face(&f, 1, 1, 0, 1), 20);
    assert_eq!(face(&f, 1, 1, 0, -1), 30);
}

/// Classification is non-Fluid exactly when the coordinate sits in the
/// registry, exactly once; placement is idempotent and deletion removes
/// the entry.
#[test]
fn registry_matches_classification() {
    let config = small_config(4, 4, 1970, 2, 1000);
    let mut f = Fluid::construct(&config);
    assert_eq!(f.boundaries.len(), 0);
    f.assert_boundary_place(2, 1);
    assert_eq!(f.boundaries.len(), 1);
    assert!(Oo::construct(2, 1).peek_element_here(&f, 0, 0).is_static());
    // idempotent
    f.assert_boundary_place(2, 1);
    assert_eq!(f.boundaries.len(), 1);
    // out of bounds is a silent no-op
    f.assert_boundary_place(9, 9);
    assert_eq!(f.boundaries.len(), 1);
    f.assert_boundary_place(0, 0);
    assert_eq!(f.boundaries.len(), 2);
    let registered = f.boundaries.iter().filter(|b| b.x == 2 && b.y == 1).count();
    assert_eq!(registered, 1);
    f.assert_boundary_delete(2, 1);
    assert_eq!(f.boundaries.len(), 1);
    assert_eq!(Oo::construct(2, 1).peek_element_here(&f, 0, 0), Ele::Fluid);
    assert!(!f.boundaries.iter().any(|b| b.x == 2 && b.y == 1));
}

/// With zero velocity everywhere and zero forcing, repeated advection
/// leaves the velocity arrays untouched.
#[test]
fn advection_of_still_fluid_is_still() {
    let config = small_config(6, 5, 1970, 2, 1000);
    let mut f = Fluid::construct(&config);
    for _ in 0..4 {
        f.update_fluid(false, true, false, false);
    }
    assert!(f.u.iter().all(|s| *s == 0));
    assert!(f.v.iter().all(|s| *s == 0));
}

/// Bilinear resampling of a uniform field returns the field exactly, so
/// advecting a uniform flow keeps its interior samples.
#[test]
fn advection_of_uniform_flow_is_exact() {
    let config = small_config(6, 6, 1970, 2, 1000);
    let mut f = Fluid::construct(&config);
    for s in f.u.iter_mut() {
        *s = 7000;
    }
    f.update_fluid(false, true, false, false);
    // active interior u samples: x in 1..6, y in 1..4
    for y in 1..4usize {
        for x in 1..6usize {
            assert_eq!(f.u[y * 7 + x], 7000);
        }
    }
}

/// Filling from a seed enclosed by Static cells terminates and converts
/// exactly the enclosed pocket; the walls stop it from marking the rest
/// of the grid.
#[test]
fn flood_fill_respects_enclosure() {
    let config = small_config(6, 6, 1970, 2, 1000);
    let mut f = Fluid::construct(&config);
    // a 1-cell pocket at (2,2) ringed by Static
    for (x, y) in [(1, 1), (2, 1), (3, 1), (1, 2), (3, 2), (1, 3), (2, 3), (3, 3)] {
        f.assert_boundary_place(x, y);
    }
    f.fill_dfs(2, 2);
    assert!(Oo::construct(2, 2).peek_element_here(&f, 0, 0).is_static());
    // outside the ring nothing changed
    assert_eq!(Oo::construct(0, 0).peek_element_here(&f, 0, 0), Ele::Fluid);
    assert_eq!(Oo::construct(4, 4).peek_element_here(&f, 0, 0), Ele::Fluid);
    assert_eq!(Oo::construct(5, 0).peek_element_here(&f, 0, 0), Ele::Fluid);
}

/// Filling from a seed with a path to the edge floods every reachable
/// cell but leaves existing Static walls as they are.
#[test]
fn flood_fill_floods_open_region() {
    let config = small_config(4, 4, 1970, 2, 1000);
    let mut f = Fluid::construct(&config);
    f.assert_boundary_place(1, 1);
    f.fill_dfs(0, 0);
    for x in 0..4usize {
        for y in 0..4usize {
            assert!(Oo::construct(x, y).peek_element_here(&f, 0, 0).is_static());
        }
    }
}

/// The canonical initial layout: mirroring right column, Static top and
/// bottom rows, a left column whose middle segment is the inlet Source,
/// and the circular obstacle; reset rebuilds it from any state.
#[test]
fn reset_rebuilds_canonical_layout() {
    let config = small_config(22, 22, 1970, 2, 1500);
    let mut f = Fluid::construct(&config);
    f.assert_boundary_place(7, 7);
    f.reset();
    // top and bottom rows
    assert!(Oo::construct(5, 0).peek_element_here(&f, 0, 0).is_static());
    assert!(Oo::construct(5, 21).peek_element_here(&f, 0, 0).is_static());
    // right column mirrors its left neighbor
    match Oo::construct(21, 10).peek_element_here(&f, 0, 0) {
        Ele::Clone(m) => {
            assert_eq!(m.master.x, -1);
            assert_eq!(m.master.y, 0);
        }
        other => panic!("expected a Clone cell, found {:?}", other),
    }
    // the inlet segment: rows 11..=11 (22*5/11 = 10 < b < 22*6/11 = 12)
    match Oo::construct(0, 11).peek_element_here(&f, 0, 0) {
        Ele::Source(s) => {
            assert_eq!(s.velocity.x, 1500);
            assert_eq!(s.velocity.y, 0);
        }
        other => panic!("expected a Source cell, found {:?}", other),
    }
    assert!(Oo::construct(0, 10).peek_element_here(&f, 0, 0).is_static());
    // the circular obstacle around (4, 11) with radius 2
    assert!(Oo::construct(4, 11).peek_element_here(&f, 0, 0).is_static());
    // interior fluid away from all layers
    assert_eq!(Oo::construct(12, 5).peek_element_here(&f, 0, 0), Ele::Fluid);
    // the interior Static placed before reset is gone
    assert_eq!(Oo::construct(7, 7).peek_element_here(&f, 0, 0), Ele::Fluid);
}

/// The central-difference vorticity of a linear shear flow.
#[test]
fn vorticity_of_shear_flow() {
    let config = small_config(5, 5, 1970, 2, 1000);
    let mut f = Fluid::construct(&config);
    // u grows linearly with row: u = 1000 * y
    for y in 0..5usize {
        for x in 0..6usize {
            f.u[y * 6 + x] = 1000 * y as i64;
        }
    }
    f.update_fluid(false, false, false, true);
    // vorticity = (v(x+1) - v(x-1))/2 - (u(y+1) - u(y-1))/2 = -1000 at
    // every interior cell
    for y in 1..4usize {
        for x in 1..4usize {
            assert_eq!(f.vorticity[y * 5 + x], -1000);
        }
    }
    // at the center the vorticity gradient is zero, so no force is added
    // there
    assert_eq!(f.u[2 * 6 + 2], 2000);
    assert_eq!(f.v[2 * 5 + 2], 0);
}

/// A cell with no permeable neighbor is skipped by projection even when
/// its divergence is nonzero.
#[test]
fn projection_skips_enclosed_cell() {
    let config = small_config(5, 5, 1000, 1, 1000);
    let mut f = Fluid::construct(&config);
    for (x, y) in [(1, 2), (3, 2), (2, 1), (2, 3)] {
        f.assert_boundary_place(x, y);
    }
    let oo = Oo::construct(2, 2);
    oo.poke_velocity(&mut f, 1, 0, 900);
    let before = divergence(&f, 2, 2);
    assert_eq!(before, 900);
    f.update_fluid(true, false, false, false);
    assert_eq!(divergence(&f, 2, 2), 900);
}

/// The smallest admissible grid runs the whole pipeline without any
/// Fluid cell left after the canonical layout.
#[test]
fn minimal_grid_pipeline_smoke() {
    let config = small_config(2, 2, 1970, 2, 1000);
    let mut f = Fluid::construct(&config);
    f.assert_boundary_conditions();
    for x in 0..2usize {
        for y in 0..2usize {
            assert!(!Oo::construct(x, y).peek_element_here(&f, 0, 0).is_fluid());
        }
    }
    for _ in 0..2 {
        f.update_fluid(true, true, true, true);
    }
    f.reset();
    assert_eq!(f.boundaries.len(), 4);
}

/// Peeking past the grid edge reads the closed-world Static default.
#[test]
fn out_of_bounds_reads_static() {
    let config = small_config(3, 3, 1970, 2, 1000);
    let f = Fluid::construct(&config);
    assert_eq!(Oo::construct(0, 0).peek_element_here(&f, -1, 0), Ele::Static);
    assert_eq!(Oo::construct(0, 0).peek_element_here(&f, 0, -1), Ele::Static);
    assert_eq!(Oo::construct(2, 2).peek_element_here(&f, 1, 0), Ele::Static);
    assert_eq!(Oo::construct(2, 2).peek_element_here(&f, 0, 1), Ele::Static);
    assert!(f.inbounds(2, 2));
    assert!(!f.inbounds(3, 2));
}
