use fluid::config::{Config, State, VisualMode};
use fluid::fluid::Ele;
use fluid::mirror::Mirror;
use fluid::source::Source;
use fluid::units::div_trunc;
use fluid::utils::{
    abs_u128, get_directions, get_directions_26, get_directions_8, isqrt, Clamp, Vector,
};

#[test]
fn directions_enumerate_axis_neighbors() {
    assert_eq!(get_directions(), [(-1, 0), (1, 0), (0, -1), (0, 1)]);
    assert_eq!(get_directions_8().len(), 8);
    assert_eq!(get_directions_26().len(), 26);
}

#[test]
fn element_kinds_report_their_roles() {
    let fluid_cell = Ele::Fluid;
    let solid = Ele::Static;
    let emitter = Ele::Source(Source::construct(5, -3));
    let matcher = Ele::Clone(Mirror::construct(-1, 0));
    assert!(fluid_cell.is_fluid());
    assert!(matcher.is_fluid());
    assert!(!solid.is_fluid());
    assert!(!emitter.is_fluid());
    assert!(solid.is_static());
    assert!(!fluid_cell.is_static());
    assert_eq!(fluid_cell.to_strslice(), "Fluid");
    assert_eq!(solid.to_strslice(), "Solid");
    assert_eq!(emitter.to_strslice(), "Emitter");
    assert_eq!(matcher.to_strslice(), "Match");
}

#[test]
fn truncating_division_rounds_toward_zero() {
    assert_eq!(div_trunc(7, 2), 3);
    assert_eq!(div_trunc(-7, 2), -3);
    assert_eq!(div_trunc(999, 1000), 0);
    assert_eq!(div_trunc(-999, 1000), 0);
    assert_eq!(div_trunc(0, 4), 0);
}

#[test]
fn integer_square_root_is_exact_floor() {
    assert_eq!(isqrt(0), 0);
    assert_eq!(isqrt(1), 1);
    assert_eq!(isqrt(8), 2);
    assert_eq!(isqrt(9), 3);
    assert_eq!(isqrt(10), 3);
    assert_eq!(isqrt(1_000_000_000_000), 1_000_000);
    assert_eq!(isqrt(999_999_999_999), 999_999);
}

#[test]
fn vector_magnitude_and_normalize() {
    let v = Vector::construct(3000i64, 4000i64);
    assert_eq!(v.magnitude(), 5000);
    let mut w = Vector::construct(3000i64, 4000i64);
    w.normalize();
    // 3000 * 1000 / 5000 and 4000 * 1000 / 5000
    assert_eq!(w.x, 600);
    assert_eq!(w.y, 800);
    let mut z = Vector::<i64>::new();
    z.add(7, -2);
    assert_eq!((z.x, z.y), (7, -2));
    assert_eq!(Vector::<isize>::dot(Vector::construct(2, 3), Vector::construct(4, -1)), 5);
    assert_eq!(abs_u128(-12), 12);
}

#[test]
fn clamp_pulls_into_interval() {
    assert_eq!((-5i64).clamped(0, 10), 0);
    assert_eq!(15i64.clamped(0, 10), 10);
    assert_eq!(7i64.clamped(0, 10), 7);
}

#[test]
fn default_config_is_canonical() {
    let c = Config::new();
    assert_eq!(c.x, 500);
    assert_eq!(c.y, 500);
    assert_eq!(c.overrelaxation, 1970);
    assert_eq!(c.iters, 50);
    assert_eq!(c.delta_t, 200);
    assert_eq!(c.source_velocity, 145000);
    assert_eq!(c.grid_size, 2000);
    assert_eq!(c.epsilon, 300);
}

#[test]
fn ui_state_machines_rotate() {
    let s = State::new();
    assert_eq!(s, State::Pause);
    assert_eq!(s.rotate(), State::Simulation);
    assert_eq!(s.rotate().rotate(), State::Pause);
    let mut v = VisualMode::new();
    assert_eq!(v, VisualMode::Gradient);
    for _ in 0..5 {
        v = v.rotate();
    }
    assert_eq!(v, VisualMode::Gradient);
}
