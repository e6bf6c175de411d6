//! Simulation configuration and the small UI state machines of the driver.

use vstd::prelude::*;

use crate::units::mag;
use crate::units::DMAX;
use crate::units::ORMAX;
use crate::units::PMAX;
use crate::units::VMAX;

verus! {

pub const SCALE_FACTOR: usize = 25;

pub const WIDTH: usize = 20 * SCALE_FACTOR;

pub const HEIGHT: usize = 20 * SCALE_FACTOR;

/// Overrelaxation factor in ticks: 1.97 units.
pub const OVERRELAXATION: i64 = 1970;

pub const ITERS: usize = 50;

/// Timestep in ticks: 0.2 units.
pub const DELTA_T: i64 = 200;

/// Source inflow velocity in ticks: 145 units.
pub const SOURCE_V: i64 = 145000;

/// Grid spacing in ticks: 2 units.
pub const GRID_SIZE: i64 = 2000;

/// Vorticity confinement coefficient in ticks: 0.3 units.
pub const VORT_CONF_EPSILON: i64 = 300;

/// All simulation parameters needed to construct a fluid.  Velocities,
/// times and lengths are fixed-point ticks (see `units`).
pub struct Config {
    pub x: usize,
    pub y: usize,
    pub overrelaxation: i64,
    pub iters: usize,
    pub delta_t: i64,
    pub source_velocity: i64,
    pub grid_size: i64,
    pub epsilon: i64,
}

impl Config {
    /// Bounds under which every arithmetic step of the solver fits in its
    /// machine integers.
    pub open spec fn wf(self) -> bool {
        &&& 2 <= self.x <= DMAX
        &&& 2 <= self.y <= DMAX
        &&& 0 <= self.overrelaxation <= ORMAX
        &&& 0 <= self.delta_t <= PMAX
        &&& 1 <= self.grid_size <= PMAX
        &&& mag(self.source_velocity as int) <= VMAX
        &&& 0 <= self.epsilon <= PMAX
        &&& self.iters <= 1000000
    }

    pub fn new() -> (r: Config)
        ensures
            r.wf(),
            r.x == WIDTH,
            r.y == HEIGHT,
            r.overrelaxation == OVERRELAXATION,
            r.iters == ITERS,
            r.delta_t == DELTA_T,
            r.source_velocity == SOURCE_V,
            r.grid_size == GRID_SIZE,
            r.epsilon == VORT_CONF_EPSILON,
    {
        Config {
            x: WIDTH,
            y: HEIGHT,
            overrelaxation: OVERRELAXATION,
            iters: ITERS,
            delta_t: DELTA_T,
            source_velocity: SOURCE_V,
            grid_size: GRID_SIZE,
            epsilon: VORT_CONF_EPSILON,
        }
    }
}

/// Whether the simulation is advancing or paused.
#[derive(Clone, Copy, Debug, PartialEq, Eq, Structural)]
pub enum State {
    Simulation,
    Pause,
}

impl State {
    pub fn new() -> (r: State)
        ensures
            r is Pause,
    {
        Self::Pause
    }

    pub fn rotate(&self) -> (r: State)
        ensures
            r == (match *self {
                State::Simulation => State::Pause,
                State::Pause => State::Simulation,
            }),
    {
        match self {
            Self::Simulation => Self::Pause,
            Self::Pause => Self::Simulation,
        }
    }
}

/// Which visualization the driver draws.
#[derive(Clone, Copy, Debug, PartialEq, Eq, Structural)]
pub enum VisualMode {
    Gradient,
    Vector,
    Other,
    Streamline,
    Blank,
}

impl VisualMode {
    pub fn new() -> (r: VisualMode)
        ensures
            r is Gradient,
    {
        Self::Gradient
    }

    pub fn rotate(&self) -> (r: VisualMode)
        ensures
            r == (match *self {
                VisualMode::Gradient => VisualMode::Vector,
                VisualMode::Vector => VisualMode::Other,
                VisualMode::Other => VisualMode::Streamline,
                VisualMode::Streamline => VisualMode::Blank,
                VisualMode::Blank => VisualMode::Gradient,
            }),
    {
        match self {
            Self::Gradient => Self::Vector,
            Self::Vector => Self::Other,
            Self::Other => Self::Streamline,
            Self::Streamline => Self::Blank,
            Self::Blank => Self::Gradient,
        }
    }
}

} // verus!
