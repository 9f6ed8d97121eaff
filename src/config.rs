use vstd::prelude::*;

verus! {

/// Interior width of the default grid, in cells.
pub const NX0: i32 = 120;

/// Interior height of the default grid, in cells.
pub const NY0: i32 = 120;

/// Number of time steps of a default run.
pub const NSTEP: usize = 2000;

/// Default thickness of the absorbing layer, in cells.
pub const LPML: usize = 8;

/// Default polynomial order of the absorbing layer's conductivity profile.
pub const ORDER: u32 = 4;

/// The physical and numerical constants of a simulation.
///
/// The number type is left to the caller, so the values (cell size, vacuum
/// constants, background medium, target reflection of the absorbing layer,
/// safety margin of the time step, pulse width of the source) come in here
/// rather than as literals of the solver.
#[derive(Clone, Copy, Debug)]
pub struct Config<T> {
    /// Cell width.
    pub dx: T,
    /// Cell height.
    pub dy: T,
    /// Vacuum permittivity.
    pub eps0: T,
    /// Vacuum permeability.
    pub mu0: T,
    /// Speed of light in vacuum.
    pub c: T,
    /// Relative permittivity of the background medium.
    pub eps_bk: T,
    /// Relative permeability of the background medium.
    pub mu_bk: T,
    /// Electric conductivity of the background medium.
    pub sig_e_bk: T,
    /// Magnetic conductivity of the background medium.
    pub sig_m_bk: T,
    /// Scale factor of the maximal conductivity of the absorbing layer.
    pub copml: T,
    /// Target reflection of the absorbing layer, in decibels.
    pub rmax: T,
    /// Fraction of the Courant limit used as the time step.
    pub margin: T,
    /// Width of the Gaussian source pulse, in seconds.
    pub duration: T,
    /// Thickness of the absorbing layer, in cells.
    pub lpml: usize,
    /// Polynomial order of the conductivity profile.
    pub order: u32,
}

} // verus!
