use rfdtd::config::{Config, LPML, NSTEP, ORDER};
use rfdtd::fdtd2d::{fdtd, fdtdBuilder, FdtdError};
use rfdtd::grid::{depth, flat_index, sweep, Component, Dims, Rect};
use rfdtd::scalar::Real;

#[derive(Clone, Copy, Debug, PartialEq)]
struct F(f32);

impl Real for F {
    // The spec functions name what the operations compute; outside the
    // verifier they are the same operations.
    fn spec_plus(self, o: F) -> F {
        F(self.0 + o.0)
    }
    fn spec_minus(self, o: F) -> F {
        F(self.0 - o.0)
    }
    fn spec_times(self, o: F) -> F {
        F(self.0 * o.0)
    }
    fn spec_divided_by(self, o: F) -> F {
        F(self.0 / o.0)
    }
    fn spec_negated(self) -> F {
        F(-self.0)
    }
    fn spec_square_root(self) -> F {
        F(self.0.sqrt())
    }
    fn spec_exponential(self) -> F {
        F(self.0.exp())
    }
    fn spec_power(self, n: u32) -> F {
        F(self.0.powi(n as i32))
    }
    fn spec_from_count(n: usize) -> F {
        F(n as f32)
    }
    fn plus(self, o: F) -> F {
        self.spec_plus(o)
    }
    fn minus(self, o: F) -> F {
        self.spec_minus(o)
    }
    fn times(self, o: F) -> F {
        self.spec_times(o)
    }
    fn divided_by(self, o: F) -> F {
        self.spec_divided_by(o)
    }
    fn negated(self) -> F {
        self.spec_negated()
    }
    fn square_root(self) -> F {
        self.spec_square_root()
    }
    fn exponential(self) -> F {
        self.spec_exponential()
    }
    fn power(self, n: u32) -> F {
        self.spec_power(n)
    }
    fn from_count(n: usize) -> F {
        F::spec_from_count(n)
    }
}

fn cfg() -> Config<F> {
    Config {
        dx: F(0.005),
        dy: F(0.005),
        eps0: F(8.8541878e-12),
        mu0: F(1.2566371e-6),
        c: F(2.9979246e8),
        eps_bk: F(1.0),
        mu_bk: F(1.0),
        sig_e_bk: F(0.0),
        sig_m_bk: F(0.0),
        copml: F(-1.5280063e-4),
        rmax: F(-120.0),
        margin: F(0.99999),
        duration: F(0.1e-9),
        lpml: LPML,
        order: ORDER,
    }
}

fn sized(x: i32, y: i32) -> fdtd<F> {
    fdtdBuilder::newSize(cfg(), x, y).unwrap()
}

fn ez(g: &fdtd<F>, x: usize, y: usize) -> f32 {
    g.field(Component::Ez, x, y).unwrap().0
}

fn get(g: &fdtd<F>, c: Component, x: usize, y: usize) -> f32 {
    g.field(c, x, y).unwrap().0
}

fn run(g: &mut fdtd<F>, x: usize, y: usize, steps: usize) {
    for _ in 0..steps {
        g.step(x, y).unwrap();
    }
}

/// Largest |ez| over the whole grid.
fn peak_ez(g: &fdtd<F>) -> f32 {
    let d = g.dims();
    let mut m = 0.0f32;
    for y in 0..d.ny {
        for x in 0..d.nx {
            m = m.max(ez(g, x, y).abs());
        }
    }
    m
}

#[test]
fn default_grid_has_guard_layers() {
    let g = fdtdBuilder::new(cfg()).unwrap();
    assert_eq!(g.dims(), Dims { nx: 136, ny: 136, lpml: 8 });
    assert!(!g.is_ready());
    assert_eq!(g.time(), g.dt());
    assert_eq!(ez(&g, 0, 0), 0.0);
    assert_eq!(ez(&g, 135, 135), 0.0);
    assert!(g.field(Component::Ez, 136, 0).is_none());
}

#[test]
fn sized_grid_dimensions() {
    let g = sized(30, 20);
    assert_eq!(g.dims(), Dims { nx: 46, ny: 36, lpml: 8 });
}

#[test]
fn non_positive_sizes_are_rejected() {
    assert!(matches!(fdtdBuilder::newSize(cfg(), 0, 10), Err(FdtdError::InvalidSize)));
    assert!(matches!(fdtdBuilder::newSize(cfg(), 10, -3), Err(FdtdError::InvalidSize)));
    assert!(matches!(fdtdBuilder::newSize(cfg(), -1, -1), Err(FdtdError::InvalidSize)));
    let mut c = cfg();
    c.lpml = 0;
    assert!(matches!(fdtdBuilder::newSize(c, 10, 10), Err(FdtdError::InvalidSize)));
    assert!(matches!(fdtdBuilder::new(c), Err(FdtdError::InvalidSize)));
}

#[test]
fn oversized_grid_is_rejected() {
    let mut c = cfg();
    c.lpml = usize::MAX / 4;
    assert!(matches!(fdtdBuilder::newSize(c, 1, 1), Err(FdtdError::TooLarge)));
    c.lpml = usize::MAX;
    assert!(matches!(fdtdBuilder::newSize(c, 1, 1), Err(FdtdError::TooLarge)));
}

#[test]
fn time_step_meets_courant_bound() {
    for (x, y) in [(1, 1), (5, 40), (120, 120), (300, 7)] {
        let g = sized(x, y);
        let dt = g.dt().0 as f64;
        let (c, dx, dy) = (2.9979246e8f64, 0.005f64, 0.005f64);
        let courant = c * dt * (1.0 / (dx * dx) + 1.0 / (dy * dy)).sqrt();
        assert!(courant < 1.0, "courant number {}", courant);
        assert!(courant > 0.9999, "courant number {}", courant);
    }
}

#[test]
fn stepping_before_setup_is_refused() {
    let mut g = sized(20, 20);
    assert_eq!(g.e_cal(), Err(FdtdError::NotReady));
    assert_eq!(g.h_cal(), Err(FdtdError::NotReady));
    assert_eq!(g.e_pml(), Err(FdtdError::NotReady));
    assert_eq!(g.h_pml(), Err(FdtdError::NotReady));
    g.init_source(18, 18).unwrap();
    assert_eq!(g.step(18, 18), Err(FdtdError::NotReady));
    g.setup();
    assert!(g.is_ready());
    assert_eq!(g.step(18, 18), Ok(()));
}

#[test]
fn material_edit_requires_new_setup() {
    let mut g = sized(20, 20);
    g.setup();
    g.init_source(18, 18).unwrap();
    assert_eq!(g.epsmu(10, 20, 10, 20, F(3.0)), Ok(()));
    assert!(!g.is_ready());
    assert_eq!(g.step(18, 18), Err(FdtdError::NotReady));
    g.setup();
    assert_eq!(g.step(18, 18), Ok(()));
}

#[test]
fn rectangles_outside_the_grid_are_refused() {
    let mut g = sized(20, 20);
    assert_eq!(g.epsmu(0, 37, 0, 10, F(2.0)), Err(FdtdError::OutOfRange));
    assert_eq!(g.epsmu(10, 5, 0, 10, F(2.0)), Err(FdtdError::OutOfRange));
    assert_eq!(g.epsmu(0, 36, 0, 36, F(2.0)), Ok(()));
    assert_eq!(g.pec_rect(0, 10, 0, 37), Err(FdtdError::OutOfRange));
    assert_eq!(g.pec_rect(0, 10, 0, 10), Err(FdtdError::NotReady));
    g.setup();
    assert_eq!(g.pec_rect(0, 10, 0, 10), Ok(()));
    assert_eq!(g.pec_rect(4, 4, 7, 7), Ok(()));
}

#[test]
fn source_must_lie_in_the_interior() {
    let mut g = fdtdBuilder::new(cfg()).unwrap();
    g.setup();
    assert_eq!(g.init_source(500, 0), Err(FdtdError::OutOfRange));
    assert_eq!(g.init_source(68, 0), Err(FdtdError::OutOfRange));
    assert_eq!(g.init_source(7, 68), Err(FdtdError::OutOfRange));
    assert_eq!(g.init_source(128, 68), Err(FdtdError::OutOfRange));
    assert_eq!(g.feed(28, 68, F(0.0)), Err(FdtdError::NotReady));
    assert_eq!(g.init_source(8, 127), Ok(()));
    assert_eq!(g.init_source(28, 68), Ok(()));
    assert_eq!(g.feed(3, 68, F(0.0)), Err(FdtdError::OutOfRange));
}

#[test]
fn feed_changes_only_the_source_cell() {
    let mut g = sized(20, 20);
    g.setup();
    g.init_source(18, 18).unwrap();
    let t0 = 4.0e-10f32;
    g.feed(18, 18, F(t0 + 0.5 * g.dt().0)).unwrap();
    // At the pulse peak the current is the full weight over the cell area.
    let eps0 = 8.8541878e-12f32;
    let expected = -(g.dt().0 / (0.25f32 * 4.0 * eps0)) / (0.005f32 * 0.005);
    let got = ez(&g, 18, 18);
    assert!((got - expected).abs() <= expected.abs() * 1e-5, "{} vs {}", got, expected);
    assert_eq!(ez(&g, 17, 18), 0.0);
    assert_eq!(ez(&g, 18, 19), 0.0);
}

#[test]
fn snapshot_strips_the_guard_region() {
    let mut g = sized(12, 10);
    g.setup();
    g.init_source(14, 13).unwrap();
    run(&mut g, 14, 13, 30);
    let (v, o) = g.snapshot(14, 13).unwrap();
    assert_eq!(v.len(), 12 * 10);
    assert_eq!(o.0, ez(&g, 14, 13));
    for j in 0..10 {
        for i in 0..12 {
            assert_eq!(v[j * 12 + i].0, ez(&g, i + 8, j + 8));
        }
    }
    assert!(g.snapshot(28, 3).is_err());
    assert!(g.snapshot(3, 26).is_err());
}

#[test]
fn clock_advances_one_time_step_per_step() {
    let mut g = sized(10, 10);
    g.setup();
    g.init_source(13, 13).unwrap();
    let dt = g.dt().0;
    run(&mut g, 13, 13, 10);
    let t = g.time().0;
    assert!((t - 11.0 * dt).abs() <= 11.0 * dt * 1e-5, "{} vs {}", t, 11.0 * dt);
}

#[test]
fn layer_depths_in_half_cells() {
    // left layer: the outermost electric sample is a full layer deep
    assert_eq!(depth(0, 40, 8), Some((16, 15)));
    assert_eq!(depth(7, 40, 8), Some((2, 1)));
    assert_eq!(depth(8, 40, 8), None);
    assert_eq!(depth(31, 40, 8), None);
    // right layer: magnetic samples sit half a cell further out
    assert_eq!(depth(32, 40, 8), Some((0, 1)));
    assert_eq!(depth(39, 40, 8), Some((14, 15)));
}

#[test]
fn sweeps_leave_out_the_outer_ring() {
    let full = Rect { x0: 0, x1: 40, y0: 0, y1: 30 };
    assert_eq!(sweep(Component::Ex, full), Rect { x0: 0, x1: 39, y0: 1, y1: 29 });
    assert_eq!(sweep(Component::Ez, full), Rect { x0: 1, x1: 39, y0: 1, y1: 29 });
    assert_eq!(sweep(Component::Hz, full), Rect { x0: 0, x1: 39, y0: 0, y1: 29 });
    assert_eq!(flat_index(40, 30, 3, 2), 83);
    let d = Dims { nx: 40, ny: 30, lpml: 8 };
    assert_eq!(d.slab(0), Rect { x0: 0, x1: 8, y0: 0, y1: 30 });
    assert_eq!(d.slab(1), Rect { x0: 32, x1: 40, y0: 0, y1: 30 });
    assert_eq!(d.slab(2), Rect { x0: 8, x1: 32, y0: 0, y1: 8 });
    assert_eq!(d.slab(3), Rect { x0: 8, x1: 32, y0: 22, y1: 30 });
}

#[test]
fn pulse_spreads_isotropically() {
    let mut g = sized(61, 61);
    g.setup();
    let c = 38;
    g.init_source(c, c).unwrap();
    let mut peak = 0.0f32;
    for _ in 0..80 {
        g.step(c, c).unwrap();
        peak = peak.max(peak_ez(&g));
        for k in 1..20 {
            let v = [ez(&g, c + k, c), ez(&g, c - k, c), ez(&g, c, c + k), ez(&g, c, c - k)];
            for w in v {
                assert!((w - v[0]).abs() <= 1e-4 * peak, "{:?} at distance {}", v, k);
            }
        }
    }
    assert!(peak > 0.0);
}

#[test]
fn conductor_keeps_electric_field_zero() {
    let mut g = sized(40, 40);
    g.setup();
    g.pec_rect(30, 40, 30, 40).unwrap();
    g.init_source(20, 20).unwrap();
    for _ in 0..300 {
        g.step(20, 20).unwrap();
        for y in 30..40 {
            for x in 30..40 {
                assert_eq!(get(&g, Component::Ez, x, y), 0.0);
            }
        }
        for y in 30..40 {
            for x in 30..39 {
                assert_eq!(get(&g, Component::Ex, x, y), 0.0);
            }
        }
        for y in 30..39 {
            for x in 30..40 {
                assert_eq!(get(&g, Component::Ey, x, y), 0.0);
            }
        }
    }
    assert!(ez(&g, 29, 35) != 0.0);
}

#[test]
fn setup_again_discards_conductor() {
    let mut g = sized(40, 40);
    g.setup();
    g.pec_rect(30, 40, 30, 40).unwrap();
    g.setup();
    g.init_source(20, 20).unwrap();
    run(&mut g, 20, 20, 200);
    assert!(ez(&g, 35, 35) != 0.0);
}

/// Largest |ez| on the outermost ring of cells that the updates reach.
fn edge_ez(g: &fdtd<F>) -> f32 {
    let d = g.dims();
    let mut m = 0.0f32;
    for k in 1..d.nx - 1 {
        m = m.max(ez(g, k, 1).abs()).max(ez(g, k, d.ny - 2).abs());
    }
    for k in 1..d.ny - 1 {
        m = m.max(ez(g, 1, k).abs()).max(ez(g, d.nx - 2, k).abs());
    }
    m
}

/// Largest |ez| over the guard region.
fn guard_ez(g: &fdtd<F>) -> f32 {
    let d = g.dims();
    let mut m = 0.0f32;
    for y in 0..d.ny {
        for x in 0..d.nx {
            let inside = x >= 8 && x < d.nx - 8 && y >= 8 && y < d.ny - 8;
            if !inside {
                m = m.max(ez(g, x, y).abs());
            }
        }
    }
    m
}

#[test]
fn absorbing_layer_takes_the_pulse_out() {
    let mut g = fdtdBuilder::new(cfg()).unwrap();
    g.setup();
    g.init_source(68, 68).unwrap();
    let mut peak = 0.0f32;
    let mut edge_peak = 0.0f32;
    for _ in 0..NSTEP {
        g.step(68, 68).unwrap();
        peak = peak.max(peak_ez(&g));
        edge_peak = edge_peak.max(edge_ez(&g));
    }
    let edge = edge_ez(&g);
    let guard = guard_ez(&g);
    assert!(peak > 0.0);
    assert!(edge_peak > edge_ez(&g));
    // Residual of the long 2D tail after 2000 steps, against the recorded
    // baseline of this configuration.
    let (edge_ratio, guard_ratio) = (edge / peak, guard / peak);
    assert!((edge_ratio - 1.6652383e-3).abs() <= 1.6652383e-5, "edge ratio {:e}", edge_ratio);
    assert!((guard_ratio - 1.6652383e-3).abs() <= 1.6652383e-5, "guard ratio {:e}", guard_ratio);
    assert!(edge <= guard);
}

#[test]
fn setup_twice_gives_the_same_run() {
    let mut a = sized(30, 30);
    let mut b = sized(30, 30);
    a.epsmu(15, 30, 15, 30, F(2.5)).unwrap();
    b.epsmu(15, 30, 15, 30, F(2.5)).unwrap();
    a.setup();
    b.setup();
    b.setup();
    a.init_source(20, 20).unwrap();
    b.init_source(20, 20).unwrap();
    run(&mut a, 20, 20, 120);
    run(&mut b, 20, 20, 120);
    for c in [Component::Ex, Component::Ey, Component::Ez, Component::Hx, Component::Hy, Component::Hz] {
        for y in 0..46 {
            for x in 0..46 {
                assert_eq!(get(&a, c, x, y).to_bits(), get(&b, c, x, y).to_bits());
            }
        }
    }
}

/// Counts the cells of the layer's sweeps of `comp` where `a` and `b`
/// differ, asserting that `a` and `same` agree on all of them.
fn compare_on_layer(a: &fdtd<F>, same: &fdtd<F>, b: &fdtd<F>, comp: Component) -> usize {
    let d = a.dims();
    let mut differs = 0;
    for k in 0..4 {
        let r = sweep(comp, d.slab(k));
        for y in r.y0..r.y1 {
            for x in r.x0..r.x1 {
                assert_eq!(get(a, comp, x, y).to_bits(), get(same, comp, x, y).to_bits());
                if get(a, comp, x, y) != get(b, comp, x, y) {
                    differs += 1;
                }
            }
        }
    }
    differs
}

#[test]
fn absorbing_layer_has_the_last_word() {
    let mk = || {
        let mut g = sized(16, 16);
        g.setup();
        g.init_source(16, 16).unwrap();
        run(&mut g, 16, 16, 40);
        g
    };
    // electric half-step: interior then layer, layer alone, layer then interior
    let (mut a, mut b, mut c) = (mk(), mk(), mk());
    a.e_cal().unwrap();
    a.e_pml().unwrap();
    b.e_pml().unwrap();
    c.e_pml().unwrap();
    c.e_cal().unwrap();
    assert!(compare_on_layer(&a, &b, &c, Component::Ez) > 0);
    compare_on_layer(&a, &b, &c, Component::Ex);
    // magnetic half-step
    let (mut a, mut b, mut c) = (mk(), mk(), mk());
    a.h_cal().unwrap();
    a.h_pml().unwrap();
    b.h_pml().unwrap();
    c.h_pml().unwrap();
    c.h_cal().unwrap();
    assert!(compare_on_layer(&a, &b, &c, Component::Hx) > 0);
    assert!(compare_on_layer(&a, &b, &c, Component::Hy) > 0);
}

#[test]
fn dielectric_scenario_observation_point() {
    let mut g = fdtdBuilder::new(cfg()).unwrap();
    g.epsmu(48, 88, 48, 88, F(3.0)).unwrap();
    g.init_source(28, 68).unwrap();
    g.setup();
    run(&mut g, 28, 68, NSTEP);
    let (v, o) = g.snapshot(28, 68).unwrap();
    assert_eq!(v.len(), 120 * 120);
    assert!(o.0.is_finite());
    let recorded = -9.255376e-1f32;
    assert!((o.0 - recorded).abs() <= 1e-4 * recorded.abs(), "observed {:e}", o.0);
}
