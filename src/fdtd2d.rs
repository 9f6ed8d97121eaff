use vstd::prelude::*;
use crate::config::{Config, NX0, NY0};
use crate::grid::{depth, depth_spec, idx, lemma_cells_determine, lemma_dims_sizes, lemma_idx_bounds, lemma_idx_injective, lemma_slabs_partition_guard, sweep, sweep_spec, Component, Dims, Rect};
use crate::scalar::Real;
use crate::stencil::{copy_into, diff_at, filled, fill_rect, leap, leap2, leap2_at, leap_at, reads_ok, same_outside, sum_into, Diff};

verus! {

/// Why a grid operation was refused.
#[derive(Clone, Copy, Debug, PartialEq, Eq, Structural)]
pub enum FdtdError {
    /// A requested interior size or layer thickness is not positive.
    InvalidSize,
    /// The arrays of the requested grid cannot be indexed by `usize`.
    TooLarge,
    /// A rectangle or a point lies outside the region it must stay in.
    OutOfRange,
    /// Stepping before `setup`, after a material edit without a new `setup`,
    /// or feeding before `init_source`.
    NotReady,
}

/// The six physical field components, each one value per cell.
pub struct Fields<T> {
    pub ex: Vec<T>,
    pub ey: Vec<T>,
    pub ez: Vec<T>,
    pub hx: Vec<T>,
    pub hy: Vec<T>,
    pub hz: Vec<T>,
}

/// The split auxiliary fields of the absorbing layer.
///
/// `ez` and `hz` are split into an x and a y part; the other components have
/// one auxiliary value each.
pub struct Split<T> {
    pub expml: Vec<T>,
    pub eypml: Vec<T>,
    pub ezx: Vec<T>,
    pub ezy: Vec<T>,
    pub hxpml: Vec<T>,
    pub hypml: Vec<T>,
    pub hzx: Vec<T>,
    pub hzy: Vec<T>,
}

/// Decay (`a..`) and curl weight (`b..`) coefficients of the interior update.
pub struct Coefs<T> {
    pub aex: Vec<T>,
    pub aey: Vec<T>,
    pub aez: Vec<T>,
    pub bexy: Vec<T>,
    pub beyx: Vec<T>,
    pub bezx: Vec<T>,
    pub bezy: Vec<T>,
    pub amx: Vec<T>,
    pub amy: Vec<T>,
    pub amz: Vec<T>,
    pub bmxy: Vec<T>,
    pub bmyx: Vec<T>,
    pub bmzx: Vec<T>,
    pub bmzy: Vec<T>,
}

/// Coefficients of the split fields, graded along x and along y.
pub struct PmlCoefs<T> {
    pub aexpml: Vec<T>,
    pub aeypml: Vec<T>,
    pub bexpml: Vec<T>,
    pub beypml: Vec<T>,
    pub amxpml: Vec<T>,
    pub amypml: Vec<T>,
    pub bmxpml: Vec<T>,
    pub bmypml: Vec<T>,
}

/// Medium at each corner node: relative permittivity and permeability,
/// electric and magnetic conductivity.
pub struct Materials<T> {
    pub epsd: Vec<T>,
    pub sgmed: Vec<T>,
    pub mud: Vec<T>,
    pub sgmmd: Vec<T>,
}

impl<T> Fields<T> {
    pub open spec fn wf(&self, n: nat) -> bool {
        &&& self.ex@.len() == n
        &&& self.ey@.len() == n
        &&& self.ez@.len() == n
        &&& self.hx@.len() == n
        &&& self.hy@.len() == n
        &&& self.hz@.len() == n
    }
}

impl<T> Split<T> {
    pub open spec fn wf(&self, n: nat) -> bool {
        &&& self.expml@.len() == n
        &&& self.eypml@.len() == n
        &&& self.ezx@.len() == n
        &&& self.ezy@.len() == n
        &&& self.hxpml@.len() == n
        &&& self.hypml@.len() == n
        &&& self.hzx@.len() == n
        &&& self.hzy@.len() == n
    }
}

impl<T> Coefs<T> {
    /// Every coefficient of every cell is `z`.
    pub open spec fn filled_with(&self, z: T, n: nat) -> bool {
        &&& self.aex@ == Seq::new(n, |i: int| z)
        &&& self.aey@ == Seq::new(n, |i: int| z)
        &&& self.aez@ == Seq::new(n, |i: int| z)
        &&& self.bexy@ == Seq::new(n, |i: int| z)
        &&& self.beyx@ == Seq::new(n, |i: int| z)
        &&& self.bezx@ == Seq::new(n, |i: int| z)
        &&& self.bezy@ == Seq::new(n, |i: int| z)
        &&& self.amx@ == Seq::new(n, |i: int| z)
        &&& self.amy@ == Seq::new(n, |i: int| z)
        &&& self.amz@ == Seq::new(n, |i: int| z)
        &&& self.bmxy@ == Seq::new(n, |i: int| z)
        &&& self.bmyx@ == Seq::new(n, |i: int| z)
        &&& self.bmzx@ == Seq::new(n, |i: int| z)
        &&& self.bmzy@ == Seq::new(n, |i: int| z)
    }

    pub open spec fn wf(&self, n: nat) -> bool {
        &&& self.aex@.len() == n
        &&& self.aey@.len() == n
        &&& self.aez@.len() == n
        &&& self.bexy@.len() == n
        &&& self.beyx@.len() == n
        &&& self.bezx@.len() == n
        &&& self.bezy@.len() == n
        &&& self.amx@.len() == n
        &&& self.amy@.len() == n
        &&& self.amz@.len() == n
        &&& self.bmxy@.len() == n
        &&& self.bmyx@.len() == n
        &&& self.bmzx@.len() == n
        &&& self.bmzy@.len() == n
    }
}

impl<T> PmlCoefs<T> {
    /// Every coefficient of every cell is `z`.
    pub open spec fn filled_with(&self, z: T, n: nat) -> bool {
        &&& self.aexpml@ == Seq::new(n, |i: int| z)
        &&& self.aeypml@ == Seq::new(n, |i: int| z)
        &&& self.bexpml@ == Seq::new(n, |i: int| z)
        &&& self.beypml@ == Seq::new(n, |i: int| z)
        &&& self.amxpml@ == Seq::new(n, |i: int| z)
        &&& self.amypml@ == Seq::new(n, |i: int| z)
        &&& self.bmxpml@ == Seq::new(n, |i: int| z)
        &&& self.bmypml@ == Seq::new(n, |i: int| z)
    }

    pub open spec fn wf(&self, n: nat) -> bool {
        &&& self.aexpml@.len() == n
        &&& self.aeypml@.len() == n
        &&& self.bexpml@.len() == n
        &&& self.beypml@.len() == n
        &&& self.amxpml@.len() == n
        &&& self.amypml@.len() == n
        &&& self.bmxpml@.len() == n
        &&& self.bmypml@.len() == n
    }
}

impl<T> Materials<T> {
    pub open spec fn wf(&self, n: nat) -> bool {
        &&& self.epsd@.len() == n
        &&& self.sgmed@.len() == n
        &&& self.mud@.len() == n
        &&& self.sgmmd@.len() == n
    }
}

/// A two-dimensional FDTD simulation: the grid, its medium, the derived
/// update coefficients, the absorbing layer and the source.
#[allow(non_camel_case_types)]
pub struct fdtd<T> {
    cfg: Config<T>,
    dims: Dims,
    dt: T,
    t: T,
    zero: T,
    one: T,
    f: Fields<T>,
    s: Split<T>,
    c: Coefs<T>,
    p: PmlCoefs<T>,
    m: Materials<T>,
    befed: T,
    duration: T,
    t0: T,
    ready: bool,
    has_source: bool,
}

/// Makes grids.
#[allow(non_camel_case_types)]
pub struct fdtdBuilder;

/// Permittivity at cell `(x, y)`: a quarter of the sum of its four corner
/// nodes, times `eps0`.
pub open spec fn source_eps<T: Real>(e: Seq<T>, d: Dims, eps0: T, x: int, y: int) -> T {
    let w = d.nx + 1;
    one_quarter::<T>().spec_times(
        e[idx(w, x + 1, y + 1)].spec_plus(e[idx(w, x, y + 1)]).spec_plus(e[idx(w, x + 1, y)]).spec_plus(e[idx(w, x, y)]),
    ).spec_times(eps0)
}

/// The source current at time `t` over a cell:
/// `befed exp(-((t - dt/2 - t0) / width)^2) / (dx dy)`.
pub open spec fn pulse<T: Real>(befed: T, width: T, t0: T, dt: T, dx: T, dy: T, t: T) -> T {
    let arg = t.spec_minus(one_half::<T>().spec_times(dt)).spec_minus(t0).spec_divided_by(width);
    befed.spec_times(arg.spec_power(2).spec_negated().spec_exponential()).spec_divided_by(dx.spec_times(dy))
}

/// One half, as the number type computes it.
pub open spec fn one_half<T: Real>() -> T {
    T::spec_from_count(1).spec_divided_by(T::spec_from_count(2))
}

/// One quarter, as the number type computes it.
pub open spec fn one_quarter<T: Real>() -> T {
    T::spec_from_count(1).spec_divided_by(T::spec_from_count(4))
}

/// The time step: `margin / (v sqrt(1/dx^2 + 1/dy^2))` with
/// `v = c / sqrt(eps_bk mu_bk)`, the speed of light in the background.
pub open spec fn dt_of<T: Real>(cfg: Config<T>) -> T {
    let one = T::spec_from_count(1);
    let v = cfg.c.spec_divided_by(cfg.eps_bk.spec_times(cfg.mu_bk).spec_square_root());
    let inv_dx2 = one.spec_divided_by(cfg.dx.spec_times(cfg.dx));
    let inv_dy2 = one.spec_divided_by(cfg.dy.spec_times(cfg.dy));
    cfg.margin.spec_divided_by(v.spec_times(inv_dx2.spec_plus(inv_dy2).spec_square_root()))
}

/// A grid with an `nx0` by `ny0` interior and `lpml` layers on each side has
/// material arrays that `usize` can index.
pub open spec fn fits(nx0: int, ny0: int, lpml: int) -> bool {
    (nx0 + 2 * lpml + 1) * (ny0 + 2 * lpml + 1) <= usize::MAX
}

impl<T: Real> fdtd<T> {
    pub closed spec fn spec_dims(&self) -> Dims {
        self.dims
    }

    pub closed spec fn spec_cfg(&self) -> Config<T> {
        self.cfg
    }

    pub closed spec fn spec_fields(&self) -> &Fields<T> {
        &self.f
    }

    pub closed spec fn spec_split(&self) -> &Split<T> {
        &self.s
    }

    pub closed spec fn spec_coefs(&self) -> &Coefs<T> {
        &self.c
    }

    pub closed spec fn spec_pml(&self) -> &PmlCoefs<T> {
        &self.p
    }

    pub closed spec fn spec_materials(&self) -> &Materials<T> {
        &self.m
    }

    /// The value zero of the number type, as the grid was made with.
    pub closed spec fn spec_zero(&self) -> T {
        self.zero
    }

    /// The value one of the number type, as the grid was made with.
    pub closed spec fn spec_one(&self) -> T {
        self.one
    }

    pub closed spec fn spec_dt(&self) -> T {
        self.dt
    }

    pub closed spec fn spec_time(&self) -> T {
        self.t
    }

    /// Coefficients are derived from the current medium.
    pub closed spec fn spec_ready(&self) -> bool {
        self.ready
    }

    /// A source has been placed.
    pub closed spec fn spec_has_source(&self) -> bool {
        self.has_source
    }

    pub closed spec fn source_state(&self) -> (T, T, T) {
        (self.befed, self.duration, self.t0)
    }

    /// Array sizes agree with the grid size.
    pub closed spec fn wf(&self) -> bool {
        &&& self.dims.wf()
        &&& self.dims.lpml == self.cfg.lpml
        &&& self.zero == T::spec_from_count(0)
        &&& self.one == T::spec_from_count(1)
        &&& self.f.wf(self.dims.cells())
        &&& self.s.wf(self.dims.cells())
        &&& self.c.wf(self.dims.cells())
        &&& self.p.wf(self.dims.cells())
        &&& self.m.wf(self.dims.nodes())
    }
}

impl fdtdBuilder {
    /// A grid of the default interior size.
    pub fn new<T: Real>(cfg: Config<T>) -> (r: Result<fdtd<T>, FdtdError>)
        ensures
            cfg.lpml == 0 ==> r == Err::<fdtd<T>, FdtdError>(FdtdError::InvalidSize),
            cfg.lpml > 0 && !fits(NX0 as int, NY0 as int, cfg.lpml as int) ==> r == Err::<
                fdtd<T>,
                FdtdError,
            >(FdtdError::TooLarge),
            cfg.lpml > 0 && fits(NX0 as int, NY0 as int, cfg.lpml as int) ==> (r matches Ok(g)
                && g.fresh(cfg, NX0 as int, NY0 as int)),
    {
        fdtdBuilder::newSize(cfg, NX0, NY0)
    }

    /// A grid whose interior is `x` by `y` cells, surrounded on each side by
    /// `cfg.lpml` cells of absorbing layer.
    #[allow(non_snake_case)]
    pub fn newSize<T: Real>(cfg: Config<T>, x: i32, y: i32) -> (r: Result<fdtd<T>, FdtdError>)
        ensures
            x <= 0 || y <= 0 || cfg.lpml == 0 ==> r == Err::<fdtd<T>, FdtdError>(
                FdtdError::InvalidSize,
            ),
            x > 0 && y > 0 && cfg.lpml > 0 && !fits(x as int, y as int, cfg.lpml as int) ==> r
                == Err::<fdtd<T>, FdtdError>(FdtdError::TooLarge),
            x > 0 && y > 0 && cfg.lpml > 0 && fits(x as int, y as int, cfg.lpml as int) ==> (r matches Ok(g)
                && g.fresh(cfg, x as int, y as int)),
    {
        if x <= 0 || y <= 0 || cfg.lpml == 0 {
            return Err(FdtdError::InvalidSize);
        }
        let l = cfg.lpml;
        let sizes = match l.checked_mul(2) {
            Some(l2) => match (x as usize).checked_add(l2) {
                Some(nx) => match (y as usize).checked_add(l2) {
                    Some(ny) => match nx.checked_add(1) {
                        Some(nx1) => match ny.checked_add(1) {
                            Some(ny1) => match nx1.checked_mul(ny1) {
                                Some(_) => Some((nx, ny)),
                                None => None,
                            },
                            None => None,
                        },
                        None => None,
                    },
                    None => None,
                },
                None => None,
            },
            None => None,
        };
        let (nx, ny) = match sizes {
            Some(s) => s,
            None => {
                proof {
                    lemma_fits_overflow(x as int, y as int, l as int);
                }
                return Err(FdtdError::TooLarge);
            },
        };
        let dims = Dims { nx, ny, lpml: l };
        proof {
            assert(nx * ny <= (nx + 1) * (ny + 1)) by (nonlinear_arith)
                requires nx >= 0, ny >= 0;
        }
        let n = nx * ny;
        let nn = (nx + 1) * (ny + 1);
        let z = T::from_count(0);
        let one = T::from_count(1);
        let f = Fields {
            ex: filled(n, z),
            ey: filled(n, z),
            ez: filled(n, z),
            hx: filled(n, z),
            hy: filled(n, z),
            hz: filled(n, z),
        };
        let s = Split {
            expml: filled(n, z),
            eypml: filled(n, z),
            ezx: filled(n, z),
            ezy: filled(n, z),
            hxpml: filled(n, z),
            hypml: filled(n, z),
            hzx: filled(n, z),
            hzy: filled(n, z),
        };
        let c = Coefs {
            aex: filled(n, z),
            aey: filled(n, z),
            aez: filled(n, z),
            bexy: filled(n, z),
            beyx: filled(n, z),
            bezx: filled(n, z),
            bezy: filled(n, z),
            amx: filled(n, z),
            amy: filled(n, z),
            amz: filled(n, z),
            bmxy: filled(n, z),
            bmyx: filled(n, z),
            bmzx: filled(n, z),
            bmzy: filled(n, z),
        };
        let p = PmlCoefs {
            aexpml: filled(n, z),
            aeypml: filled(n, z),
            bexpml: filled(n, z),
            beypml: filled(n, z),
            amxpml: filled(n, z),
            amypml: filled(n, z),
            bmxpml: filled(n, z),
            bmypml: filled(n, z),
        };
        let m = Materials {
            epsd: filled(nn, cfg.eps_bk),
            sgmed: filled(nn, cfg.sig_e_bk),
            mud: filled(nn, cfg.mu_bk),
            sgmmd: filled(nn, cfg.sig_m_bk),
        };
        // Courant limit of the background medium, scaled by the margin.
        let v = cfg.c.divided_by(cfg.eps_bk.times(cfg.mu_bk).square_root());
        let inv_dx2 = one.divided_by(cfg.dx.times(cfg.dx));
        let inv_dy2 = one.divided_by(cfg.dy.times(cfg.dy));
        let dt = cfg.margin.divided_by(v.times(inv_dx2.plus(inv_dy2).square_root()));
        Ok(
            fdtd {
                cfg,
                dims,
                dt,
                t: dt,
                zero: z,
                one,
                f,
                s,
                c,
                p,
                m,
                befed: z,
                duration: z,
                t0: z,
                ready: false,
                has_source: false,
            },
        )
    }
}

proof fn lemma_fits_overflow(x: int, y: int, l: int)
    requires
        x > 0,
        y > 0,
        l > 0,
        !(2 * l <= usize::MAX && x + 2 * l <= usize::MAX && y + 2 * l <= usize::MAX && x + 2 * l
            + 1 <= usize::MAX && y + 2 * l + 1 <= usize::MAX && (x + 2 * l + 1) * (y + 2 * l + 1)
            <= usize::MAX),
    ensures
        !fits(x, y, l),
{
    if 2 * l <= usize::MAX && x + 2 * l + 1 <= usize::MAX && y + 2 * l + 1 <= usize::MAX {
    } else {
        assert((x + 2 * l + 1) * (y + 2 * l + 1) >= x + 2 * l + 1) by (nonlinear_arith)
            requires x > 0, y > 0, l > 0;
        assert((x + 2 * l + 1) * (y + 2 * l + 1) >= y + 2 * l + 1) by (nonlinear_arith)
            requires x > 0, y > 0, l > 0;
    }
}

impl<T: Real> fdtd<T> {
    /// State of a grid just made from `cfg` with an `nx0` by `ny0` interior:
    /// background medium everywhere, every field, coefficient and auxiliary
    /// value zero, no source, not yet set up.
    pub open spec fn fresh(&self, cfg: Config<T>, nx0: int, ny0: int) -> bool {
        let d = self.spec_dims();
        let z = self.spec_zero();
        &&& self.wf()
        &&& self.spec_cfg() == cfg
        &&& d.nx == nx0 + 2 * cfg.lpml
        &&& d.ny == ny0 + 2 * cfg.lpml
        &&& d.lpml == cfg.lpml
        &&& !self.spec_ready()
        &&& !self.spec_has_source()
        &&& self.spec_dt() == dt_of(cfg)
        &&& self.spec_time() == self.spec_dt()
        &&& z == T::spec_from_count(0)
        &&& self.spec_one() == T::spec_from_count(1)
        &&& self.spec_coefs().filled_with(z, d.cells())
        &&& self.spec_pml().filled_with(z, d.cells())
        &&& self.spec_materials().epsd@ == Seq::new(d.nodes(), |i: int| cfg.eps_bk)
        &&& self.spec_materials().sgmed@ == Seq::new(d.nodes(), |i: int| cfg.sig_e_bk)
        &&& self.spec_materials().mud@ == Seq::new(d.nodes(), |i: int| cfg.mu_bk)
        &&& self.spec_materials().sgmmd@ == Seq::new(d.nodes(), |i: int| cfg.sig_m_bk)
        &&& self.spec_fields().ex@ == Seq::new(d.cells(), |i: int| z)
        &&& self.spec_fields().ey@ == Seq::new(d.cells(), |i: int| z)
        &&& self.spec_fields().ez@ == Seq::new(d.cells(), |i: int| z)
        &&& self.spec_fields().hx@ == Seq::new(d.cells(), |i: int| z)
        &&& self.spec_fields().hy@ == Seq::new(d.cells(), |i: int| z)
        &&& self.spec_fields().hz@ == Seq::new(d.cells(), |i: int| z)
        &&& self.spec_split().ezx@ == Seq::new(d.cells(), |i: int| z)
        &&& self.spec_split().ezy@ == Seq::new(d.cells(), |i: int| z)
        &&& self.spec_split().hzx@ == Seq::new(d.cells(), |i: int| z)
        &&& self.spec_split().hzy@ == Seq::new(d.cells(), |i: int| z)
        &&& self.spec_split().expml@ == Seq::new(d.cells(), |i: int| z)
        &&& self.spec_split().eypml@ == Seq::new(d.cells(), |i: int| z)
        &&& self.spec_split().hxpml@ == Seq::new(d.cells(), |i: int| z)
        &&& self.spec_split().hypml@ == Seq::new(d.cells(), |i: int| z)
    }
}

/// Decay coefficient of a lossy medium: `(1 - a) / (1 + a)` with
/// `a = sg * dt / (2 eps)`.
pub open spec fn decay<T: Real>(sg: T, eps: T, dt: T) -> T {
    let one = T::spec_from_count(1);
    let a = one_half::<T>().spec_times(sg).spec_times(dt).spec_divided_by(eps);
    one.spec_minus(a).spec_divided_by(one.spec_plus(a))
}

/// Curl weight of a lossy medium before the division by the cell size:
/// `dt / w / (1 + a)` with `a = sg * dt / (2 eps)`.
pub open spec fn weight<T: Real>(sg: T, eps: T, w: T, dt: T) -> T {
    let one = T::spec_from_count(1);
    let a = one_half::<T>().spec_times(sg).spec_times(dt).spec_divided_by(eps);
    dt.spec_divided_by(w).spec_divided_by(one.spec_plus(a))
}

fn lossy<T: Real>(sg: T, eps: T, w: T, dt: T, half: T, one: T) -> (r: (T, T))
    requires
        half == one_half::<T>(),
        one == T::spec_from_count(1),
    ensures
        r.0 == decay(sg, eps, dt),
        r.1 == weight(sg, eps, w, dt),
{
    let a = half.times(sg).times(dt).divided_by(eps);
    let onepa = one.plus(a);
    (one.minus(a).divided_by(onepa), dt.divided_by(w).divided_by(onepa))
}

/// The electric coefficients of cell `i`:
/// `(aex, bexy, aey, beyx, aez, bezx, bezy)`.
pub open spec fn e_coefs_at<T>(c: &Coefs<T>, i: int) -> (T, T, T, T, T, T, T) {
    (c.aex@[i], c.bexy@[i], c.aey@[i], c.beyx@[i], c.aez@[i], c.bezx@[i], c.bezy@[i])
}

/// The magnetic coefficients of cell `i`:
/// `(amx, bmxy, amy, bmyx, amz, bmzx, bmzy)`.
pub open spec fn m_coefs_at<T>(c: &Coefs<T>, i: int) -> (T, T, T, T, T, T, T) {
    (c.amx@[i], c.bmxy@[i], c.amy@[i], c.bmyx@[i], c.amz@[i], c.bmzx@[i], c.bmzy@[i])
}

/// Electric coefficients of cell `(x, y)` derived from the medium `m`: the
/// medium averaged over the two corner nodes on the face of `ex` and of
/// `ey`, over the four corners for `ez`.
pub open spec fn e_coefs_of<T: Real>(m: &Materials<T>, cfg: Config<T>, d: Dims, dt: T, x: int, y: int) -> (T, T, T, T, T, T, T) {
    let w = d.nx + 1;
    let (n00, n10, n01, n11) = (idx(w, x, y), idx(w, x + 1, y), idx(w, x, y + 1), idx(w, x + 1, y + 1));
    let (e, se) = (m.epsd@, m.sgmed@);
    let epsx = one_half::<T>().spec_times(e[n11].spec_plus(e[n10])).spec_times(cfg.eps0);
    let sgex = one_half::<T>().spec_times(se[n11].spec_plus(se[n10]));
    let epsy = one_half::<T>().spec_times(e[n11].spec_plus(e[n01])).spec_times(cfg.eps0);
    let sgey = one_half::<T>().spec_times(se[n11].spec_plus(se[n01]));
    let epsz = one_quarter::<T>().spec_times(e[n11].spec_plus(e[n10]).spec_plus(e[n01]).spec_plus(e[n00])).spec_times(cfg.eps0);
    let sgez = one_quarter::<T>().spec_times(se[n11].spec_plus(se[n10]).spec_plus(se[n01]).spec_plus(se[n00]));
    (
        decay(sgex, epsx, dt),
        weight(sgex, epsx, epsx, dt).spec_divided_by(cfg.dy),
        decay(sgey, epsy, dt),
        weight(sgey, epsy, epsy, dt).spec_divided_by(cfg.dx),
        decay(sgez, epsz, dt),
        weight(sgez, epsz, epsz, dt).spec_divided_by(cfg.dx),
        weight(sgez, epsz, epsz, dt).spec_divided_by(cfg.dy),
    )
}

/// Magnetic coefficients of cell `(x, y)` derived from the medium `m`: the
/// medium averaged over the two corner nodes on the edge of `hx` and of
/// `hy`, taken at the far corner node for `hz`.
pub open spec fn m_coefs_of<T: Real>(m: &Materials<T>, cfg: Config<T>, d: Dims, dt: T, x: int, y: int) -> (T, T, T, T, T, T, T) {
    let w = d.nx + 1;
    let (n10, n01, n11) = (idx(w, x + 1, y), idx(w, x, y + 1), idx(w, x + 1, y + 1));
    let (u, su) = (m.mud@, m.sgmmd@);
    let mux = one_half::<T>().spec_times(u[n11].spec_plus(u[n01])).spec_times(cfg.mu0);
    let sgmx = one_half::<T>().spec_times(su[n11].spec_plus(su[n01]));
    let muy = one_half::<T>().spec_times(u[n11].spec_plus(u[n10])).spec_times(cfg.mu0);
    let sgmy = one_half::<T>().spec_times(su[n11].spec_plus(su[n10]));
    let muz = u[n11].spec_times(cfg.mu0);
    let sgmz = su[n11];
    (
        decay(sgmx, mux, dt),
        weight(sgmx, mux, mux, dt).spec_divided_by(cfg.dy),
        decay(sgmy, muy, dt),
        weight(sgmy, muy, muy, dt).spec_divided_by(cfg.dx),
        decay(sgmz, muz, dt),
        weight(sgmz, muz, muz, dt).spec_divided_by(cfg.dx),
        weight(sgmz, muz, muz, dt).spec_divided_by(cfg.dy),
    )
}

/// Cell `(x, y)` holds the coefficients derived from `m`.
pub open spec fn coefs_derived<T: Real>(c: &Coefs<T>, m: &Materials<T>, cfg: Config<T>, d: Dims, dt: T, x: int, y: int) -> bool {
    &&& e_coefs_at(c, idx(d.nx as int, x, y)) == e_coefs_of(m, cfg, d, dt, x, y)
    &&& m_coefs_at(c, idx(d.nx as int, x, y)) == m_coefs_of(m, cfg, d, dt, x, y)
}

/// Derives the interior coefficients of cell `(x, y)` from the medium at
/// its four corner nodes.
fn derive_cell<T: Real>(
    c: &mut Coefs<T>,
    m: &Materials<T>,
    cfg: &Config<T>,
    d: Dims,
    dt: T,
    one: T,
    x: usize,
    y: usize,
)
    requires
        d.wf(),
        old(c).wf(d.cells()),
        m.wf(d.nodes()),
        one == T::spec_from_count(1),
        x < d.nx,
        y < d.ny,
    ensures
        final(c).wf(d.cells()),
        coefs_derived(final(c), m, *cfg, d, dt, x as int, y as int),
        forall|j: int|
            0 <= j < d.cells() && j != idx(d.nx as int, x as int, y as int) ==> #[trigger] e_coefs_at(final(c), j)
                == e_coefs_at(old(c), j) && m_coefs_at(final(c), j) == m_coefs_at(old(c), j),
{
    let nx = d.nx;
    let ny = d.ny;
    proof {
        lemma_dims_sizes(d);
        lemma_idx_bounds(nx as int, ny as int, x as int, y as int);
        lemma_idx_bounds(nx + 1, ny + 1, x as int, y as int);
        lemma_idx_bounds(nx + 1, ny + 1, x + 1, y as int);
        lemma_idx_bounds(nx + 1, ny + 1, x as int, y + 1);
        lemma_idx_bounds(nx + 1, ny + 1, x + 1, y + 1);
    }
    let i = y * nx + x;
    let w = nx + 1;
    let n00 = y * w + x;
    let n10 = n00 + 1;
    let n01 = n00 + w;
    let n11 = n01 + 1;
    let half = one.divided_by(T::from_count(2));
    let quarter = one.divided_by(T::from_count(4));
    let e = &m.epsd;
    let se = &m.sgmed;
    let u = &m.mud;
    let su = &m.sgmmd;

    let epsx = half.times(e[n11].plus(e[n10])).times(cfg.eps0);
    let sgex = half.times(se[n11].plus(se[n10]));
    let (ax, bx) = lossy(sgex, epsx, epsx, dt, half, one);
    c.aex.set(i, ax);
    c.bexy.set(i, bx.divided_by(cfg.dy));

    let epsy = half.times(e[n11].plus(e[n01])).times(cfg.eps0);
    let sgey = half.times(se[n11].plus(se[n01]));
    let (ay, by) = lossy(sgey, epsy, epsy, dt, half, one);
    c.aey.set(i, ay);
    c.beyx.set(i, by.divided_by(cfg.dx));

    let epsz = quarter.times(e[n11].plus(e[n10]).plus(e[n01]).plus(e[n00])).times(cfg.eps0);
    let sgez = quarter.times(se[n11].plus(se[n10]).plus(se[n01]).plus(se[n00]));
    let (az, bz) = lossy(sgez, epsz, epsz, dt, half, one);
    c.aez.set(i, az);
    c.bezy.set(i, bz.divided_by(cfg.dy));
    c.bezx.set(i, bz.divided_by(cfg.dx));

    let mux = half.times(u[n11].plus(u[n01])).times(cfg.mu0);
    let sgmx = half.times(su[n11].plus(su[n01]));
    let (amx, bmx) = lossy(sgmx, mux, mux, dt, half, one);
    c.amx.set(i, amx);
    c.bmxy.set(i, bmx.divided_by(cfg.dy));

    let muy = half.times(u[n11].plus(u[n10])).times(cfg.mu0);
    let sgmy = half.times(su[n11].plus(su[n10]));
    let (amy, bmy) = lossy(sgmy, muy, muy, dt, half, one);
    c.amy.set(i, amy);
    c.bmyx.set(i, bmy.divided_by(cfg.dx));

    let muz = u[n11].times(cfg.mu0);
    let sgmz = su[n11];
    let (amz, bmz) = lossy(sgmz, muz, muz, dt, half, one);
    c.amz.set(i, amz);
    c.bmzx.set(i, bmz.divided_by(cfg.dx));
    c.bmzy.set(i, bmz.divided_by(cfg.dy));
}

/// Derives the interior coefficients of every cell.
fn derive_all<T: Real>(c: &mut Coefs<T>, m: &Materials<T>, cfg: &Config<T>, d: Dims, dt: T, one: T)
    requires
        d.wf(),
        old(c).wf(d.cells()),
        m.wf(d.nodes()),
        one == T::spec_from_count(1),
    ensures
        final(c).wf(d.cells()),
        forall|x: int, y: int|
            0 <= x < d.nx && 0 <= y < d.ny ==> #[trigger] coefs_derived(final(c), m, *cfg, d, dt, x, y),
{
    let mut y: usize = 0;
    while y < d.ny
        invariant
            d.wf(),
            y <= d.ny,
            c.wf(d.cells()),
            m.wf(d.nodes()),
            one == T::spec_from_count(1),
            forall|x2: int, y2: int|
                0 <= x2 < d.nx && 0 <= y2 < y ==> #[trigger] coefs_derived(c, m, *cfg, d, dt, x2, y2),
        decreases d.ny - y,
    {
        let mut x: usize = 0;
        while x < d.nx
            invariant
                d.wf(),
                y < d.ny,
                x <= d.nx,
                c.wf(d.cells()),
                m.wf(d.nodes()),
                one == T::spec_from_count(1),
                forall|x2: int, y2: int|
                    0 <= x2 < d.nx && 0 <= y2 <= y && (y2 < y || x2 < x) ==> #[trigger] coefs_derived(c, m, *cfg, d, dt, x2, y2),
            decreases d.nx - x,
        {
            let ghost c0 = *c;
            derive_cell(c, m, cfg, d, dt, one, x, y);
            proof {
                assert forall|x2: int, y2: int|
                    0 <= x2 < d.nx && 0 <= y2 <= y && (y2 < y || x2 < x + 1) implies #[trigger] coefs_derived(c, m, *cfg, d, dt, x2, y2) by {
                    if x2 != x || y2 != y {
                        lemma_idx_bounds(d.nx as int, d.ny as int, x2, y2);
                        if idx(d.nx as int, x2, y2) == idx(d.nx as int, x as int, y as int) {
                            lemma_idx_injective(d.nx as int, x2, y2, x as int, y as int);
                        }
                        assert(coefs_derived(&c0, m, *cfg, d, dt, x2, y2));
                        assert(e_coefs_at(c, idx(d.nx as int, x2, y2)) == e_coefs_at(&c0, idx(d.nx as int, x2, y2)));
                    }
                }
            }
            x = x + 1;
        }
        y = y + 1;
    }
}

/// Conductivity of the absorbing layer at a depth of `h` half cells:
/// `(h / (2 l))^order * smax`.
pub open spec fn graded_spec<T: Real>(h: int, l: int, order: u32, smax: T) -> T {
    T::spec_from_count(h as usize).spec_divided_by(T::spec_from_count((2 * l) as usize)).spec_power(order).spec_times(smax)
}

fn graded<T: Real>(h: usize, l: usize, order: u32, smax: T) -> (r: T)
    requires
        l >= 1,
        2 * l <= usize::MAX,
    ensures
        r == graded_spec(h as int, l as int, order, smax),
{
    T::from_count(h).divided_by(T::from_count(2 * l)).power(order).times(smax)
}

/// Maximal conductivity of the layer across cells of size `delta`:
/// `copml * rmax * (order + 1) / (lpml * delta)`.
pub open spec fn smax_of<T: Real>(cfg: Config<T>, delta: T) -> T {
    cfg.copml.spec_times(cfg.rmax).spec_times(T::spec_from_count(cfg.order as usize).spec_plus(T::spec_from_count(1)))
        .spec_divided_by(T::spec_from_count(cfg.lpml).spec_times(delta))
}

/// Conductivities `(electric, magnetic)` of the layer at position `pos` of
/// an axis of `n` cells; zero outside the layers.
pub open spec fn sigmas<T: Real>(cfg: Config<T>, pos: int, n: int, smax: T) -> (T, T) {
    match depth_spec(pos, n, cfg.lpml as int) {
        Some((e, m)) => (graded_spec(e, cfg.lpml as int, cfg.order, smax), graded_spec(m, cfg.lpml as int, cfg.order, smax)),
        None => (T::spec_from_count(0), T::spec_from_count(0)),
    }
}

/// The layer coefficients of cell `i`:
/// `(aexpml, bexpml, aeypml, beypml, amxpml, bmxpml, amypml, bmypml)`.
pub open spec fn pml_at<T>(p: &PmlCoefs<T>, i: int) -> (T, T, T, T, T, T, T, T) {
    (p.aexpml@[i], p.bexpml@[i], p.aeypml@[i], p.beypml@[i], p.amxpml@[i], p.bmxpml@[i], p.amypml@[i], p.bmypml@[i])
}

/// Layer coefficients of cell `(x, y)`: the lossy-medium coefficients of the
/// background with the conductivity graded along x and along y. They
/// depend on the position and the configuration only.
pub open spec fn pml_of<T: Real>(cfg: Config<T>, d: Dims, dt: T, x: int, y: int) -> (T, T, T, T, T, T, T, T) {
    let (sxe, sxm) = sigmas(cfg, x, d.nx as int, smax_of(cfg, cfg.dx));
    let (sye, sym) = sigmas(cfg, y, d.ny as int, smax_of(cfg, cfg.dy));
    let epspml = cfg.eps_bk.spec_times(cfg.eps0);
    let mupml = cfg.mu_bk.spec_times(cfg.mu0);
    let (gxe, gye, gxm, gym) = (
        sxe.spec_times(cfg.eps_bk),
        sye.spec_times(cfg.eps_bk),
        sxm.spec_times(cfg.eps_bk),
        sym.spec_times(cfg.eps_bk),
    );
    (
        decay(gxe, epspml, dt),
        weight(gxe, epspml, epspml, dt).spec_divided_by(cfg.dx),
        decay(gye, epspml, dt),
        weight(gye, epspml, epspml, dt).spec_divided_by(cfg.dy),
        decay(gxm, epspml, dt),
        weight(gxm, epspml, mupml, dt).spec_divided_by(cfg.dx),
        decay(gym, epspml, dt),
        weight(gym, epspml, mupml, dt).spec_divided_by(cfg.dy),
    )
}

/// Derives the split-field coefficients of the cells of slab `r`, grading
/// the conductivity along x and along y by the depth into the layer.
fn init_pml_slab<T: Real>(
    p: &mut PmlCoefs<T>,
    r: Rect,
    cfg: &Config<T>,
    d: Dims,
    dt: T,
    one: T,
    zero: T,
)
    requires
        d.wf(),
        d.lpml == cfg.lpml,
        old(p).wf(d.cells()),
        r.within(d.nx as int, d.ny as int),
        one == T::spec_from_count(1),
        zero == T::spec_from_count(0),
    ensures
        final(p).wf(d.cells()),
        forall|x: int, y: int|
            #[trigger] r.contains(x, y) ==> pml_at(final(p), idx(d.nx as int, x, y)) == pml_of(*cfg, d, dt, x, y),
        forall|x: int, y: int|
            0 <= x < d.nx && 0 <= y < d.ny && !r.contains(x, y) ==> #[trigger] pml_at(final(p), idx(d.nx as int, x, y))
                == pml_at(old(p), idx(d.nx as int, x, y)),
{
    let nx = d.nx;
    let ny = d.ny;
    let l = d.lpml;
    let half = one.divided_by(T::from_count(2));
    let rorder = cfg.copml.times(cfg.rmax).times(T::from_count(cfg.order as usize).plus(one));
    let smaxx = rorder.divided_by(T::from_count(l).times(cfg.dx));
    let smaxy = rorder.divided_by(T::from_count(l).times(cfg.dy));
    let epspml = cfg.eps_bk.times(cfg.eps0);
    let mupml = cfg.mu_bk.times(cfg.mu0);
    let ghost p0 = *p;
    proof {
        lemma_dims_sizes(d);
    }
    let mut y: usize = r.y0;
    while y < r.y1
        invariant
            d.wf(),
            nx == d.nx,
            ny == d.ny,
            l == d.lpml,
            d.lpml == cfg.lpml,
            r.within(nx as int, ny as int),
            r.y0 <= y,
            p.wf(d.cells()),
            d.cells() == nx * ny,
            nx * ny <= usize::MAX,
            one == T::spec_from_count(1),
            zero == T::spec_from_count(0),
            half == one_half::<T>(),
            smaxx == smax_of(*cfg, cfg.dx),
            smaxy == smax_of(*cfg, cfg.dy),
            epspml == cfg.eps_bk.spec_times(cfg.eps0),
            mupml == cfg.mu_bk.spec_times(cfg.mu0),
            forall|x2: int, y2: int|
                #[trigger] r.contains(x2, y2) && y2 < y ==> pml_at(p, idx(nx as int, x2, y2)) == pml_of(*cfg, d, dt, x2, y2),
            forall|x2: int, y2: int|
                0 <= x2 < nx && 0 <= y2 < ny && !(r.contains(x2, y2) && y2 < y) ==> #[trigger] pml_at(p, idx(nx as int, x2, y2))
                    == pml_at(&p0, idx(nx as int, x2, y2)),
        decreases r.y1 - y,
    {
        let mut x: usize = r.x0;
        while x < r.x1
            invariant
                d.wf(),
                nx == d.nx,
                ny == d.ny,
                l == d.lpml,
                d.lpml == cfg.lpml,
                r.within(nx as int, ny as int),
                r.y0 <= y < r.y1,
                r.x0 <= x,
                p.wf(d.cells()),
                d.cells() == nx * ny,
                nx * ny <= usize::MAX,
                one == T::spec_from_count(1),
                zero == T::spec_from_count(0),
                half == one_half::<T>(),
                smaxx == smax_of(*cfg, cfg.dx),
                smaxy == smax_of(*cfg, cfg.dy),
                epspml == cfg.eps_bk.spec_times(cfg.eps0),
                mupml == cfg.mu_bk.spec_times(cfg.mu0),
                forall|x2: int, y2: int|
                    #[trigger] r.contains(x2, y2) && (y2 < y || (y2 == y && x2 < x)) ==> pml_at(p, idx(nx as int, x2, y2))
                        == pml_of(*cfg, d, dt, x2, y2),
                forall|x2: int, y2: int|
                    0 <= x2 < nx && 0 <= y2 < ny && !(r.contains(x2, y2) && (y2 < y || (y2 == y && x2 < x)))
                        ==> #[trigger] pml_at(p, idx(nx as int, x2, y2)) == pml_at(&p0, idx(nx as int, x2, y2)),
            decreases r.x1 - x,
        {
            proof {
                lemma_idx_bounds(nx as int, ny as int, x as int, y as int);
            }
            let i = y * nx + x;
            let (sxe, sxm) = match depth(x, nx, l) {
                Some((e, m)) => (graded(e, l, cfg.order, smaxx), graded(m, l, cfg.order, smaxx)),
                None => (zero, zero),
            };
            let (sye, sym) = match depth(y, ny, l) {
                Some((e, m)) => (graded(e, l, cfg.order, smaxy), graded(m, l, cfg.order, smaxy)),
                None => (zero, zero),
            };
            let ghost pb = *p;
            let (a, b) = lossy(sxe.times(cfg.eps_bk), epspml, epspml, dt, half, one);
            p.aexpml.set(i, a);
            p.bexpml.set(i, b.divided_by(cfg.dx));
            let (a, b) = lossy(sye.times(cfg.eps_bk), epspml, epspml, dt, half, one);
            p.aeypml.set(i, a);
            p.beypml.set(i, b.divided_by(cfg.dy));
            let (a, b) = lossy(sxm.times(cfg.eps_bk), epspml, mupml, dt, half, one);
            p.amxpml.set(i, a);
            p.bmxpml.set(i, b.divided_by(cfg.dx));
            let (a, b) = lossy(sym.times(cfg.eps_bk), epspml, mupml, dt, half, one);
            p.amypml.set(i, a);
            p.bmypml.set(i, b.divided_by(cfg.dy));
            proof {
                assert(pml_at(p, i as int) == pml_of(*cfg, d, dt, x as int, y as int));
                assert forall|x2: int, y2: int|
                    0 <= x2 < nx && 0 <= y2 < ny && (x2 != x || y2 != y) implies #[trigger] pml_at(p, idx(nx as int, x2, y2))
                        == pml_at(&pb, idx(nx as int, x2, y2)) by {
                    lemma_idx_bounds(nx as int, ny as int, x2, y2);
                    if idx(nx as int, x2, y2) == idx(nx as int, x as int, y as int) {
                        lemma_idx_injective(nx as int, x2, y2, x as int, y as int);
                    }
                }
            }
            x = x + 1;
        }
        y = y + 1;
    }
}

impl<T: Real> fdtd<T> {
    /// Everything but the medium, the coefficients, the fields and the clock
    /// is as in `o`.
    pub open spec fn same_setting(&self, o: &Self) -> bool {
        &&& self.spec_cfg() == o.spec_cfg()
        &&& self.spec_dims() == o.spec_dims()
        &&& self.spec_dt() == o.spec_dt()
        &&& self.spec_zero() == o.spec_zero()
        &&& self.spec_one() == o.spec_one()
        &&& self.source_state() == o.source_state()
        &&& self.spec_has_source() == o.spec_has_source()
    }

    /// Of the state, `setup` changes the coefficients and the readiness only:
    /// every cell holds the coefficients derived from the medium, and every
    /// guard cell the graded layer coefficients; the layer coefficients of
    /// interior cells stay as they were.
    pub open spec fn setup_post(&self, o: &Self) -> bool {
        let d = o.spec_dims();
        &&& self.wf()
        &&& self.spec_ready()
        &&& self.same_setting(o)
        &&& self.spec_time() == o.spec_time()
        &&& self.spec_fields() == o.spec_fields()
        &&& self.spec_split() == o.spec_split()
        &&& self.spec_materials() == o.spec_materials()
        &&& forall|x: int, y: int|
            0 <= x < d.nx && 0 <= y < d.ny ==> #[trigger] coefs_derived(
                self.spec_coefs(),
                o.spec_materials(),
                o.spec_cfg(),
                d,
                o.spec_dt(),
                x,
                y,
            )
        &&& forall|x: int, y: int|
            0 <= x < d.nx && 0 <= y < d.ny ==> #[trigger] pml_at(self.spec_pml(), idx(d.nx as int, x, y)) == if d.in_guard(
                x,
                y,
            ) {
                pml_of(o.spec_cfg(), d, o.spec_dt(), x, y)
            } else {
                pml_at(o.spec_pml(), idx(d.nx as int, x, y))
            }
    }

    /// Derives the update coefficients of every cell from the medium and the
    /// time step, then those of the four absorbing slabs, which replace the
    /// former inside the slabs. Edits of the coefficients since the last call
    /// (perfect conductors) are discarded.
    pub fn setup(&mut self)
        requires
            old(self).wf(),
        ensures
            final(self).setup_post(old(self)),
    {
        let d = self.dims;
        derive_all(&mut self.c, &self.m, &self.cfg, d, self.dt, self.one);
        let ghost p0 = self.p;
        let mut k: usize = 0;
        while k < 4
            invariant
                k <= 4,
                self.wf(),
                d == self.dims,
                self.same_setting(old(self)),
                self.t == old(self).t,
                self.f == old(self).f,
                self.s == old(self).s,
                self.m == old(self).m,
                self.ready == old(self).ready,
                p0 == old(self).p,
                forall|x: int, y: int|
                    0 <= x < d.nx && 0 <= y < d.ny ==> #[trigger] coefs_derived(&self.c, &self.m, self.cfg, d, self.dt, x, y),
                forall|x: int, y: int|
                    0 <= x < d.nx && 0 <= y < d.ny ==> #[trigger] pml_at(&self.p, idx(d.nx as int, x, y)) == if exists|j: int|
                        0 <= j < k && #[trigger] d.slab_spec(j).contains(x, y) {
                        pml_of(self.cfg, d, self.dt, x, y)
                    } else {
                        pml_at(&p0, idx(d.nx as int, x, y))
                    },
            decreases 4 - k,
        {
            let r = d.slab(k);
            let ghost pb = self.p;
            init_pml_slab(&mut self.p, r, &self.cfg, d, self.dt, self.one, self.zero);
            proof {
                assert forall|x: int, y: int|
                    0 <= x < d.nx && 0 <= y < d.ny implies #[trigger] pml_at(&self.p, idx(d.nx as int, x, y)) == if exists|j: int|
                        0 <= j < k + 1 && #[trigger] d.slab_spec(j).contains(x, y) {
                        pml_of(self.cfg, d, self.dt, x, y)
                    } else {
                        pml_at(&p0, idx(d.nx as int, x, y))
                    } by {
                    lemma_slabs_partition_guard(d, x, y);
                    if r.contains(x, y) {
                        assert(d.slab_spec(k as int).contains(x, y));
                    } else {
                        assert(pml_at(&self.p, idx(d.nx as int, x, y)) == pml_at(&pb, idx(d.nx as int, x, y)));
                        if exists|j: int| 0 <= j < k + 1 && #[trigger] d.slab_spec(j).contains(x, y) {
                            let j = choose|j: int| 0 <= j < k + 1 && #[trigger] d.slab_spec(j).contains(x, y);
                            assert(j != k);
                        } else {
                            assert(!exists|j: int| 0 <= j < k && #[trigger] d.slab_spec(j).contains(x, y));
                        }
                    }
                }
            }
            k = k + 1;
        }
        proof {
            assert forall|x: int, y: int|
                0 <= x < d.nx && 0 <= y < d.ny implies #[trigger] pml_at(&self.p, idx(d.nx as int, x, y)) == if d.in_guard(x, y) {
                    pml_of(self.cfg, d, self.dt, x, y)
                } else {
                    pml_at(&p0, idx(d.nx as int, x, y))
                } by {
                lemma_slabs_partition_guard(d, x, y);
            }
        }
        self.ready = true;
    }
}

/// Cell `(x, y)` lies in the sweep of component `c` over one of the first
/// `k` absorbing slabs.
pub open spec fn swept(d: Dims, c: Component, k: int, x: int, y: int) -> bool {
    ||| (k > 0 && sweep_spec(c, d.slab_spec(0)).contains(x, y))
    ||| (k > 1 && sweep_spec(c, d.slab_spec(1)).contains(x, y))
    ||| (k > 2 && sweep_spec(c, d.slab_spec(2)).contains(x, y))
    ||| (k > 3 && sweep_spec(c, d.slab_spec(3)).contains(x, y))
}

/// `b` agrees with `a` on every cell of the grid outside the sweeps of `c`
/// over the first `k` slabs.
pub open spec fn same_unswept<T>(a: Seq<T>, b: Seq<T>, d: Dims, c: Component, k: int) -> bool {
    forall|x: int, y: int|
        0 <= x < d.nx && 0 <= y < d.ny && !swept(d, c, k, x, y) ==> #[trigger] a[idx(
            d.nx as int,
            x,
            y,
        )] == b[idx(d.nx as int, x, y)]
}

/// `phys` equals `aux` on the sweeps of `c` over the first `k` slabs.
pub open spec fn mirrors<T>(phys: Seq<T>, aux: Seq<T>, d: Dims, c: Component, k: int) -> bool {
    forall|x: int, y: int|
        #[trigger] swept(d, c, k, x, y) ==> phys[idx(d.nx as int, x, y)] == aux[idx(
            d.nx as int,
            x,
            y,
        )]
}

/// A cell of slab `k`'s sweep is in the grid and in no earlier slab's sweep.
proof fn lemma_sweep_fresh(d: Dims, c: Component, k: int, x: int, y: int)
    requires
        d.wf(),
        0 <= k < 4,
        sweep_spec(c, d.slab_spec(k)).contains(x, y),
    ensures
        0 <= x < d.nx,
        0 <= y < d.ny,
        !swept(d, c, k, x, y),
        forall|j: int| 0 <= j < 4 && j != k ==> !#[trigger] sweep_spec(c, d.slab_spec(j)).contains(x, y),
{
    assert(d.slab_spec(k).contains(x, y));
    lemma_slabs_partition_guard(d, x, y);
    assert forall|j: int| 0 <= j < 4 && j != k implies !#[trigger] sweep_spec(c, d.slab_spec(j)).contains(x, y) by {
        if sweep_spec(c, d.slab_spec(j)).contains(x, y) {
            assert(d.slab_spec(j).contains(x, y));
        }
    }
}

/// Passing from `k` slabs to `k + 1`: `after` takes the values `f` on slab
/// `k`'s sweep and keeps `before` elsewhere.
proof fn lemma_layer_step<T>(
    d0: Seq<T>,
    before: Seq<T>,
    after: Seq<T>,
    d: Dims,
    c: Component,
    k: int,
    f: spec_fn(int, int) -> T,
)
    requires
        d.wf(),
        0 <= k < 4,
        same_unswept(d0, before, d, c, k),
        forall|x: int, y: int| #[trigger] swept(d, c, k, x, y) ==> before[idx(d.nx as int, x, y)] == f(x, y),
        same_outside(before, after, d.nx as int, d.ny as int, sweep_spec(c, d.slab_spec(k))),
        forall|x: int, y: int|
            #[trigger] sweep_spec(c, d.slab_spec(k)).contains(x, y) ==> after[idx(d.nx as int, x, y)] == f(x, y),
    ensures
        same_unswept(d0, after, d, c, k + 1),
        forall|x: int, y: int| #[trigger] swept(d, c, k + 1, x, y) ==> after[idx(d.nx as int, x, y)] == f(x, y),
{
    assert forall|x: int, y: int| #[trigger] swept(d, c, k + 1, x, y) implies after[idx(d.nx as int, x, y)] == f(x, y) by {
        if !sweep_spec(c, d.slab_spec(k)).contains(x, y) {
            let j: int = if sweep_spec(c, d.slab_spec(0)).contains(x, y) {
                0
            } else if sweep_spec(c, d.slab_spec(1)).contains(x, y) {
                1
            } else if sweep_spec(c, d.slab_spec(2)).contains(x, y) {
                2
            } else {
                3
            };
            lemma_sweep_fresh(d, c, j, x, y);
            assert(swept(d, c, k, x, y));
            assert(after[idx(d.nx as int, x, y)] == before[idx(d.nx as int, x, y)]);
        }
    }
}

/// Cells of the sweep of component `c` in any slab: `leap` over each.
fn leap_layer<T: Real>(
    dst: &mut Vec<T>,
    a: &Vec<T>,
    b: &Vec<T>,
    src: &Vec<T>,
    df: Diff,
    negate: bool,
    d: Dims,
    c: Component,
)
    requires
        d.wf(),
        old(dst)@.len() == d.cells(),
        a@.len() == d.cells(),
        b@.len() == d.cells(),
        src@.len() == d.cells(),
        forall|k: int|
            0 <= k < 4 ==> (#[trigger] sweep_spec(c, d.slab_spec(k))).is_empty() || reads_ok(
                df,
                sweep_spec(c, d.slab_spec(k)),
                d.nx as int,
                d.ny as int,
            ),
    ensures
        final(dst)@.len() == old(dst)@.len(),
        same_unswept(old(dst)@, final(dst)@, d, c, 4),
        forall|x: int, y: int|
            #[trigger] swept(d, c, 4, x, y) ==> final(dst)@[idx(d.nx as int, x, y)] == leap_at(
                a@[idx(d.nx as int, x, y)],
                old(dst)@[idx(d.nx as int, x, y)],
                b@[idx(d.nx as int, x, y)],
                diff_at(src@, d.nx as int, df, x, y),
                negate,
            ),
{
    let ghost d0 = dst@;
    let ghost f = |x: int, y: int|
        leap_at(a@[idx(d.nx as int, x, y)], d0[idx(d.nx as int, x, y)], b@[idx(d.nx as int, x, y)], diff_at(src@, d.nx as int, df, x, y), negate);
    proof {
        lemma_dims_sizes(d);
    }
    let mut k: usize = 0;
    while k < 4
        invariant
            k <= 4,
            d.wf(),
            d.nx * d.ny <= usize::MAX,
            dst@.len() == d.cells(),
            a@.len() == d.cells(),
            b@.len() == d.cells(),
            src@.len() == d.cells(),
            d.cells() == d.nx * d.ny,
            forall|k2: int|
                0 <= k2 < 4 ==> (#[trigger] sweep_spec(c, d.slab_spec(k2))).is_empty() || reads_ok(
                    df,
                    sweep_spec(c, d.slab_spec(k2)),
                    d.nx as int,
                    d.ny as int,
                ),
            forall|x: int, y: int| #[trigger] f(x, y) == leap_at(a@[idx(d.nx as int, x, y)], d0[idx(d.nx as int, x, y)], b@[idx(d.nx as int, x, y)], diff_at(src@, d.nx as int, df, x, y), negate),
            same_unswept(d0, dst@, d, c, k as int),
            forall|x: int, y: int| #[trigger] swept(d, c, k as int, x, y) ==> dst@[idx(d.nx as int, x, y)] == f(x, y),
        decreases 4 - k,
    {
        let r = sweep(c, d.slab(k));
        let ghost before = dst@;
        assert(r.is_empty() || reads_ok(df, r, d.nx as int, d.ny as int));
        leap(dst, a, b, src, df, negate, d.nx, d.ny, r);
        proof {
            assert forall|x: int, y: int| #[trigger] r.contains(x, y) implies dst@[idx(d.nx as int, x, y)] == f(x, y) by {
                lemma_sweep_fresh(d, c, k as int, x, y);
            }
            lemma_layer_step(d0, before, dst@, d, c, k as int, f);
        }
        k = k + 1;
    }
}

/// Copies `src` into `dst` on the sweep of component `c` in every slab.
fn copy_layer<T: Real>(dst: &mut Vec<T>, src: &Vec<T>, d: Dims, c: Component)
    requires
        d.wf(),
        old(dst)@.len() == d.cells(),
        src@.len() == d.cells(),
    ensures
        final(dst)@.len() == old(dst)@.len(),
        same_unswept(old(dst)@, final(dst)@, d, c, 4),
        mirrors(final(dst)@, src@, d, c, 4),
{
    let ghost d0 = dst@;
    let ghost f = |x: int, y: int| src@[idx(d.nx as int, x, y)];
    proof {
        lemma_dims_sizes(d);
    }
    let mut k: usize = 0;
    while k < 4
        invariant
            k <= 4,
            d.wf(),
            d.nx * d.ny <= usize::MAX,
            dst@.len() == d.cells(),
            src@.len() == d.cells(),
            d.cells() == d.nx * d.ny,
            forall|x: int, y: int| #[trigger] f(x, y) == src@[idx(d.nx as int, x, y)],
            same_unswept(d0, dst@, d, c, k as int),
            forall|x: int, y: int| #[trigger] swept(d, c, k as int, x, y) ==> dst@[idx(d.nx as int, x, y)] == f(x, y),
        decreases 4 - k,
    {
        let r = sweep(c, d.slab(k));
        let ghost before = dst@;
        copy_into(dst, src, d.nx, d.ny, r);
        proof {
            lemma_layer_step(d0, before, dst@, d, c, k as int, f);
        }
        k = k + 1;
    }
}

/// Sets `dst` to `s1 + s2` on the sweep of component `c` in every slab.
fn sum_layer<T: Real>(dst: &mut Vec<T>, s1: &Vec<T>, s2: &Vec<T>, d: Dims, c: Component)
    requires
        d.wf(),
        old(dst)@.len() == d.cells(),
        s1@.len() == d.cells(),
        s2@.len() == d.cells(),
    ensures
        final(dst)@.len() == old(dst)@.len(),
        same_unswept(old(dst)@, final(dst)@, d, c, 4),
        forall|x: int, y: int|
            #[trigger] swept(d, c, 4, x, y) ==> final(dst)@[idx(d.nx as int, x, y)] == s1@[idx(
                d.nx as int,
                x,
                y,
            )].spec_plus(s2@[idx(d.nx as int, x, y)]),
{
    let ghost d0 = dst@;
    let ghost f = |x: int, y: int| s1@[idx(d.nx as int, x, y)].spec_plus(s2@[idx(d.nx as int, x, y)]);
    proof {
        lemma_dims_sizes(d);
    }
    let mut k: usize = 0;
    while k < 4
        invariant
            k <= 4,
            d.wf(),
            d.nx * d.ny <= usize::MAX,
            dst@.len() == d.cells(),
            s1@.len() == d.cells(),
            s2@.len() == d.cells(),
            d.cells() == d.nx * d.ny,
            forall|x: int, y: int| #[trigger] f(x, y) == s1@[idx(d.nx as int, x, y)].spec_plus(s2@[idx(d.nx as int, x, y)]),
            same_unswept(d0, dst@, d, c, k as int),
            forall|x: int, y: int| #[trigger] swept(d, c, k as int, x, y) ==> dst@[idx(d.nx as int, x, y)] == f(x, y),
        decreases 4 - k,
    {
        let r = sweep(c, d.slab(k));
        let ghost before = dst@;
        sum_into(dst, s1, s2, d.nx, d.ny, r);
        proof {
            lemma_layer_step(d0, before, dst@, d, c, k as int, f);
        }
        k = k + 1;
    }
}

impl<T: Real> fdtd<T> {
    /// Of the state, the electric update of the absorbing layer changes the
    /// electric fields and their split parts only, and only on the cells it
    /// sweeps in the slabs. There each split part takes its graded leapfrog
    /// update, `ex` and `ey` take their split parts and `ez` the sum of its
    /// two.
    pub open spec fn e_pml_post(&self, o: &Self) -> bool {
        let d = o.spec_dims();
        let nx = d.nx as int;
        let (f, f0, s, s0, p) = (self.spec_fields(), o.spec_fields(), self.spec_split(), o.spec_split(), o.spec_pml());
        &&& self.wf()
        &&& self.same_setting(o)
        &&& self.spec_ready() == o.spec_ready()
        &&& self.spec_time() == o.spec_time()
        &&& self.spec_coefs() == o.spec_coefs()
        &&& self.spec_pml() == o.spec_pml()
        &&& self.spec_materials() == o.spec_materials()
        &&& f.hx == f0.hx && f.hy == f0.hy && f.hz == f0.hz
        &&& s.hxpml == s0.hxpml && s.hypml == s0.hypml && s.hzx == s0.hzx && s.hzy == s0.hzy
        &&& same_unswept(f0.ex@, f.ex@, d, Component::Ex, 4)
        &&& same_unswept(s0.expml@, s.expml@, d, Component::Ex, 4)
        &&& same_unswept(f0.ey@, f.ey@, d, Component::Ey, 4)
        &&& same_unswept(s0.eypml@, s.eypml@, d, Component::Ey, 4)
        &&& same_unswept(f0.ez@, f.ez@, d, Component::Ez, 4)
        &&& same_unswept(s0.ezx@, s.ezx@, d, Component::Ez, 4)
        &&& same_unswept(s0.ezy@, s.ezy@, d, Component::Ez, 4)
        &&& mirrors(f.ex@, s.expml@, d, Component::Ex, 4)
        &&& mirrors(f.ey@, s.eypml@, d, Component::Ey, 4)
        &&& forall|x: int, y: int| #[trigger] swept(d, Component::Ex, 4, x, y) ==> s.expml@[idx(nx, x, y)]
            == leap_at(p.aeypml@[idx(nx, x, y)], s0.expml@[idx(nx, x, y)], p.beypml@[idx(nx, x, y)], diff_at(f0.hz@, nx, Diff::BackY, x, y), false)
        &&& forall|x: int, y: int| #[trigger] swept(d, Component::Ey, 4, x, y) ==> s.eypml@[idx(nx, x, y)]
            == leap_at(p.aexpml@[idx(nx, x, y)], s0.eypml@[idx(nx, x, y)], p.bexpml@[idx(nx, x, y)], diff_at(f0.hz@, nx, Diff::BackX, x, y), true)
        &&& forall|x: int, y: int| #[trigger] swept(d, Component::Ez, 4, x, y) ==> {
            let i = idx(nx, x, y);
            &&& s.ezx@[i] == leap_at(p.aexpml@[i], s0.ezx@[i], p.bexpml@[i], diff_at(f0.hy@, nx, Diff::BackX, x, y), false)
            &&& s.ezy@[i] == leap_at(p.aeypml@[i], s0.ezy@[i], p.beypml@[i], diff_at(f0.hx@, nx, Diff::BackY, x, y), true)
            &&& f.ez@[i] == s.ezx@[i].spec_plus(s.ezy@[i])
        }
    }

    /// Electric half-step of the absorbing layer: in each of the four slabs,
    /// updates the split parts of `ex`, `ey` and `ez` with the graded
    /// coefficients and writes them back into the physical fields, over
    /// whatever the interior update left there.
    pub fn e_pml(&mut self) -> (r: Result<(), FdtdError>)
        requires
            old(self).wf(),
        ensures
            !old(self).spec_ready() ==> r == Err::<(), FdtdError>(FdtdError::NotReady) && *final(self) == *old(self),
            old(self).spec_ready() ==> r is Ok && final(self).e_pml_post(old(self)),
    {
        if !self.ready {
            return Err(FdtdError::NotReady);
        }
        let d = self.dims;
        leap_layer(&mut self.s.expml, &self.p.aeypml, &self.p.beypml, &self.f.hz, Diff::BackY, false, d, Component::Ex);
        copy_layer(&mut self.f.ex, &self.s.expml, d, Component::Ex);
        leap_layer(&mut self.s.eypml, &self.p.aexpml, &self.p.bexpml, &self.f.hz, Diff::BackX, true, d, Component::Ey);
        copy_layer(&mut self.f.ey, &self.s.eypml, d, Component::Ey);
        leap_layer(&mut self.s.ezx, &self.p.aexpml, &self.p.bexpml, &self.f.hy, Diff::BackX, false, d, Component::Ez);
        leap_layer(&mut self.s.ezy, &self.p.aeypml, &self.p.beypml, &self.f.hx, Diff::BackY, true, d, Component::Ez);
        sum_layer(&mut self.f.ez, &self.s.ezx, &self.s.ezy, d, Component::Ez);
        Ok(())
    }

    /// Of the state, the magnetic update of the absorbing layer changes the
    /// magnetic fields and their split parts only, and only on the cells it
    /// sweeps in the slabs. There each split part takes its graded leapfrog
    /// update, `hx` and `hy` take their split parts and `hz` the sum of its
    /// two.
    pub open spec fn h_pml_post(&self, o: &Self) -> bool {
        let d = o.spec_dims();
        let nx = d.nx as int;
        let (f, f0, s, s0, p) = (self.spec_fields(), o.spec_fields(), self.spec_split(), o.spec_split(), o.spec_pml());
        &&& self.wf()
        &&& self.same_setting(o)
        &&& self.spec_ready() == o.spec_ready()
        &&& self.spec_time() == o.spec_time()
        &&& self.spec_coefs() == o.spec_coefs()
        &&& self.spec_pml() == o.spec_pml()
        &&& self.spec_materials() == o.spec_materials()
        &&& f.ex == f0.ex && f.ey == f0.ey && f.ez == f0.ez
        &&& s.expml == s0.expml && s.eypml == s0.eypml && s.ezx == s0.ezx && s.ezy == s0.ezy
        &&& same_unswept(f0.hx@, f.hx@, d, Component::Hx, 4)
        &&& same_unswept(s0.hxpml@, s.hxpml@, d, Component::Hx, 4)
        &&& same_unswept(f0.hy@, f.hy@, d, Component::Hy, 4)
        &&& same_unswept(s0.hypml@, s.hypml@, d, Component::Hy, 4)
        &&& same_unswept(f0.hz@, f.hz@, d, Component::Hz, 4)
        &&& same_unswept(s0.hzx@, s.hzx@, d, Component::Hz, 4)
        &&& same_unswept(s0.hzy@, s.hzy@, d, Component::Hz, 4)
        &&& mirrors(f.hx@, s.hxpml@, d, Component::Hx, 4)
        &&& mirrors(f.hy@, s.hypml@, d, Component::Hy, 4)
        &&& forall|x: int, y: int| #[trigger] swept(d, Component::Hx, 4, x, y) ==> s.hxpml@[idx(nx, x, y)]
            == leap_at(p.amypml@[idx(nx, x, y)], s0.hxpml@[idx(nx, x, y)], p.bmypml@[idx(nx, x, y)], diff_at(f0.ez@, nx, Diff::FwdY, x, y), true)
        &&& forall|x: int, y: int| #[trigger] swept(d, Component::Hy, 4, x, y) ==> s.hypml@[idx(nx, x, y)]
            == leap_at(p.amxpml@[idx(nx, x, y)], s0.hypml@[idx(nx, x, y)], p.bmxpml@[idx(nx, x, y)], diff_at(f0.ez@, nx, Diff::FwdX, x, y), false)
        &&& forall|x: int, y: int| #[trigger] swept(d, Component::Hz, 4, x, y) ==> {
            let i = idx(nx, x, y);
            &&& s.hzx@[i] == leap_at(p.amxpml@[i], s0.hzx@[i], p.bmxpml@[i], diff_at(f0.ey@, nx, Diff::FwdX, x, y), true)
            &&& s.hzy@[i] == leap_at(p.amypml@[i], s0.hzy@[i], p.bmypml@[i], diff_at(f0.ex@, nx, Diff::FwdY, x, y), false)
            &&& f.hz@[i] == s.hzx@[i].spec_plus(s.hzy@[i])
        }
    }

    /// Magnetic half-step of the absorbing layer: in each of the four slabs,
    /// updates the split parts of `hx`, `hy` and `hz` with the graded
    /// coefficients and writes them back into the physical fields, over
    /// whatever the interior update left there.
    pub fn h_pml(&mut self) -> (r: Result<(), FdtdError>)
        requires
            old(self).wf(),
        ensures
            !old(self).spec_ready() ==> r == Err::<(), FdtdError>(FdtdError::NotReady) && *final(self) == *old(self),
            old(self).spec_ready() ==> r is Ok && final(self).h_pml_post(old(self)),
    {
        if !self.ready {
            return Err(FdtdError::NotReady);
        }
        let d = self.dims;
        leap_layer(&mut self.s.hxpml, &self.p.amypml, &self.p.bmypml, &self.f.ez, Diff::FwdY, true, d, Component::Hx);
        copy_layer(&mut self.f.hx, &self.s.hxpml, d, Component::Hx);
        leap_layer(&mut self.s.hypml, &self.p.amxpml, &self.p.bmxpml, &self.f.ez, Diff::FwdX, false, d, Component::Hy);
        copy_layer(&mut self.f.hy, &self.s.hypml, d, Component::Hy);
        leap_layer(&mut self.s.hzx, &self.p.amxpml, &self.p.bmxpml, &self.f.ey, Diff::FwdX, true, d, Component::Hz);
        leap_layer(&mut self.s.hzy, &self.p.amypml, &self.p.bmypml, &self.f.ex, Diff::FwdY, false, d, Component::Hz);
        sum_layer(&mut self.f.hz, &self.s.hzx, &self.s.hzy, d, Component::Hz);
        Ok(())
    }
}

impl<T: Real> fdtd<T> {
    /// Of the state, the interior electric update changes `ex`, `ey` and `ez`
    /// only, on every cell but the outermost ring, each by its leapfrog
    /// equation over the old values.
    pub open spec fn e_cal_post(&self, o: &Self) -> bool {
        let d = o.spec_dims();
        let (nx, ny) = (d.nx as int, d.ny as int);
        let (f, f0, c) = (self.spec_fields(), o.spec_fields(), o.spec_coefs());
        &&& self.wf()
        &&& self.same_setting(o)
        &&& self.spec_ready() == o.spec_ready()
        &&& self.spec_time() == o.spec_time()
        &&& self.spec_coefs() == o.spec_coefs()
        &&& self.spec_pml() == o.spec_pml()
        &&& self.spec_materials() == o.spec_materials()
        &&& self.spec_split() == o.spec_split()
        &&& f.hx == f0.hx && f.hy == f0.hy && f.hz == f0.hz
        &&& same_outside(f0.ex@, f.ex@, nx, ny, d.inner())
        &&& same_outside(f0.ey@, f.ey@, nx, ny, d.inner())
        &&& same_outside(f0.ez@, f.ez@, nx, ny, d.inner())
        &&& forall|x: int, y: int| #[trigger] d.inner().contains(x, y) ==> {
            let i = idx(nx, x, y);
            &&& f.ex@[i] == leap_at(c.aex@[i], f0.ex@[i], c.bexy@[i], diff_at(f0.hz@, nx, Diff::BackY, x, y), false)
            &&& f.ey@[i] == leap_at(c.aey@[i], f0.ey@[i], c.beyx@[i], diff_at(f0.hz@, nx, Diff::BackX, x, y), true)
            &&& f.ez@[i] == leap2_at(
                c.aez@[i],
                f0.ez@[i],
                c.bezx@[i],
                diff_at(f0.hy@, nx, Diff::BackX, x, y),
                false,
                c.bezy@[i],
                diff_at(f0.hx@, nx, Diff::BackY, x, y),
                true,
            )
        }
    }

    /// Of the state, the interior magnetic update changes `hx`, `hy` and `hz`
    /// only, on every cell but the outermost ring, each by its leapfrog
    /// equation over the old values.
    pub open spec fn h_cal_post(&self, o: &Self) -> bool {
        let d = o.spec_dims();
        let (nx, ny) = (d.nx as int, d.ny as int);
        let (f, f0, c) = (self.spec_fields(), o.spec_fields(), o.spec_coefs());
        &&& self.wf()
        &&& self.same_setting(o)
        &&& self.spec_ready() == o.spec_ready()
        &&& self.spec_time() == o.spec_time()
        &&& self.spec_coefs() == o.spec_coefs()
        &&& self.spec_pml() == o.spec_pml()
        &&& self.spec_materials() == o.spec_materials()
        &&& self.spec_split() == o.spec_split()
        &&& f.ex == f0.ex && f.ey == f0.ey && f.ez == f0.ez
        &&& same_outside(f0.hx@, f.hx@, nx, ny, d.inner())
        &&& same_outside(f0.hy@, f.hy@, nx, ny, d.inner())
        &&& same_outside(f0.hz@, f.hz@, nx, ny, d.inner())
        &&& forall|x: int, y: int| #[trigger] d.inner().contains(x, y) ==> {
            let i = idx(nx, x, y);
            &&& f.hx@[i] == leap_at(c.amx@[i], f0.hx@[i], c.bmxy@[i], diff_at(f0.ez@, nx, Diff::FwdY, x, y), true)
            &&& f.hy@[i] == leap_at(c.amy@[i], f0.hy@[i], c.bmyx@[i], diff_at(f0.ez@, nx, Diff::FwdX, x, y), false)
            &&& f.hz@[i] == leap2_at(
                c.amz@[i],
                f0.hz@[i],
                c.bmzx@[i],
                diff_at(f0.ey@, nx, Diff::FwdX, x, y),
                true,
                c.bmzy@[i],
                diff_at(f0.ex@, nx, Diff::FwdY, x, y),
                false,
            )
        }
    }

    /// Interior electric half-step:
    /// `ex = aex ex + bexy (hz - hz[y-1])`,
    /// `ey = aey ey - beyx (hz - hz[x-1])`,
    /// `ez = aez ez + bezx (hy - hy[x-1]) - bezy (hx - hx[y-1])`.
    pub fn e_cal(&mut self) -> (r: Result<(), FdtdError>)
        requires
            old(self).wf(),
        ensures
            !old(self).spec_ready() ==> r == Err::<(), FdtdError>(FdtdError::NotReady) && *final(self) == *old(self),
            old(self).spec_ready() ==> r is Ok && final(self).e_cal_post(old(self)),
    {
        if !self.ready {
            return Err(FdtdError::NotReady);
        }
        let d = self.dims;
        let (nx, ny) = (d.nx, d.ny);
        proof {
            lemma_dims_sizes(d);
        }
        let inner = Rect { x0: 1, x1: nx - 1, y0: 1, y1: ny - 1 };
        leap(&mut self.f.ex, &self.c.aex, &self.c.bexy, &self.f.hz, Diff::BackY, false, nx, ny, inner);
        leap(&mut self.f.ey, &self.c.aey, &self.c.beyx, &self.f.hz, Diff::BackX, true, nx, ny, inner);
        leap2(
            &mut self.f.ez,
            &self.c.aez,
            &self.c.bezx,
            &self.f.hy,
            Diff::BackX,
            false,
            &self.c.bezy,
            &self.f.hx,
            Diff::BackY,
            true,
            nx,
            ny,
            inner,
        );
        Ok(())
    }

    /// Interior magnetic half-step:
    /// `hx = amx hx - bmxy (ez[y+1] - ez)`,
    /// `hy = amy hy + bmyx (ez[x+1] - ez)`,
    /// `hz = amz hz - bmzx (ey[x+1] - ey) + bmzy (ex[y+1] - ex)`.
    pub fn h_cal(&mut self) -> (r: Result<(), FdtdError>)
        requires
            old(self).wf(),
        ensures
            !old(self).spec_ready() ==> r == Err::<(), FdtdError>(FdtdError::NotReady) && *final(self) == *old(self),
            old(self).spec_ready() ==> r is Ok && final(self).h_cal_post(old(self)),
    {
        if !self.ready {
            return Err(FdtdError::NotReady);
        }
        let d = self.dims;
        let (nx, ny) = (d.nx, d.ny);
        proof {
            lemma_dims_sizes(d);
        }
        let inner = Rect { x0: 1, x1: nx - 1, y0: 1, y1: ny - 1 };
        leap(&mut self.f.hx, &self.c.amx, &self.c.bmxy, &self.f.ez, Diff::FwdY, true, nx, ny, inner);
        leap(&mut self.f.hy, &self.c.amy, &self.c.bmyx, &self.f.ez, Diff::FwdX, false, nx, ny, inner);
        leap2(
            &mut self.f.hz,
            &self.c.amz,
            &self.c.bmzx,
            &self.f.ey,
            Diff::FwdX,
            true,
            &self.c.bmzy,
            &self.f.ex,
            Diff::FwdY,
            false,
            nx,
            ny,
            inner,
        );
        Ok(())
    }
}

/// `x_s <= x_l <= nx` and `y_s <= y_l <= ny`: the rectangle lies in the grid.
pub open spec fn rect_ok(d: Dims, x_s: int, x_l: int, y_s: int, y_l: int) -> bool {
    x_s <= x_l <= d.nx && y_s <= y_l <= d.ny
}

/// Corner nodes that a dielectric rectangle sets: `x_s < x < x_l`,
/// `y_s < y < y_l`.
pub open spec fn dielectric_nodes(x_s: int, x_l: int, y_s: int, y_l: int) -> Rect {
    Rect { x0: (x_s + 1) as usize, x1: x_l as usize, y0: (y_s + 1) as usize, y1: y_l as usize }
}

/// Cells whose `ex` a conductor rectangle shorts: `x_s <= x < x_l - 1`,
/// `y_s <= y < y_l`.
pub open spec fn pec_ex(x_s: int, x_l: int, y_s: int, y_l: int) -> Rect {
    Rect { x0: x_s as usize, x1: if x_l >= 1 { (x_l - 1) as usize } else { 0 }, y0: y_s as usize, y1: y_l as usize }
}

/// Cells whose `ey` a conductor rectangle shorts: `x_s <= x < x_l`,
/// `y_s <= y < y_l - 1`.
pub open spec fn pec_ey(x_s: int, x_l: int, y_s: int, y_l: int) -> Rect {
    Rect { x0: x_s as usize, x1: x_l as usize, y0: y_s as usize, y1: if y_l >= 1 { (y_l - 1) as usize } else { 0 } }
}

/// Cells whose `ez` a conductor rectangle shorts: `x_s <= x < x_l`,
/// `y_s <= y < y_l`.
pub open spec fn pec_ez(x_s: int, x_l: int, y_s: int, y_l: int) -> Rect {
    Rect { x0: x_s as usize, x1: x_l as usize, y0: y_s as usize, y1: y_l as usize }
}

/// `b` equals `v` on the cells of `r` and `a` elsewhere.
pub open spec fn set_on<T>(a: Seq<T>, b: Seq<T>, nx: int, ny: int, r: Rect, v: T) -> bool {
    &&& b.len() == a.len()
    &&& same_outside(a, b, nx, ny, r)
    &&& forall|x: int, y: int| #[trigger] r.contains(x, y) ==> b[idx(nx, x, y)] == v
}

impl<T: Real> fdtd<T> {
    /// Cell `(x, y)` lies in the interior, outside the absorbing layer.
    pub open spec fn interior(&self, x: int, y: int) -> bool {
        let d = self.spec_dims();
        d.lpml <= x < d.nx - d.lpml && d.lpml <= y < d.ny - d.lpml
    }

    /// Of the state, a dielectric edit sets the nodes of `dielectric_nodes` to
    /// permittivity `epsr`, permeability one and no loss, and leaves the
    /// coefficients stale until the next `setup`.
    pub open spec fn epsmu_post(&self, o: &Self, x_s: int, x_l: int, y_s: int, y_l: int, epsr: T) -> bool {
        let d = o.spec_dims();
        let (w, h) = (d.nx + 1, d.ny + 1);
        let r = dielectric_nodes(x_s, x_l, y_s, y_l);
        let (m, m0) = (self.spec_materials(), o.spec_materials());
        &&& self.wf()
        &&& self.same_setting(o)
        &&& !self.spec_ready()
        &&& self.spec_time() == o.spec_time()
        &&& self.spec_fields() == o.spec_fields()
        &&& self.spec_split() == o.spec_split()
        &&& self.spec_coefs() == o.spec_coefs()
        &&& self.spec_pml() == o.spec_pml()
        &&& set_on(m0.epsd@, m.epsd@, w, h, r, epsr)
        &&& set_on(m0.mud@, m.mud@, w, h, r, o.spec_one())
        &&& set_on(m0.sgmed@, m.sgmed@, w, h, r, o.spec_zero())
        &&& set_on(m0.sgmmd@, m.sgmmd@, w, h, r, o.spec_zero())
    }

    /// Places a lossless dielectric of relative permittivity `epsr` on the
    /// corner nodes strictly inside the rectangle: `x_s < x < x_l`,
    /// `y_s < y < y_l`. The coefficients must then be derived again.
    pub fn epsmu(&mut self, x_s: usize, x_l: usize, y_s: usize, y_l: usize, epsr: T) -> (r: Result<(), FdtdError>)
        requires
            old(self).wf(),
        ensures
            !rect_ok(old(self).spec_dims(), x_s as int, x_l as int, y_s as int, y_l as int) ==> r == Err::<
                (),
                FdtdError,
            >(FdtdError::OutOfRange) && *final(self) == *old(self),
            rect_ok(old(self).spec_dims(), x_s as int, x_l as int, y_s as int, y_l as int) ==> r is Ok
                && final(self).epsmu_post(old(self), x_s as int, x_l as int, y_s as int, y_l as int, epsr),
    {
        let d = self.dims;
        if !(x_s <= x_l && x_l <= d.nx && y_s <= y_l && y_l <= d.ny) {
            return Err(FdtdError::OutOfRange);
        }
        proof {
            lemma_dims_sizes(d);
        }
        let (w, h) = (d.nx + 1, d.ny + 1);
        let r = Rect { x0: x_s + 1, x1: x_l, y0: y_s + 1, y1: y_l };
        fill_rect(&mut self.m.epsd, epsr, w, h, r);
        fill_rect(&mut self.m.mud, self.one, w, h, r);
        fill_rect(&mut self.m.sgmed, self.zero, w, h, r);
        fill_rect(&mut self.m.sgmmd, self.zero, w, h, r);
        self.ready = false;
        Ok(())
    }

    /// Of the state, a conductor edit sets to zero the decay and curl
    /// coefficients of `ex`, `ey` and `ez` on the cells of `pec_ex`, `pec_ey`
    /// and `pec_ez`, and changes nothing else.
    pub open spec fn pec_post(&self, o: &Self, x_s: int, x_l: int, y_s: int, y_l: int) -> bool {
        let d = o.spec_dims();
        let (nx, ny) = (d.nx as int, d.ny as int);
        let (c, c0, z) = (self.spec_coefs(), o.spec_coefs(), o.spec_zero());
        &&& self.wf()
        &&& self.same_setting(o)
        &&& self.spec_ready() == o.spec_ready()
        &&& self.spec_time() == o.spec_time()
        &&& self.spec_fields() == o.spec_fields()
        &&& self.spec_split() == o.spec_split()
        &&& self.spec_pml() == o.spec_pml()
        &&& self.spec_materials() == o.spec_materials()
        &&& set_on(c0.aex@, c.aex@, nx, ny, pec_ex(x_s, x_l, y_s, y_l), z)
        &&& set_on(c0.bexy@, c.bexy@, nx, ny, pec_ex(x_s, x_l, y_s, y_l), z)
        &&& set_on(c0.aey@, c.aey@, nx, ny, pec_ey(x_s, x_l, y_s, y_l), z)
        &&& set_on(c0.beyx@, c.beyx@, nx, ny, pec_ey(x_s, x_l, y_s, y_l), z)
        &&& set_on(c0.aez@, c.aez@, nx, ny, pec_ez(x_s, x_l, y_s, y_l), z)
        &&& set_on(c0.bezx@, c.bezx@, nx, ny, pec_ez(x_s, x_l, y_s, y_l), z)
        &&& set_on(c0.bezy@, c.bezy@, nx, ny, pec_ez(x_s, x_l, y_s, y_l), z)
        &&& c.amx == c0.amx && c.amy == c0.amy && c.amz == c0.amz
        &&& c.bmxy == c0.bmxy && c.bmyx == c0.bmyx && c.bmzx == c0.bmzx && c.bmzy == c0.bmzy
    }

    /// Makes the rectangle `x_s <= x < x_l`, `y_s <= y < y_l` a perfect
    /// electric conductor by zeroing the electric update coefficients there,
    /// so that the tangential electric field stays put. Acts on derived
    /// coefficients: it needs `setup` first, and a later `setup` undoes it.
    pub fn pec_rect(&mut self, x_s: usize, x_l: usize, y_s: usize, y_l: usize) -> (r: Result<(), FdtdError>)
        requires
            old(self).wf(),
        ensures
            !rect_ok(old(self).spec_dims(), x_s as int, x_l as int, y_s as int, y_l as int) ==> r == Err::<
                (),
                FdtdError,
            >(FdtdError::OutOfRange) && *final(self) == *old(self),
            rect_ok(old(self).spec_dims(), x_s as int, x_l as int, y_s as int, y_l as int) && !old(self).spec_ready()
                ==> r == Err::<(), FdtdError>(FdtdError::NotReady) && *final(self) == *old(self),
            rect_ok(old(self).spec_dims(), x_s as int, x_l as int, y_s as int, y_l as int) && old(self).spec_ready()
                ==> r is Ok && final(self).pec_post(old(self), x_s as int, x_l as int, y_s as int, y_l as int),
    {
        let d = self.dims;
        if !(x_s <= x_l && x_l <= d.nx && y_s <= y_l && y_l <= d.ny) {
            return Err(FdtdError::OutOfRange);
        }
        if !self.ready {
            return Err(FdtdError::NotReady);
        }
        proof {
            lemma_dims_sizes(d);
        }
        let (nx, ny) = (d.nx, d.ny);
        let z = self.zero;
        let rx = Rect { x0: x_s, x1: if x_l >= 1 { x_l - 1 } else { 0 }, y0: y_s, y1: y_l };
        let ry = Rect { x0: x_s, x1: x_l, y0: y_s, y1: if y_l >= 1 { y_l - 1 } else { 0 } };
        let rz = Rect { x0: x_s, x1: x_l, y0: y_s, y1: y_l };
        fill_rect(&mut self.c.aex, z, nx, ny, rx);
        fill_rect(&mut self.c.bexy, z, nx, ny, rx);
        fill_rect(&mut self.c.aey, z, nx, ny, ry);
        fill_rect(&mut self.c.beyx, z, nx, ny, ry);
        fill_rect(&mut self.c.aez, z, nx, ny, rz);
        fill_rect(&mut self.c.bezx, z, nx, ny, rz);
        fill_rect(&mut self.c.bezy, z, nx, ny, rz);
        Ok(())
    }
}

impl<T: Real> fdtd<T> {
    /// Values of component `c` over the grid, row by row.
    pub open spec fn component(&self, c: Component) -> Seq<T> {
        let f = self.spec_fields();
        match c {
            Component::Ex => f.ex@,
            Component::Ey => f.ey@,
            Component::Ez => f.ez@,
            Component::Hx => f.hx@,
            Component::Hy => f.hy@,
            Component::Hz => f.hz@,
        }
    }

    /// Of the state, placing the source at `(x, y)` sets its weight to
    /// `dt / eps` with `eps` the permittivity around the cell, its width from
    /// the configuration and its peak at four widths, and changes nothing
    /// else.
    pub open spec fn source_post(&self, o: &Self, x: int, y: int) -> bool {
        &&& self.wf()
        &&& self.spec_has_source()
        &&& self.source_state() == (
            o.spec_dt().spec_divided_by(source_eps(o.spec_materials().epsd@, o.spec_dims(), o.spec_cfg().eps0, x, y)),
            o.spec_cfg().duration,
            o.spec_cfg().duration.spec_times(T::spec_from_count(4)),
        )
        &&& self.spec_cfg() == o.spec_cfg()
        &&& self.spec_dims() == o.spec_dims()
        &&& self.spec_dt() == o.spec_dt()
        &&& self.spec_zero() == o.spec_zero()
        &&& self.spec_one() == o.spec_one()
        &&& self.spec_ready() == o.spec_ready()
        &&& self.spec_time() == o.spec_time()
        &&& self.spec_fields() == o.spec_fields()
        &&& self.spec_split() == o.spec_split()
        &&& self.spec_coefs() == o.spec_coefs()
        &&& self.spec_pml() == o.spec_pml()
        &&& self.spec_materials() == o.spec_materials()
    }

    /// Prepares a Gaussian current source at interior cell `(x, y)`: its
    /// weight from the permittivity around the cell and the time step, its
    /// width from the configuration, and its peak at four widths.
    pub fn init_source(&mut self, x: usize, y: usize) -> (r: Result<(), FdtdError>)
        requires
            old(self).wf(),
        ensures
            !old(self).interior(x as int, y as int) ==> r == Err::<(), FdtdError>(FdtdError::OutOfRange)
                && *final(self) == *old(self),
            old(self).interior(x as int, y as int) ==> r is Ok && final(self).source_post(old(self), x as int, y as int),
    {
        let d = self.dims;
        if !(d.lpml <= x && x < d.nx - d.lpml && d.lpml <= y && y < d.ny - d.lpml) {
            return Err(FdtdError::OutOfRange);
        }
        proof {
            lemma_dims_sizes(d);
            lemma_idx_bounds(d.nx + 1, d.ny + 1, x as int, y as int);
            lemma_idx_bounds(d.nx + 1, d.ny + 1, x + 1, y + 1);
        }
        let w = d.nx + 1;
        let n00 = y * w + x;
        let n10 = n00 + 1;
        let n01 = n00 + w;
        let n11 = n01 + 1;
        let e = &self.m.epsd;
        let quarter = self.one.divided_by(T::from_count(4));
        let epsz = quarter.times(e[n11].plus(e[n01]).plus(e[n10]).plus(e[n00])).times(self.cfg.eps0);
        self.befed = self.dt.divided_by(epsz);
        self.duration = self.cfg.duration;
        self.t0 = self.duration.times(T::from_count(4));
        self.has_source = true;
        Ok(())
    }

    /// Of the state, feeding the source at time `t` subtracts the pulse from
    /// `ez` at `(x, y)` and changes nothing else.
    pub open spec fn feed_post(&self, o: &Self, x: int, y: int, t: T) -> bool {
        let d = o.spec_dims();
        let i = idx(d.nx as int, x, y);
        &&& self.wf()
        &&& self.same_setting(o)
        &&& self.spec_ready() == o.spec_ready()
        &&& self.spec_time() == o.spec_time()
        &&& self.spec_split() == o.spec_split()
        &&& self.spec_coefs() == o.spec_coefs()
        &&& self.spec_pml() == o.spec_pml()
        &&& self.spec_materials() == o.spec_materials()
        &&& self.spec_fields().ex == o.spec_fields().ex
        &&& self.spec_fields().ey == o.spec_fields().ey
        &&& self.spec_fields().hx == o.spec_fields().hx
        &&& self.spec_fields().hy == o.spec_fields().hy
        &&& self.spec_fields().hz == o.spec_fields().hz
        &&& self.spec_fields().ez@ == o.spec_fields().ez@.update(
            i,
            o.spec_fields().ez@[i].spec_minus(
                pulse(o.source_state().0, o.source_state().1, o.source_state().2, o.spec_dt(), o.spec_cfg().dx, o.spec_cfg().dy, t),
            ),
        )
    }

    /// Subtracts the source current at time `t`,
    /// `befed exp(-((t - dt/2 - t0) / width)^2) / (dx dy)`, from `ez` at
    /// `(x, y)`.
    pub fn feed(&mut self, x: usize, y: usize, t: T) -> (r: Result<(), FdtdError>)
        requires
            old(self).wf(),
        ensures
            !old(self).interior(x as int, y as int) ==> r == Err::<(), FdtdError>(FdtdError::OutOfRange)
                && *final(self) == *old(self),
            old(self).interior(x as int, y as int) && !old(self).spec_has_source() ==> r == Err::<
                (),
                FdtdError,
            >(FdtdError::NotReady) && *final(self) == *old(self),
            old(self).interior(x as int, y as int) && old(self).spec_has_source() ==> r is Ok
                && final(self).feed_post(old(self), x as int, y as int, t),
    {
        let d = self.dims;
        if !(d.lpml <= x && x < d.nx - d.lpml && d.lpml <= y && y < d.ny - d.lpml) {
            return Err(FdtdError::OutOfRange);
        }
        if !self.has_source {
            return Err(FdtdError::NotReady);
        }
        proof {
            lemma_dims_sizes(d);
            lemma_idx_bounds(d.nx as int, d.ny as int, x as int, y as int);
        }
        let i = y * d.nx + x;
        let half = self.one.divided_by(T::from_count(2));
        let arg = t.minus(half.times(self.dt)).minus(self.t0).divided_by(self.duration);
        let iz = arg.power(2).negated().exponential();
        let v = self.f.ez[i].minus(self.befed.times(iz).divided_by(self.cfg.dx.times(self.cfg.dy)));
        self.f.ez.set(i, v);
        Ok(())
    }
}

impl<T: Real> fdtd<T> {
    /// Of the state, a time step changes the fields, their split parts and the
    /// clock only, and the split parts only inside the absorbing slabs; there
    /// `ex`, `ey`, `hx` and `hy` end equal to their split parts.
    pub open spec fn step_post(&self, o: &Self) -> bool {
        let d = o.spec_dims();
        let (f, s, s0) = (self.spec_fields(), self.spec_split(), o.spec_split());
        &&& self.wf()
        &&& self.same_setting(o)
        &&& self.spec_ready() == o.spec_ready()
        &&& self.spec_coefs() == o.spec_coefs()
        &&& self.spec_pml() == o.spec_pml()
        &&& self.spec_materials() == o.spec_materials()
        &&& mirrors(f.ex@, s.expml@, d, Component::Ex, 4)
        &&& mirrors(f.ey@, s.eypml@, d, Component::Ey, 4)
        &&& mirrors(f.hx@, s.hxpml@, d, Component::Hx, 4)
        &&& mirrors(f.hy@, s.hypml@, d, Component::Hy, 4)
        &&& same_unswept(s0.expml@, s.expml@, d, Component::Ex, 4)
        &&& same_unswept(s0.eypml@, s.eypml@, d, Component::Ey, 4)
        &&& same_unswept(s0.ezx@, s.ezx@, d, Component::Ez, 4)
        &&& same_unswept(s0.ezy@, s.ezy@, d, Component::Ez, 4)
        &&& same_unswept(s0.hxpml@, s.hxpml@, d, Component::Hx, 4)
        &&& same_unswept(s0.hypml@, s.hypml@, d, Component::Hy, 4)
        &&& same_unswept(s0.hzx@, s.hzx@, d, Component::Hz, 4)
        &&& same_unswept(s0.hzy@, s.hzy@, d, Component::Hz, 4)
    }

    /// A time step from `o` with the source at `(x, y)` went through the
    /// states `g1` to `g5`: interior electric update, source at the current
    /// time, electric update of the layer, interior magnetic update, magnetic
    /// update of the layer; this state has the fields of `g5` and the clock
    /// two half steps on.
    pub open spec fn step_chain(
        &self,
        o: &Self,
        g1: Self,
        g2: Self,
        g3: Self,
        g4: Self,
        g5: Self,
        x: int,
        y: int,
    ) -> bool {
        let h = one_half::<T>().spec_times(o.spec_dt());
        &&& g1.e_cal_post(o)
        &&& g2.feed_post(&g1, x, y, o.spec_time())
        &&& g3.e_pml_post(&g2)
        &&& g4.h_cal_post(&g3)
        &&& g5.h_pml_post(&g4)
        &&& self.spec_fields() == g5.spec_fields()
        &&& self.spec_split() == g5.spec_split()
        &&& self.spec_time() == o.spec_time().spec_plus(h).spec_plus(h)
    }

    /// One time step with the source at `(x, y)`: the interior electric
    /// update, the source, the electric update of the absorbing layer, half a
    /// time step, the interior magnetic update, the magnetic update of the
    /// absorbing layer, and the other half time step. Electric before
    /// magnetic and interior before absorbing layer, so that the layer has
    /// the last word on its own cells.
    pub fn step(&mut self, x: usize, y: usize) -> (r: Result<(), FdtdError>)
        requires
            old(self).wf(),
        ensures
            !old(self).interior(x as int, y as int) ==> r == Err::<(), FdtdError>(FdtdError::OutOfRange)
                && *final(self) == *old(self),
            old(self).interior(x as int, y as int) && !(old(self).spec_ready() && old(self).spec_has_source())
                ==> r == Err::<(), FdtdError>(FdtdError::NotReady) && *final(self) == *old(self),
            old(self).interior(x as int, y as int) && old(self).spec_ready() && old(self).spec_has_source()
                ==> r is Ok && final(self).step_post(old(self)) && exists|g1: Self, g2: Self, g3: Self, g4: Self, g5: Self|
                    #[trigger] final(self).step_chain(old(self), g1, g2, g3, g4, g5, x as int, y as int),
    {
        let d = self.dims;
        if !(d.lpml <= x && x < d.nx - d.lpml && d.lpml <= y && y < d.ny - d.lpml) {
            return Err(FdtdError::OutOfRange);
        }
        if !(self.ready && self.has_source) {
            return Err(FdtdError::NotReady);
        }
        let _ = self.e_cal();
        let ghost g1 = *self;
        let t = self.t;
        let _ = self.feed(x, y, t);
        let ghost g2 = *self;
        let _ = self.e_pml();
        let ghost g3 = *self;
        let half = self.one.divided_by(T::from_count(2));
        self.t = self.t.plus(half.times(self.dt));
        let ghost after_e = *self;
        let _ = self.h_cal();
        let ghost g4 = fdtd { t: g3.t, ..*self };
        let _ = self.h_pml();
        let ghost g5 = fdtd { t: g3.t, ..*self };
        self.t = self.t.plus(half.times(self.dt));
        proof {
            assert(mirrors(after_e.f.ex@, after_e.s.expml@, d, Component::Ex, 4));
            assert(self.step_chain(old(self), g1, g2, g3, g4, g5, x as int, y as int));
        }
        Ok(())
    }

    /// The interior values of `ez`, row by row with the absorbing layer cut
    /// away, and the value of `ez` at the observation cell `(xo, yo)`.
    pub fn snapshot(&self, xo: usize, yo: usize) -> (r: Result<(Vec<T>, T), FdtdError>)
        requires
            self.wf(),
        ensures
            !(xo < self.spec_dims().nx && yo < self.spec_dims().ny) ==> r == Err::<(Vec<T>, T), FdtdError>(
                FdtdError::OutOfRange,
            ),
            xo < self.spec_dims().nx && yo < self.spec_dims().ny ==> (r matches Ok((v, o)) && ({
                let d = self.spec_dims();
                let (w, h, l) = (d.nx - 2 * d.lpml, d.ny - 2 * d.lpml, d.lpml as int);
                let ez = self.spec_fields().ez@;
                &&& o == ez[idx(d.nx as int, xo as int, yo as int)]
                &&& v@.len() == w * h
                &&& forall|i: int, j: int|
                    0 <= i < w && 0 <= j < h ==> #[trigger] v@[idx(w, i, j)] == ez[idx(
                        d.nx as int,
                        i + l,
                        j + l,
                    )]
            })),
    {
        let d = self.dims;
        if !(xo < d.nx && yo < d.ny) {
            return Err(FdtdError::OutOfRange);
        }
        proof {
            lemma_dims_sizes(d);
            lemma_idx_bounds(d.nx as int, d.ny as int, xo as int, yo as int);
        }
        let (nx, l) = (d.nx, d.lpml);
        let w = d.nx - 2 * l;
        let h = d.ny - 2 * l;
        let ghost ez = self.f.ez@;
        let mut v: Vec<T> = Vec::new();
        let mut j: usize = 0;
        while j < h
            invariant
                d == self.dims,
                d.wf(),
                nx == d.nx,
                l == d.lpml,
                w == d.nx - 2 * l,
                h == d.ny - 2 * l,
                ez == self.f.ez@,
                ez.len() == d.nx * d.ny,
                d.nx * d.ny <= usize::MAX,
                j <= h,
                v@.len() == j * w,
                forall|i2: int, j2: int|
                    0 <= i2 < w && 0 <= j2 < j ==> #[trigger] v@[idx(w as int, i2, j2)] == ez[idx(
                        nx as int,
                        i2 + l,
                        j2 + l,
                    )],
            decreases h - j,
        {
            let mut i: usize = 0;
            while i < w
                invariant
                    d == self.dims,
                    d.wf(),
                    nx == d.nx,
                    l == d.lpml,
                    w == d.nx - 2 * l,
                    h == d.ny - 2 * l,
                    ez == self.f.ez@,
                    ez.len() == d.nx * d.ny,
                    d.nx * d.ny <= usize::MAX,
                    j < h,
                    i <= w,
                    v@.len() == j * w + i,
                    forall|i2: int, j2: int|
                        0 <= i2 < w && 0 <= j2 < h && (j2 < j || (j2 == j && i2 < i))
                            ==> #[trigger] v@[idx(w as int, i2, j2)] == ez[idx(nx as int, i2 + l, j2 + l)],
                decreases w - i,
            {
                proof {
                    lemma_idx_bounds(d.nx as int, d.ny as int, (i + l) as int, (j + l) as int);
                }
                let val = self.f.ez[(j + l) * nx + i + l];
                let ghost v0 = v@;
                v.push(val);
                proof {
                    assert forall|i2: int, j2: int|
                        0 <= i2 < w && 0 <= j2 < h && (j2 < j || (j2 == j && i2 < i + 1))
                            implies #[trigger] v@[idx(w as int, i2, j2)] == ez[idx(nx as int, i2 + l, j2 + l)] by {
                        if j2 < j {
                            assert(j2 * w + i2 < j * w) by (nonlinear_arith)
                                requires j2 < j, i2 < w, j2 >= 0;
                        }
                    }
                }
                i = i + 1;
            }
            proof {
                assert((j + 1) * w == j * w + w) by (nonlinear_arith);
            }
            j = j + 1;
        }
        proof {
            assert(h * w == w * h) by (nonlinear_arith);
            assert forall|i2: int, j2: int|
                0 <= i2 < w && 0 <= j2 < h implies #[trigger] v@[idx(w as int, i2, j2)] == ez[idx(
                nx as int,
                i2 + l,
                j2 + l,
            )] by {}
        }
        Ok((v, self.f.ez[yo * nx + xo]))
    }

    /// The time step.
    pub fn dt(&self) -> (r: T)
        ensures
            r == self.spec_dt(),
    {
        self.dt
    }

    /// The simulated time.
    pub fn time(&self) -> (r: T)
        ensures
            r == self.spec_time(),
    {
        self.t
    }

    /// The grid size and the thickness of the absorbing layer.
    pub fn dims(&self) -> (r: Dims)
        ensures
            r == self.spec_dims(),
    {
        self.dims
    }

    /// Whether the coefficients are derived from the current medium.
    pub fn is_ready(&self) -> (r: bool)
        ensures
            r == self.spec_ready(),
    {
        self.ready
    }

    /// Value of component `c` at cell `(x, y)`, if the cell is in the grid.
    pub fn field(&self, c: Component, x: usize, y: usize) -> (r: Option<T>)
        requires
            self.wf(),
        ensures
            !(x < self.spec_dims().nx && y < self.spec_dims().ny) ==> r is None,
            x < self.spec_dims().nx && y < self.spec_dims().ny ==> r == Some(
                self.component(c)[idx(self.spec_dims().nx as int, x as int, y as int)],
            ),
    {
        let d = self.dims;
        if !(x < d.nx && y < d.ny) {
            return None;
        }
        proof {
            lemma_dims_sizes(d);
            lemma_idx_bounds(d.nx as int, d.ny as int, x as int, y as int);
        }
        let i = y * d.nx + x;
        let f = &self.f;
        Some(
            match c {
                Component::Ex => f.ex[i],
                Component::Ey => f.ey[i],
                Component::Ez => f.ez[i],
                Component::Hx => f.hx[i],
                Component::Hy => f.hy[i],
                Component::Hz => f.hz[i],
            },
        )
    }
}

/// Within the absorbing slabs the layer has the last word: after the
/// interior electric update and then the layer's electric update, `ex` and
/// `ey` hold their split parts on every slab cell the layer sweeps, and the
/// interior update left those split parts as they were.
pub proof fn law_pml_overwrites_interior<T: Real>(g0: fdtd<T>, g1: fdtd<T>, g2: fdtd<T>)
    requires
        g1.e_cal_post(&g0),
        g2.e_pml_post(&g1),
    ensures
        g1.spec_split() == g0.spec_split(),
        mirrors(g2.spec_fields().ex@, g2.spec_split().expml@, g0.spec_dims(), Component::Ex, 4),
        mirrors(g2.spec_fields().ey@, g2.spec_split().eypml@, g0.spec_dims(), Component::Ey, 4),
{
}

/// The same for the magnetic half-step: after the interior magnetic update
/// and then the layer's, `hx` and `hy` hold their split parts on every slab
/// cell the layer sweeps.
pub proof fn law_pml_overwrites_interior_h<T: Real>(g0: fdtd<T>, g1: fdtd<T>, g2: fdtd<T>)
    requires
        g1.h_cal_post(&g0),
        g2.h_pml_post(&g1),
    ensures
        g1.spec_split() == g0.spec_split(),
        mirrors(g2.spec_fields().hx@, g2.spec_split().hxpml@, g0.spec_dims(), Component::Hx, 4),
        mirrors(g2.spec_fields().hy@, g2.spec_split().hypml@, g0.spec_dims(), Component::Hy, 4),
{
}

/// The split parts belong to the absorbing slabs only: a time step leaves
/// them unchanged on every interior cell, so they keep there the zero a
/// fresh grid starts with.
pub proof fn law_split_fields_unused_outside_layer<T: Real>(g0: fdtd<T>, g1: fdtd<T>, x: int, y: int)
    requires
        g1.step_post(&g0),
        0 <= x < g0.spec_dims().nx,
        0 <= y < g0.spec_dims().ny,
        !g0.spec_dims().in_guard(x, y),
    ensures
        ({
            let (i, s0, s1) = (idx(g0.spec_dims().nx as int, x, y), g0.spec_split(), g1.spec_split());
            &&& s1.expml@[i] == s0.expml@[i]
            &&& s1.eypml@[i] == s0.eypml@[i]
            &&& s1.ezx@[i] == s0.ezx@[i]
            &&& s1.ezy@[i] == s0.ezy@[i]
            &&& s1.hxpml@[i] == s0.hxpml@[i]
            &&& s1.hypml@[i] == s0.hypml@[i]
            &&& s1.hzx@[i] == s0.hzx@[i]
            &&& s1.hzy@[i] == s0.hzy@[i]
        }),
{
    let d = g0.spec_dims();
    assert forall|c: Component| !swept(d, c, 4, x, y) by {
        if swept(d, c, 4, x, y) {
            let j: int = if sweep_spec(c, d.slab_spec(0)).contains(x, y) {
                0
            } else if sweep_spec(c, d.slab_spec(1)).contains(x, y) {
                1
            } else if sweep_spec(c, d.slab_spec(2)).contains(x, y) {
                2
            } else {
                3
            };
            assert(d.slab_spec(j).contains(x, y));
        }
    }
    assert(!swept(d, Component::Ex, 4, x, y));
    assert(!swept(d, Component::Ey, 4, x, y));
    assert(!swept(d, Component::Ez, 4, x, y));
    assert(!swept(d, Component::Hx, 4, x, y));
    assert(!swept(d, Component::Hy, 4, x, y));
    assert(!swept(d, Component::Hz, 4, x, y));
}

impl<T: Real> fdtd<T> {
    /// The two states hold the same field values and split parts.
    pub open spec fn same_values(&self, o: &Self) -> bool {
        let (f, g, s, t) = (self.spec_fields(), o.spec_fields(), self.spec_split(), o.spec_split());
        &&& f.ex@ == g.ex@ && f.ey@ == g.ey@ && f.ez@ == g.ez@
        &&& f.hx@ == g.hx@ && f.hy@ == g.hy@ && f.hz@ == g.hz@
        &&& s.expml@ == t.expml@ && s.eypml@ == t.eypml@ && s.ezx@ == t.ezx@ && s.ezy@ == t.ezy@
        &&& s.hxpml@ == t.hxpml@ && s.hypml@ == t.hypml@ && s.hzx@ == t.hzx@ && s.hzy@ == t.hzy@
    }

    /// The two states agree on everything but the field values and split
    /// parts.
    pub open spec fn same_frame(&self, o: &Self) -> bool {
        &&& self.same_setting(o)
        &&& self.spec_ready() == o.spec_ready()
        &&& self.spec_time() == o.spec_time()
        &&& self.spec_coefs() == o.spec_coefs()
        &&& self.spec_pml() == o.spec_pml()
        &&& self.spec_materials() == o.spec_materials()
    }
}

/// `e_cal_post` fixes the result: from states with the same values it leads to
/// states with the same values.
proof fn lemma_e_cal_determined<T: Real>(o: fdtd<T>, p: fdtd<T>, a: fdtd<T>, b: fdtd<T>)
    requires
        o.wf(),
        o.same_values(&p),
        o.same_frame(&p),
        a.e_cal_post(&o),
        b.e_cal_post(&p),
    ensures
        a.same_values(&b),
        a.same_frame(&b),
{
    let (nx, ny) = (o.spec_dims().nx as int, o.spec_dims().ny as int);
    lemma_dims_sizes(o.spec_dims());
    assert forall|x: int, y: int| 0 <= x < nx && 0 <= y < ny implies #[trigger] a.spec_fields().ex@[idx(nx, x, y)] == b.spec_fields().ex@[idx(nx, x, y)] by {
        assert(o.spec_fields().ex@[idx(nx, x, y)] == p.spec_fields().ex@[idx(nx, x, y)]);
        if o.spec_dims().inner().contains(x, y) {
            assert(p.spec_dims().inner().contains(x, y));
        }
    }
    lemma_cells_determine(a.spec_fields().ex@, b.spec_fields().ex@, nx, ny);
    assert forall|x: int, y: int| 0 <= x < nx && 0 <= y < ny implies #[trigger] a.spec_fields().ey@[idx(nx, x, y)] == b.spec_fields().ey@[idx(nx, x, y)] by {
        assert(o.spec_fields().ey@[idx(nx, x, y)] == p.spec_fields().ey@[idx(nx, x, y)]);
        if o.spec_dims().inner().contains(x, y) {
            assert(p.spec_dims().inner().contains(x, y));
        }
    }
    lemma_cells_determine(a.spec_fields().ey@, b.spec_fields().ey@, nx, ny);
    assert forall|x: int, y: int| 0 <= x < nx && 0 <= y < ny implies #[trigger] a.spec_fields().ez@[idx(nx, x, y)] == b.spec_fields().ez@[idx(nx, x, y)] by {
        assert(o.spec_fields().ez@[idx(nx, x, y)] == p.spec_fields().ez@[idx(nx, x, y)]);
        if o.spec_dims().inner().contains(x, y) {
            assert(p.spec_dims().inner().contains(x, y));
        }
    }
    lemma_cells_determine(a.spec_fields().ez@, b.spec_fields().ez@, nx, ny);
}

/// `feed_post` fixes the result: from states with the same values it leads to
/// states with the same values.
proof fn lemma_feed_determined<T: Real>(o: fdtd<T>, p: fdtd<T>, a: fdtd<T>, b: fdtd<T>, x: int, y: int, t: T)
    requires
        o.wf(),
        o.same_values(&p),
        o.same_frame(&p),
        a.feed_post(&o, x, y, t),
        b.feed_post(&p, x, y, t),
    ensures
        a.same_values(&b),
        a.same_frame(&b),
{
    let (nx, ny) = (o.spec_dims().nx as int, o.spec_dims().ny as int);
    lemma_dims_sizes(o.spec_dims());
    assert forall|x: int, y: int| 0 <= x < nx && 0 <= y < ny implies #[trigger] a.spec_fields().ez@[idx(nx, x, y)] == b.spec_fields().ez@[idx(nx, x, y)] by {
        assert(o.spec_fields().ez@[idx(nx, x, y)] == p.spec_fields().ez@[idx(nx, x, y)]);}
    lemma_cells_determine(a.spec_fields().ez@, b.spec_fields().ez@, nx, ny);
}

/// `e_pml_post` fixes the result: from states with the same values it leads to
/// states with the same values.
proof fn lemma_e_pml_determined<T: Real>(o: fdtd<T>, p: fdtd<T>, a: fdtd<T>, b: fdtd<T>)
    requires
        o.wf(),
        o.same_values(&p),
        o.same_frame(&p),
        a.e_pml_post(&o),
        b.e_pml_post(&p),
    ensures
        a.same_values(&b),
        a.same_frame(&b),
{
    let (nx, ny) = (o.spec_dims().nx as int, o.spec_dims().ny as int);
    lemma_dims_sizes(o.spec_dims());
    assert forall|x: int, y: int| 0 <= x < nx && 0 <= y < ny implies #[trigger] a.spec_fields().ex@[idx(nx, x, y)] == b.spec_fields().ex@[idx(nx, x, y)] by {
        assert(o.spec_fields().ex@[idx(nx, x, y)] == p.spec_fields().ex@[idx(nx, x, y)]);
        if swept(o.spec_dims(), Component::Ex, 4, x, y) {
            assert(swept(p.spec_dims(), Component::Ex, 4, x, y));
        }
    }
    lemma_cells_determine(a.spec_fields().ex@, b.spec_fields().ex@, nx, ny);
    assert forall|x: int, y: int| 0 <= x < nx && 0 <= y < ny implies #[trigger] a.spec_fields().ey@[idx(nx, x, y)] == b.spec_fields().ey@[idx(nx, x, y)] by {
        assert(o.spec_fields().ey@[idx(nx, x, y)] == p.spec_fields().ey@[idx(nx, x, y)]);
        if swept(o.spec_dims(), Component::Ey, 4, x, y) {
            assert(swept(p.spec_dims(), Component::Ey, 4, x, y));
        }
    }
    lemma_cells_determine(a.spec_fields().ey@, b.spec_fields().ey@, nx, ny);
    assert forall|x: int, y: int| 0 <= x < nx && 0 <= y < ny implies #[trigger] a.spec_fields().ez@[idx(nx, x, y)] == b.spec_fields().ez@[idx(nx, x, y)] by {
        assert(o.spec_fields().ez@[idx(nx, x, y)] == p.spec_fields().ez@[idx(nx, x, y)]);
        if swept(o.spec_dims(), Component::Ez, 4, x, y) {
            assert(swept(p.spec_dims(), Component::Ez, 4, x, y));
        }
    }
    lemma_cells_determine(a.spec_fields().ez@, b.spec_fields().ez@, nx, ny);
    assert forall|x: int, y: int| 0 <= x < nx && 0 <= y < ny implies #[trigger] a.spec_split().expml@[idx(nx, x, y)] == b.spec_split().expml@[idx(nx, x, y)] by {
        assert(o.spec_split().expml@[idx(nx, x, y)] == p.spec_split().expml@[idx(nx, x, y)]);
        if swept(o.spec_dims(), Component::Ex, 4, x, y) {
            assert(swept(p.spec_dims(), Component::Ex, 4, x, y));
        }
    }
    lemma_cells_determine(a.spec_split().expml@, b.spec_split().expml@, nx, ny);
    assert forall|x: int, y: int| 0 <= x < nx && 0 <= y < ny implies #[trigger] a.spec_split().eypml@[idx(nx, x, y)] == b.spec_split().eypml@[idx(nx, x, y)] by {
        assert(o.spec_split().eypml@[idx(nx, x, y)] == p.spec_split().eypml@[idx(nx, x, y)]);
        if swept(o.spec_dims(), Component::Ey, 4, x, y) {
            assert(swept(p.spec_dims(), Component::Ey, 4, x, y));
        }
    }
    lemma_cells_determine(a.spec_split().eypml@, b.spec_split().eypml@, nx, ny);
    assert forall|x: int, y: int| 0 <= x < nx && 0 <= y < ny implies #[trigger] a.spec_split().ezx@[idx(nx, x, y)] == b.spec_split().ezx@[idx(nx, x, y)] by {
        assert(o.spec_split().ezx@[idx(nx, x, y)] == p.spec_split().ezx@[idx(nx, x, y)]);
        if swept(o.spec_dims(), Component::Ez, 4, x, y) {
            assert(swept(p.spec_dims(), Component::Ez, 4, x, y));
        }
    }
    lemma_cells_determine(a.spec_split().ezx@, b.spec_split().ezx@, nx, ny);
    assert forall|x: int, y: int| 0 <= x < nx && 0 <= y < ny implies #[trigger] a.spec_split().ezy@[idx(nx, x, y)] == b.spec_split().ezy@[idx(nx, x, y)] by {
        assert(o.spec_split().ezy@[idx(nx, x, y)] == p.spec_split().ezy@[idx(nx, x, y)]);
        if swept(o.spec_dims(), Component::Ez, 4, x, y) {
            assert(swept(p.spec_dims(), Component::Ez, 4, x, y));
        }
    }
    lemma_cells_determine(a.spec_split().ezy@, b.spec_split().ezy@, nx, ny);
}

/// `h_cal_post` fixes the result: from states with the same values it leads to
/// states with the same values.
proof fn lemma_h_cal_determined<T: Real>(o: fdtd<T>, p: fdtd<T>, a: fdtd<T>, b: fdtd<T>)
    requires
        o.wf(),
        o.same_values(&p),
        o.same_frame(&p),
        a.h_cal_post(&o),
        b.h_cal_post(&p),
    ensures
        a.same_values(&b),
        a.same_frame(&b),
{
    let (nx, ny) = (o.spec_dims().nx as int, o.spec_dims().ny as int);
    lemma_dims_sizes(o.spec_dims());
    assert forall|x: int, y: int| 0 <= x < nx && 0 <= y < ny implies #[trigger] a.spec_fields().hx@[idx(nx, x, y)] == b.spec_fields().hx@[idx(nx, x, y)] by {
        assert(o.spec_fields().hx@[idx(nx, x, y)] == p.spec_fields().hx@[idx(nx, x, y)]);
        if o.spec_dims().inner().contains(x, y) {
            assert(p.spec_dims().inner().contains(x, y));
        }
    }
    lemma_cells_determine(a.spec_fields().hx@, b.spec_fields().hx@, nx, ny);
    assert forall|x: int, y: int| 0 <= x < nx && 0 <= y < ny implies #[trigger] a.spec_fields().hy@[idx(nx, x, y)] == b.spec_fields().hy@[idx(nx, x, y)] by {
        assert(o.spec_fields().hy@[idx(nx, x, y)] == p.spec_fields().hy@[idx(nx, x, y)]);
        if o.spec_dims().inner().contains(x, y) {
            assert(p.spec_dims().inner().contains(x, y));
        }
    }
    lemma_cells_determine(a.spec_fields().hy@, b.spec_fields().hy@, nx, ny);
    assert forall|x: int, y: int| 0 <= x < nx && 0 <= y < ny implies #[trigger] a.spec_fields().hz@[idx(nx, x, y)] == b.spec_fields().hz@[idx(nx, x, y)] by {
        assert(o.spec_fields().hz@[idx(nx, x, y)] == p.spec_fields().hz@[idx(nx, x, y)]);
        if o.spec_dims().inner().contains(x, y) {
            assert(p.spec_dims().inner().contains(x, y));
        }
    }
    lemma_cells_determine(a.spec_fields().hz@, b.spec_fields().hz@, nx, ny);
}

/// `h_pml_post` fixes the result: from states with the same values it leads to
/// states with the same values.
proof fn lemma_h_pml_determined<T: Real>(o: fdtd<T>, p: fdtd<T>, a: fdtd<T>, b: fdtd<T>)
    requires
        o.wf(),
        o.same_values(&p),
        o.same_frame(&p),
        a.h_pml_post(&o),
        b.h_pml_post(&p),
    ensures
        a.same_values(&b),
        a.same_frame(&b),
{
    let (nx, ny) = (o.spec_dims().nx as int, o.spec_dims().ny as int);
    lemma_dims_sizes(o.spec_dims());
    assert forall|x: int, y: int| 0 <= x < nx && 0 <= y < ny implies #[trigger] a.spec_fields().hx@[idx(nx, x, y)] == b.spec_fields().hx@[idx(nx, x, y)] by {
        assert(o.spec_fields().hx@[idx(nx, x, y)] == p.spec_fields().hx@[idx(nx, x, y)]);
        if swept(o.spec_dims(), Component::Hx, 4, x, y) {
            assert(swept(p.spec_dims(), Component::Hx, 4, x, y));
        }
    }
    lemma_cells_determine(a.spec_fields().hx@, b.spec_fields().hx@, nx, ny);
    assert forall|x: int, y: int| 0 <= x < nx && 0 <= y < ny implies #[trigger] a.spec_fields().hy@[idx(nx, x, y)] == b.spec_fields().hy@[idx(nx, x, y)] by {
        assert(o.spec_fields().hy@[idx(nx, x, y)] == p.spec_fields().hy@[idx(nx, x, y)]);
        if swept(o.spec_dims(), Component::Hy, 4, x, y) {
            assert(swept(p.spec_dims(), Component::Hy, 4, x, y));
        }
    }
    lemma_cells_determine(a.spec_fields().hy@, b.spec_fields().hy@, nx, ny);
    assert forall|x: int, y: int| 0 <= x < nx && 0 <= y < ny implies #[trigger] a.spec_fields().hz@[idx(nx, x, y)] == b.spec_fields().hz@[idx(nx, x, y)] by {
        assert(o.spec_fields().hz@[idx(nx, x, y)] == p.spec_fields().hz@[idx(nx, x, y)]);
        if swept(o.spec_dims(), Component::Hz, 4, x, y) {
            assert(swept(p.spec_dims(), Component::Hz, 4, x, y));
        }
    }
    lemma_cells_determine(a.spec_fields().hz@, b.spec_fields().hz@, nx, ny);
    assert forall|x: int, y: int| 0 <= x < nx && 0 <= y < ny implies #[trigger] a.spec_split().hxpml@[idx(nx, x, y)] == b.spec_split().hxpml@[idx(nx, x, y)] by {
        assert(o.spec_split().hxpml@[idx(nx, x, y)] == p.spec_split().hxpml@[idx(nx, x, y)]);
        if swept(o.spec_dims(), Component::Hx, 4, x, y) {
            assert(swept(p.spec_dims(), Component::Hx, 4, x, y));
        }
    }
    lemma_cells_determine(a.spec_split().hxpml@, b.spec_split().hxpml@, nx, ny);
    assert forall|x: int, y: int| 0 <= x < nx && 0 <= y < ny implies #[trigger] a.spec_split().hypml@[idx(nx, x, y)] == b.spec_split().hypml@[idx(nx, x, y)] by {
        assert(o.spec_split().hypml@[idx(nx, x, y)] == p.spec_split().hypml@[idx(nx, x, y)]);
        if swept(o.spec_dims(), Component::Hy, 4, x, y) {
            assert(swept(p.spec_dims(), Component::Hy, 4, x, y));
        }
    }
    lemma_cells_determine(a.spec_split().hypml@, b.spec_split().hypml@, nx, ny);
    assert forall|x: int, y: int| 0 <= x < nx && 0 <= y < ny implies #[trigger] a.spec_split().hzx@[idx(nx, x, y)] == b.spec_split().hzx@[idx(nx, x, y)] by {
        assert(o.spec_split().hzx@[idx(nx, x, y)] == p.spec_split().hzx@[idx(nx, x, y)]);
        if swept(o.spec_dims(), Component::Hz, 4, x, y) {
            assert(swept(p.spec_dims(), Component::Hz, 4, x, y));
        }
    }
    lemma_cells_determine(a.spec_split().hzx@, b.spec_split().hzx@, nx, ny);
    assert forall|x: int, y: int| 0 <= x < nx && 0 <= y < ny implies #[trigger] a.spec_split().hzy@[idx(nx, x, y)] == b.spec_split().hzy@[idx(nx, x, y)] by {
        assert(o.spec_split().hzy@[idx(nx, x, y)] == p.spec_split().hzy@[idx(nx, x, y)]);
        if swept(o.spec_dims(), Component::Hz, 4, x, y) {
            assert(swept(p.spec_dims(), Component::Hz, 4, x, y));
        }
    }
    lemma_cells_determine(a.spec_split().hzy@, b.spec_split().hzy@, nx, ny);
}

/// Two runs of a time step from the same state, with the source at the
/// same cell, end with the same field values, split parts and clock.
pub proof fn law_step_deterministic<T: Real>(
    g0: fdtd<T>,
    s1: fdtd<T>,
    s2: fdtd<T>,
    a1: fdtd<T>,
    a2: fdtd<T>,
    a3: fdtd<T>,
    a4: fdtd<T>,
    a5: fdtd<T>,
    b1: fdtd<T>,
    b2: fdtd<T>,
    b3: fdtd<T>,
    b4: fdtd<T>,
    b5: fdtd<T>,
    x: int,
    y: int,
)
    requires
        g0.wf(),
        s1.step_chain(&g0, a1, a2, a3, a4, a5, x, y),
        s2.step_chain(&g0, b1, b2, b3, b4, b5, x, y),
    ensures
        s1.same_values(&s2),
        s1.spec_time() == s2.spec_time(),
{
    lemma_e_cal_determined(g0, g0, a1, b1);
    lemma_feed_determined(a1, b1, a2, b2, x, y, g0.spec_time());
    lemma_e_pml_determined(a2, b2, a3, b3);
    lemma_h_cal_determined(a3, b3, a4, b4);
    lemma_h_pml_determined(a4, b4, a5, b5);
}

/// Deriving the coefficients twice in a row gives the same coefficients as
/// deriving them once.
pub proof fn law_setup_idempotent<T: Real>(g0: fdtd<T>, g1: fdtd<T>, g2: fdtd<T>, x: int, y: int)
    requires
        g1.setup_post(&g0),
        g2.setup_post(&g1),
        0 <= x < g0.spec_dims().nx,
        0 <= y < g0.spec_dims().ny,
    ensures
        ({
            let i = idx(g0.spec_dims().nx as int, x, y);
            &&& e_coefs_at(g2.spec_coefs(), i) == e_coefs_at(g1.spec_coefs(), i)
            &&& m_coefs_at(g2.spec_coefs(), i) == m_coefs_at(g1.spec_coefs(), i)
            &&& pml_at(g2.spec_pml(), i) == pml_at(g1.spec_pml(), i)
        }),
{
    assert(coefs_derived(g1.spec_coefs(), g0.spec_materials(), g0.spec_cfg(), g0.spec_dims(), g0.spec_dt(), x, y));
    assert(coefs_derived(g2.spec_coefs(), g1.spec_materials(), g1.spec_cfg(), g1.spec_dims(), g1.spec_dt(), x, y));
    assert(pml_at(g1.spec_pml(), idx(g0.spec_dims().nx as int, x, y)) == pml_at(g1.spec_pml(), idx(g0.spec_dims().nx as int, x, y)));
}

/// A conductor lasts until the next `setup`: deriving the coefficients
/// again after `pec_rect` gives back those from before the conductor.
pub proof fn law_setup_discards_conductor<T: Real>(
    g0: fdtd<T>,
    g1: fdtd<T>,
    g2: fdtd<T>,
    g3: fdtd<T>,
    x_s: int,
    x_l: int,
    y_s: int,
    y_l: int,
    x: int,
    y: int,
)
    requires
        g1.setup_post(&g0),
        g2.pec_post(&g1, x_s, x_l, y_s, y_l),
        g3.setup_post(&g2),
        0 <= x < g0.spec_dims().nx,
        0 <= y < g0.spec_dims().ny,
    ensures
        ({
            let i = idx(g0.spec_dims().nx as int, x, y);
            &&& e_coefs_at(g3.spec_coefs(), i) == e_coefs_at(g1.spec_coefs(), i)
            &&& m_coefs_at(g3.spec_coefs(), i) == m_coefs_at(g1.spec_coefs(), i)
            &&& pml_at(g3.spec_pml(), i) == pml_at(g1.spec_pml(), i)
        }),
{
    assert(coefs_derived(g1.spec_coefs(), g0.spec_materials(), g0.spec_cfg(), g0.spec_dims(), g0.spec_dt(), x, y));
    assert(coefs_derived(g3.spec_coefs(), g2.spec_materials(), g2.spec_cfg(), g2.spec_dims(), g2.spec_dt(), x, y));
    assert(pml_at(g3.spec_pml(), idx(g0.spec_dims().nx as int, x, y)) == pml_at(g1.spec_pml(), idx(g0.spec_dims().nx as int, x, y)));
}

/// The layer alone decides its cells: after the interior electric update
/// and then the layer's, the layer's sweeps hold the same `ex`, `ey` and
/// `ez` as after the layer's update alone.
pub proof fn law_layer_decides_e<T: Real>(g0: fdtd<T>, a1: fdtd<T>, a2: fdtd<T>, b1: fdtd<T>, x: int, y: int)
    requires
        a1.e_cal_post(&g0),
        a2.e_pml_post(&a1),
        b1.e_pml_post(&g0),
    ensures
        ({
            let (d, i) = (g0.spec_dims(), idx(g0.spec_dims().nx as int, x, y));
            &&& swept(d, Component::Ex, 4, x, y) ==> a2.spec_fields().ex@[i] == b1.spec_fields().ex@[i]
            &&& swept(d, Component::Ey, 4, x, y) ==> a2.spec_fields().ey@[i] == b1.spec_fields().ey@[i]
            &&& swept(d, Component::Ez, 4, x, y) ==> a2.spec_fields().ez@[i] == b1.spec_fields().ez@[i]
        }),
{
}

/// The same for the magnetic half-step and `hx`, `hy`, `hz`.
pub proof fn law_layer_decides_h<T: Real>(g0: fdtd<T>, a1: fdtd<T>, a2: fdtd<T>, b1: fdtd<T>, x: int, y: int)
    requires
        a1.h_cal_post(&g0),
        a2.h_pml_post(&a1),
        b1.h_pml_post(&g0),
    ensures
        ({
            let (d, i) = (g0.spec_dims(), idx(g0.spec_dims().nx as int, x, y));
            &&& swept(d, Component::Hx, 4, x, y) ==> a2.spec_fields().hx@[i] == b1.spec_fields().hx@[i]
            &&& swept(d, Component::Hy, 4, x, y) ==> a2.spec_fields().hy@[i] == b1.spec_fields().hy@[i]
            &&& swept(d, Component::Hz, 4, x, y) ==> a2.spec_fields().hz@[i] == b1.spec_fields().hz@[i]
        }),
{
}

/// The layer's x grading is mirror-symmetric: the electric coefficients at
/// column `x` of the left slab equal those at column `nx - x` of the right
/// one, the magnetic ones (staggered half a cell) those at `nx - 1 - x`.
pub proof fn law_layer_symmetric_x<T: Real>(cfg: Config<T>, d: Dims, dt: T, x: int, y: int)
    requires
        d.wf(),
        d.lpml == cfg.lpml,
        0 <= x < d.lpml,
    ensures
        x >= 1 ==> pml_of(cfg, d, dt, x, y).0 == pml_of(cfg, d, dt, d.nx - x, y).0 && pml_of(cfg, d, dt, x, y).1 == pml_of(
            cfg,
            d,
            dt,
            d.nx - x,
            y,
        ).1,
        pml_of(cfg, d, dt, x, y).4 == pml_of(cfg, d, dt, d.nx - 1 - x, y).4,
        pml_of(cfg, d, dt, x, y).5 == pml_of(cfg, d, dt, d.nx - 1 - x, y).5,
{
    let (n, l) = (d.nx as int, d.lpml as int);
    if x >= 1 {
        assert(depth_spec(x, n, l).unwrap().0 == depth_spec(n - x, n, l).unwrap().0);
    }
    assert(depth_spec(x, n, l).unwrap().1 == depth_spec(n - 1 - x, n, l).unwrap().1);
}

/// The same along y for the top and bottom slabs.
pub proof fn law_layer_symmetric_y<T: Real>(cfg: Config<T>, d: Dims, dt: T, x: int, y: int)
    requires
        d.wf(),
        d.lpml == cfg.lpml,
        0 <= y < d.lpml,
    ensures
        y >= 1 ==> pml_of(cfg, d, dt, x, y).2 == pml_of(cfg, d, dt, x, d.ny - y).2 && pml_of(cfg, d, dt, x, y).3 == pml_of(
            cfg,
            d,
            dt,
            x,
            d.ny - y,
        ).3,
        pml_of(cfg, d, dt, x, y).6 == pml_of(cfg, d, dt, x, d.ny - 1 - y).6,
        pml_of(cfg, d, dt, x, y).7 == pml_of(cfg, d, dt, x, d.ny - 1 - y).7,
{
    let (n, l) = (d.ny as int, d.lpml as int);
    if y >= 1 {
        assert(depth_spec(y, n, l).unwrap().0 == depth_spec(n - y, n, l).unwrap().0);
    }
    assert(depth_spec(y, n, l).unwrap().1 == depth_spec(n - 1 - y, n, l).unwrap().1);
}

/// A conductor stays shorted while the simulation runs: after `pec_rect`
/// and a time step, the electric coefficients of the rectangle are still
/// zero (only `setup` brings them back).
pub proof fn law_conductor_coefficients_persist<T: Real>(
    g0: fdtd<T>,
    g1: fdtd<T>,
    g2: fdtd<T>,
    x_s: int,
    x_l: int,
    y_s: int,
    y_l: int,
)
    requires
        g1.pec_post(&g0, x_s, x_l, y_s, y_l),
        g2.step_post(&g1),
    ensures
        ({
            let (nx, c, z) = (g0.spec_dims().nx as int, g2.spec_coefs(), g0.spec_zero());
            &&& forall|x: int, y: int| #[trigger] pec_ez(x_s, x_l, y_s, y_l).contains(x, y)
                ==> c.aez@[idx(nx, x, y)] == z && c.bezx@[idx(nx, x, y)] == z && c.bezy@[idx(nx, x, y)] == z
            &&& forall|x: int, y: int| #[trigger] pec_ex(x_s, x_l, y_s, y_l).contains(x, y)
                ==> c.aex@[idx(nx, x, y)] == z && c.bexy@[idx(nx, x, y)] == z
            &&& forall|x: int, y: int| #[trigger] pec_ey(x_s, x_l, y_s, y_l).contains(x, y)
                ==> c.aey@[idx(nx, x, y)] == z && c.beyx@[idx(nx, x, y)] == z
        }),
{
}

} // verus!
