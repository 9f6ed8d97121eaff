use vstd::prelude::*;
use vstd::arithmetic::div_mod::{lemma_fundamental_div_mod, lemma_mod_pos_bound};

verus! {

/// Position of cell `(x, y)` in a row-major array whose rows hold `nx` cells.
pub open spec fn idx(nx: int, x: int, y: int) -> int {
    y * nx + x
}

/// Distinct cells of one array sit at distinct positions.
pub proof fn lemma_idx_injective(nx: int, x1: int, y1: int, x2: int, y2: int)
    requires
        0 <= x1 < nx,
        0 <= x2 < nx,
        0 <= y1,
        0 <= y2,
        idx(nx, x1, y1) == idx(nx, x2, y2),
    ensures
        x1 == x2,
        y1 == y2,
{
    if y1 < y2 {
        assert(y1 * nx + nx <= y2 * nx) by (nonlinear_arith)
            requires y1 < y2, nx > 0;
    } else if y2 < y1 {
        assert(y2 * nx + nx <= y1 * nx) by (nonlinear_arith)
            requires y2 < y1, nx > 0;
    }
}

/// A cell of an `nx` by `ny` array lies inside it.
pub proof fn lemma_idx_bounds(nx: int, ny: int, x: int, y: int)
    requires
        0 <= x < nx,
        0 <= y < ny,
    ensures
        0 <= idx(nx, x, y) < nx * ny,
        idx(nx, x, y) + nx == idx(nx, x, y + 1),
{
    assert(0 <= y * nx + x < nx * ny) by (nonlinear_arith)
        requires 0 <= x < nx, 0 <= y < ny;
    assert((y + 1) * nx == y * nx + nx) by (nonlinear_arith);
}

/// Two arrays of an `nx` by `ny` grid that agree on every cell are equal.
pub proof fn lemma_cells_determine<T>(a: Seq<T>, b: Seq<T>, nx: int, ny: int)
    requires
        nx > 0,
        ny >= 0,
        a.len() == nx * ny,
        b.len() == nx * ny,
        forall|x: int, y: int| 0 <= x < nx && 0 <= y < ny ==> #[trigger] a[idx(nx, x, y)] == b[idx(nx, x, y)],
    ensures
        a == b,
{
    assert forall|i: int| 0 <= i < a.len() implies a[i] == b[i] by {
        lemma_fundamental_div_mod(i, nx);
        lemma_mod_pos_bound(i, nx);
        let (x, y) = (i % nx, i / nx);
        assert(i == nx * y + x);
        assert(y * nx == nx * y) by (nonlinear_arith);
        assert(0 <= y) by (nonlinear_arith)
            requires i == nx * y + x, 0 <= x < nx, i >= 0, nx > 0;
        assert(y < ny) by (nonlinear_arith)
            requires i == nx * y + x, 0 <= x < nx, i < nx * ny, nx > 0;
        assert(a[idx(nx, x, y)] == b[idx(nx, x, y)]);
    }
    assert(a =~= b);
}

/// Computes `idx(nx, x, y)` for a cell of an `nx` by `ny` array.
pub fn flat_index(nx: usize, ny: usize, x: usize, y: usize) -> (r: usize)
    requires
        x < nx,
        y < ny,
        nx * ny <= usize::MAX,
    ensures
        r as int == idx(nx as int, x as int, y as int),
        r < nx * ny,
{
    proof {
        lemma_idx_bounds(nx as int, ny as int, x as int, y as int);
    }
    y * nx + x
}

/// The cells `(x, y)` with `x0 <= x < x1` and `y0 <= y < y1`.
#[derive(Clone, Copy, Debug, PartialEq, Eq, Structural)]
pub struct Rect {
    pub x0: usize,
    pub x1: usize,
    pub y0: usize,
    pub y1: usize,
}

impl Rect {
    pub open spec fn contains(self, x: int, y: int) -> bool {
        self.x0 <= x < self.x1 && self.y0 <= y < self.y1
    }

    /// Every cell of the rectangle lies in an `nx` by `ny` grid.
    pub open spec fn within(self, nx: int, ny: int) -> bool {
        self.x1 <= nx && self.y1 <= ny
    }

    pub open spec fn is_empty(self) -> bool {
        self.x1 <= self.x0 || self.y1 <= self.y0
    }
}

/// The six field components of the transverse grid.
#[derive(Clone, Copy, Debug, PartialEq, Eq, Structural)]
pub enum Component {
    Ex,
    Ey,
    Ez,
    Hx,
    Hy,
    Hz,
}

/// Cells that a sweep of component `c` over the region `r` updates.
///
/// A sweep leaves out the last column and row of the region, and the first
/// column or row where its finite difference looks one cell back: that is
/// what keeps every neighbour it reads inside the region.
pub open spec fn sweep_spec(c: Component, r: Rect) -> Rect {
    let (left, top) = match c {
        Component::Ex => (0usize, 1usize),
        Component::Ey => (1, 0),
        Component::Ez => (1, 1),
        Component::Hx => (1, 0),
        Component::Hy => (0, 1),
        Component::Hz => (0, 0),
    };
    Rect {
        x0: (r.x0 + left) as usize,
        x1: if r.x1 >= 1 { (r.x1 - 1) as usize } else { 0 },
        y0: (r.y0 + top) as usize,
        y1: if r.y1 >= 1 { (r.y1 - 1) as usize } else { 0 },
    }
}

pub fn sweep(c: Component, r: Rect) -> (s: Rect)
    requires
        r.x0 < usize::MAX,
        r.y0 < usize::MAX,
    ensures
        s == sweep_spec(c, r),
{
    let (left, top): (usize, usize) = match c {
        Component::Ex => (0, 1),
        Component::Ey => (1, 0),
        Component::Ez => (1, 1),
        Component::Hx => (1, 0),
        Component::Hy => (0, 1),
        Component::Hz => (0, 0),
    };
    Rect {
        x0: r.x0 + left,
        x1: if r.x1 >= 1 { r.x1 - 1 } else { 0 },
        y0: r.y0 + top,
        y1: if r.y1 >= 1 { r.y1 - 1 } else { 0 },
    }
}

/// Size of the grid: `nx` by `ny` cells, of which the outer `lpml` columns
/// and rows on each side form the absorbing guard region.
#[derive(Clone, Copy, Debug, PartialEq, Eq, Structural)]
pub struct Dims {
    pub nx: usize,
    pub ny: usize,
    pub lpml: usize,
}

impl Dims {
    pub open spec fn wf(self) -> bool {
        &&& self.lpml >= 1
        &&& self.nx > 2 * self.lpml
        &&& self.ny > 2 * self.lpml
        &&& (self.nx + 1) * (self.ny + 1) <= usize::MAX
    }

    /// Number of cells of a field array.
    pub open spec fn cells(self) -> nat {
        (self.nx * self.ny) as nat
    }

    /// Number of corner nodes of a material array.
    pub open spec fn nodes(self) -> nat {
        ((self.nx + 1) * (self.ny + 1)) as nat
    }

    /// All cells but the outermost ring: where the interior updates run.
    pub open spec fn inner(self) -> Rect {
        Rect { x0: 1, x1: (self.nx - 1) as usize, y0: 1, y1: (self.ny - 1) as usize }
    }

    pub open spec fn full(self) -> Rect {
        Rect { x0: 0, x1: self.nx, y0: 0, y1: self.ny }
    }

    /// Cells outside the `(nx - 2 lpml)` by `(ny - 2 lpml)` interior.
    pub open spec fn in_guard(self, x: int, y: int) -> bool {
        x < self.lpml || x >= self.nx - self.lpml || y < self.lpml || y >= self.ny - self.lpml
    }

    /// The four absorbing slabs: left and right span the full height, top and
    /// bottom only the width between them.
    pub open spec fn slab_spec(self, k: int) -> Rect {
        let (nx, ny, l) = (self.nx, self.ny, self.lpml);
        if k == 0 {
            Rect { x0: 0, x1: l, y0: 0, y1: ny }
        } else if k == 1 {
            Rect { x0: (nx - l) as usize, x1: nx, y0: 0, y1: ny }
        } else if k == 2 {
            Rect { x0: l, x1: (nx - l) as usize, y0: 0, y1: l }
        } else {
            Rect { x0: l, x1: (nx - l) as usize, y0: (ny - l) as usize, y1: ny }
        }
    }

    pub fn slab(&self, k: usize) -> (r: Rect)
        requires
            self.wf(),
            k < 4,
        ensures
            r == self.slab_spec(k as int),
    {
        let (nx, ny, l) = (self.nx, self.ny, self.lpml);
        if k == 0 {
            Rect { x0: 0, x1: l, y0: 0, y1: ny }
        } else if k == 1 {
            Rect { x0: nx - l, x1: nx, y0: 0, y1: ny }
        } else if k == 2 {
            Rect { x0: l, x1: nx - l, y0: 0, y1: l }
        } else {
            Rect { x0: l, x1: nx - l, y0: ny - l, y1: ny }
        }
    }
}

/// A well-formed grid's field arrays fit in memory too.
pub proof fn lemma_dims_sizes(d: Dims)
    requires
        d.wf(),
    ensures
        d.nx * d.ny <= d.nodes() <= usize::MAX,
        d.cells() == d.nx * d.ny,
        d.nodes() == (d.nx + 1) * (d.ny + 1),
        d.nx + 1 <= usize::MAX,
        d.ny + 1 <= usize::MAX,
{
    assert(d.nx * d.ny <= (d.nx + 1) * (d.ny + 1)) by (nonlinear_arith)
        requires d.nx >= 0, d.ny >= 0;
    assert(d.nx + 1 <= (d.nx + 1) * (d.ny + 1)) by (nonlinear_arith)
        requires d.nx >= 0, d.ny >= 0;
    assert(d.ny + 1 <= (d.nx + 1) * (d.ny + 1)) by (nonlinear_arith)
        requires d.nx >= 0, d.ny >= 0;
}

/// Every guard cell lies in exactly one slab, and no interior cell lies in any.
pub proof fn lemma_slabs_partition_guard(d: Dims, x: int, y: int)
    requires
        d.wf(),
        0 <= x < d.nx,
        0 <= y < d.ny,
    ensures
        d.in_guard(x, y) <==> exists|k: int| 0 <= k < 4 && #[trigger] d.slab_spec(k).contains(x, y),
        forall|k1: int, k2: int|
            0 <= k1 < 4 && 0 <= k2 < 4 && #[trigger] d.slab_spec(k1).contains(x, y)
                && #[trigger] d.slab_spec(k2).contains(x, y) ==> k1 == k2,
{
    if d.in_guard(x, y) {
        if x < d.lpml {
            assert(d.slab_spec(0).contains(x, y));
        } else if x >= d.nx - d.lpml {
            assert(d.slab_spec(1).contains(x, y));
        } else if y < d.lpml {
            assert(d.slab_spec(2).contains(x, y));
        } else {
            assert(d.slab_spec(3).contains(x, y));
        }
    }
}

/// Depth into the absorbing layer of position `pos` on an axis of `n` cells
/// with layers of `l` cells at both ends, in half cells, for the electric
/// sample and for the magnetic sample (staggered by half a cell towards the
/// interior); `None` outside the layers.
pub open spec fn depth_spec(pos: int, n: int, l: int) -> Option<(int, int)> {
    if pos < l {
        Some((2 * (l - pos), 2 * (l - pos) - 1))
    } else if pos >= n - l {
        Some((2 * (pos - (n - l)), 2 * (pos - (n - l)) + 1))
    } else {
        None
    }
}

/// Computes `depth_spec(pos, n, l)`.
pub fn depth(pos: usize, n: usize, l: usize) -> (r: Option<(usize, usize)>)
    requires
        l >= 1,
        n > 2 * l,
        pos < n,
    ensures
        r matches Some((e, m)) ==> depth_spec(pos as int, n as int, l as int) == Some((e as int, m as int)),
        r is None <==> depth_spec(pos as int, n as int, l as int) is None,
        r matches Some((e, m)) ==> e <= 2 * l && 1 <= m < 2 * l,
{
    if pos < l {
        Some((2 * (l - pos), 2 * (l - pos) - 1))
    } else if pos >= n - l {
        Some((2 * (pos - (n - l)), 2 * (pos - (n - l)) + 1))
    } else {
        None
    }
}

} // verus!
