use vstd::prelude::*;
use crate::grid::{idx, lemma_idx_bounds, lemma_idx_injective, Rect};
use crate::scalar::Real;

verus! {

/// A first-order finite difference between a cell and one neighbour.
#[derive(Clone, Copy, Debug, PartialEq, Eq, Structural)]
pub enum Diff {
    /// `s(x, y) - s(x - 1, y)`
    BackX,
    /// `s(x, y) - s(x, y - 1)`
    BackY,
    /// `s(x + 1, y) - s(x, y)`
    FwdX,
    /// `s(x, y + 1) - s(x, y)`
    FwdY,
}

/// Every cell of `r` and every neighbour that `d` reads from it lie in the grid.
pub open spec fn reads_ok(d: Diff, r: Rect, nx: int, ny: int) -> bool {
    &&& r.within(nx, ny)
    &&& match d {
        Diff::BackX => r.x0 >= 1,
        Diff::BackY => r.y0 >= 1,
        Diff::FwdX => r.x1 < nx,
        Diff::FwdY => r.y1 < ny,
    }
}

/// The difference `d` of `s` at cell `(x, y)`.
pub open spec fn diff_at<T: Real>(s: Seq<T>, nx: int, d: Diff, x: int, y: int) -> T {
    match d {
        Diff::BackX => s[idx(nx, x, y)].spec_minus(s[idx(nx, x - 1, y)]),
        Diff::BackY => s[idx(nx, x, y)].spec_minus(s[idx(nx, x, y - 1)]),
        Diff::FwdX => s[idx(nx, x + 1, y)].spec_minus(s[idx(nx, x, y)]),
        Diff::FwdY => s[idx(nx, x, y + 1)].spec_minus(s[idx(nx, x, y)]),
    }
}

/// `v - t` when `negate`, else `v + t`.
pub open spec fn add_term<T: Real>(v: T, t: T, negate: bool) -> T {
    if negate {
        v.spec_minus(t)
    } else {
        v.spec_plus(t)
    }
}

/// One leapfrog update of a value `v`: `a * v ± b * g`.
pub open spec fn leap_at<T: Real>(a: T, v: T, b: T, g: T, negate: bool) -> T {
    add_term(a.spec_times(v), b.spec_times(g), negate)
}

/// A leapfrog update with two difference terms: `(a * v ± b1 * g1) ± b2 * g2`.
pub open spec fn leap2_at<T: Real>(a: T, v: T, b1: T, g1: T, n1: bool, b2: T, g2: T, n2: bool) -> T {
    add_term(leap_at(a, v, b1, g1, n1), b2.spec_times(g2), n2)
}

/// Cells of `r` strictly before `(cx, cy)` in row-major order.
pub open spec fn done(r: Rect, cx: int, cy: int, x: int, y: int) -> bool {
    r.contains(x, y) && (y < cy || (y == cy && x < cx))
}

/// Cells of the grid outside `r` are the same in `a` and `b`.
pub open spec fn same_outside<T>(a: Seq<T>, b: Seq<T>, nx: int, ny: int, r: Rect) -> bool {
    forall|x: int, y: int|
        0 <= x < nx && 0 <= y < ny && !r.contains(x, y) ==> #[trigger] a[idx(nx, x, y)] == b[idx(
            nx,
            x,
            y,
        )]
}

/// Writing cell `(cx, cy)` of `r` keeps the cells outside `r`.
proof fn lemma_write_keeps_outside<T>(
    s0: Seq<T>,
    s1: Seq<T>,
    nx: int,
    ny: int,
    r: Rect,
    cx: int,
    cy: int,
    v: T,
)
    requires
        s1.len() == nx * ny,
        same_outside(s0, s1, nx, ny, r),
        r.contains(cx, cy),
        r.within(nx, ny),
    ensures
        same_outside(s0, s1.update(idx(nx, cx, cy), v), nx, ny, r),
{
    lemma_idx_bounds(nx, ny, cx, cy);
    assert forall|x: int, y: int|
        0 <= x < nx && 0 <= y < ny && !r.contains(x, y) implies #[trigger] s0[idx(nx, x, y)]
        == s1.update(idx(nx, cx, cy), v)[idx(nx, x, y)] by {
        lemma_idx_bounds(nx, ny, x, y);
        if idx(nx, x, y) == idx(nx, cx, cy) {
            lemma_idx_injective(nx, x, y, cx, cy);
        }
    }
}

/// Reads the difference `d` of `s` at cell `(x, y)`.
fn difference<T: Real>(s: &Vec<T>, nx: usize, ny: usize, d: Diff, x: usize, y: usize) -> (r: T)
    requires
        s@.len() == nx * ny,
        nx * ny <= usize::MAX,
        x < nx,
        y < ny,
        match d {
            Diff::BackX => x >= 1,
            Diff::BackY => y >= 1,
            Diff::FwdX => x + 1 < nx,
            Diff::FwdY => y + 1 < ny,
        },
    ensures
        r == diff_at(s@, nx as int, d, x as int, y as int),
{
    proof {
        lemma_idx_bounds(nx as int, ny as int, x as int, y as int);
    }
    let i = y * nx + x;
    match d {
        Diff::BackX => {
            proof {
                lemma_idx_bounds(nx as int, ny as int, (x - 1) as int, y as int);
            }
            s[i].minus(s[i - 1])
        },
        Diff::BackY => {
            proof {
                lemma_idx_bounds(nx as int, ny as int, x as int, (y - 1) as int);
            }
            s[i].minus(s[i - nx])
        },
        Diff::FwdX => {
            proof {
                lemma_idx_bounds(nx as int, ny as int, (x + 1) as int, y as int);
            }
            s[i + 1].minus(s[i])
        },
        Diff::FwdY => {
            proof {
                lemma_idx_bounds(nx as int, ny as int, x as int, (y + 1) as int);
            }
            s[i + nx].minus(s[i])
        },
    }
}

/// Cells of `r` before `(cx, cy)` in row-major order hold `f`; the others
/// still hold their values in `d0`.
pub open spec fn progress<T>(s: Seq<T>, d0: Seq<T>, nx: int, r: Rect, cx: int, cy: int, f: spec_fn(int, int) -> T) -> bool {
    forall|x: int, y: int|
        #[trigger] r.contains(x, y) ==> s[idx(nx, x, y)] == if done(r, cx, cy, x, y) {
            f(x, y)
        } else {
            d0[idx(nx, x, y)]
        }
}

/// Writing `f` at `(cx, cy)` moves the sweep one cell on.
proof fn lemma_progress_write<T>(
    s: Seq<T>,
    d0: Seq<T>,
    nx: int,
    ny: int,
    r: Rect,
    cx: int,
    cy: int,
    f: spec_fn(int, int) -> T,
)
    requires
        s.len() == nx * ny,
        r.within(nx, ny),
        r.contains(cx, cy),
        progress(s, d0, nx, r, cx, cy, f),
    ensures
        progress(s.update(idx(nx, cx, cy), f(cx, cy)), d0, nx, r, cx + 1, cy, f),
{
    lemma_idx_bounds(nx, ny, cx, cy);
    assert forall|x: int, y: int| #[trigger] r.contains(x, y) implies s.update(idx(nx, cx, cy), f(cx, cy))[idx(nx, x, y)]
        == if done(r, cx + 1, cy, x, y) {
        f(x, y)
    } else {
        d0[idx(nx, x, y)]
    } by {
        lemma_idx_bounds(nx, ny, x, y);
        if idx(nx, x, y) == idx(nx, cx, cy) {
            lemma_idx_injective(nx, x, y, cx, cy);
        }
    }
}

/// Ending a row is starting the next one.
proof fn lemma_progress_row<T>(s: Seq<T>, d0: Seq<T>, nx: int, r: Rect, cy: int, f: spec_fn(int, int) -> T)
    requires
        progress(s, d0, nx, r, r.x1 as int, cy, f),
    ensures
        progress(s, d0, nx, r, r.x0 as int, cy + 1, f),
{
    assert forall|x: int, y: int| #[trigger] r.contains(x, y) implies s[idx(nx, x, y)] == if done(r, r.x0 as int, cy + 1, x, y) {
        f(x, y)
    } else {
        d0[idx(nx, x, y)]
    } by {
        assert(done(r, r.x0 as int, cy + 1, x, y) == done(r, r.x1 as int, cy, x, y));
    }
}

/// One leapfrog sweep over `r`:
/// `dst := a * dst + b * diff(src)`, or `- b * diff(src)` when `negate`.
///
/// Only the cells of `r` change.
pub fn leap<T: Real>(
    dst: &mut Vec<T>,
    a: &Vec<T>,
    b: &Vec<T>,
    src: &Vec<T>,
    d: Diff,
    negate: bool,
    nx: usize,
    ny: usize,
    r: Rect,
)
    requires
        old(dst)@.len() == nx * ny,
        nx * ny <= usize::MAX,
        a@.len() == nx * ny,
        b@.len() == nx * ny,
        src@.len() == nx * ny,
        r.is_empty() || reads_ok(d, r, nx as int, ny as int),
    ensures
        final(dst)@.len() == old(dst)@.len(),
        same_outside(old(dst)@, final(dst)@, nx as int, ny as int, r),
        forall|x: int, y: int|
            #[trigger] r.contains(x, y) ==> final(dst)@[idx(nx as int, x, y)] == leap_at(
                a@[idx(nx as int, x, y)],
                old(dst)@[idx(nx as int, x, y)],
                b@[idx(nx as int, x, y)],
                diff_at(src@, nx as int, d, x, y),
                negate,
            ),
{
    let ghost d0 = dst@;
    let ghost f = |x: int, y: int|
        leap_at(a@[idx(nx as int, x, y)], d0[idx(nx as int, x, y)], b@[idx(nx as int, x, y)], diff_at(src@, nx as int, d, x, y), negate);
    if r.x1 <= r.x0 || r.y1 <= r.y0 {
        return;
    }
    let mut y: usize = r.y0;
    while y < r.y1
        invariant
            r.y0 <= y <= r.y1,
            r.x0 < r.x1,
            dst@.len() == nx * ny,
            nx * ny <= usize::MAX,
            a@.len() == nx * ny,
            b@.len() == nx * ny,
            src@.len() == nx * ny,
            reads_ok(d, r, nx as int, ny as int),
            same_outside(d0, dst@, nx as int, ny as int, r),
            forall|x: int, y: int| #[trigger] f(x, y) == leap_at(a@[idx(nx as int, x, y)], d0[idx(nx as int, x, y)], b@[idx(nx as int, x, y)], diff_at(src@, nx as int, d, x, y), negate),
            progress(dst@, d0, nx as int, r, r.x0 as int, y as int, f),
        decreases r.y1 - y,
    {
        let mut x: usize = r.x0;
        while x < r.x1
            invariant
                r.y0 <= y < r.y1,
                r.x0 <= x <= r.x1,
                dst@.len() == nx * ny,
                nx * ny <= usize::MAX,
                a@.len() == nx * ny,
                b@.len() == nx * ny,
                src@.len() == nx * ny,
                reads_ok(d, r, nx as int, ny as int),
                same_outside(d0, dst@, nx as int, ny as int, r),
                forall|x: int, y: int| #[trigger] f(x, y) == leap_at(a@[idx(nx as int, x, y)], d0[idx(nx as int, x, y)], b@[idx(nx as int, x, y)], diff_at(src@, nx as int, d, x, y), negate),
                progress(dst@, d0, nx as int, r, x as int, y as int, f),
            decreases r.x1 - x,
        {
            proof {
                lemma_idx_bounds(nx as int, ny as int, x as int, y as int);
                assert(r.contains(x as int, y as int));
                assert(!done(r, x as int, y as int, x as int, y as int));
                assert(dst@[idx(nx as int, x as int, y as int)] == d0[idx(nx as int, x as int, y as int)]);
            }
            let i = y * nx + x;
            assert(i as int == idx(nx as int, x as int, y as int));
            let g = difference(src, nx, ny, d, x, y);
            let decay = a[i].times(dst[i]);
            let curl = b[i].times(g);
            let v = if negate {
                decay.minus(curl)
            } else {
                decay.plus(curl)
            };
            proof {
                assert(v == f(x as int, y as int));
                lemma_write_keeps_outside(d0, dst@, nx as int, ny as int, r, x as int, y as int, v);
                lemma_progress_write(dst@, d0, nx as int, ny as int, r, x as int, y as int, f);
            }
            dst.set(i, v);
            x = x + 1;
        }
        proof {
            lemma_progress_row(dst@, d0, nx as int, r, y as int, f);
        }
        y = y + 1;
    }
    proof {
        assert forall|x: int, y: int| #[trigger] r.contains(x, y) implies dst@[idx(nx as int, x, y)] == f(x, y) by {
            assert(done(r, r.x0 as int, r.y1 as int, x, y));
        }
    }
}

/// Leapfrog sweep with two difference terms:
/// `dst := a * dst ± b1 * diff1(s1) ± b2 * diff2(s2)`, the sign of each term
/// being minus when its flag is set.
///
/// Only the cells of `r` change.
pub fn leap2<T: Real>(
    dst: &mut Vec<T>,
    a: &Vec<T>,
    b1: &Vec<T>,
    s1: &Vec<T>,
    d1: Diff,
    neg1: bool,
    b2: &Vec<T>,
    s2: &Vec<T>,
    d2: Diff,
    neg2: bool,
    nx: usize,
    ny: usize,
    r: Rect,
)
    requires
        old(dst)@.len() == nx * ny,
        nx * ny <= usize::MAX,
        a@.len() == nx * ny,
        b1@.len() == nx * ny,
        s1@.len() == nx * ny,
        b2@.len() == nx * ny,
        s2@.len() == nx * ny,
        r.is_empty() || (reads_ok(d1, r, nx as int, ny as int) && reads_ok(
            d2,
            r,
            nx as int,
            ny as int,
        )),
    ensures
        final(dst)@.len() == old(dst)@.len(),
        same_outside(old(dst)@, final(dst)@, nx as int, ny as int, r),
        forall|x: int, y: int|
            #[trigger] r.contains(x, y) ==> final(dst)@[idx(nx as int, x, y)] == leap2_at(
                a@[idx(nx as int, x, y)],
                old(dst)@[idx(nx as int, x, y)],
                b1@[idx(nx as int, x, y)],
                diff_at(s1@, nx as int, d1, x, y),
                neg1,
                b2@[idx(nx as int, x, y)],
                diff_at(s2@, nx as int, d2, x, y),
                neg2,
            ),
{
    let ghost d0 = dst@;
    let ghost f = |x: int, y: int|
        leap2_at(
            a@[idx(nx as int, x, y)],
            d0[idx(nx as int, x, y)],
            b1@[idx(nx as int, x, y)],
            diff_at(s1@, nx as int, d1, x, y),
            neg1,
            b2@[idx(nx as int, x, y)],
            diff_at(s2@, nx as int, d2, x, y),
            neg2,
        );
    if r.x1 <= r.x0 || r.y1 <= r.y0 {
        return;
    }
    let mut y: usize = r.y0;
    while y < r.y1
        invariant
            r.y0 <= y <= r.y1,
            r.x0 < r.x1,
            dst@.len() == nx * ny,
            nx * ny <= usize::MAX,
            a@.len() == nx * ny,
            b1@.len() == nx * ny,
            s1@.len() == nx * ny,
            b2@.len() == nx * ny,
            s2@.len() == nx * ny,
            reads_ok(d1, r, nx as int, ny as int),
            reads_ok(d2, r, nx as int, ny as int),
            same_outside(d0, dst@, nx as int, ny as int, r),
            forall|x: int, y: int| #[trigger] f(x, y) == leap2_at(
            a@[idx(nx as int, x, y)],
            d0[idx(nx as int, x, y)],
            b1@[idx(nx as int, x, y)],
            diff_at(s1@, nx as int, d1, x, y),
            neg1,
            b2@[idx(nx as int, x, y)],
            diff_at(s2@, nx as int, d2, x, y),
            neg2,
        ),
            progress(dst@, d0, nx as int, r, r.x0 as int, y as int, f),
        decreases r.y1 - y,
    {
        let mut x: usize = r.x0;
        while x < r.x1
            invariant
                r.y0 <= y < r.y1,
                r.x0 <= x <= r.x1,
                dst@.len() == nx * ny,
                nx * ny <= usize::MAX,
                a@.len() == nx * ny,
                b1@.len() == nx * ny,
                s1@.len() == nx * ny,
                b2@.len() == nx * ny,
                s2@.len() == nx * ny,
                reads_ok(d1, r, nx as int, ny as int),
                reads_ok(d2, r, nx as int, ny as int),
                same_outside(d0, dst@, nx as int, ny as int, r),
                forall|x: int, y: int| #[trigger] f(x, y) == leap2_at(
            a@[idx(nx as int, x, y)],
            d0[idx(nx as int, x, y)],
            b1@[idx(nx as int, x, y)],
            diff_at(s1@, nx as int, d1, x, y),
            neg1,
            b2@[idx(nx as int, x, y)],
            diff_at(s2@, nx as int, d2, x, y),
            neg2,
        ),
                progress(dst@, d0, nx as int, r, x as int, y as int, f),
            decreases r.x1 - x,
        {
            proof {
                lemma_idx_bounds(nx as int, ny as int, x as int, y as int);
                assert(r.contains(x as int, y as int));
                assert(!done(r, x as int, y as int, x as int, y as int));
                assert(dst@[idx(nx as int, x as int, y as int)] == d0[idx(nx as int, x as int, y as int)]);
            }
            let i = y * nx + x;
            assert(i as int == idx(nx as int, x as int, y as int));
            let g1 = difference(s1, nx, ny, d1, x, y);
            let g2 = difference(s2, nx, ny, d2, x, y);
            let mut v = a[i].times(dst[i]);
            let t1 = b1[i].times(g1);
            v = if neg1 {
                v.minus(t1)
            } else {
                v.plus(t1)
            };
            let t2 = b2[i].times(g2);
            v = if neg2 {
                v.minus(t2)
            } else {
                v.plus(t2)
            };
            proof {
                assert(v == f(x as int, y as int));
                lemma_write_keeps_outside(d0, dst@, nx as int, ny as int, r, x as int, y as int, v);
                lemma_progress_write(dst@, d0, nx as int, ny as int, r, x as int, y as int, f);
            }
            dst.set(i, v);
            x = x + 1;
        }
        proof {
            lemma_progress_row(dst@, d0, nx as int, r, y as int, f);
        }
        y = y + 1;
    }
    proof {
        assert forall|x: int, y: int| #[trigger] r.contains(x, y) implies dst@[idx(nx as int, x, y)] == f(x, y) by {
            assert(done(r, r.x0 as int, r.y1 as int, x, y));
        }
    }
}

/// Copies the cells of `r` from `src` into `dst`.
pub fn copy_into<T: Real>(dst: &mut Vec<T>, src: &Vec<T>, nx: usize, ny: usize, r: Rect)
    requires
        old(dst)@.len() == nx * ny,
        nx * ny <= usize::MAX,
        src@.len() == nx * ny,
        r.within(nx as int, ny as int),
    ensures
        final(dst)@.len() == old(dst)@.len(),
        same_outside(old(dst)@, final(dst)@, nx as int, ny as int, r),
        forall|x: int, y: int|
            #[trigger] r.contains(x, y) ==> final(dst)@[idx(nx as int, x, y)] == src@[idx(
                nx as int,
                x,
                y,
            )],
{
    if r.x1 <= r.x0 || r.y1 <= r.y0 {
        return;
    }
    let ghost d0 = dst@;
    let mut y: usize = r.y0;
    while y < r.y1
        invariant
            r.y0 <= y <= r.y1,
            r.x0 < r.x1,
            r.within(nx as int, ny as int),
            dst@.len() == nx * ny,
            nx * ny <= usize::MAX,
            src@.len() == nx * ny,
            same_outside(d0, dst@, nx as int, ny as int, r),
            forall|x2: int, y2: int|
                #[trigger] r.contains(x2, y2) && y2 < y ==> dst@[idx(nx as int, x2, y2)]
                    == src@[idx(nx as int, x2, y2)],
        decreases r.y1 - y,
    {
        let mut x: usize = r.x0;
        while x < r.x1
            invariant
                r.y0 <= y < r.y1,
                r.x0 <= x <= r.x1,
                r.within(nx as int, ny as int),
                dst@.len() == nx * ny,
                nx * ny <= usize::MAX,
                src@.len() == nx * ny,
                same_outside(d0, dst@, nx as int, ny as int, r),
                forall|x2: int, y2: int|
                    #[trigger] r.contains(x2, y2) && done(r, x as int, y as int, x2, y2)
                        ==> dst@[idx(nx as int, x2, y2)] == src@[idx(nx as int, x2, y2)],
            decreases r.x1 - x,
        {
            proof {
                lemma_idx_bounds(nx as int, ny as int, x as int, y as int);
            }
            let i = y * nx + x;
            let v = src[i];
            proof {
                lemma_write_keeps_outside(d0, dst@, nx as int, ny as int, r, x as int, y as int, v);
                lemma_write_keeps_done(dst@, src@, nx as int, ny as int, r, x as int, y as int);
            }
            dst.set(i, v);
            x = x + 1;
        }
        y = y + 1;
    }
}

/// Writing `src`'s value at `(cx, cy)` keeps the cells already copied.
proof fn lemma_write_keeps_done<T>(s: Seq<T>, src: Seq<T>, nx: int, ny: int, r: Rect, cx: int, cy: int)
    requires
        s.len() == nx * ny,
        src.len() == nx * ny,
        r.contains(cx, cy),
        r.within(nx, ny),
        forall|x2: int, y2: int|
            #[trigger] r.contains(x2, y2) && done(r, cx, cy, x2, y2) ==> s[idx(nx, x2, y2)]
                == src[idx(nx, x2, y2)],
    ensures
        forall|x2: int, y2: int|
            #[trigger] r.contains(x2, y2) && done(r, cx + 1, cy, x2, y2) ==> s.update(
                idx(nx, cx, cy),
                src[idx(nx, cx, cy)],
            )[idx(nx, x2, y2)] == src[idx(nx, x2, y2)],
{
    lemma_idx_bounds(nx, ny, cx, cy);
    assert forall|x2: int, y2: int|
        #[trigger] r.contains(x2, y2) && done(r, cx + 1, cy, x2, y2) implies s.update(
        idx(nx, cx, cy),
        src[idx(nx, cx, cy)],
    )[idx(nx, x2, y2)] == src[idx(nx, x2, y2)] by {
        lemma_idx_bounds(nx, ny, x2, y2);
        if idx(nx, x2, y2) == idx(nx, cx, cy) {
            lemma_idx_injective(nx, x2, y2, cx, cy);
        }
    }
}

/// Sets the cells of `r` to the sums of `s1` and `s2` there.
///
/// Only the cells of `r` change.
pub fn sum_into<T: Real>(dst: &mut Vec<T>, s1: &Vec<T>, s2: &Vec<T>, nx: usize, ny: usize, r: Rect)
    requires
        old(dst)@.len() == nx * ny,
        nx * ny <= usize::MAX,
        s1@.len() == nx * ny,
        s2@.len() == nx * ny,
        r.within(nx as int, ny as int),
    ensures
        final(dst)@.len() == old(dst)@.len(),
        same_outside(old(dst)@, final(dst)@, nx as int, ny as int, r),
        forall|x: int, y: int|
            #[trigger] r.contains(x, y) ==> final(dst)@[idx(nx as int, x, y)] == s1@[idx(
                nx as int,
                x,
                y,
            )].spec_plus(s2@[idx(nx as int, x, y)]),
{
    let ghost d0 = dst@;
    let ghost f = |x: int, y: int| s1@[idx(nx as int, x, y)].spec_plus(s2@[idx(nx as int, x, y)]);
    if r.x1 <= r.x0 || r.y1 <= r.y0 {
        return;
    }
    let mut y: usize = r.y0;
    while y < r.y1
        invariant
            r.y0 <= y <= r.y1,
            r.x0 < r.x1,
            r.within(nx as int, ny as int),
            dst@.len() == nx * ny,
            nx * ny <= usize::MAX,
            s1@.len() == nx * ny,
            s2@.len() == nx * ny,
            same_outside(d0, dst@, nx as int, ny as int, r),
            forall|x: int, y: int| #[trigger] f(x, y) == s1@[idx(nx as int, x, y)].spec_plus(s2@[idx(nx as int, x, y)]),
            progress(dst@, d0, nx as int, r, r.x0 as int, y as int, f),
        decreases r.y1 - y,
    {
        let mut x: usize = r.x0;
        while x < r.x1
            invariant
                r.y0 <= y < r.y1,
                r.x0 <= x <= r.x1,
                r.within(nx as int, ny as int),
                dst@.len() == nx * ny,
                nx * ny <= usize::MAX,
                s1@.len() == nx * ny,
                s2@.len() == nx * ny,
                same_outside(d0, dst@, nx as int, ny as int, r),
                forall|x: int, y: int| #[trigger] f(x, y) == s1@[idx(nx as int, x, y)].spec_plus(s2@[idx(nx as int, x, y)]),
                progress(dst@, d0, nx as int, r, x as int, y as int, f),
            decreases r.x1 - x,
        {
            proof {
                lemma_idx_bounds(nx as int, ny as int, x as int, y as int);
                assert(r.contains(x as int, y as int));
                assert(!done(r, x as int, y as int, x as int, y as int));
                assert(dst@[idx(nx as int, x as int, y as int)] == d0[idx(nx as int, x as int, y as int)]);
            }
            let i = y * nx + x;
            assert(i as int == idx(nx as int, x as int, y as int));
            let v = s1[i].plus(s2[i]);
            proof {
                assert(v == f(x as int, y as int));
                lemma_write_keeps_outside(d0, dst@, nx as int, ny as int, r, x as int, y as int, v);
                lemma_progress_write(dst@, d0, nx as int, ny as int, r, x as int, y as int, f);
            }
            dst.set(i, v);
            x = x + 1;
        }
        proof {
            lemma_progress_row(dst@, d0, nx as int, r, y as int, f);
        }
        y = y + 1;
    }
    proof {
        assert forall|x: int, y: int| #[trigger] r.contains(x, y) implies dst@[idx(nx as int, x, y)] == f(x, y) by {
            assert(done(r, r.x0 as int, r.y1 as int, x, y));
        }
    }
}

/// Sets every cell of `r` to `v`.
pub fn fill_rect<T: Real>(dst: &mut Vec<T>, v: T, nx: usize, ny: usize, r: Rect)
    requires
        old(dst)@.len() == nx * ny,
        nx * ny <= usize::MAX,
        r.within(nx as int, ny as int),
    ensures
        final(dst)@.len() == old(dst)@.len(),
        same_outside(old(dst)@, final(dst)@, nx as int, ny as int, r),
        forall|x: int, y: int| #[trigger] r.contains(x, y) ==> final(dst)@[idx(nx as int, x, y)] == v,
{
    if r.x1 <= r.x0 || r.y1 <= r.y0 {
        return;
    }
    let ghost d0 = dst@;
    let mut y: usize = r.y0;
    while y < r.y1
        invariant
            r.y0 <= y <= r.y1,
            r.x0 < r.x1,
            r.within(nx as int, ny as int),
            dst@.len() == nx * ny,
            nx * ny <= usize::MAX,
            same_outside(d0, dst@, nx as int, ny as int, r),
            forall|x2: int, y2: int|
                #[trigger] r.contains(x2, y2) && y2 < y ==> dst@[idx(nx as int, x2, y2)] == v,
        decreases r.y1 - y,
    {
        let mut x: usize = r.x0;
        while x < r.x1
            invariant
                r.y0 <= y < r.y1,
                r.x0 <= x <= r.x1,
                r.within(nx as int, ny as int),
                dst@.len() == nx * ny,
                nx * ny <= usize::MAX,
                same_outside(d0, dst@, nx as int, ny as int, r),
                forall|x2: int, y2: int|
                    #[trigger] r.contains(x2, y2) && done(r, x as int, y as int, x2, y2)
                        ==> dst@[idx(nx as int, x2, y2)] == v,
            decreases r.x1 - x,
        {
            proof {
                lemma_idx_bounds(nx as int, ny as int, x as int, y as int);
                lemma_write_keeps_outside(d0, dst@, nx as int, ny as int, r, x as int, y as int, v);
                assert forall|x2: int, y2: int|
                    #[trigger] r.contains(x2, y2) && done(r, x + 1, y as int, x2, y2) implies
                    dst@.update(idx(nx as int, x as int, y as int), v)[idx(nx as int, x2, y2)] == v by {
                    lemma_idx_bounds(nx as int, ny as int, x2, y2);
                    if idx(nx as int, x2, y2) == idx(nx as int, x as int, y as int) {
                        lemma_idx_injective(nx as int, x2, y2, x as int, y as int);
                    }
                }
            }
            let i = y * nx + x;
            dst.set(i, v);
            x = x + 1;
        }
        y = y + 1;
    }
}

/// A vector of `n` copies of `v`.
pub fn filled<T: Real>(n: usize, v: T) -> (r: Vec<T>)
    ensures
        r@ == Seq::new(n as nat, |i: int| v),
{
    let mut r: Vec<T> = Vec::with_capacity(n);
    let mut k: usize = 0;
    while k < n
        invariant
            k <= n,
            r@ == Seq::new(k as nat, |i: int| v),
        decreases n - k,
    {
        r.push(v);
        k = k + 1;
        proof {
            assert(r@ =~= Seq::new(k as nat, |i: int| v));
        }
    }
    r
}

} // verus!

