use vstd::prelude::*;

use crate::geometry::Edge;

verus! {

/// The least x coordinate over the endpoints of `edges`.
pub open spec fn lowest_x(edges: Seq<Edge>) -> int
    decreases edges.len(),
{
    if edges.len() == 0 {
        i32::MAX as int
    } else {
        let e = edges.last();
        let rest = lowest_x(edges.drop_last());
        let m = if e.u.x < e.v.x { e.u.x as int } else { e.v.x as int };
        if m < rest { m } else { rest }
    }
}

/// The greatest x coordinate over the endpoints of `edges`.
pub open spec fn highest_x(edges: Seq<Edge>) -> int
    decreases edges.len(),
{
    if edges.len() == 0 {
        i32::MIN as int
    } else {
        let e = edges.last();
        let rest = highest_x(edges.drop_last());
        let m = if e.u.x > e.v.x { e.u.x as int } else { e.v.x as int };
        if m > rest { m } else { rest }
    }
}

/// The least y coordinate over the endpoints of `edges`.
pub open spec fn lowest_y(edges: Seq<Edge>) -> int
    decreases edges.len(),
{
    if edges.len() == 0 {
        i32::MAX as int
    } else {
        let e = edges.last();
        let rest = lowest_y(edges.drop_last());
        let m = if e.u.y < e.v.y { e.u.y as int } else { e.v.y as int };
        if m < rest { m } else { rest }
    }
}

/// The greatest y coordinate over the endpoints of `edges`.
pub open spec fn highest_y(edges: Seq<Edge>) -> int
    decreases edges.len(),
{
    if edges.len() == 0 {
        i32::MIN as int
    } else {
        let e = edges.last();
        let rest = highest_y(edges.drop_last());
        let m = if e.u.y > e.v.y { e.u.y as int } else { e.v.y as int };
        if m > rest { m } else { rest }
    }
}

/// Half of `s`, rounded toward zero as integer division does.
pub open spec fn half(s: int) -> int {
    if s >= 0 {
        s / 2
    } else {
        -((-s) / 2)
    }
}

/// The square that holds every endpoint of `edges` with `margin` to spare
/// on each side, centred on them: `(width, height, x0, y0)`, with `(x0, y0)`
/// its lower left corner.
pub open spec fn plot_area(edges: Seq<Edge>, margin: int) -> (int, int, int, int) {
    let w = highest_x(edges) - lowest_x(edges) + 2 * margin;
    let h = highest_y(edges) - lowest_y(edges) + 2 * margin;
    let d = if w >= h { w } else { h };
    (
        d,
        d,
        half(lowest_x(edges) + highest_x(edges)) - half(d),
        half(lowest_y(edges) + highest_y(edges)) - half(d),
    )
}

/// The value fits in an `i32`.
pub open spec fn fits_i32(v: int) -> bool {
    i32::MIN <= v <= i32::MAX
}

/// Rounds half of `s` toward zero.
fn half_of(s: i64) -> (r: i64)
    requires
        s > i64::MIN,
    ensures
        r == half(s as int),
{
    if s >= 0 {
        ((s as u64) / 2) as i64
    } else {
        -((((-s) as u64) / 2) as i64)
    }
}

/// The square area to draw `edges` in: see `plot_area`. `None` when there
/// is no edge, or when the area does not fit in `i32` values.
pub fn plot_dimensions(edges: &Vec<Edge>, margin: i32) -> (r: Option<(i32, i32, i32, i32)>)
    ensures
        r is None <==> edges.len() == 0 || !fits_i32(plot_area(edges@, margin as int).0)
            || !fits_i32(plot_area(edges@, margin as int).2) || !fits_i32(
            plot_area(edges@, margin as int).3,
        ),
        r matches Some(t) ==> t.0 as int == plot_area(edges@, margin as int).0 && t.1 as int
            == plot_area(edges@, margin as int).1 && t.2 as int == plot_area(
            edges@,
            margin as int,
        ).2 && t.3 as int == plot_area(edges@, margin as int).3,
{
    let mut min_x = i32::MAX;
    let mut max_x = i32::MIN;
    let mut min_y = i32::MAX;
    let mut max_y = i32::MIN;
    let mut k: usize = 0;
    while k < edges.len()
        invariant
            k <= edges.len(),
            min_x as int == lowest_x(edges@.subrange(0, k as int)),
            max_x as int == highest_x(edges@.subrange(0, k as int)),
            min_y as int == lowest_y(edges@.subrange(0, k as int)),
            max_y as int == highest_y(edges@.subrange(0, k as int)),
        decreases edges.len() - k,
    {
        let e = edges[k];
        proof {
            assert(edges@.subrange(0, k as int + 1).drop_last() =~= edges@.subrange(0, k as int));
        }
        if e.u.x < min_x {
            min_x = e.u.x;
        }
        if e.u.y < min_y {
            min_y = e.u.y;
        }
        if e.u.x > max_x {
            max_x = e.u.x;
        }
        if e.u.y > max_y {
            max_y = e.u.y;
        }
        if e.v.x < min_x {
            min_x = e.v.x;
        }
        if e.v.y < min_y {
            min_y = e.v.y;
        }
        if e.v.x > max_x {
            max_x = e.v.x;
        }
        if e.v.y > max_y {
            max_y = e.v.y;
        }
        k += 1;
    }
    proof {
        assert(edges@.subrange(0, edges.len() as int) =~= edges@);
    }
    if edges.len() == 0 {
        return None;
    }
    let w = max_x as i64 - min_x as i64 + 2 * (margin as i64);
    let h = max_y as i64 - min_y as i64 + 2 * (margin as i64);
    let d = if w >= h { w } else { h };
    let x0 = half_of(min_x as i64 + max_x as i64) - half_of(d);
    let y0 = half_of(min_y as i64 + max_y as i64) - half_of(d);
    if d < i32::MIN as i64 || d > i32::MAX as i64 || x0 < i32::MIN as i64 || x0 > i32::MAX as i64
        || y0 < i32::MIN as i64 || y0 > i32::MAX as i64 {
        return None;
    }
    Some((d as i32, d as i32, x0 as i32, y0 as i32))
}

} // verus!
