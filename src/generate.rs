use rand::Rng;
use vstd::arithmetic::div_mod::lemma_fundamental_div_mod;
use vstd::prelude::*;

use crate::error::{Error, ErrorKind};
use crate::geometry::{dist2, lemma_dist2_symmetric, Vertex};

verus! {

/// A non-negative distance given exactly as the fraction `num / den`.
#[derive(Clone, Copy, Debug, PartialEq, Eq, Structural)]
pub struct Ratio {
    pub num: u32,
    pub den: u32,
}

/// Draws per requested point that generation makes before it gives up.
pub const ATTEMPTS_PER_POINT: u64 = 10000;

/// The points `p` and `q` are at least `d` apart.
pub open spec fn separated(p: Vertex, q: Vertex, d: Ratio) -> bool {
    dist2(p, q) * (d.den * d.den) >= d.num * d.num
}

/// The least integer not below `d`.
pub open spec fn ceil_ratio(d: Ratio) -> int {
    (d.num + d.den - 1) / d.den as int
}

/// The parameters that generation accepts: a positive count, a minimum
/// distance above one, a proper rectangle, and sides longer than
/// `n * ceil(min_d) / 20`.
pub open spec fn valid_parameters(
    n: i32,
    min_d: Ratio,
    min_x: i32,
    min_y: i32,
    max_x: i32,
    max_y: i32,
) -> bool {
    &&& n > 0
    &&& min_d.den > 0
    &&& min_d.num > min_d.den
    &&& min_x < max_x
    &&& min_y < max_y
    &&& max_x - min_x > (n * ceil_ratio(min_d)) / 20
    &&& max_y - min_y > (n * ceil_ratio(min_d)) / 20
}

/// The point lies in the closed rectangle.
pub open spec fn in_rect(p: Vertex, min_x: i32, min_y: i32, max_x: i32, max_y: i32) -> bool {
    min_x <= p.x <= max_x && min_y <= p.y <= max_y
}

/// Every two points of `pts` are at least `d` apart.
pub open spec fn well_spread(pts: Seq<Vertex>, d: Ratio) -> bool {
    forall|i: int, j: int| 0 <= i < j < pts.len() ==> #[trigger] separated(pts[i], pts[j], d)
}

/// An integer `x` is at least the ceiling of `nn / dd` exactly when `x * dd`
/// is at least `nn`.
proof fn lemma_ceil_div(x: int, nn: int, dd: int)
    requires
        x >= 0,
        nn >= 0,
        dd > 0,
    ensures
        x >= (nn + dd - 1) / dd <==> x * dd >= nn,
{
    let q = (nn + dd - 1) / dd;
    let r = (nn + dd - 1) % dd;
    lemma_fundamental_div_mod(nn + dd - 1, dd);
    assert(nn + dd - 1 == q * dd + r && 0 <= r < dd) by (nonlinear_arith)
        requires
            nn + dd - 1 == dd * q + r,
            0 <= r < dd,
    ;
    if x >= q {
        assert(x * dd >= q * dd) by (nonlinear_arith)
            requires
                x >= q,
                dd > 0,
        ;
    } else {
        assert(x * dd <= q * dd - dd) by (nonlinear_arith)
            requires
                x <= q - 1,
                dd > 0,
        ;
    }
}

/// Relies on rand's `thread_rng` and `Rng::gen_range` over an inclusive
/// range: a number between `low` and `high`, both included. `gen_range`
/// panics on an empty range, which `requires` rules out; `thread_rng`
/// panics only when the operating system cannot seed it, which no
/// argument decides.
#[verifier::external_body]
fn random_between(low: i32, high: i32) -> (r: i32)
    requires
        low <= high,
    ensures
        low <= r <= high,
{
    rand::thread_rng().gen_range(low..=high)
}

/// The least squared distance from `v` to a point of `points`, or `None`
/// when there is no point.
fn minimum_distance_squared(v: &Vertex, points: &Vec<Vertex>) -> (r: Option<u128>)
    ensures
        points.len() == 0 <==> r.is_none(),
        r matches Some(m) ==> (exists|k: int|
            0 <= k < points.len() && m == dist2(#[trigger] points[k], *v)),
        r matches Some(m) ==> forall|k: int|
            0 <= k < points.len() ==> m <= dist2(#[trigger] points[k], *v),
{
    let mut min_d: Option<u128> = None;
    let mut k: usize = 0;
    while k < points.len()
        invariant
            k <= points.len(),
            k == 0 <==> min_d.is_none(),
            min_d matches Some(m) ==> (exists|j: int|
                0 <= j < k && m == dist2(#[trigger] points[j], *v)),
            min_d matches Some(m) ==> forall|j: int| 0 <= j < k ==> m <= dist2(#[trigger] points[j], *v),
        decreases points.len() - k,
    {
        let d = points[k].distance_squared(v);
        match min_d {
            None => {
                min_d = Some(d);
            },
            Some(m) => {
                if d < m {
                    min_d = Some(d);
                }
            },
        }
        k += 1;
    }
    min_d
}

/// Whether `v` is at least `min_d` away from every point of `points`.
pub fn far_enough(v: &Vertex, points: &Vec<Vertex>, min_d: Ratio) -> (r: bool)
    requires
        min_d.den > 0,
    ensures
        r == forall|k: int| 0 <= k < points.len() ==> separated(#[trigger] points[k], *v, min_d),
{
    let num = min_d.num as u128;
    let den = min_d.den as u128;
    assert(num * num < 0x1_0000_0000_0000_0000 && 0 < den * den < 0x1_0000_0000_0000_0000)
        by (nonlinear_arith)
        requires
            0 < den < 0x1_0000_0000,
            num < 0x1_0000_0000,
    ;
    let nn = num * num;
    let dd = den * den;
    // The least squared distance that is far enough.
    let threshold = (nn + dd - 1) / dd;
    match minimum_distance_squared(v, points) {
        None => true,
        Some(m) => {
            proof {
                lemma_ceil_div(m as int, nn as int, dd as int);
                assert forall|k: int| 0 <= k < points.len() implies (#[trigger] separated(
                    points[k],
                    *v,
                    min_d,
                ) <==> dist2(points[k], *v) >= threshold) by {
                    assert(dist2(points[k], *v) >= 0);
                    lemma_ceil_div(dist2(points[k], *v), nn as int, dd as int);
                }
            }
            m >= threshold
        },
    }
}

/// Checks the generation parameters: `Ok` exactly when they are valid.
pub fn check_parameters(
    n: i32,
    min_d: Ratio,
    min_x: i32,
    min_y: i32,
    max_x: i32,
    max_y: i32,
) -> (r: Result<(), Error>)
    ensures
        r.is_ok() <==> valid_parameters(n, min_d, min_x, min_y, max_x, max_y),
        r matches Err(e) ==> e.kind == ErrorKind::InvalidParameters,
{
    if n <= 0 || min_d.den == 0 || min_d.num <= min_d.den || min_x >= max_x || min_y >= max_y {
        return Err(Error::new(ErrorKind::InvalidParameters));
    }
    let ceil = (min_d.num as u64 + min_d.den as u64 - 1) / (min_d.den as u64);
    assert(ceil < 0x1_0000_0000) by (nonlinear_arith)
        requires
            ceil == (min_d.num + min_d.den - 1) / (min_d.den as int),
            min_d.den >= 1,
            min_d.num < 0x1_0000_0000,
            min_d.den < 0x1_0000_0000,
    ;
    assert((n as u64) * ceil < 0x8000_0000_0000_0000) by (nonlinear_arith)
        requires
            0 < n < 0x8000_0000,
            ceil < 0x1_0000_0000,
    ;
    let room = ((n as u64) * ceil / 20) as i64;
    let width = max_x as i64 - min_x as i64;
    let height = max_y as i64 - min_y as i64;
    if width > room && height > room {
        Ok(())
    } else {
        Err(Error::new(ErrorKind::InvalidParameters))
    }
}

/// Draws `n` points with integer coordinates in the closed rectangle
/// `[min_x, max_x] x [min_y, max_y]`, every two of them at least `min_d`
/// apart, by rejection sampling: a drawn point is kept when it is far
/// enough from all the points kept before it.
///
/// Invalid parameters give `InvalidParameters`. Generation gives up with
/// `GenerationExhausted` after `n * ATTEMPTS_PER_POINT` draws. A single
/// point is always found: the first draw is kept.
pub fn generate(
    n: i32,
    min_d: Ratio,
    min_x: i32,
    min_y: i32,
    max_x: i32,
    max_y: i32,
) -> (r: Result<Vec<Vertex>, Error>)
    ensures
        r matches Err(e) ==> (e.kind == ErrorKind::InvalidParameters <==> !valid_parameters(
            n,
            min_d,
            min_x,
            min_y,
            max_x,
            max_y,
        )),
        r matches Err(e) ==> e.kind == ErrorKind::InvalidParameters || e.kind
            == ErrorKind::GenerationExhausted,
        valid_parameters(n, min_d, min_x, min_y, max_x, max_y) && n == 1 ==> r is Ok,
        r matches Ok(points) ==> valid_parameters(n, min_d, min_x, min_y, max_x, max_y)
            && points.len() == n && well_spread(points@, min_d) && forall|k: int|
            0 <= k < points.len() ==> in_rect(#[trigger] points[k], min_x, min_y, max_x, max_y),
{
    match check_parameters(n, min_d, min_x, min_y, max_x, max_y) {
        Err(e) => {
            return Err(e);
        },
        Ok(()) => {},
    }
    let target = n as usize;
    let limit = (n as u64) * ATTEMPTS_PER_POINT;
    let mut points: Vec<Vertex> = Vec::new();
    let mut attempts: u64 = 0;
    while points.len() < target
        invariant
            valid_parameters(n, min_d, min_x, min_y, max_x, max_y),
            target == n,
            attempts <= limit,
            limit == n * ATTEMPTS_PER_POINT,
            points.len() <= target,
            points.len() == 0 ==> attempts == 0,
            well_spread(points@, min_d),
            forall|k: int| 0 <= k < points.len() ==> in_rect(#[trigger] points[k], min_x, min_y, max_x, max_y),
        decreases limit - attempts,
    {
        if attempts >= limit {
            return Err(Error::new(ErrorKind::GenerationExhausted));
        }
        attempts += 1;
        let x = random_between(min_x, max_x);
        let y = random_between(min_y, max_y);
        let v = Vertex::new(x, y);
        if far_enough(&v, &points, min_d) {
            let ghost before = points@;
            points.push(v);
            proof {
                assert forall|i: int, j: int| 0 <= i < j < points.len() implies #[trigger] separated(
                    points[i],
                    points[j],
                    min_d,
                ) by {
                    if j < before.len() {
                        assert(separated(before[i], before[j], min_d));
                    } else {
                        assert(separated(before[i], v, min_d));
                    }
                }
            }
        }
    }
    Ok(points)
}

} // verus!
