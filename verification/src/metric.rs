//! Distances between colours and between positions, and the sums from
//! which the centre of a superpixel is taken.
use crate::{LAB_SCALE, Lab, Superpixel};
use vstd::arithmetic::div_mod::lemma_fundamental_div_mod_converse;
use vstd::prelude::*;

verus! {

/// Squared Euclidean distance of two colours.
pub open spec fn distance_lab_spec(lhs: Lab, rhs: Lab) -> int {
    (rhs.l - lhs.l) * (rhs.l - lhs.l) + (rhs.a - lhs.a) * (rhs.a - lhs.a) + (rhs.b - lhs.b) * (
    rhs.b - lhs.b)
}

/// Calculate the distance between two `Lab` colours: the sum of the
/// squared differences of the three channels.
pub fn distance_lab(lhs: Lab, rhs: Lab) -> (d: u64)
    ensures
        d == distance_lab_spec(lhs, rhs),
{
    let dl: i64 = rhs.l as i64 - lhs.l as i64;
    let da: i64 = rhs.a as i64 - lhs.a as i64;
    let db: i64 = rhs.b as i64 - lhs.b as i64;
    assert(0 <= dl * dl <= 65535 * 65535) by (nonlinear_arith)
        requires
            -65535 <= dl <= 65535,
    ;
    assert(0 <= da * da <= 65535 * 65535) by (nonlinear_arith)
        requires
            -65535 <= da <= 65535,
    ;
    assert(0 <= db * db <= 65535 * 65535) by (nonlinear_arith)
        requires
            -65535 <= db <= 65535,
    ;
    (dl * dl + da * da + db * db) as u64
}

/// The distance of two colours is at most three times the square of
/// the widest difference that a channel can show.
pub proof fn lemma_distance_lab_bound(lhs: Lab, rhs: Lab)
    ensures
        0 <= distance_lab_spec(lhs, rhs) <= 3 * 65535 * 65535,
{
    let dl = rhs.l - lhs.l;
    let da = rhs.a - lhs.a;
    let db = rhs.b - lhs.b;
    assert(0 <= dl * dl <= 65535 * 65535) by (nonlinear_arith)
        requires
            -65535 <= dl <= 65535,
    ;
    assert(0 <= da * da <= 65535 * 65535) by (nonlinear_arith)
        requires
            -65535 <= da <= 65535,
    ;
    assert(0 <= db * db <= 65535 * 65535) by (nonlinear_arith)
        requires
            -65535 <= db <= 65535,
    ;
}

/// Squared Euclidean distance of two points.
pub open spec fn distance_xy_spec(lhs: (int, int), rhs: (int, int)) -> int {
    (rhs.0 - lhs.0) * (rhs.0 - lhs.0) + (rhs.1 - lhs.1) * (rhs.1 - lhs.1)
}

/// Calculate the distance between two two-dimensional points: the sum
/// of the squared differences of the coordinates.
pub fn distance_xy(lhs: (u32, u32), rhs: (u32, u32)) -> (d: u128)
    ensures
        d == distance_xy_spec((lhs.0 as int, lhs.1 as int), (rhs.0 as int, rhs.1 as int)),
        d <= 0x1_ffff_fffc_0000_0002,
{
    let dx: i128 = rhs.0 as i128 - lhs.0 as i128;
    let dy: i128 = rhs.1 as i128 - lhs.1 as i128;
    assert(0 <= dx * dx <= 0xffff_ffff * 0xffff_ffff) by (nonlinear_arith)
        requires
            -0xffff_ffff <= dx <= 0xffff_ffff,
    ;
    assert(0 <= dy * dy <= 0xffff_ffff * 0xffff_ffff) by (nonlinear_arith)
        requires
            -0xffff_ffff <= dy <= 0xffff_ffff,
    ;
    (dx * dx + dy * dy) as u128
}

/// The distance of a pixel from a superpixel centre that both
/// algorithms minimise: `d_lab + (m / s)^2 * d_xy`, multiplied by
/// `s^2` so that it is a whole number.  The compactness `m` counts
/// whole colour units, so it is first brought to the scale of `d_lab`.
pub open spec fn distance_s_spec(m: int, s: int, d_lab: int, d_xy: int) -> int {
    s * s * d_lab + (LAB_SCALE * m) * (LAB_SCALE * m) * d_xy
}

/// Calculate the `s` distance.
pub fn distance_s(m: u8, s: u32, d_lab: u64, d_xy: u128) -> (d: u128)
    requires
        d_xy <= 0x1_ffff_fffc_0000_0002,
    ensures
        d == distance_s_spec(m as int, s as int, d_lab as int, d_xy as int),
{
    assert(s * s <= 0xffff_ffff * 0xffff_ffff) by (nonlinear_arith)
        requires
            s <= 0xffff_ffff,
    ;
    let ss: u128 = (s as u128) * (s as u128);
    assert(LAB_SCALE * m <= 25500) by (nonlinear_arith)
        requires
            LAB_SCALE == 100,
            m <= 255,
    ;
    let scaled: u128 = LAB_SCALE as u128 * m as u128;
    assert(scaled * scaled <= 25500 * 25500) by (nonlinear_arith)
        requires
            scaled <= 25500,
    ;
    let mm: u128 = scaled * scaled;
    assert(ss * d_lab <= 0xffff_ffff * 0xffff_ffff * 0xffff_ffff_ffff_ffff) by (nonlinear_arith)
        requires
            ss <= 0xffff_ffff * 0xffff_ffff,
            d_lab <= 0xffff_ffff_ffff_ffff,
    ;
    assert(mm * d_xy <= 25500 * 25500 * 0x1_ffff_fffc_0000_0002) by (nonlinear_arith)
        requires
            mm <= 25500 * 25500,
            d_xy <= 0x1_ffff_fffc_0000_0002,
    ;
    ss * (d_lab as u128) + mm * d_xy
}

/// A higher compactness never turns the choice between two centres
/// against the one that is nearer in position: where that one is at
/// most as far as the other by `distance_s_spec` with the compactness
/// `m`, it is so with every higher compactness.
pub proof fn lemma_compactness_keeps_nearer(
    m: int,
    higher: int,
    s: int,
    d_lab: int,
    d_xy: int,
    other_lab: int,
    other_xy: int,
)
    requires
        0 <= m <= higher,
        d_xy <= other_xy,
        distance_s_spec(m, s, d_lab, d_xy) <= distance_s_spec(m, s, other_lab, other_xy),
    ensures
        distance_s_spec(higher, s, d_lab, d_xy) <= distance_s_spec(higher, s, other_lab, other_xy),
{
    let low = (LAB_SCALE * m) * (LAB_SCALE * m);
    let high = (LAB_SCALE * higher) * (LAB_SCALE * higher);
    assert(low <= high) by (nonlinear_arith)
        requires
            0 <= m <= higher,
            LAB_SCALE == 100,
            low == (LAB_SCALE * m) * (LAB_SCALE * m),
            high == (LAB_SCALE * higher) * (LAB_SCALE * higher),
    ;
    assert(high * d_xy - low * d_xy <= high * other_xy - low * other_xy) by (nonlinear_arith)
        requires
            low <= high,
            d_xy <= other_xy,
    ;
}

/// A lower compactness never turns the choice between two centres
/// against the one that is nearer in colour: where that one is at most
/// as far as the other by `distance_s_spec` with the compactness
/// `m`, it is so with every lower compactness.
pub proof fn lemma_compactness_keeps_alike(
    m: int,
    lower: int,
    s: int,
    d_lab: int,
    d_xy: int,
    other_lab: int,
    other_xy: int,
)
    requires
        0 <= lower <= m,
        d_lab <= other_lab,
        distance_s_spec(m, s, d_lab, d_xy) <= distance_s_spec(m, s, other_lab, other_xy),
    ensures
        distance_s_spec(lower, s, d_lab, d_xy) <= distance_s_spec(lower, s, other_lab, other_xy),
{
    let low = (LAB_SCALE * lower) * (LAB_SCALE * lower);
    let high = (LAB_SCALE * m) * (LAB_SCALE * m);
    assert(0 <= low <= high) by (nonlinear_arith)
        requires
            0 <= lower <= m,
            LAB_SCALE == 100,
            low == (LAB_SCALE * lower) * (LAB_SCALE * lower),
            high == (LAB_SCALE * m) * (LAB_SCALE * m),
    ;
    assert(s * s * d_lab <= s * s * other_lab) by (nonlinear_arith)
        requires
            d_lab <= other_lab,
    ;
    if d_xy <= other_xy {
        assert(low * d_xy <= low * other_xy) by (nonlinear_arith)
            requires
                0 <= low,
                d_xy <= other_xy,
        ;
    } else {
        assert(low * d_xy - low * other_xy <= high * d_xy - high * other_xy) by (nonlinear_arith)
            requires
                0 <= low <= high,
                other_xy < d_xy,
        ;
    }
}

/// The distance between the pixel at `(x, y)` with the colour `color`
/// and `center`.
pub open spec fn center_distance(
    center: Superpixel<Lab>,
    m: int,
    s: int,
    x: int,
    y: int,
    color: Lab,
) -> int {
    distance_s_spec(
        m,
        s,
        distance_lab_spec(color, center.data),
        distance_xy_spec((x, y), (center.x as int, center.y as int)),
    )
}

/// A distance to a centre is never negative.
pub proof fn lemma_center_distance_bound(
    center: Superpixel<Lab>,
    m: int,
    s: int,
    x: int,
    y: int,
    color: Lab,
)
    ensures
        0 <= center_distance(center, m, s, x, y, color),
{
    let d_lab = distance_lab_spec(color, center.data);
    let d_xy = distance_xy_spec((x, y), (center.x as int, center.y as int));
    lemma_distance_lab_bound(color, center.data);
    assert(0 <= d_xy) by (nonlinear_arith)
        requires
            d_xy == (center.x - x) * (center.x - x) + (center.y - y) * (center.y - y),
    ;
    assert(0 <= s * s * d_lab + (100 * m) * (100 * m) * d_xy) by (nonlinear_arith)
        requires
            0 <= d_lab,
            0 <= d_xy,
    ;
}

/// Sums of the colour channels of a set of pixels.
#[derive(Clone, Copy, Debug, PartialEq, Eq, Structural)]
pub struct LabSum {
    /// Sum of the lightness values.
    pub l: i128,
    /// Sum of the values on the green-red axis.
    pub a: i128,
    /// Sum of the values on the blue-yellow axis.
    pub b: i128,
}

impl Default for LabSum {
    fn default() -> (sum: LabSum)
        ensures
            sum.l == 0 && sum.a == 0 && sum.b == 0,
    {
        LabSum { l: 0, a: 0, b: 0 }
    }
}

/// What a superpixel has gathered of its pixels: the sums of their
/// colour channels and of their coordinates, and their number.
pub struct Sums {
    /// Sum of the lightness values.
    pub l: int,
    /// Sum of the values on the green-red axis.
    pub a: int,
    /// Sum of the values on the blue-yellow axis.
    pub b: int,
    /// Sum of the X-coordinates.
    pub x: int,
    /// Sum of the Y-coordinates.
    pub y: int,
    /// Number of pixels.
    pub count: int,
}

impl Sums {
    /// The sums of no pixel at all.
    pub open spec fn zero() -> Sums {
        Sums { l: 0, a: 0, b: 0, x: 0, y: 0, count: 0 }
    }

    /// The sums after the pixel at `(x, y)` with the colour `color`
    /// joined.
    pub open spec fn with(self, color: Lab, x: int, y: int) -> Sums {
        Sums {
            l: self.l + color.l,
            a: self.a + color.a,
            b: self.b + color.b,
            x: self.x + x,
            y: self.y + y,
            count: self.count + 1,
        }
    }

    /// Whether these can be the sums of `self.count` pixels, of at most
    /// `limit`, with coordinates that fit 32 bits.
    pub open spec fn bounded(self, limit: int) -> bool {
        &&& 0 <= self.count <= limit
        &&& -32768 * self.count <= self.l <= 32767 * self.count
        &&& -32768 * self.count <= self.a <= 32767 * self.count
        &&& -32768 * self.count <= self.b <= 32767 * self.count
        &&& 0 <= self.x <= 0xffff_ffff * self.count
        &&& 0 <= self.y <= 0xffff_ffff * self.count
    }

    /// The centre of the pixels summed up: their mean colour and their
    /// mean position, each value rounded down.
    pub open spec fn mean(self) -> Superpixel<Lab>
        recommends
            self.count > 0,
    {
        Superpixel {
            data: Lab {
                l: (self.l / self.count) as i16,
                a: (self.a / self.count) as i16,
                b: (self.b / self.count) as i16,
            },
            x: (self.x / self.count) as u32,
            y: (self.y / self.count) as u32,
        }
    }
}

/// `sum` divided by `count`, rounded down.
pub fn floor_div(sum: i128, count: u64) -> (q: i128)
    requires
        count > 0,
        -0x4000_0000_0000_0000_0000_0000_0000_0000 <= sum,
    ensures
        q == sum as int / count as int,
{
    if sum >= 0 {
        sum / (count as i128)
    } else {
        let t: i128 = -(sum + 1);
        let d: i128 = t / (count as i128);
        proof {
            let c = count as int;
            assert(t as int == c * (t as int / c) + t as int % c && 0 <= t as int % c < c)
                by (nonlinear_arith)
                requires
                    c > 0,
                    t >= 0,
            ;
            assert(0 <= t as int / c <= t) by (nonlinear_arith)
                requires
                    c > 0,
                    t >= 0,
            ;
            let q = -(t as int / c) - 1;
            let r = c - 1 - t as int % c;
            assert(sum as int == q * c + r) by (nonlinear_arith)
                requires
                    sum == -t - 1,
                    t as int == c * (t as int / c) + t as int % c,
                    q == -(t as int / c) - 1,
                    r == c - 1 - t as int % c,
            ;
            lemma_fundamental_div_mod_converse(sum as int, c, q, r);
        }
        -d - 1
    }
}

/// A sum of `count` values between `lo` and `hi`, divided by `count`,
/// lies between `lo` and `hi`.
pub proof fn lemma_quotient_in_range(sum: int, count: int, lo: int, hi: int)
    requires
        count > 0,
        lo * count <= sum <= hi * count,
    ensures
        lo <= sum / count <= hi,
{
    let q = sum / count;
    let r = sum % count;
    assert(sum == count * q + r && 0 <= r < count) by (nonlinear_arith)
        requires
            count > 0,
            q == sum / count,
            r == sum % count,
    ;
    assert(lo <= q) by (nonlinear_arith)
        requires
            lo * count <= count * q + r,
            r < count,
            count > 0,
    ;
    assert(q <= hi) by (nonlinear_arith)
        requires
            count * q + r <= hi * count,
            0 <= r,
            count > 0,
    ;
}

/// The mean of sums that are bounded lies inside the ranges of a
/// colour channel and of a coordinate.
pub proof fn lemma_mean_in_range(sums: Sums, limit: int)
    requires
        sums.bounded(limit),
        sums.count > 0,
    ensures
        -32768 <= sums.l / sums.count <= 32767,
        -32768 <= sums.a / sums.count <= 32767,
        -32768 <= sums.b / sums.count <= 32767,
        0 <= sums.x / sums.count <= 0xffff_ffff,
        0 <= sums.y / sums.count <= 0xffff_ffff,
{
    lemma_quotient_in_range(sums.l, sums.count, -32768, 32767);
    lemma_quotient_in_range(sums.a, sums.count, -32768, 32767);
    lemma_quotient_in_range(sums.b, sums.count, -32768, 32767);
    lemma_quotient_in_range(sums.x, sums.count, 0, 0xffff_ffff);
    lemma_quotient_in_range(sums.y, sums.count, 0, 0xffff_ffff);
}

} // verus!
