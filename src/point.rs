//! Points of the curve `y^2 = x^3 + a*x + b` and their group law.

use crate::field::{
    bits_msb, field_add, field_div, field_mul, field_sub, Scalar, PRIME,
};
use vstd::prelude::*;

verus! {

/// The linear coefficient `a` of the curve.
pub const CURVE_A: i32 = 1;

/// The constant coefficient `b` of the curve.
pub const CURVE_B: i32 = 0;

/// An affine point; `(0, 0)` stands for the identity of the group.
#[derive(Clone, Copy, Debug, PartialEq, Eq, Structural)]
pub struct Point {
    pub x: Scalar,
    pub y: Scalar,
}

/// The identity element.
pub open spec fn identity() -> Point {
    Point { x: Scalar(0), y: Scalar(0) }
}

/// The point satisfies the curve equation.
pub open spec fn on_curve(pt: Point) -> bool {
    let (x, y) = (pt.x.0 as int, pt.y.0 as int);
    field_mul(y, y) == field_add(field_add(field_mul(field_mul(x, x), x), field_mul(
        CURVE_A as int,
        x,
    )), CURVE_B as int)
}

/// The slope of the chord through `p` and `q`, or of the tangent at `p` when
/// they are equal.
pub open spec fn slope(p: Point, q: Point) -> int {
    let (px, py, qx, qy) = (p.x.0 as int, p.y.0 as int, q.x.0 as int, q.y.0 as int);
    if p != q {
        field_div(field_sub(py, qy), field_sub(px, qx))
    } else {
        field_div(field_add(field_mul(3, field_mul(px, px)), CURVE_A as int), field_mul(2, py))
    }
}

/// The group law: chord and tangent, with the identity and the vertical cases
/// handled before any division.
pub open spec fn point_add(p: Point, q: Point) -> Point {
    if q == identity() {
        p
    } else if p == identity() {
        q
    } else if p != q && p.x == q.x {
        identity()
    } else if p == q && p.y.0 == 0 {
        identity()
    } else {
        let m = slope(p, q);
        let x = field_sub(field_sub(field_mul(m, m), p.x.0 as int), q.x.0 as int);
        let y = field_add(p.y.0 as int, field_mul(m, field_sub(x, p.x.0 as int)));
        Point { x: Scalar(x as i32), y: Scalar(((-y) % (PRIME as int)) as i32) }
    }
}

/// Double-and-add from the least significant bit of `k`: `acc` gathers the
/// result, `run` is doubled at each bit.
pub open spec fn mul_acc(acc: Point, run: Point, k: nat) -> Point
    decreases k,
{
    if k == 0 {
        acc
    } else {
        let next_acc = if k % 2 == 1 {
            point_add(acc, run)
        } else {
            acc
        };
        mul_acc(next_acc, point_add(run, run), k / 2)
    }
}

/// `k * pt`.
pub open spec fn scalar_mul(pt: Point, k: nat) -> Point {
    mul_acc(identity(), pt, k)
}

impl Point {
    /// Both coordinates are reduced.
    pub open spec fn is_reduced(self) -> bool {
        self.x.is_reduced() && self.y.is_reduced()
    }

    /// The identity element `(0, 0)`.
    pub fn identity() -> (r: Point)
        ensures
            r == identity(),
    {
        Point { x: Scalar(0), y: Scalar(0) }
    }

    /// `(x, PRIME - y)`, reduced.
    pub fn add_inverse(&self) -> (r: Point)
        requires
            self.is_reduced(),
        ensures
            r.is_reduced(),
            r.x == self.x,
            r.y.0 == field_sub(0, self.y.0 as int),
    {
        Point { x: self.x, y: self.y.add_inverse() }
    }

    /// The sum of two points under the group law.
    pub fn add(self, rhs: Point) -> (r: Point)
        requires
            self.is_reduced(),
            rhs.is_reduced(),
        ensures
            r.is_reduced(),
            r == point_add(self, rhs),
    {
        if rhs.x.0 == 0 && rhs.y.0 == 0 {
            return self;
        }
        if self.x.0 == 0 && self.y.0 == 0 {
            return rhs;
        }
        let quotient = if self != rhs {
            if self.x == rhs.x {
                return Point::identity();
            }
            (self.y.sub(rhs.y)).div(self.x.sub(rhs.x))
        } else {
            if self.y.0 == 0 {
                return Point::identity();
            }
            let num = Scalar(3).mul(self.x.mul(self.x)).add(Scalar(CURVE_A));
            num.div(Scalar(2).mul(self.y))
        };
        let m = match quotient {
            Ok(m) => m,
            Err(_) => {
                return Point::identity();
            },
        };
        let x = m.mul(m).sub(self.x).sub(rhs.x);
        let y = self.y.add(m.mul(x.sub(self.x)));
        let tmp_y = Scalar(-y.0).rem(Scalar(PRIME));
        Point { x: x, y: tmp_y }
    }

    /// `rhs * self` by double-and-add over the binary digits of `rhs`.
    pub fn mul(self, rhs: Scalar) -> (r: Point)
        requires
            self.is_reduced(),
            rhs.0 >= 0,
        ensures
            r.is_reduced(),
            r == scalar_mul(self, rhs.0 as nat),
    {
        let mut bin = rhs.binary();
        let ghost mut rest: nat = rhs.0 as nat;
        let mut last_point = Point::identity();
        let mut next_point = self;
        while bin.len() > 0
            invariant
                bin@ == bits_msb(rest),
                last_point.is_reduced(),
                next_point.is_reduced(),
                scalar_mul(self, rhs.0 as nat) == mul_acc(last_point, next_point, rest),
            decreases bin.len(),
        {
            proof {
                if rest == 0 {
                    assert(bits_msb(rest).len() == 0);
                }
                assert(bits_msb(rest) == bits_msb(rest / 2).push(rest % 2 == 1));
            }
            let bit = match bin.pop() {
                Some(b) => b,
                None => false,
            };
            proof {
                assert(bin@ =~= bits_msb(rest / 2));
            }
            if bit {
                last_point = last_point.add(next_point);
            }
            next_point = next_point.add(next_point);
            proof {
                rest = rest / 2;
            }
        }
        proof {
            if rest > 0 {
                assert(bits_msb(rest) == bits_msb(rest / 2).push(rest % 2 == 1));
            }
        }
        last_point
    }
}

/// The identity is neutral on both sides: `p + O == p` and `O + p == p`.
pub proof fn lemma_identity_neutral(p: Point)
    requires
        p.is_reduced(),
    ensures
        point_add(p, identity()) == p,
        point_add(identity(), p) == p,
{
}

/// Scalar multiplication agrees with the group law on small factors:
/// `0 * p` is the identity, `1 * p == p` and `2 * p == p + p`.
pub proof fn lemma_scalar_mul_small(p: Point)
    requires
        p.is_reduced(),
    ensures
        scalar_mul(p, 0) == identity(),
        scalar_mul(p, 1) == p,
        scalar_mul(p, 2) == point_add(p, p),
{
    reveal_with_fuel(mul_acc, 3);
}

} // verus!
