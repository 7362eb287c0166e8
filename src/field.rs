//! Arithmetic in the prime field of curve coordinates.

use vstd::arithmetic::div_mod::{
    lemma_fundamental_div_mod, lemma_mod_bound, lemma_mod_multiples_basic, lemma_small_mod, lemma_mod_multiples_vanish,
    lemma_mul_mod_noop_left, lemma_mul_mod_noop_right,
};
use vstd::prelude::*;

verus! {

/// The prime modulus of the coordinate field.
pub const PRIME: i32 = 23;

/// `p` is a prime number.
pub open spec fn is_prime(p: int) -> bool {
    &&& p > 1
    &&& forall|d: int| 1 < d < p ==> #[trigger] (p % d) != 0
}

/// Sum in the field.
pub open spec fn field_add(a: int, b: int) -> int {
    (a + b) % (PRIME as int)
}

/// Difference in the field.
pub open spec fn field_sub(a: int, b: int) -> int {
    (a - b) % (PRIME as int)
}

/// Product in the field.
pub open spec fn field_mul(a: int, b: int) -> int {
    (a * b) % (PRIME as int)
}

/// `x` is the reduced multiplicative inverse of `a`.
pub open spec fn is_inverse(a: int, x: int) -> bool {
    &&& 0 <= x < PRIME
    &&& (a * x) % (PRIME as int) == 1
}

/// The multiplicative inverse of `a`, where one exists.
pub open spec fn field_inv(a: int) -> int {
    choose|x: int| is_inverse(a, x)
}

/// Quotient in the field.
pub open spec fn field_div(a: int, b: int) -> int {
    field_mul(a, field_inv(b))
}

/// The binary digits of `n`, most significant first; empty for zero.
pub open spec fn bits_msb(n: nat) -> Seq<bool>
    decreases n,
{
    if n == 0 {
        seq![]
    } else {
        bits_msb(n / 2).push(n % 2 == 1)
    }
}

/// Why a field operation has no result.
#[derive(Clone, Copy, Debug, PartialEq, Eq, Structural)]
pub enum FieldError {
    /// The divisor shares a factor with the modulus (in a prime field: it is zero).
    NoInverse,
}

/// An element of the field, held as its integer representative.
#[derive(Clone, Copy, Debug, PartialEq, Eq, Structural)]
pub struct Scalar(pub i32);

impl Scalar {
    /// The representative lies in `[0, PRIME)`.
    pub open spec fn is_reduced(self) -> bool {
        0 <= self.0 < PRIME
    }

    /// `(self + rhs) mod PRIME`.
    pub fn add(self, rhs: Scalar) -> (r: Scalar)
        requires
            self.is_reduced(),
            rhs.is_reduced(),
        ensures
            r.is_reduced(),
            r.0 == field_add(self.0 as int, rhs.0 as int),
    {
        Scalar((self.0 + rhs.0) % PRIME)
    }

    /// `(self - rhs) mod PRIME`, without a negative intermediate value.
    pub fn sub(self, other: Scalar) -> (r: Scalar)
        requires
            self.is_reduced(),
            other.is_reduced(),
        ensures
            r.is_reduced(),
            r.0 == field_sub(self.0 as int, other.0 as int),
    {
        if self.0 >= other.0 {
            Scalar(self.0 - other.0)
        } else {
            Scalar(PRIME - (other.0 - self.0))
        }
    }

    /// `(self * rhs) mod PRIME`.
    pub fn mul(self, rhs: Scalar) -> (r: Scalar)
        requires
            self.is_reduced(),
            rhs.is_reduced(),
        ensures
            r.is_reduced(),
            r.0 == field_mul(self.0 as int, rhs.0 as int),
    {
        assert(0 <= self.0 * rhs.0 <= 22 * 22) by (nonlinear_arith)
            requires
                0 <= self.0 < 23,
                0 <= rhs.0 < 23,
        ;
        Scalar(self.0 * rhs.0 % PRIME)
    }

    /// `self * rhs^-1`; fails exactly when `rhs` is zero.
    pub fn div(self, rhs: Scalar) -> (r: Result<Scalar, FieldError>)
        requires
            self.is_reduced(),
            rhs.is_reduced(),
        ensures
            r is Ok <==> rhs.0 != 0,
            r matches Ok(q) ==> q.is_reduced() && q.0 == field_div(self.0 as int, rhs.0 as int),
            r matches Err(e) ==> e == FieldError::NoInverse,
    {
        match rhs.mul_inverse() {
            Ok(inv) => Ok(self.mul(inv)),
            Err(e) => Err(e),
        }
    }

    /// The additive inverse: `PRIME - self` for a nonzero element, zero for zero.
    pub fn add_inverse(&self) -> (r: Scalar)
        requires
            self.is_reduced(),
        ensures
            r.is_reduced(),
            r.0 == field_sub(0, self.0 as int),
            field_add(self.0 as int, r.0 as int) == 0,
    {
        if self.0 == 0 {
            *self
        } else {
            Scalar(PRIME - self.0)
        }
    }

    /// The multiplicative inverse, by the extended Euclidean algorithm; fails
    /// exactly when `self` is zero.
    pub fn mul_inverse(&self) -> (r: Result<Scalar, FieldError>)
        requires
            self.is_reduced(),
        ensures
            r is Ok <==> self.0 != 0,
            r matches Ok(x) ==> x.is_reduced() && is_inverse(self.0 as int, x.0 as int) && x.0
                == field_inv(self.0 as int),
            r matches Err(e) ==> e == FieldError::NoInverse,
    {
        let (gcd, x) = extended_euclidean_algorithm(*self, Scalar(PRIME));
        if gcd.0 != 1 {
            proof {
                if self.0 != 0 {
                    lemma_common_divisor_is_one(self.0 as int, gcd.0 as int);
                }
            }
            return Err(FieldError::NoInverse);
        }
        proof {
            let (a, xi, p) = (self.0 as int, x.0 as int, PRIME as int);
            let d = 1 - a * xi;
            lemma_fundamental_div_mod(d, p);
            let k = d / p;
            assert(a * xi == p * (-k) + 1);
            lemma_mod_multiples_vanish(-k, 1, p);
            assert(is_inverse(a, xi));
            lemma_inverse_unique(a, xi, field_inv(a));
            if a == 0 {
                assert(a * xi == 0);
            }
        }
        Ok(x)
    }

    /// The binary digits of a nonnegative value, most significant first.
    pub fn binary(&self) -> (bits: Vec<bool>)
        requires
            self.0 >= 0,
        ensures
            bits@ == bits_msb(self.0 as nat),
    {
        let mut v: i32 = self.0;
        let mut bits: Vec<bool> = Vec::new();
        while v > 0
            invariant
                0 <= v,
                bits_msb(self.0 as nat) == bits_msb(v as nat) + bits@,
            decreases v,
        {
            let ghost before = bits@;
            bits.insert(0, v % 2 == 1);
            proof {
                assert(bits_msb(v as nat) == bits_msb((v / 2) as nat).push(v % 2 == 1));
                assert(bits_msb(v as nat) + before =~= bits_msb((v / 2) as nat) + bits@);
            }
            v = v / 2;
        }
        bits
    }

    /// The representative of `self` in `[0, rhs)`, also for a negative `self`.
    pub fn rem(self, rhs: Scalar) -> (r: Scalar)
        requires
            rhs.0 > 0,
        ensures
            r.0 == (self.0 as int) % (rhs.0 as int),
            0 <= r.0 < rhs.0,
    {
        if self.0 < 0 {
            let neg: i64 = -(self.0 as i64);
            let tmp: i64 = neg % (rhs.0 as i64);
            proof {
                let (n, m, t) = (neg as int, rhs.0 as int, tmp as int);
                let k = n / m;
                lemma_fundamental_div_mod(n, m);
                lemma_mod_bound(n, m);
                if t == 0 {
                    assert(self.0 == m * (-k) + 0) by (nonlinear_arith)
                        requires
                            n == m * k + t,
                            self.0 == -n,
                            t == 0,
                    ;
                    lemma_mod_multiples_vanish(-k, 0, m);
                } else {
                    assert(self.0 == m * (-k - 1) + (m - t)) by (nonlinear_arith)
                        requires
                            n == m * k + t,
                            self.0 == -n,
                    ;
                    lemma_mod_multiples_vanish(-k - 1, m - t, m);
                    lemma_small_mod((m - t) as nat, m as nat);
                }
            }
            if tmp == 0 {
                Scalar(0)
            } else {
                Scalar(rhs.0 - tmp as i32)
            }
        } else {
            Scalar(self.0 % rhs.0)
        }
    }
}


/// A combination of two multiples of `d` is a multiple of `d`.
proof fn lemma_combination_divisible(d: int, x: int, y: int, c: int, e: int)
    requires
        d > 0,
        x % d == 0,
        y % d == 0,
    ensures
        (c * x + e * y) % d == 0,
{
    lemma_fundamental_div_mod(x, d);
    lemma_fundamental_div_mod(y, d);
    let k = c * (x / d) + e * (y / d);
    assert(c * x + e * y == k * d) by (nonlinear_arith)
        requires
            x == d * (x / d),
            y == d * (y / d),
            k == c * (x / d) + e * (y / d),
    ;
    lemma_mod_multiples_basic(k, d);
}

/// A positive multiple of `d` is at least `d`.
proof fn lemma_divisor_le(x: int, d: int)
    requires
        x > 0,
        d > 0,
        x % d == 0,
    ensures
        d <= x,
{
    lemma_fundamental_div_mod(x, d);
    assert(d <= x) by (nonlinear_arith)
        requires
            x == d * (x / d),
            x > 0,
            d > 0,
    ;
}

/// The modulus of the field is prime.
pub proof fn lemma_prime_modulus()
    ensures
        is_prime(PRIME as int),
{
    assert forall|d: int| 1 < d < 23 implies #[trigger] (23int % d) != 0 by {
        if d == 2 {
        } else if d == 3 {
        } else if d == 4 {
        } else if d == 5 {
        } else if d == 6 {
        } else if d == 7 {
        } else if d == 8 {
        } else if d == 9 {
        } else if d == 10 {
        } else if d == 11 {
        } else {
            lemma_mod_multiples_vanish(1, 23 - d, d);
            lemma_small_mod((23 - d) as nat, d as nat);
        }
    }
}

/// A common divisor of a nonzero element and the modulus is one.
proof fn lemma_common_divisor_is_one(a: int, g: int)
    requires
        0 < a < PRIME,
        g > 0,
        a % g == 0,
        (PRIME as int) % g == 0,
    ensures
        g == 1,
{
    lemma_prime_modulus();
    lemma_divisor_le(a, g);
}

/// A reduced inverse is unique.
proof fn lemma_inverse_unique(a: int, x: int, y: int)
    requires
        is_inverse(a, x),
        is_inverse(a, y),
    ensures
        x == y,
{
    let p = PRIME as int;
    lemma_mul_mod_noop_right(x, a * y, p);
    assert(x * (a * y) == (a * x) * y) by (nonlinear_arith);
    lemma_mul_mod_noop_left(a * x, y, p);
    lemma_small_mod(x as nat, p as nat);
    lemma_small_mod(y as nat, p as nat);
}

/// Runs the extended Euclidean algorithm on `a` and `b`, keeping the Bezout
/// coefficient of `a` reduced modulo `b`. Returns the greatest common divisor
/// `g` and a coefficient `x` with `a * x` congruent to `g` modulo `b`.
fn extended_euclidean_algorithm(a: Scalar, b: Scalar) -> (res: (Scalar, Scalar))
    requires
        0 <= a.0,
        0 < b.0,
    ensures
        res.0.0 > 0,
        (a.0 as int) % (res.0.0 as int) == 0,
        (b.0 as int) % (res.0.0 as int) == 0,
        0 <= res.1.0 < b.0,
        (res.0.0 - (a.0 as int) * (res.1.0 as int)) % (b.0 as int) == 0,
{
    let m: u64 = b.0 as u64;
    let bound: u64 = if a.0 >= b.0 { a.0 as u64 } else { m };
    let mut old_r: u64 = a.0 as u64;
    let mut r: u64 = m;
    let mut old_s: u64 = 1 % m;
    let mut s: u64 = 0;
    proof {
        lemma_small_mod(0, m as nat);
        let e: int = (a.0 as int) - (a.0 as int) * (old_s as int);
        if m == 1 {
            lemma_mod_multiples_basic(e, 1);
            assert(e * 1 == e);
        } else {
            lemma_small_mod(1, m as nat);
            assert(old_s == 1);
            assert((a.0 as int) * (old_s as int) == a.0) by (nonlinear_arith)
                requires
                    old_s == 1,
            ;
        }
        lemma_mod_multiples_basic(1, m as int);
    }
    while r != 0
        invariant
            0 < m <= bound < 0x8000_0000,
            m == b.0,
            old_r <= bound,
            r <= bound,
            old_r > 0 || r > 0,
            old_s < m,
            s < m,
            (old_r - (a.0 as int) * old_s) % (m as int) == 0,
            (r - (a.0 as int) * s) % (m as int) == 0,
            forall|d: int|
                #![trigger (old_r as int) % d, (r as int) % d]
                d > 0 && (old_r as int) % d == 0 && (r as int) % d == 0 ==> (a.0 as int) % d == 0 && (m as int)
                    % d == 0,
        decreases r,
    {
        let q: u64 = old_r / r;
        let new_r: u64 = old_r % r;
        assert(q <= old_r) by (nonlinear_arith)
            requires
                r > 0,
                q == old_r / r,
        ;
        assert(q * s < 0x8000_0000u64 * 0x8000_0000u64) by (nonlinear_arith)
            requires
                q < 0x8000_0000u64,
                s < 0x8000_0000u64,
        ;
        let t: u64 = (q * s) % m;
        let new_s: u64 = if old_s >= t {
            old_s - t
        } else {
            old_s + m - t
        };
        proof {
            let (ai, mi, qi, si) = (a.0 as int, m as int, q as int, s as int);
            let qs: int = qi * si;
            assert(t as int == qs % mi);
            lemma_fundamental_div_mod(old_r as int, r as int);
            lemma_fundamental_div_mod(qs, mi);
            let k: int = if old_s >= t {
                qs / mi
            } else {
                qs / mi + 1
            };
            if old_s >= t {
                assert(new_s == old_s - qs + mi * k);
            } else {
                assert(mi * k == mi * (qs / mi) + mi) by (nonlinear_arith)
                    requires
                        k == qs / mi + 1,
                ;
                assert(new_s == old_s - qs + mi * k);
            }
            let x = old_r - ai * old_s;
            let y = r - ai * s;
            assert(ai * new_s == ai * old_s - qi * (ai * si) + (ai * k) * mi) by (nonlinear_arith)
                requires
                    new_s == old_s - qs + mi * k,
                    qs == qi * si,
            ;
            assert((-qi) * y == -(qi * r) + qi * (ai * si)) by (nonlinear_arith)
                requires
                    y == r - ai * si,
            ;
            assert(old_r == qi * r + new_r) by (nonlinear_arith)
                requires
                    old_r == r * (old_r / r) + old_r % r,
                    qi == old_r / r,
                    new_r == old_r % r,
            ;
            assert((-ai * k) * mi == -((ai * k) * mi)) by (nonlinear_arith);
            assert(new_r - ai * new_s == 1 * (x + (-qi) * y) + (-ai * k) * mi);
            lemma_combination_divisible(mi, x, y, 1, -qi);
            lemma_mod_multiples_basic(mi, mi);
            lemma_combination_divisible(mi, x + (-qi) * y, mi, 1, -ai * k);
            assert forall|d: int|
                #![trigger (r as int) % d, (new_r as int) % d]
                d > 0 && (r as int) % d == 0 && (new_r as int) % d == 0 implies (ai % d == 0 && mi
                % d == 0) by {
                lemma_combination_divisible(d, new_r as int, r as int, 1, q as int);
                assert(old_r == 1 * new_r + q * r);
            }
        }
        old_r = r;
        r = new_r;
        old_s = s;
        s = new_s;
    }
    proof {
        lemma_mod_multiples_basic(1, old_r as int);
        assert((old_r as int) % (old_r as int) == 0);
        assert(0int % (old_r as int) == 0);
    }
    (Scalar(old_r as i32), Scalar(old_s as i32))
}

/// Sum, difference and product of two elements are elements again.
pub proof fn lemma_field_closure(a: int, b: int)
    requires
        0 <= a < PRIME,
        0 <= b < PRIME,
    ensures
        0 <= field_add(a, b) < PRIME,
        0 <= field_sub(a, b) < PRIME,
        0 <= field_mul(a, b) < PRIME,
{
}

/// Every element plus its additive inverse is zero, and every nonzero element
/// times its multiplicative inverse is one.
pub proof fn lemma_inverse_laws(a: int)
    requires
        0 <= a < PRIME,
    ensures
        field_add(a, field_sub(0, a)) == 0,
        a != 0 ==> is_inverse(a, field_inv(a)),
        a != 0 ==> field_mul(a, field_inv(a)) == 1,
{
    if a == 1 {
        assert(is_inverse(a, 1));
    } else if a == 2 {
        assert(is_inverse(a, 12));
    } else if a == 3 {
        assert(is_inverse(a, 8));
    } else if a == 4 {
        assert(is_inverse(a, 6));
    } else if a == 5 {
        assert(is_inverse(a, 14));
    } else if a == 6 {
        assert(is_inverse(a, 4));
    } else if a == 7 {
        assert(is_inverse(a, 10));
    } else if a == 8 {
        assert(is_inverse(a, 3));
    } else if a == 9 {
        assert(is_inverse(a, 18));
    } else if a == 10 {
        assert(is_inverse(a, 7));
    } else if a == 11 {
        assert(is_inverse(a, 21));
    } else if a == 12 {
        assert(is_inverse(a, 2));
    } else if a == 13 {
        assert(is_inverse(a, 16));
    } else if a == 14 {
        assert(is_inverse(a, 5));
    } else if a == 15 {
        assert(is_inverse(a, 20));
    } else if a == 16 {
        assert(is_inverse(a, 13));
    } else if a == 17 {
        assert(is_inverse(a, 19));
    } else if a == 18 {
        assert(is_inverse(a, 9));
    } else if a == 19 {
        assert(is_inverse(a, 17));
    } else if a == 20 {
        assert(is_inverse(a, 15));
    } else if a == 21 {
        assert(is_inverse(a, 11));
    } else if a == 22 {
        assert(is_inverse(a, 22));
    }
}

} // verus!
