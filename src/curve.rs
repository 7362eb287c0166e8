//! The curve's domain parameters, key generation, ECDSA and Diffie-Hellman.

use crate::field::{field_add, field_inv, field_mul, Scalar, PRIME};
use crate::point::{on_curve, point_add, scalar_mul, Point, CURVE_A, CURVE_B};
use rand::Rng;
use vstd::prelude::*;

verus! {

/// A secret key: a scalar in `[1, n)`.
pub type SecretKey = Scalar;

/// A public key: the secret key times the generator.
pub type PublicKey = Point;

/// An ECDSA signature `(r, s)`, held as the two coordinates of a point.
pub type Signature = Point;

/// How many nonces `sign` draws before it gives up.
pub const SIGN_ATTEMPTS: u32 = 1000;

/// The group order of the generator, as the curve states it.
pub const ORDER: i32 = 23;

/// The signature that nonce `k` yields for secret key `sk` and message `z`:
/// `r = x(k * g) mod p`, `s = k^-1 * (z + r * sk)`, absent when either is zero.
pub open spec fn ecdsa_signature(g: Point, sk: int, z: int, k: int) -> Option<Point> {
    let r = (scalar_mul(g, k as nat).x.0 as int) % (PRIME as int);
    let s = field_mul(field_inv(k), field_add(z, field_mul(r, sk)));
    if r == 0 || s == 0 {
        None
    } else {
        Some(Point { x: Scalar(r as i32), y: Scalar(s as i32) })
    }
}

/// ECDSA acceptance: both components in `[1, n)` and
/// `x(u1 * g + u2 * pk) mod p == r` with `u1 = s^-1 * z`, `u2 = s^-1 * r`.
pub open spec fn ecdsa_accepts(g: Point, n: int, pk: Point, z: int, sig: Point) -> bool {
    let (r, s) = (sig.x.0 as int, sig.y.0 as int);
    if !(1 <= r < n && 1 <= s < n) {
        false
    } else {
        let w = field_inv(s);
        let u1 = field_mul(w, z);
        let u2 = field_mul(w, r);
        let pt = point_add(scalar_mul(g, u1 as nat), scalar_mul(pk, u2 as nat));
        r == (pt.x.0 as int) % (PRIME as int)
    }
}

/// The shared secret: the x-coordinate of `sk * pk`.
pub open spec fn shared_secret(sk: int, pk: Point) -> int {
    scalar_mul(pk, sk as nat).x.0 as int
}

/// Relies on rand's `Rng::gen_range` on the thread-local generator: a value in
/// `[low, high)`; it panics unless `low < high`.
#[verifier::external_body]
fn random_in_range(low: i32, high: i32) -> (r: i32)
    requires
        low < high,
    ensures
        low <= r < high,
{
    rand::thread_rng().gen_range(low, high)
}

/// Domain parameters of `y^2 = x^3 + a*x + b` over the field of `p` elements,
/// with generator `g` of stated order `n` and cofactor `h`.
pub struct Curve {
    p: Scalar,
    _a: Scalar,
    _b: Scalar,
    n: Scalar,
    _h: Scalar,
    g: Point,
}

impl Curve {
    /// The generator.
    pub closed spec fn generator(self) -> Point {
        self.g
    }

    /// The stated order of the generator.
    pub closed spec fn order(self) -> int {
        self.n.0 as int
    }

    /// The parameters are those of this library's curve.
    pub closed spec fn wf(self) -> bool {
        &&& self.p.0 == PRIME
        &&& self._a.0 == CURVE_A
        &&& self._b.0 == CURVE_B
        &&& self.n.0 == ORDER
        &&& self._h.0 == 1
        &&& self.g == Point { x: Scalar(9), y: Scalar(5) }
    }

    /// The curve `y^2 = x^3 + x` over the field of 23 elements, generator `(9, 5)`.
    pub fn new() -> (r: Curve)
        ensures
            r.wf(),
            r.generator() == (Point { x: Scalar(9), y: Scalar(5) }),
            r.order() == 23,
            on_curve(r.generator()),
    {
        Curve {
            p: Scalar(PRIME),
            _a: Scalar(CURVE_A),
            _b: Scalar(CURVE_B),
            n: Scalar(ORDER),
            _h: Scalar(1),
            g: Point { x: Scalar(9), y: Scalar(5) },
        }
    }

    /// A random scalar in `[1, n)`.
    pub fn random_number(&self) -> (r: Scalar)
        requires
            self.wf(),
        ensures
            1 <= r.0 < self.order(),
    {
        Scalar(random_in_range(1, self.n.0))
    }

    /// A random secret key `d` in `[1, n)` with its public key `d * g`.
    pub fn generate_keypair(&self) -> (r: (SecretKey, PublicKey))
        requires
            self.wf(),
        ensures
            1 <= r.0.0 < self.order(),
            r.1 == scalar_mul(self.generator(), r.0.0 as nat),
    {
        let d = self.random_number();
        (d, self.g.mul(d))
    }

    /// The signature of message `z` under secret key `sk` with nonce `k`, or
    /// `None` where `r` or `s` comes out zero and another nonce is needed.
    pub fn sign_with_nonce(&self, sk: SecretKey, z: Scalar, k: Scalar) -> (r: Option<Signature>)
        requires
            self.wf(),
            sk.is_reduced(),
            z.is_reduced(),
            1 <= k.0 < self.order(),
        ensures
            r == ecdsa_signature(self.generator(), sk.0 as int, z.0 as int, k.0 as int),
    {
        let p = self.g.mul(k);
        let r = p.x.rem(self.p);
        if r.0 == 0 {
            return None;
        }
        let k_inverse = match k.mul_inverse() {
            Ok(v) => v,
            Err(_) => {
                return None;
            },
        };
        let s = k_inverse.mul(z.add(r.mul(sk)));
        if s.0 == 0 {
            None
        } else {
            Some(Point { x: r, y: s })
        }
    }

    /// Signs message `z` under secret key `sk`, drawing random nonces until
    /// both components are nonzero, at most `SIGN_ATTEMPTS` times.
    pub fn sign(&self, sk: SecretKey, z: Scalar) -> (r: Option<Signature>)
        requires
            self.wf(),
            sk.is_reduced(),
            z.is_reduced(),
        ensures
            r matches Some(sig) ==> exists|k: int|
                1 <= k < self.order() && ecdsa_signature(self.generator(), sk.0 as int, z.0 as int, k)
                    == Some(sig),
    {
        let mut attempts: u32 = 0;
        while attempts < SIGN_ATTEMPTS
            invariant
                self.wf(),
                sk.is_reduced(),
                z.is_reduced(),
            decreases SIGN_ATTEMPTS - attempts,
        {
            let k = self.random_number();
            let signature = self.sign_with_nonce(sk, z, k);
            if signature.is_some() {
                return signature;
            }
            attempts = attempts + 1;
        }
        None
    }

    /// Whether `sig` is a valid signature of `z` under public key `pk`; a
    /// component outside `[1, n)` makes it invalid.
    pub fn verify(&self, pk: PublicKey, z: Scalar, sign: Signature) -> (r: bool)
        requires
            self.wf(),
            pk.is_reduced(),
            z.is_reduced(),
        ensures
            r == ecdsa_accepts(self.generator(), self.order(), pk, z.0 as int, sign),
    {
        let (r, s) = (sign.x, sign.y);
        if r.0 < 1 || r.0 >= self.n.0 || s.0 < 1 || s.0 >= self.n.0 {
            return false;
        }
        let w = match s.mul_inverse() {
            Ok(v) => v,
            Err(_) => {
                return false;
            },
        };
        let u1 = w.mul(z);
        let u2 = w.mul(r);
        let p = self.g.mul(u1).add(pk.mul(u2));
        r == p.x.rem(self.p)
    }

    /// The Diffie-Hellman shared secret: the x-coordinate of `self_sk * other_pk`.
    pub fn dh(self_sk: SecretKey, other_pk: PublicKey) -> (r: Scalar)
        requires
            self_sk.0 >= 0,
            other_pk.is_reduced(),
        ensures
            r.0 == shared_secret(self_sk.0 as int, other_pk),
    {
        let session = other_pk.mul(self_sk);
        session.x
    }
}

} // verus!
