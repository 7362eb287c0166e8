//! Elliptic-curve arithmetic over a small prime field: field elements,
//! curve points, ECDSA signing and verification, and Diffie-Hellman.

pub mod curve;
pub mod field;
pub mod point;

pub use curve::{Curve, PublicKey, SecretKey, Signature};
pub use field::{FieldError, Scalar, PRIME};
pub use point::Point;
