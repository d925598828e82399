//! A threshold RSA signature scheme after Shoup's "Practical Threshold
//! Signatures": a trusted dealer splits the private exponent into `l`
//! shares over `m = p'q'`, any `k` shareholders sign collaboratively, and
//! each partial signature carries a discrete-log-equality proof so that a
//! combiner can reject cheating signers.
pub mod arith;
pub mod bigint;
pub mod combine;
pub mod dealer;
pub mod keys;
pub mod poly;
pub mod session;
pub mod sign;
