//! Proof-of-work interface and difficulty arithmetic.
//!
//! The proof of work prevents grinding on nonces while searching for a proof:
//! without it, an actor with enough compute could try many nonces at once and
//! find a proof without holding the whole dataset.  The hash itself is an
//! external, memory-hard primitive reached through the `Prover` and
//! `PowVerifier` traits; the library owns the difficulty arithmetic around it.

use vstd::arithmetic::div_mod::lemma_fundamental_div_mod;
use vstd::prelude::*;

verus! {

/// Failures of the proof-of-work primitive.
#[derive(Clone, Copy, Debug, PartialEq, Eq)]
pub enum Error {
    /// No nonce satisfying the difficulty target was found.
    PoWNotFound,
    /// The submitted proof of work does not satisfy the target.
    InvalidPoW,
    /// The underlying hash implementation failed.
    Internal,
}

/// Searches for a 64-bit proof-of-work nonce whose hash, bound to the nonce
/// group, the challenge prefix and optionally a miner id, falls under the
/// difficulty target.  Implementations wrap an external memory-hard hash, so
/// nothing is promised of the returned value here; callers treat it as an
/// opaque witness and hand it to a `PowVerifier`.
pub trait Prover {
    fn prove(
        &self,
        nonce_group: u8,
        challenge: &[u8; 8],
        difficulty: &[u8; 32],
        miner_id: Option<&[u8; 32]>,
    ) -> Result<u64, Error>;
}

/// The predicate symmetric to `Prover::prove`: accepts exactly when the
/// submitted nonce hashes under the difficulty target for the same binding.
pub trait PowVerifier {
    fn verify(
        &self,
        pow: u64,
        nonce_group: u8,
        challenge: &[u8; 8],
        difficulty: &[u8; 32],
        miner_id: Option<&[u8; 32]>,
    ) -> Result<(), Error>;
}

/// Rejected input of `scale_difficulty`.
#[derive(Clone, Copy, Debug, PartialEq, Eq)]
pub enum ScaleError {
    /// The declared number of space units was zero.
    DivisionByZero,
}

/// The value of a byte string read as a big-endian unsigned integer.
pub open spec fn be_val(s: Seq<u8>) -> nat
    decreases s.len(),
{
    if s.len() == 0 {
        0
    } else {
        be_val(s.drop_last()) * 256 + s.last() as nat
    }
}

/// Relies on `primitive_types::U256`: `from_big_endian` reads 32 bytes as a
/// big-endian 256-bit integer, `checked_div` returns the integer quotient and
/// is `None` exactly on a zero divisor, and `to_big_endian` writes the value
/// back as 32 big-endian bytes.
#[verifier::external_body]
fn u256_div_be(dividend: &[u8; 32], divisor: u32) -> (r: Option<[u8; 32]>)
    ensures
        r is Some <==> divisor != 0,
        divisor != 0 ==> be_val(r.unwrap()@) == be_val(dividend@) / (divisor as nat),
{
    let n = primitive_types::U256::from_big_endian(dividend);
    n.checked_div(primitive_types::U256::from(divisor)).map(|q| q.to_big_endian())
}

/// A byte string is determined by its big-endian value and its length, so a
/// contract over `be_val` pins the bytes themselves.
pub proof fn lemma_be_val_injective(a: Seq<u8>, b: Seq<u8>)
    requires
        a.len() == b.len(),
        be_val(a) == be_val(b),
    ensures
        a == b,
    decreases a.len(),
{
    if a.len() == 0 {
        assert(a =~= b);
    } else {
        assert(a.last() == b.last());
        assert(be_val(a.drop_last()) == be_val(b.drop_last()));
        lemma_be_val_injective(a.drop_last(), b.drop_last());
        assert forall|i: int| 0 <= i < a.len() implies a[i] == b[i] by {
            if i < a.len() - 1 {
                assert(a[i] == a.drop_last()[i]);
                assert(b[i] == b.drop_last()[i]);
            }
        }
        assert(a =~= b);
    }
}

/// Scales a per-unit 256-bit difficulty target to an absolute one: the
/// big-endian value of the result is the value of `difficulty` divided by
/// `num_units`.  A zero `num_units` is rejected.  Together with
/// `lemma_be_val_injective` this pins the returned bytes exactly.
pub fn scale_difficulty(difficulty: &[u8; 32], num_units: u32) -> (r: Result<
    [u8; 32],
    ScaleError,
>)
    ensures
        r is Ok <==> num_units != 0,
        num_units != 0 ==> be_val(r.unwrap()@) == be_val(difficulty@) / (num_units as nat),
{
    match u256_div_be(difficulty, num_units) {
        Some(scaled) => Ok(scaled),
        None => Err(ScaleError::DivisionByZero),
    }
}

/// Difficulty scaling law: multiplying the scaled target back by the number
/// of units brackets the original target within one unit, that is,
/// `scaled * units <= target < (scaled + 1) * units` where `scaled` is the
/// big-endian value that `scale_difficulty` returns.
pub proof fn lemma_scale_difficulty_bounds(difficulty: Seq<u8>, num_units: nat)
    requires
        num_units > 0,
    ensures
        (be_val(difficulty) / num_units) * num_units <= be_val(difficulty),
        be_val(difficulty) < (be_val(difficulty) / num_units + 1) * num_units,
{
    let d = be_val(difficulty);
    let u = num_units;
    let q = (d / u) as int;
    let r = (d % u) as int;
    lemma_fundamental_div_mod(d as int, u as int);
    vstd::arithmetic::div_mod::lemma_mod_bound(d as int, u as int);
    assert(q * u <= d && d < (q + 1) * u) by (nonlinear_arith)
        requires
            d == u * q + r,
            0 <= r < u,
    ;
}

} // verus!
