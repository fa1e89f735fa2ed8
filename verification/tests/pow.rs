use post_init::pow::{scale_difficulty, Error, PowVerifier, Prover, ScaleError};

#[test]
fn scale_by_one_is_identity() {
    let difficulty = [0xABu8; 32];
    assert_eq!(scale_difficulty(&difficulty, 1), Ok(difficulty));
}

#[test]
fn scale_halves_an_even_target() {
    let difficulty = [0x02u8; 32];
    assert_eq!(scale_difficulty(&difficulty, 2), Ok([0x01u8; 32]));
}

#[test]
fn scale_rounds_down() {
    let difficulty = [0x03u8; 32];
    let mut expected = [0x81u8; 32];
    expected[0] = 0x01;
    assert_eq!(scale_difficulty(&difficulty, 2), Ok(expected));
}

#[test]
fn scale_by_zero_units_is_rejected() {
    let difficulty = [0xFFu8; 32];
    assert_eq!(
        scale_difficulty(&difficulty, 0),
        Err(ScaleError::DivisionByZero)
    );
}

#[test]
fn scale_bracket_holds_for_a_small_target() {
    // The target value fits in u128, so the scaling bracket can be checked
    // directly: scaled * units <= target < (scaled + 1) * units.
    let mut difficulty = [0u8; 32];
    difficulty[30] = 0x12;
    difficulty[31] = 0x34;
    let units = 7u32;
    let scaled = scale_difficulty(&difficulty, units).unwrap();
    let target = u128::from(difficulty[30]) * 256 + u128::from(difficulty[31]);
    let mut scaled_value = 0u128;
    for byte in scaled.iter() {
        scaled_value = scaled_value * 256 + u128::from(*byte);
    }
    assert_eq!(scaled_value, target / u128::from(units));
    assert!(scaled_value * u128::from(units) <= target);
    assert!(target < (scaled_value + 1) * u128::from(units));
}

struct FixedPow(u64);

impl Prover for FixedPow {
    fn prove(
        &self,
        _nonce_group: u8,
        _challenge: &[u8; 8],
        _difficulty: &[u8; 32],
        _miner_id: Option<&[u8; 32]>,
    ) -> Result<u64, Error> {
        Ok(self.0)
    }
}

impl PowVerifier for FixedPow {
    fn verify(
        &self,
        pow: u64,
        _nonce_group: u8,
        _challenge: &[u8; 8],
        _difficulty: &[u8; 32],
        _miner_id: Option<&[u8; 32]>,
    ) -> Result<(), Error> {
        if pow == self.0 {
            Ok(())
        } else {
            Err(Error::InvalidPoW)
        }
    }
}

#[test]
fn pow_traits_are_object_safe_and_symmetric() {
    let pow_engine = FixedPow(42);
    let prover: &dyn Prover = &pow_engine;
    let verifier: &dyn PowVerifier = &pow_engine;
    let challenge = [0u8; 8];
    let difficulty = [0xFFu8; 32];
    let pow = prover.prove(0, &challenge, &difficulty, None).unwrap();
    assert_eq!(verifier.verify(pow, 0, &challenge, &difficulty, None), Ok(()));
    assert_eq!(
        verifier.verify(pow + 1, 0, &challenge, &difficulty, None),
        Err(Error::InvalidPoW)
    );
}
