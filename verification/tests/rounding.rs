use headerchain::u256::U256;
use headerchain::compact::target_from_compact;
use headerchain::compact::compact_difficulty;
use headerchain::engine::NetworkParams;

fn u(x: u64) -> U256 {
    U256::from_u64(x)
}

#[test]
fn round_zeroes_below_mantissa() {
    // 29 significant bits: one byte is shifted out and zeroed
    let r = u(0x12345678).compact_precision_round();
    assert_eq!(r.low_u64(), 0x12345600);
}

#[test]
fn round_keeps_three_byte_values() {
    let r = u(0x123456).compact_precision_round();
    assert_eq!(r.low_u64(), 0x123456);
}

#[test]
fn round_applies_bit23_quirk() {
    // bit 23 set: the low byte is zeroed even though nothing was shifted out
    let r = u(0x00ff_ffff).compact_precision_round();
    assert_eq!(r.low_u64(), 0x00ff_ff00);
}

#[test]
fn round_idempotent_on_samples() {
    let samples: Vec<U256> = vec![
        u(0x12345678),
        u(0x00ff_ffff),
        u(0x0080_0000),
        u(0xdead_beef_cafe),
        u(3).shl(200),
        u(0xffff).shl(208),
    ];
    for v in samples {
        let once = v.compact_precision_round();
        let twice = once.compact_precision_round();
        assert!(twice.eq_val(&once));
    }
}

#[test]
fn round_of_large_target() {
    // the mainnet genesis target is already at compact precision
    let t = u(0xffff).shl(208);
    let r = t.compact_precision_round();
    assert!(r.eq_val(&t));
}

#[test]
fn decode_genesis_bits() {
    let t = target_from_compact(0x1d00ffff);
    let expected = u(0xffff).shl(208);
    assert!(t.eq_val(&expected));
}

#[test]
fn decode_small_exponents() {
    // exponent three keeps the mantissa as it stands
    assert_eq!(target_from_compact(0x03123456).low_u64(), 0x123456);
    // smaller exponents shift the mantissa down
    assert_eq!(target_from_compact(0x02123456).low_u64(), 0x1234);
    assert_eq!(target_from_compact(0x01123456).low_u64(), 0x12);
    assert_eq!(target_from_compact(0x00123456).low_u64(), 0);
}

#[test]
fn decode_negative_mantissa_is_zero() {
    // a mantissa with its sign bit set is invalid and decodes to zero
    assert!(target_from_compact(0x04923456).eq_val(&U256::zero()));
}

#[test]
fn genesis_difficulty_is_one() {
    let params = NetworkParams::bitcoin();
    assert_eq!(compact_difficulty(0x1d00ffff, &params.max_target), 1);
}

#[test]
fn difficulty_grows_with_harder_target() {
    let params = NetworkParams::bitcoin();
    // a target 256 times lower means difficulty 256 times higher
    assert_eq!(compact_difficulty(0x1c00ffff, &params.max_target), 256);
}
