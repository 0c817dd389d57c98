use headerchain::engine::ChainError;
use headerchain::engine::NetworkParams;
use headerchain::engine::check_engine_ok;
use headerchain::engine::clamp_interval;
use headerchain::engine::compute_difficulty;
use headerchain::header::BlockHeader;
use headerchain::u256::U256;

fn header_at(time: u32, bits: u32) -> BlockHeader {
    BlockHeader {
        version: 1,
        prev_blockhash: [0u8; 32],
        merkle_root: [0u8; 32],
        time,
        bits,
        nonce: 0,
    }
}

// a small synthetic network: five blocks per period, one nominal timespan of
// four 600-second gaps, mainnet cap
fn tiny_params() -> NetworkParams {
    let p = NetworkParams::bitcoin();
    NetworkParams {
        interval: 5,
        timespan: 2400,
        scale_precision: 1000,
        max_target: p.max_target,
    }
}

fn uniform_chain(len: usize, spacing: u32, bits: u32) -> Vec<BlockHeader> {
    let mut v = Vec::new();
    for i in 0..len {
        v.push(header_at(1_000_000 + (i as u32) * spacing, bits));
    }
    v
}

#[test]
fn clamp_edges() {
    assert_eq!(clamp_interval(0, 2400), 600);
    assert_eq!(clamp_interval(599, 2400), 600);
    assert_eq!(clamp_interval(600, 2400), 600);
    assert_eq!(clamp_interval(2400, 2400), 2400);
    assert_eq!(clamp_interval(9600, 2400), 9600);
    assert_eq!(clamp_interval(9601, 2400), 9600);
    assert_eq!(clamp_interval(u32::MAX, 2400), 9600);
}

#[test]
fn uniform_chain_passes_and_annotates() {
    let params = tiny_params();
    let headers = uniform_chain(12, 600, 0x1d00ffff);
    let out = compute_difficulty(&headers, &params).expect("uniform chain validates");
    assert_eq!(out.len(), 12);
    for (i, rec) in out.iter().enumerate() {
        assert_eq!(rec.header.time, headers[i].time);
        assert_eq!(rec.difficulty, 1);
        assert_eq!(rec.implied_difficulty, 1);
    }
}

#[test]
fn perturbed_boundary_is_reported_at_its_height() {
    let params = tiny_params();
    let mut headers = uniform_chain(12, 600, 0x1d00ffff);
    // height 10 is an official adjustment point; make its encoded target
    // disagree with the recomputed one
    headers[10].bits = 0x1d00fffe;
    match compute_difficulty(&headers, &params) {
        Err(ChainError::BadTarget(h)) => assert_eq!(h, 10),
        _ => panic!("expected the boundary mismatch to be fatal"),
    }
}

#[test]
fn non_boundary_targets_are_not_validated() {
    let params = tiny_params();
    let mut headers = uniform_chain(12, 600, 0x1d00ffff);
    // height 8 is not an adjustment point: a strange target there is recorded,
    // not rejected
    headers[8].bits = 0x1d00fffe;
    let out = compute_difficulty(&headers, &params).expect("no boundary check off-boundary");
    assert_eq!(out.len(), 12);
}

#[test]
fn wildly_swinging_timestamps_stay_clamped() {
    let params = tiny_params();
    let mut headers = uniform_chain(12, 600, 0x1d00ffff);
    // collapse all the gaps in the last window: the interval clamps to a
    // quarter of the timespan, the retarget shrinks the target by four,
    // and the unchanged boundary header no longer matches
    for i in 6..12 {
        headers[i].time = headers[5].time + (i as u32 - 5);
    }
    match compute_difficulty(&headers, &params) {
        Err(ChainError::BadTarget(h)) => assert_eq!(h, 10),
        _ => panic!("expected the clamped retarget to disagree at the boundary"),
    }
}

#[test]
fn backward_timestamps_are_tolerated() {
    let params = tiny_params();
    let mut headers = uniform_chain(12, 600, 0x1d00ffff);
    // one small backward step, compensated by the next gap; the sums at the
    // boundaries still clamp into range and difficulty 1 survives rounding
    headers[7].time = headers[6].time - 10;
    headers[8].time = headers[6].time + 1200;
    let out = compute_difficulty(&headers, &params);
    assert!(out.is_ok());
}

#[test]
fn precondition_check_accepts_uniform_chain() {
    let params = tiny_params();
    let headers = uniform_chain(12, 600, 0x1d00ffff);
    assert!(check_engine_ok(&headers, &params));
}

#[test]
fn precondition_check_rejects_zero_target_in_window() {
    let params = tiny_params();
    let mut headers = uniform_chain(12, 600, 0x1d00ffff);
    // a mantissa with its sign bit set decodes to a zero target, whose
    // difficulty the window arithmetic cannot divide by
    headers[7].bits = 0x04923456;
    assert!(!check_engine_ok(&headers, &params));
}

#[test]
fn precondition_check_is_vacuous_on_short_chains() {
    let params = tiny_params();
    let headers = uniform_chain(5, 600, 0x1d00ffff);
    assert!(check_engine_ok(&headers, &params));
}

#[test]
fn mainnet_params_values() {
    let p = NetworkParams::bitcoin();
    assert_eq!(p.interval, 2016);
    assert_eq!(p.timespan, 1209600);
    assert_eq!(p.scale_precision, 1000);
    let expected = U256 { w0: 0, w1: 0, w2: 0, w3: 0xffff_0000 };
    assert!(p.max_target.eq_val(&expected));
}
