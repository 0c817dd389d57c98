use headerchain::header::BlockHeader;
use headerchain::header::block_hash;
use headerchain::header::encode_header;
use headerchain::header::genesis_chain;
use headerchain::sync::Action;
use headerchain::sync::HeaderChainSync;
use headerchain::sync::Message;
use headerchain::sync::SyncPhase;

fn header_at(time: u32) -> BlockHeader {
    BlockHeader {
        version: 1,
        prev_blockhash: [0u8; 32],
        merkle_root: [0u8; 32],
        time,
        bits: 0x1d00ffff,
        nonce: 0,
    }
}

fn seeded() -> HeaderChainSync {
    HeaderChainSync::new(vec![header_at(0)])
}

fn is_request_anchored_on(a: &Action, h: &BlockHeader) -> bool {
    match a {
        Action::RequestHeaders(loc) => *loc == block_hash(h),
        _ => false,
    }
}

#[test]
fn version_triggers_verack_and_first_request() {
    let mut sync = seeded();
    let genesis = sync.headers[0];
    let actions = sync.handle_message(Message::Version { start_height: 5 });
    assert_eq!(sync.target_height, 5);
    assert_eq!(sync.received, 0);
    assert_eq!(actions.len(), 2);
    assert!(matches!(actions[0], Action::SendVerack));
    assert!(is_request_anchored_on(&actions[1], &genesis));
    assert!(matches!(sync.phase, SyncPhase::Syncing));
}

#[test]
fn sync_terminates_at_advertised_height() {
    let mut sync = seeded();
    sync.handle_message(Message::Version { start_height: 5 });
    let first: Vec<BlockHeader> = (1..=3).map(|i| header_at(600 * i)).collect();
    let actions = sync.handle_message(Message::Headers(first));
    assert_eq!(sync.received, 3);
    assert_eq!(actions.len(), 1);
    assert!(is_request_anchored_on(&actions[0], &header_at(1800)));
    assert!(matches!(sync.phase, SyncPhase::Syncing));
    let second: Vec<BlockHeader> = (4..=5).map(|i| header_at(600 * i)).collect();
    let actions = sync.handle_message(Message::Headers(second));
    assert!(actions.is_empty());
    assert!(matches!(sync.phase, SyncPhase::Done));
    // the advertised five headers plus the genesis seed
    assert_eq!(sync.headers.len(), 6);
    for (i, h) in sync.headers.iter().enumerate() {
        assert_eq!(h.time, 600 * i as u32);
    }
}

#[test]
fn ping_is_answered_and_changes_nothing() {
    let mut sync = seeded();
    sync.handle_message(Message::Version { start_height: 2 });
    sync.handle_message(Message::Headers(vec![header_at(600)]));
    let before_headers = sync.headers.len();
    let before_received = sync.received;
    let actions = sync.handle_message(Message::Ping(0xfeed_f00d));
    assert_eq!(actions.len(), 1);
    assert!(matches!(actions[0], Action::SendPong(0xfeed_f00d)));
    assert_eq!(sync.headers.len(), before_headers);
    assert_eq!(sync.received, before_received);
    assert!(matches!(sync.phase, SyncPhase::Syncing));
}

#[test]
fn unknown_and_verack_are_ignored() {
    let mut sync = seeded();
    sync.handle_message(Message::Version { start_height: 2 });
    let actions = sync.handle_message(Message::Verack);
    assert!(actions.is_empty());
    let actions = sync.handle_message(Message::Unknown);
    assert!(actions.is_empty());
    assert_eq!(sync.received, 0);
    assert!(matches!(sync.phase, SyncPhase::Syncing));
}

#[test]
fn headers_before_version_finish_immediately() {
    // with no advertised height, any batch reaches the zero target
    let mut sync = seeded();
    let actions = sync.handle_message(Message::Headers(vec![header_at(600)]));
    assert!(actions.is_empty());
    assert!(matches!(sync.phase, SyncPhase::Done));
    assert_eq!(sync.headers.len(), 2);
}

#[test]
fn genesis_header_encodes_to_known_bytes() {
    let chain = genesis_chain();
    let g = chain[0];
    assert_eq!(g.version, 1);
    assert_eq!(g.prev_blockhash, [0u8; 32]);
    assert_eq!(g.time, 1231006505);
    assert_eq!(g.bits, 0x1d00ffff);
    assert_eq!(g.nonce, 2083236893);
    let bytes = encode_header(&g);
    assert_eq!(bytes.len(), 80);
    assert_eq!(&bytes[0..4], &[1, 0, 0, 0]);
    // the genesis coinbase merkle root, little-endian on the wire
    let merkle: [u8; 32] = [
        0x3b, 0xa3, 0xed, 0xfd, 0x7a, 0x7b, 0x12, 0xb2, 0x7a, 0xc7, 0x2c, 0x3e, 0x67, 0x76, 0x8f,
        0x61, 0x7f, 0xc8, 0x1b, 0xc3, 0x88, 0x8a, 0x51, 0x32, 0x3a, 0x9f, 0xb8, 0xaa, 0x4b, 0x1e,
        0x5e, 0x4a,
    ];
    assert_eq!(&bytes[36..68], &merkle);
    // time 1231006505 = 0x495fab29, little-endian
    assert_eq!(&bytes[68..72], &[0x29, 0xab, 0x5f, 0x49]);
}

#[test]
fn genesis_hash_matches_the_network() {
    let chain = genesis_chain();
    let hash = block_hash(&chain[0]);
    // the well-known genesis block hash, little-endian on the wire
    let expected: [u8; 32] = [
        0x6f, 0xe2, 0x8c, 0x0a, 0xb6, 0xf1, 0xb3, 0x72, 0xc1, 0xa6, 0xa2, 0x46, 0xae, 0x63, 0xf7,
        0x4f, 0x93, 0x1e, 0x83, 0x65, 0xe1, 0x5a, 0x08, 0x9c, 0x68, 0xd6, 0x19, 0x00, 0x00, 0x00,
        0x00, 0x00,
    ];
    assert_eq!(hash.as_slice(), &expected);
}
