use alpenglow::codec::{decode_block, encode_block_bytes, encode_header};
use alpenglow::types::{
    fast_quorum_of, fallback_quorum_of, Block, BlockId, Slot, StakeWeight, ValidatorConfig,
    ValidatorId, ValidatorSet, Vote, VoteRound, VoteSet,
};
use alpenglow::{
    FALLBACK_QUORUM_PCT, FAST_QUORUM_PCT, MAX_BYZANTINE_PCT, MAX_OFFLINE_PCT, PROTOCOL_VERSION,
};

fn config(id: u64, stake: u64) -> ValidatorConfig {
    ValidatorConfig {
        id: ValidatorId(id),
        stake: StakeWeight(stake),
        is_byzantine: false,
        is_offline: false,
    }
}

fn sample_block() -> Block {
    Block {
        id: BlockId::new([7u8; 32]),
        slot: Slot(3),
        parent: Some(BlockId::new([2u8; 32])),
        leader: ValidatorId(1),
        transactions: vec![vec![1, 2, 3], vec![], vec![9; 20]],
        timestamp: 123_456,
    }
}

#[test]
fn test_constants() {
    assert_eq!(FAST_QUORUM_PCT, 80);
    assert_eq!(FALLBACK_QUORUM_PCT, 60);
    assert!(FAST_QUORUM_PCT > FALLBACK_QUORUM_PCT);
    assert_eq!(MAX_BYZANTINE_PCT + MAX_OFFLINE_PCT, 40);
    assert_eq!(PROTOCOL_VERSION, 1);
}

#[test]
fn test_validator_set() {
    let mut vset = ValidatorSet::new();
    vset.add_validator(config(1, 100));
    vset.add_validator(config(2, 100));
    vset.add_validator(config(3, 100));

    assert_eq!(vset.total_stake(), StakeWeight(300));
    assert!(vset.check_fast_quorum(StakeWeight(240)));
    assert!(!vset.check_fast_quorum(StakeWeight(239)));
    assert!(vset.check_fallback_quorum(StakeWeight(180)));
    assert!(!vset.check_fallback_quorum(StakeWeight(179)));
}

#[test]
fn test_vote_set() {
    let block_id = BlockId::new([1u8; 32]);
    let mut vote_set = VoteSet::new(block_id);

    let vote1 = Vote {
        validator: ValidatorId(1),
        block_id,
        slot: Slot(0),
        round: VoteRound::Round1,
        signature: vec![],
    };

    vote_set.add_vote(vote1);
    assert_eq!(vote_set.round1_count(), 1);
    assert_eq!(vote_set.round2_count(), 0);
}

#[test]
fn vote_set_replaces_vote_of_same_validator() {
    let block_id = BlockId::new([1u8; 32]);
    let mut vote_set = VoteSet::new(block_id);
    for sig in [vec![1u8], vec![2u8]] {
        vote_set.add_vote(Vote {
            validator: ValidatorId(4),
            block_id,
            slot: Slot(0),
            round: VoteRound::Round2,
            signature: sig,
        });
    }
    assert_eq!(vote_set.round2_count(), 1);
    assert_eq!(vote_set.votes(VoteRound::Round2)[0].signature, vec![2u8]);
    assert!(vote_set.has_vote(VoteRound::Round2, ValidatorId(4)));
    assert!(!vote_set.has_vote(VoteRound::Round1, ValidatorId(4)));
}

#[test]
fn quorum_boundaries_for_five_hundred_stake() {
    let mut vset = ValidatorSet::new();
    for i in 0..5 {
        vset.add_validator(config(i, 100));
    }
    assert_eq!(vset.total_stake(), StakeWeight(500));
    assert!(vset.check_fast_quorum(StakeWeight(400)));
    assert!(!vset.check_fast_quorum(StakeWeight(399)));
    assert!(vset.check_fallback_quorum(StakeWeight(300)));
    assert!(!vset.check_fallback_quorum(StakeWeight(299)));
}

#[test]
fn quorum_thresholds_round_down() {
    assert_eq!(fast_quorum_of(5), 4);
    assert_eq!(fallback_quorum_of(5), 3);
    assert_eq!(fast_quorum_of(3), 2);
    assert_eq!(fallback_quorum_of(3), 1);
    assert_eq!(fast_quorum_of(0), 0);
    assert_eq!(fast_quorum_of(u64::MAX), ((u64::MAX as u128) * 80 / 100) as u64);
    assert_eq!(fallback_quorum_of(u64::MAX), ((u64::MAX as u128) * 60 / 100) as u64);
}

#[test]
fn re_registering_a_validator_replaces_its_stake() {
    let mut vset = ValidatorSet::new();
    vset.add_validator(config(1, 100));
    vset.add_validator(config(2, 50));
    vset.add_validator(config(1, 30));
    assert_eq!(vset.len(), 2);
    assert_eq!(vset.total_stake(), StakeWeight(80));
    assert_eq!(vset.get_validator(&ValidatorId(1)).unwrap().stake, StakeWeight(30));
    assert!(vset.get_validator(&ValidatorId(9)).is_none());
}

#[test]
fn calculate_stake_counts_each_registered_validator_once() {
    let mut vset = ValidatorSet::new();
    vset.add_validator(config(1, 10));
    vset.add_validator(config(2, 20));
    vset.add_validator(config(3, 40));
    let ids = vec![ValidatorId(3), ValidatorId(1), ValidatorId(3), ValidatorId(99)];
    assert_eq!(vset.calculate_stake(&ids), StakeWeight(50));
    assert_eq!(vset.calculate_stake(&vec![]), StakeWeight(0));
}

#[test]
fn honest_validators_skip_flagged_ones() {
    let mut vset = ValidatorSet::new();
    vset.add_validator(config(0, 1));
    vset.add_validator(ValidatorConfig { is_byzantine: true, ..config(1, 1) });
    vset.add_validator(ValidatorConfig { is_offline: true, ..config(2, 1) });
    vset.add_validator(config(3, 1));
    let ids: Vec<u64> = vset.honest_validators().iter().map(|c| c.id.0).collect();
    assert_eq!(ids, vec![0, 3]);
}

#[test]
fn slot_successor_and_accessors() {
    assert_eq!(Slot(41).next(), Slot(42));
    assert_eq!(StakeWeight::new(7).as_u64(), 7);
    assert_eq!(BlockId::new([5u8; 32]).as_bytes(), &[5u8; 32]);
}

#[test]
fn block_encoding_matches_bincode_layout() {
    let b = sample_block();
    let expected = bincode::serialize(&(
        [7u8; 32],
        3u64,
        Some([2u8; 32]),
        1u64,
        vec![vec![1u8, 2, 3], vec![], vec![9u8; 20]],
        123_456u64,
    ))
    .unwrap();
    assert_eq!(encode_block_bytes(&b), expected);
}

#[test]
fn header_encoding_matches_bincode_layout() {
    let parent: Option<BlockId> = None;
    let mut expected = bincode::serialize(&9u64).unwrap();
    expected.extend(bincode::serialize(&Option::<[u8; 32]>::None).unwrap());
    expected.extend(bincode::serialize(&4u64).unwrap());
    expected.extend(bincode::serialize(&1009u64).unwrap());
    assert_eq!(encode_header(Slot(9), &parent, ValidatorId(4), 1009), expected);
    assert_eq!(expected.len(), 25);
}

#[test]
fn block_decodes_to_itself() {
    let b = sample_block();
    let bytes = encode_block_bytes(&b);
    let d = decode_block(&bytes).unwrap();
    assert_eq!(d.id, b.id);
    assert_eq!(d.slot, b.slot);
    assert_eq!(d.parent, b.parent);
    assert_eq!(d.leader, b.leader);
    assert_eq!(d.transactions, b.transactions);
    assert_eq!(d.timestamp, b.timestamp);
}

#[test]
fn malformed_bytes_do_not_decode() {
    let bytes = encode_block_bytes(&sample_block());
    assert!(decode_block(&bytes[..bytes.len() - 1].to_vec()).is_none());
    let mut longer = bytes.clone();
    longer.push(0);
    assert!(decode_block(&longer).is_none());
    let mut bad_tag = bytes.clone();
    bad_tag[40] = 2;
    assert!(decode_block(&bad_tag).is_none());
    assert!(decode_block(&vec![]).is_none());
}

#[test]
fn compute_id_is_sha256_of_header() {
    let b = sample_block();
    let header = encode_header(b.slot, &b.parent, b.leader, b.timestamp);
    let digest = <sha2::Sha256 as sha2::Digest>::digest(&header);
    assert_eq!(b.compute_id().as_bytes().to_vec(), digest.to_vec());
    assert_ne!(b.compute_id(), b.id);
}

#[test]
fn compute_id_ignores_payload_but_not_header() {
    let a = sample_block();
    let mut b = sample_block();
    b.transactions = vec![vec![42]];
    assert_eq!(a.compute_id(), b.compute_id());
    let mut c = sample_block();
    c.timestamp += 1;
    assert_ne!(a.compute_id(), c.compute_id());
    let mut d = sample_block();
    d.parent = None;
    assert_ne!(a.compute_id(), d.compute_id());
}

#[test]
fn duplicate_copies_every_field() {
    let b = sample_block();
    let c = b.duplicate();
    assert_eq!(c.id, b.id);
    assert_eq!(c.transactions, b.transactions);
    assert_eq!(c.timestamp, b.timestamp);
}
