use alpenglow::codec::encode_block_bytes;
use alpenglow::rotor::{Rotor, RotorError, Shred};
use alpenglow::types::{Block, BlockId, Slot, StakeWeight, ValidatorConfig, ValidatorId, ValidatorSet};
use std::collections::HashSet;

fn create_test_block() -> Block {
    let block_id = BlockId::new([1u8; 32]);
    let mut block = Block {
        id: block_id,
        slot: Slot(0),
        parent: None,
        leader: ValidatorId(0),
        transactions: vec![vec![1, 2, 3, 4]],
        timestamp: 1000,
    };
    // a block's id is the digest of its header, checked on reconstruction
    block.id = block.compute_id();
    block
}

fn create_test_validator_set() -> ValidatorSet {
    let mut vset = ValidatorSet::new();
    for i in 0..5 {
        vset.add_validator(ValidatorConfig {
            id: ValidatorId(i),
            stake: StakeWeight(100),
            is_byzantine: false,
            is_offline: false,
        });
    }
    vset
}

#[test]
fn test_encode_decode_block() {
    let vset = create_test_validator_set();
    let mut rotor = Rotor::new(vset);

    let block = create_test_block();
    let block_id = block.id;

    let shreds = rotor.encode_block(&block).unwrap();
    assert!(shreds.len() >= 4);

    for shred in shreds {
        let _result = rotor.receive_shred(shred);
    }

    assert!(rotor.has_block(&block_id));
    let reconstructed = rotor.get_block(&block_id).unwrap();
    assert_eq!(reconstructed.id, block.id);
    assert_eq!(reconstructed.slot, block.slot);
}

#[test]
fn test_partial_shred_reception() {
    let vset = create_test_validator_set();
    let mut rotor = Rotor::new(vset);

    let block = create_test_block();
    let shreds = rotor.encode_block(&block).unwrap();
    let total_shreds = shreds.len();

    let min_shreds = (total_shreds * 80 + 99) / 100;

    let mut received_count = 0;
    for shred in shreds.into_iter() {
        received_count += 1;
        rotor.receive_shred(shred).ok();
        if received_count >= min_shreds {
            break;
        }
    }

    assert!(min_shreds >= (total_shreds * 80) / 100);
}

#[test]
fn test_relay_selection() {
    let vset = create_test_validator_set();
    let rotor = Rotor::new(vset);

    let relays = rotor.select_relays(3);
    assert_eq!(relays.len(), 3);

    let unique: HashSet<_> = relays.iter().collect();
    assert_eq!(unique.len(), relays.len());
}

#[test]
fn relays_are_the_first_honest_validators() {
    let mut vset = create_test_validator_set();
    vset.add_validator(ValidatorConfig {
        id: ValidatorId(1),
        stake: StakeWeight(100),
        is_byzantine: true,
        is_offline: false,
    });
    let rotor = Rotor::new(vset);
    let ids: Vec<u64> = rotor.select_relays(3).iter().map(|v| v.0).collect();
    assert_eq!(ids, vec![0, 2, 3]);
    assert_eq!(rotor.select_relays(10).len(), 4);
    assert_eq!(rotor.simulate_propagation_delay_ms(), 30);
}

#[test]
fn encode_without_validators_fails() {
    let rotor = Rotor::new(ValidatorSet::new());
    assert_eq!(rotor.encode_block(&create_test_block()).unwrap_err(), RotorError::ErasureCodingFailed);
}

#[test]
fn reconstructed_block_is_handed_out_once() {
    let mut rotor = Rotor::new(create_test_validator_set());
    let block = create_test_block();
    let shreds = rotor.encode_block(&block).unwrap();
    let mut outs = 0;
    for s in shreds.iter().cloned() {
        if let Ok(Some(_)) = rotor.receive_shred(s) {
            outs += 1;
        }
    }
    assert_eq!(outs, 1);
    // a duplicate shred afterwards is stored but hands out nothing
    assert!(matches!(rotor.receive_shred(shreds[0].clone()), Ok(None)));
}

#[test]
fn mismatched_block_id_is_invalid() {
    let mut rotor = Rotor::new(create_test_validator_set());
    let block = create_test_block();
    let shreds = rotor.encode_block(&block).unwrap();
    let other = BlockId::new([2; 32]);
    let mut last = Ok(None);
    for s in shreds {
        last = rotor.receive_shred(Shred { block_id: other, ..s });
    }
    assert_eq!(last.unwrap_err(), RotorError::InvalidShred);
    assert!(rotor.get_block(&other).is_none());
}

#[test]
fn garbage_shreds_fail_to_decode() {
    let mut rotor = Rotor::new(create_test_validator_set());
    let id = BlockId::new([4; 32]);
    let mut last = Ok(None);
    for i in 0..5 {
        last = rotor.receive_shred(Shred { block_id: id, index: i, total_shreds: 5, data: vec![0xFF; 3] });
    }
    assert_eq!(last.unwrap_err(), RotorError::ErasureCodingFailed);
}

#[test]
fn block_whose_id_is_not_its_header_digest_is_invalid() {
    let mut rotor = Rotor::new(create_test_validator_set());
    let mut block = create_test_block();
    block.id = BlockId::new([1u8; 32]);
    let shreds = rotor.encode_block(&block).unwrap();
    let mut last = Ok(None);
    for s in shreds {
        last = rotor.receive_shred(s);
    }
    assert_eq!(last.unwrap_err(), RotorError::InvalidShred);
    assert!(!rotor.has_block(&block.id));
}

#[test]
fn duplicate_shred_changes_nothing() {
    let mut rotor = Rotor::new(create_test_validator_set());
    let block = create_test_block();
    let shreds = rotor.encode_block(&block).unwrap();
    for s in shreds.iter().take(2).cloned() {
        assert!(matches!(rotor.receive_shred(s), Ok(None)));
    }
    assert!(matches!(rotor.receive_shred(shreds[0].clone()), Ok(None)));
    assert!(!rotor.has_block(&block.id));
    for s in shreds.iter().skip(2).cloned() {
        rotor.receive_shred(s).ok();
    }
    assert!(rotor.has_block(&block.id));
    assert_eq!(rotor.get_block(&block.id).unwrap().id, block.id);
}

fn weighted_set(stakes: &[u64]) -> ValidatorSet {
    let mut vset = ValidatorSet::new();
    for (i, s) in stakes.iter().enumerate() {
        vset.add_validator(ValidatorConfig {
            id: ValidatorId(i as u64),
            stake: StakeWeight(*s),
            is_byzantine: false,
            is_offline: false,
        });
    }
    vset
}

#[test]
fn sampled_relays_are_deterministic_and_distinct() {
    let a = Rotor::new(weighted_set(&[10, 20, 30, 40, 50]));
    let b = Rotor::new(weighted_set(&[10, 20, 30, 40, 50]));
    let id = BlockId::new([0x5A; 32]);
    let ra = a.sample_relays(&id, 3);
    assert_eq!(ra, b.sample_relays(&id, 3));
    assert_eq!(ra.len(), 3);
    let unique: HashSet<_> = ra.iter().collect();
    assert_eq!(unique.len(), 3);
    assert!(ra.iter().all(|v| v.0 < 5));
    // asking for more than there are gives every validator once
    let all = a.sample_relays(&id, 9);
    assert_eq!(all.len(), 5);
    let unique: HashSet<_> = all.iter().collect();
    assert_eq!(unique.len(), 5);
    assert!(a.sample_relays(&id, 0).is_empty());
}

#[test]
fn sampled_relays_follow_stake() {
    // only validator 2 holds stake: it is the one relay
    let rotor = Rotor::new(weighted_set(&[0, 0, 7, 0]));
    for byte in 0..8u8 {
        let relays = rotor.sample_relays(&BlockId::new([byte; 32]), 3);
        assert_eq!(relays, vec![ValidatorId(2)]);
    }
    // a validator holding nearly all stake is drawn first for most blocks
    let rotor = Rotor::new(weighted_set(&[1, 1_000_000, 1]));
    let firsts = (0..32u8)
        .filter(|b| rotor.sample_relays(&BlockId::new([*b; 32]), 1) == vec![ValidatorId(1)])
        .count();
    assert!(firsts >= 30);
}

#[test]
fn encode_carries_length_and_two_chunks_for_five_validators() {
    let rotor = Rotor::new(create_test_validator_set());
    let block = create_test_block();
    let bytes = encode_block_bytes(&block);
    let shreds = rotor.encode_block(&block).unwrap();
    assert_eq!(shreds.len(), 5);
    let c = (bytes.len() + 4) / 5;
    let mut padded = bytes.clone();
    padded.resize(5 * c, 0);
    let chunk = |j: usize| padded[j * c..(j + 1) * c].to_vec();
    for (i, s) in shreds.iter().enumerate() {
        assert_eq!(s.index, i);
        assert_eq!(s.total_shreds, 5);
        assert_eq!(s.block_id, block.id);
        assert_eq!(s.data.len(), 8 + 2 * c);
        assert_eq!(s.data[..8].to_vec(), (bytes.len() as u64).to_le_bytes().to_vec());
        // its own chunk, then the one before it
        assert_eq!(s.data[8..8 + c].to_vec(), chunk(i));
        assert_eq!(s.data[8 + c..].to_vec(), chunk((i + 4) % 5));
    }
}

#[test]
fn encode_for_many_validators_carries_a_fifth_more_chunks() {
    let mut vset = ValidatorSet::new();
    for i in 0..200 {
        vset.add_validator(ValidatorConfig {
            id: ValidatorId(i),
            stake: StakeWeight(1),
            is_byzantine: false,
            is_offline: false,
        });
    }
    let rotor = Rotor::new(vset);
    let block = create_test_block();
    let bytes = encode_block_bytes(&block);
    assert!(bytes.len() < 200);
    let shreds = rotor.encode_block(&block).unwrap();
    assert_eq!(shreds.len(), 200);
    // one-byte chunks, 41 per shred; chunks past the end are zero
    assert!(shreds.iter().all(|s| s.data.len() == 8 + 41));
    assert_eq!(shreds[0].data[8], bytes[0]);
    assert_eq!(shreds[199].data[8], 0);
}

#[test]
fn reconstruction_from_reversed_delivery() {
    let mut rotor = Rotor::new(create_test_validator_set());
    let mut block = create_test_block();
    block.transactions = vec![vec![10, 20, 30], vec![40, 50]];
    let shreds = rotor.encode_block(&block).unwrap();
    let mut first = None;
    for (k, s) in shreds.into_iter().rev().enumerate() {
        let r = rotor.receive_shred(s);
        if k < 3 {
            assert!(matches!(r, Ok(None)));
        }
        if let Ok(Some(b)) = r {
            assert!(first.is_none());
            first = Some((k, b));
        }
    }
    // the fourth shred, 80% of five, rebuilds the block
    let (k, b) = first.unwrap();
    assert_eq!(k, 3);
    assert_eq!(b.id, block.id);
    assert_eq!(b.slot, block.slot);
    assert_eq!(b.parent, block.parent);
    assert_eq!(b.leader, block.leader);
    assert_eq!(b.transactions, block.transactions);
    assert_eq!(b.timestamp, block.timestamp);
}

#[test]
fn any_four_of_five_shreds_rebuild_the_block() {
    let block = create_test_block();
    for missing in 0..5 {
        let mut rotor = Rotor::new(create_test_validator_set());
        let shreds = rotor.encode_block(&block).unwrap();
        let mut got = None;
        for (i, s) in shreds.into_iter().enumerate() {
            if i != missing {
                if let Ok(Some(b)) = rotor.receive_shred(s) {
                    got = Some(b);
                }
            }
        }
        let b = got.unwrap();
        assert_eq!(b.id, block.id);
        assert_eq!(b.transactions, block.transactions);
        assert_eq!(b.timestamp, block.timestamp);
    }
}

#[test]
fn three_of_five_shreds_are_not_enough() {
    let mut rotor = Rotor::new(create_test_validator_set());
    let block = create_test_block();
    let shreds = rotor.encode_block(&block).unwrap();
    for s in shreds.into_iter().take(3) {
        assert!(matches!(rotor.receive_shred(s), Ok(None)));
    }
    assert!(!rotor.has_block(&block.id));
}

#[test]
fn shred_index_out_of_range_is_invalid() {
    let mut rotor = Rotor::new(create_test_validator_set());
    let id = BlockId::new([9; 32]);
    let bad = Shred { block_id: id, index: 5, total_shreds: 5, data: vec![1] };
    assert_eq!(rotor.receive_shred(bad).unwrap_err(), RotorError::InvalidShred);
    // a total other than the validator count is refused
    let wrong_total = Shred { block_id: id, index: 0, total_shreds: 2, data: vec![1] };
    assert_eq!(rotor.receive_shred(wrong_total).unwrap_err(), RotorError::InvalidShred);
    let ok = Shred { block_id: id, index: 0, total_shreds: 5, data: vec![1] };
    assert!(matches!(rotor.receive_shred(ok), Ok(None)));
    assert!(!rotor.has_block(&id));
}
