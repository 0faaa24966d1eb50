use alpenglow::types::{
    BlockId, Slot, StakeWeight, ValidatorConfig, ValidatorId, ValidatorSet, Vote, VoteRound,
};
use alpenglow::votor::{Votor, VotorError};

fn create_test_validator_set(count: usize) -> ValidatorSet {
    let mut vset = ValidatorSet::new();
    for i in 0..count {
        vset.add_validator(ValidatorConfig {
            id: ValidatorId(i as u64),
            stake: StakeWeight(100),
            is_byzantine: false,
            is_offline: false,
        });
    }
    vset
}

fn vote(i: u64, block_id: BlockId, slot: u64, round: VoteRound) -> Vote {
    Vote { validator: ValidatorId(i), block_id, slot: Slot(slot), round, signature: vec![] }
}

#[test]
fn test_fast_path_finalization() {
    let vset = create_test_validator_set(5);
    let mut votor = Votor::new(vset);

    let block_id = BlockId::new([1u8; 32]);
    let slot = Slot(0);
    votor.register_block(block_id, slot);

    for i in 0..4 {
        let vote = Vote {
            validator: ValidatorId(i),
            block_id,
            slot,
            round: VoteRound::Round1,
            signature: vec![],
        };

        let result = votor.process_vote(vote);
        if i == 3 {
            assert!(result.is_ok());
            assert!(result.unwrap().is_some());
        }
    }

    assert!(votor.is_finalized(&block_id));
}

#[test]
fn test_fallback_path_finalization() {
    let vset = create_test_validator_set(5);
    let mut votor = Votor::new(vset);

    let block_id = BlockId::new([1u8; 32]);
    let slot = Slot(0);
    votor.register_block(block_id, slot);

    for i in 0..3 {
        let vote = Vote {
            validator: ValidatorId(i),
            block_id,
            slot,
            round: VoteRound::Round1,
            signature: vec![],
        };
        let result = votor.process_vote(vote);
        assert!(result.unwrap().is_none());
    }

    votor.advance_to_round2();

    for i in 0..3 {
        let vote = Vote {
            validator: ValidatorId(i),
            block_id,
            slot,
            round: VoteRound::Round2,
            signature: vec![],
        };
        let result = votor.process_vote(vote);
        if i == 2 {
            assert!(result.is_ok());
            assert!(result.unwrap().is_some());
        }
    }

    assert!(votor.is_finalized(&block_id));
}

#[test]
fn test_double_vote_detection() {
    let vset = create_test_validator_set(3);
    let mut votor = Votor::new(vset);

    let block_id = BlockId::new([1u8; 32]);
    let slot = Slot(0);
    votor.register_block(block_id, slot);

    let vote1 = Vote {
        validator: ValidatorId(0),
        block_id,
        slot,
        round: VoteRound::Round1,
        signature: vec![],
    };

    assert!(votor.process_vote(vote1.clone()).is_ok());

    let result = votor.process_vote(vote1);
    assert!(matches!(result, Err(VotorError::DoubleVote(_))));
}

#[test]
fn fast_path_certificate_after_fourth_vote() {
    let mut votor = Votor::new(create_test_validator_set(5));
    let b = BlockId::new([0xB; 32]);
    votor.register_block(b, Slot(0));
    for i in 0..3 {
        assert!(votor.process_vote(vote(i, b, 0, VoteRound::Round1)).unwrap().is_none());
        assert!(!votor.is_finalized(&b));
    }
    let cert = votor.process_vote(vote(3, b, 0, VoteRound::Round1)).unwrap().unwrap();
    assert_eq!(cert.round, VoteRound::Round1);
    assert_eq!(cert.total_stake, StakeWeight(400));
    assert_eq!(cert.block_id, b);
    assert_eq!(cert.slot, Slot(0));
    let voters: Vec<u64> = cert.votes.iter().map(|v| v.validator.0).collect();
    assert_eq!(voters, vec![0, 1, 2, 3]);
    assert!(votor.is_finalized(&b));
    assert_eq!(votor.finalized_blocks().len(), 1);
}

#[test]
fn fallback_certificate_on_third_round2_vote() {
    let mut votor = Votor::new(create_test_validator_set(5));
    let b = BlockId::new([0xB; 32]);
    votor.register_block(b, Slot(0));
    for i in 0..3 {
        assert!(votor.process_vote(vote(i, b, 0, VoteRound::Round1)).unwrap().is_none());
    }
    votor.advance_to_round2();
    assert_eq!(votor.current_round(), VoteRound::Round2);
    assert!(votor.process_vote(vote(0, b, 0, VoteRound::Round2)).unwrap().is_none());
    assert!(votor.process_vote(vote(1, b, 0, VoteRound::Round2)).unwrap().is_none());
    let cert = votor.process_vote(vote(2, b, 0, VoteRound::Round2)).unwrap().unwrap();
    assert_eq!(cert.round, VoteRound::Round2);
    assert_eq!(cert.total_stake, StakeWeight(300));
}

#[test]
fn round2_votes_do_not_finalize_before_round2_opens() {
    let mut votor = Votor::new(create_test_validator_set(5));
    let b = BlockId::new([3; 32]);
    votor.register_block(b, Slot(0));
    for i in 0..4 {
        assert!(votor.process_vote(vote(i, b, 0, VoteRound::Round2)).unwrap().is_none());
    }
    assert!(!votor.is_finalized(&b));
}

#[test]
fn double_vote_leaves_vote_set_unchanged() {
    let mut votor = Votor::new(create_test_validator_set(5));
    let b = BlockId::new([1; 32]);
    votor.register_block(b, Slot(0));
    votor.register_block(BlockId::new([2; 32]), Slot(0));
    assert!(votor.process_vote(vote(0, b, 0, VoteRound::Round1)).unwrap().is_none());
    let again = votor.process_vote(vote(0, b, 0, VoteRound::Round1));
    assert_eq!(again.unwrap_err(), VotorError::DoubleVote(ValidatorId(0)));
    assert_eq!(votor.vote_set(&b).unwrap().round1_count(), 1);
    // the same validator may still vote in round 2 and for another block
    assert!(votor.process_vote(vote(0, b, 0, VoteRound::Round2)).is_ok());
    assert!(votor.process_vote(vote(0, BlockId::new([2; 32]), 0, VoteRound::Round1)).is_ok());
}

#[test]
fn unknown_validator_is_rejected() {
    let mut votor = Votor::new(create_test_validator_set(3));
    let b = BlockId::new([1; 32]);
    let r = votor.process_vote(vote(7, b, 0, VoteRound::Round1));
    assert_eq!(r.unwrap_err(), VotorError::UnknownValidator(ValidatorId(7)));
    assert!(votor.vote_set(&b).is_none());
}

#[test]
fn one_certificate_per_slot() {
    let mut votor = Votor::new(create_test_validator_set(5));
    let b = BlockId::new([1; 32]);
    let other = BlockId::new([2; 32]);
    votor.register_block(b, Slot(0));
    votor.register_block(other, Slot(0));
    votor.register_block(BlockId::new([3; 32]), Slot(1));
    for i in 0..4 {
        votor.process_vote(vote(i, b, 0, VoteRound::Round1)).unwrap();
    }
    // a late fifth vote does not produce a second certificate
    assert!(votor.process_vote(vote(4, b, 0, VoteRound::Round1)).unwrap().is_none());
    // nor does a quorum for another block in the same slot
    for i in 0..5 {
        assert!(votor.process_vote(vote(i, other, 0, VoteRound::Round1)).unwrap().is_none());
    }
    assert_eq!(votor.finalized_blocks().len(), 1);
    assert!(!votor.is_finalized(&other));
    // the next slot can be finalized
    let c = BlockId::new([3; 32]);
    for i in 0..3 {
        votor.process_vote(vote(i, c, 1, VoteRound::Round1)).unwrap();
    }
    assert!(votor.process_vote(vote(3, c, 1, VoteRound::Round1)).unwrap().is_some());
    assert_eq!(votor.finalized_blocks().len(), 2);
}

#[test]
fn next_slot_reopens_round1() {
    let mut votor = Votor::new(create_test_validator_set(2));
    votor.advance_to_round2();
    votor.advance_to_round2();
    assert_eq!(votor.current_round(), VoteRound::Round2);
    votor.next_slot();
    assert_eq!(votor.current_slot(), Slot(1));
    assert_eq!(votor.current_round(), VoteRound::Round1);
}

#[test]
fn vote_for_unknown_block_is_rejected() {
    let mut votor = Votor::new(create_test_validator_set(3));
    let b = BlockId::new([8; 32]);
    let r = votor.process_vote(vote(0, b, 0, VoteRound::Round1));
    assert_eq!(r.unwrap_err(), VotorError::BlockNotFound(b));
    assert!(votor.vote_set(&b).is_none());
}

#[test]
fn vote_with_wrong_slot_is_rejected() {
    let mut votor = Votor::new(create_test_validator_set(5));
    let b = BlockId::new([8; 32]);
    votor.register_block(b, Slot(2));
    // a later registration does not move the block to another slot
    votor.register_block(b, Slot(5));
    let r = votor.process_vote(vote(0, b, 5, VoteRound::Round1));
    assert_eq!(r.unwrap_err(), VotorError::SlotMismatch { expected: Slot(2), got: Slot(5) });
    assert!(votor.vote_set(&b).is_none());
    assert!(votor.process_vote(vote(0, b, 2, VoteRound::Round1)).is_ok());
}

#[test]
fn skipped_slot_gets_no_certificate() {
    let mut votor = Votor::new(create_test_validator_set(5));
    let b = BlockId::new([8; 32]);
    votor.register_block(b, Slot(0));
    votor.mark_skipped(Slot(0));
    assert!(votor.is_skipped(Slot(0)));
    for i in 0..5 {
        assert!(votor.process_vote(vote(i, b, 0, VoteRound::Round1)).unwrap().is_none());
    }
    assert!(!votor.is_finalized(&b));
    assert!(votor.slot_has_block(Slot(0)));
    assert!(!votor.slot_has_block(Slot(1)));
}
