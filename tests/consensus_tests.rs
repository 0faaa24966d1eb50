use alpenglow::consensus::{ConsensusConfig, ConsensusEngine, ConsensusError, SkipVote};
use alpenglow::rotor::RotorError;
use alpenglow::types::{
    Block, BlockId, Slot, StakeWeight, ValidatorConfig, ValidatorId, ValidatorSet, Vote, VoteRound,
};
use alpenglow::votor::VotorError;

fn create_test_validator_set(count: usize) -> ValidatorSet {
    let mut vset = ValidatorSet::new();
    for i in 0..count {
        vset.add_validator(ValidatorConfig {
            id: ValidatorId(i as u64),
            stake: StakeWeight(100),
            is_byzantine: false,
            is_offline: false,
        });
    }
    vset
}

fn create_test_block(slot: u64, leader: ValidatorId) -> Block {
    let mut block = Block {
        id: BlockId::new([0u8; 32]),
        slot: Slot(slot),
        parent: None,
        leader,
        transactions: vec![],
        timestamp: 1000 + slot,
    };
    block.id = block.compute_id();
    block
}

fn vote(i: u64, block: &Block, round: VoteRound) -> Vote {
    Vote { validator: ValidatorId(i), block_id: block.id, slot: block.slot, round, signature: vec![] }
}

#[test]
fn test_consensus_engine_creation() {
    let vset = create_test_validator_set(5);
    let config = ConsensusConfig::default();
    let engine = ConsensusEngine::new(ValidatorId(0), vset, config);

    assert_eq!(engine.current_slot(), Slot(0));
    assert!(engine.is_leader());
}

#[test]
fn test_block_proposal_and_finalization() {
    let vset = create_test_validator_set(5);
    let config = ConsensusConfig::default();

    let mut engines: Vec<_> = (0..5)
        .map(|i| ConsensusEngine::new(ValidatorId(i), vset.clone(), config.clone()))
        .collect();

    let block = create_test_block(0, ValidatorId(0));
    let shreds = engines[0].propose_block(block.clone(), 0).unwrap();

    let mut votes = Vec::new();
    for (i, engine) in engines.iter_mut().enumerate() {
        for shred in shreds.clone() {
            engine.receive_shred(shred).ok();
        }
        votes.push(Vote {
            validator: ValidatorId(i as u64),
            block_id: block.id,
            slot: block.slot,
            round: VoteRound::Round1,
            signature: vec![],
        });
    }

    for engine in &mut engines {
        for vote in votes.clone() {
            engine.process_vote(vote).ok();
        }
    }

    for engine in &engines {
        assert!(engine.is_finalized(&block.id));
    }
}

#[test]
fn default_timeouts() {
    let c = ConsensusConfig::default();
    assert_eq!(c.round1_timeout_ms, 100);
    assert_eq!(c.round2_timeout_ms, 150);
}

#[test]
fn only_the_leader_proposes_for_the_current_slot() {
    let vset = create_test_validator_set(5);
    let mut follower = ConsensusEngine::new(ValidatorId(1), vset.clone(), ConsensusConfig::default());
    let block = create_test_block(0, ValidatorId(0));
    assert_eq!(follower.propose_block(block, 0).unwrap_err(), ConsensusError::NotLeader(Slot(0)));

    let mut leader = ConsensusEngine::new(ValidatorId(0), vset, ConsensusConfig::default());
    let late = create_test_block(3, ValidatorId(0));
    assert_eq!(
        leader.propose_block(late, 0).unwrap_err(),
        ConsensusError::InvalidSlot { expected: Slot(0), got: Slot(3) }
    );
    // no timer was started by the rejected proposals
    assert!(!leader.check_round1_timeout(10_000));
}

#[test]
fn fast_path_scenario() {
    let vset = create_test_validator_set(5);
    let mut engine = ConsensusEngine::new(ValidatorId(0), vset, ConsensusConfig::default());
    let b = create_test_block(0, ValidatorId(0));
    let shreds = engine.propose_block(b.clone(), 0).unwrap();
    assert_eq!(shreds.len(), 5);
    // the leader rebuilds its own block and votes for it (V0)
    for s in shreds {
        engine.receive_shred(s).ok();
    }
    assert!(!engine.is_finalized(&b.id));
    for i in 1..3 {
        assert!(engine.process_vote(vote(i, &b, VoteRound::Round1)).unwrap().is_none());
    }
    let cert = engine.process_vote(vote(3, &b, VoteRound::Round1)).unwrap().unwrap();
    assert_eq!(cert.round, VoteRound::Round1);
    assert_eq!(cert.total_stake, StakeWeight(400));
    assert!(engine.is_finalized(&b.id));
    assert_eq!(engine.finalized_blocks().len(), 1);
}

#[test]
fn fallback_path_scenario() {
    let vset = create_test_validator_set(5);
    let mut engine = ConsensusEngine::new(ValidatorId(0), vset, ConsensusConfig::default());
    let b = create_test_block(0, ValidatorId(0));
    engine.propose_block(b.clone(), 1_000).unwrap();
    for i in 0..3 {
        assert!(engine.process_vote(vote(i, &b, VoteRound::Round1)).unwrap().is_none());
    }
    assert!(!engine.check_round1_timeout(1_099));
    assert!(engine.check_round1_timeout(1_100));
    assert_eq!(engine.current_round(), VoteRound::Round2);
    // the transition happens once
    assert!(!engine.check_round1_timeout(5_000));
    assert!(engine.process_vote(vote(0, &b, VoteRound::Round2)).unwrap().is_none());
    assert!(engine.process_vote(vote(1, &b, VoteRound::Round2)).unwrap().is_none());
    let cert = engine.process_vote(vote(2, &b, VoteRound::Round2)).unwrap().unwrap();
    assert_eq!(cert.round, VoteRound::Round2);
    assert_eq!(cert.total_stake, StakeWeight(300));
}

#[test]
fn double_vote_scenario() {
    let vset = create_test_validator_set(5);
    let mut engine = ConsensusEngine::new(ValidatorId(0), vset, ConsensusConfig::default());
    let b = create_test_block(0, ValidatorId(0));
    engine.propose_block(b.clone(), 0).unwrap();
    assert!(engine.process_vote(vote(0, &b, VoteRound::Round1)).is_ok());
    assert_eq!(
        engine.process_vote(vote(0, &b, VoteRound::Round1)).unwrap_err(),
        ConsensusError::VotorError(VotorError::DoubleVote(ValidatorId(0)))
    );
    assert_eq!(
        engine.process_vote(vote(9, &b, VoteRound::Round1)).unwrap_err(),
        ConsensusError::VotorError(VotorError::UnknownValidator(ValidatorId(9)))
    );
}

#[test]
fn skip_scenario() {
    let vset = create_test_validator_set(5);
    let mut engine = ConsensusEngine::new(ValidatorId(2), vset, ConsensusConfig::default());
    assert_eq!(engine.current_leader(), ValidatorId(0));
    assert_eq!(engine.vote_skip(Slot(0)), Ok(false));
    let skip = |i: u64| SkipVote { validator: ValidatorId(i), slot: Slot(0), signature: vec![] };
    assert_eq!(engine.process_skip_vote(skip(0)), Ok(false));
    assert_eq!(
        engine.process_skip_vote(skip(0)),
        Err(ConsensusError::VotorError(VotorError::DoubleVote(ValidatorId(0))))
    );
    assert!(!engine.is_skipped(Slot(0)));
    assert_eq!(engine.process_skip_vote(skip(4)), Ok(true));
    assert!(engine.is_skipped(Slot(0)));
    // further skip votes do not mark it again
    assert_eq!(engine.process_skip_vote(skip(3)), Ok(false));
    engine.next_slot();
    assert_eq!(engine.current_slot(), Slot(1));
    assert_eq!(engine.current_leader(), ValidatorId(1));
}

#[test]
fn unknown_skip_voter_is_rejected() {
    let mut engine = ConsensusEngine::new(ValidatorId(0), create_test_validator_set(3), ConsensusConfig::default());
    let r = engine.process_skip_vote(SkipVote { validator: ValidatorId(8), slot: Slot(0), signature: vec![] });
    assert_eq!(r, Err(ConsensusError::VotorError(VotorError::UnknownValidator(ValidatorId(8)))));
}

#[test]
fn finalized_slot_is_not_skipped() {
    let vset = create_test_validator_set(5);
    let mut engine = ConsensusEngine::new(ValidatorId(0), vset, ConsensusConfig::default());
    let b = create_test_block(0, ValidatorId(0));
    engine.propose_block(b.clone(), 0).unwrap();
    for i in 0..4 {
        engine.process_vote(vote(i, &b, VoteRound::Round1)).unwrap();
    }
    for i in 0..5 {
        let r = engine.process_skip_vote(SkipVote { validator: ValidatorId(i), slot: Slot(0), signature: vec![] });
        assert_eq!(r, Ok(false));
    }
    assert!(!engine.is_skipped(Slot(0)));
}

#[test]
fn leader_rotates_round_robin() {
    let mut engine = ConsensusEngine::new(ValidatorId(2), create_test_validator_set(3), ConsensusConfig::default());
    let mut leaders = Vec::new();
    for _ in 0..4 {
        engine.next_slot();
        leaders.push(engine.current_leader().0);
    }
    assert_eq!(leaders, vec![1, 2, 0, 1]);
    assert_eq!(engine.current_slot(), Slot(4));
    assert_eq!(engine.current_round(), VoteRound::Round1);
}

#[test]
fn next_slot_clears_the_round1_timer() {
    let mut engine = ConsensusEngine::new(ValidatorId(0), create_test_validator_set(1), ConsensusConfig::default());
    engine.propose_block(create_test_block(0, ValidatorId(0)), 0).unwrap();
    engine.next_slot();
    assert!(!engine.check_round1_timeout(1_000));
    assert_eq!(engine.current_round(), VoteRound::Round1);
}

#[test]
fn byzantine_engine_does_not_vote_for_rebuilt_block() {
    let mut vset = create_test_validator_set(5);
    vset.add_validator(ValidatorConfig {
        id: ValidatorId(0),
        stake: StakeWeight(100),
        is_byzantine: true,
        is_offline: false,
    });
    let mut engine = ConsensusEngine::new(ValidatorId(0), vset, ConsensusConfig::default());
    let b = create_test_block(0, ValidatorId(0));
    let shreds = engine.propose_block(b.clone(), 0).unwrap();
    for s in shreds {
        engine.receive_shred(s).ok();
    }
    // it cast no vote of its own: V1..V3 make three of five, short of the
    // fast quorum, and V4 completes it
    for i in 1..4 {
        assert!(engine.process_vote(vote(i, &b, VoteRound::Round1)).unwrap().is_none());
    }
    assert!(engine.process_vote(vote(4, &b, VoteRound::Round1)).unwrap().is_some());
}

#[test]
fn corrupt_shred_is_reported() {
    let mut engine = ConsensusEngine::new(ValidatorId(0), create_test_validator_set(5), ConsensusConfig::default());
    let b = create_test_block(0, ValidatorId(0));
    let mut shreds = engine.propose_block(b, 0).unwrap();
    shreds[0].index = 9;
    assert_eq!(
        engine.receive_shred(shreds[0].clone()).unwrap_err(),
        ConsensusError::RotorError(RotorError::InvalidShred)
    );
}

#[test]
fn partition_then_heal() {
    // four validators, partition {V0, V1} | {V2, V3}
    let vset = create_test_validator_set(4);
    let mut engines: Vec<ConsensusEngine> = (0..4)
        .map(|i| ConsensusEngine::new(ValidatorId(i), vset.clone(), ConsensusConfig::default()))
        .collect();
    let b = create_test_block(0, ValidatorId(0));
    let shreds = engines[0].propose_block(b.clone(), 0).unwrap();
    // every engine rebuilds the block and casts its own round-1 vote
    for e in engines.iter_mut() {
        for s in shreds.clone() {
            e.receive_shred(s).ok();
        }
    }
    let sides = [vec![0u64, 1], vec![2u64, 3]];
    for side in &sides {
        for &e in side {
            for &v in side {
                if v != e {
                    assert!(engines[e as usize].process_vote(vote(v, &b, VoteRound::Round1)).unwrap().is_none());
                }
            }
        }
    }
    for e in &engines {
        assert!(!e.is_finalized(&b.id));
    }
    // heal: the votes of the other side arrive
    for (k, side) in sides.iter().enumerate() {
        let other = &sides[1 - k];
        for &e in side {
            for &v in other {
                engines[e as usize].process_vote(vote(v, &b, VoteRound::Round1)).unwrap();
            }
        }
    }
    for e in &engines {
        assert!(e.is_finalized(&b.id));
        assert_eq!(e.finalized_blocks().len(), 1);
        assert_eq!(e.finalized_blocks()[0].block_id, b.id);
    }
}

#[test]
fn partitioned_side_cannot_finalize_in_round2() {
    let vset = create_test_validator_set(4);
    let mut engine = ConsensusEngine::new(ValidatorId(0), vset, ConsensusConfig::default());
    let b = create_test_block(0, ValidatorId(0));
    engine.propose_block(b.clone(), 0).unwrap();
    for v in 0..2 {
        assert!(engine.process_vote(vote(v, &b, VoteRound::Round1)).unwrap().is_none());
    }
    assert!(engine.check_round1_timeout(100));
    for v in 0..2 {
        assert!(engine.process_vote(vote(v, &b, VoteRound::Round2)).unwrap().is_none());
    }
    assert!(engine.finalized_blocks().is_empty());
    // after the heal a third round-2 vote reaches the fallback quorum
    let cert = engine.process_vote(vote(2, &b, VoteRound::Round2)).unwrap().unwrap();
    assert_eq!(cert.round, VoteRound::Round2);
    assert_eq!(cert.total_stake, StakeWeight(300));
    assert_eq!(cert.block_id, b.id);
}

#[test]
fn votes_for_unseen_blocks_or_wrong_slots_are_rejected() {
    let vset = create_test_validator_set(5);
    let mut engine = ConsensusEngine::new(ValidatorId(0), vset, ConsensusConfig::default());
    let later = create_test_block(3, ValidatorId(0));
    assert_eq!(
        engine.process_vote(vote(1, &later, VoteRound::Round1)).unwrap_err(),
        ConsensusError::VotorError(VotorError::BlockNotFound(later.id))
    );
    let b = create_test_block(0, ValidatorId(0));
    engine.propose_block(b.clone(), 0).unwrap();
    let mut wrong = vote(1, &b, VoteRound::Round1);
    wrong.slot = Slot(1);
    assert_eq!(
        engine.process_vote(wrong).unwrap_err(),
        ConsensusError::VotorError(VotorError::SlotMismatch { expected: Slot(0), got: Slot(1) })
    );
}

#[test]
fn skipped_slot_is_not_finalized_later() {
    let vset = create_test_validator_set(5);
    let mut engine = ConsensusEngine::new(ValidatorId(0), vset, ConsensusConfig::default());
    for i in 0..3 {
        engine.process_skip_vote(SkipVote { validator: ValidatorId(i), slot: Slot(0), signature: vec![] }).unwrap();
    }
    assert!(engine.is_skipped(Slot(0)));
    let b = create_test_block(0, ValidatorId(0));
    engine.propose_block(b.clone(), 0).unwrap();
    for i in 0..5 {
        assert!(engine.process_vote(vote(i, &b, VoteRound::Round1)).unwrap().is_none());
    }
    assert!(!engine.is_finalized(&b.id));
}

#[test]
fn slot_with_a_proposal_is_not_skipped_by_votes() {
    let vset = create_test_validator_set(5);
    let mut engine = ConsensusEngine::new(ValidatorId(0), vset, ConsensusConfig::default());
    engine.propose_block(create_test_block(0, ValidatorId(0)), 0).unwrap();
    for i in 0..5 {
        let r = engine.process_skip_vote(SkipVote { validator: ValidatorId(i), slot: Slot(0), signature: vec![] });
        assert_eq!(r, Ok(false));
    }
    assert!(!engine.is_skipped(Slot(0)));
}

#[test]
fn round2_timeout_skips_an_unfinalized_slot() {
    let mut engine = ConsensusEngine::new(ValidatorId(0), create_test_validator_set(5), ConsensusConfig::default());
    let b = create_test_block(0, ValidatorId(0));
    engine.propose_block(b, 0).unwrap();
    // no round-2 timer before round 2 opens
    assert!(!engine.check_round2_timeout(1_000));
    assert!(engine.check_round1_timeout(100));
    assert!(!engine.check_round2_timeout(249));
    assert!(!engine.is_skipped(Slot(0)));
    assert!(engine.check_round2_timeout(250));
    assert!(engine.is_skipped(Slot(0)));
    // once per timer
    assert!(!engine.check_round2_timeout(10_000));
}

#[test]
fn round2_timeout_leaves_a_finalized_slot_alone() {
    let mut engine = ConsensusEngine::new(ValidatorId(0), create_test_validator_set(5), ConsensusConfig::default());
    let b = create_test_block(0, ValidatorId(0));
    engine.propose_block(b.clone(), 0).unwrap();
    assert!(engine.check_round1_timeout(100));
    for i in 0..3 {
        engine.process_vote(vote(i, &b, VoteRound::Round2)).unwrap();
    }
    assert!(engine.is_finalized(&b.id));
    assert!(!engine.check_round2_timeout(1_000));
    assert!(!engine.is_skipped(Slot(0)));
}

#[test]
fn own_vote_is_a_round1_vote_even_in_round2() {
    let mut engine = ConsensusEngine::new(ValidatorId(0), create_test_validator_set(5), ConsensusConfig::default());
    let b = create_test_block(0, ValidatorId(0));
    let shreds = engine.propose_block(b.clone(), 0).unwrap();
    assert!(engine.check_round1_timeout(500));
    for s in shreds {
        engine.receive_shred(s).ok();
    }
    for i in 1..3 {
        assert!(engine.process_vote(vote(i, &b, VoteRound::Round1)).unwrap().is_none());
    }
    let cert = engine.process_vote(vote(3, &b, VoteRound::Round1)).unwrap().unwrap();
    assert_eq!(cert.round, VoteRound::Round1);
    assert_eq!(cert.total_stake, StakeWeight(400));
}
