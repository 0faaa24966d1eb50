//! The consensus engine: binds one Votor and one Rotor to a validator,
//! checks the leader role, runs the round-1 timer, aggregates skip votes
//! and rotates leaders round-robin.
//!
//! Time is a monotonic clock reading in milliseconds that the caller
//! passes in; the engine never reads a clock itself.

use crate::codec::block_bytes;
use crate::erasure::coded_shred;
use crate::rotor::{buffers_consistent, receive_outcome, Rotor, RotorError, RotorView, Shred, ShredView};
use crate::types::{
    fallback_threshold, has_id, lemma_fast_quorums_overlap, stake_of, sum_stakes, voters, Block, BlockId, BlockView, CertView,
    FinalizationCertificate, Slot, StakeWeight, ValidatorConfig, ValidatorId, ValidatorSet, Vote,
    VoteRound, VoteView,
};
use crate::votor::{
    certs_match, round1_quorums_settled, sets_match, no_double_vote, no_fork, quorum_valid, round_monotonic, slot_finalized,
    slot_has_block, slot_monotonic, unique_per_slot, vote_outcome, with_block, Votor, VotorError,
    VotorView,
};
use crate::{ROUND1_TIMEOUT_MS, ROUND2_TIMEOUT_MS};
use vstd::prelude::*;

verus! {

/// Errors of the engine.
#[derive(Debug, PartialEq, Eq)]
pub enum ConsensusError {
    VotorError(VotorError),
    RotorError(RotorError),
    NotLeader(Slot),
    InvalidSlot { expected: Slot, got: Slot },
}

/// Timer configuration, in milliseconds.
#[derive(Clone, Copy, Debug)]
pub struct ConsensusConfig {
    pub round1_timeout_ms: u64,
    pub round2_timeout_ms: u64,
}

impl Default for ConsensusConfig {
    fn default() -> (r: Self)
        ensures
            r.round1_timeout_ms == ROUND1_TIMEOUT_MS,
            r.round2_timeout_ms == ROUND2_TIMEOUT_MS,
    {
        ConsensusConfig {
            round1_timeout_ms: ROUND1_TIMEOUT_MS,
            round2_timeout_ms: ROUND2_TIMEOUT_MS,
        }
    }
}

/// A vote to skip a slot that saw no proposal.
#[derive(Clone, Debug)]
pub struct SkipVote {
    pub validator: ValidatorId,
    pub slot: Slot,
    pub signature: Vec<u8>,
}

/// The contents of a skip vote as plain values.
pub struct SkipVoteView {
    pub validator: ValidatorId,
    pub slot: Slot,
    pub signature: Seq<u8>,
}

impl View for SkipVote {
    type V = SkipVoteView;

    open spec fn view(&self) -> SkipVoteView {
        SkipVoteView { validator: self.validator, slot: self.slot, signature: self.signature@ }
    }
}

/// The state of a `ConsensusEngine` as plain values.
pub struct EngineView {
    pub validator_id: ValidatorId,
    pub validators: Seq<ValidatorConfig>,
    pub votor: VotorView,
    pub rotor: RotorView,
    pub leader: ValidatorId,
    pub round1_start: Option<u64>,
    pub round2_start: Option<u64>,
    pub config: ConsensusConfig,
    pub skip_votes: Seq<(Slot, ValidatorId)>,
}

/// `id` is registered and flagged byzantine or offline; such a validator
/// casts no votes of its own.
pub open spec fn is_silent(validators: Seq<ValidatorConfig>, id: ValidatorId) -> bool {
    exists|i: int|
        0 <= i < validators.len() && validators[i].id == id && (validators[i].is_byzantine
            || validators[i].is_offline)
}

/// The round-1 vote this engine casts for a reconstructed block.
pub open spec fn own_vote(e: EngineView, b: BlockView) -> VoteView {
    VoteView {
        validator: e.validator_id,
        block_id: b.id,
        slot: b.slot,
        round: VoteRound::Round1,
        signature: Seq::empty(),
    }
}

/// The validators with a skip vote for `slot`.
pub open spec fn skip_voters(votes: Seq<(Slot, ValidatorId)>, slot: Slot) -> Set<ValidatorId> {
    Set::new(|id: ValidatorId| votes.contains((slot, id)))
}

/// The state after a skip vote of `validator` for `slot`, and the result:
/// an unregistered voter and a second skip vote of a validator for one slot
/// are rejected and change nothing; otherwise the vote is recorded, and the
/// slot is marked skipped when its skip-vote stake reaches the fallback
/// quorum, no block of the slot was proposed or rebuilt here, and the slot
/// is neither skipped nor finalized yet. The result says whether this vote
/// marked it.
pub open spec fn skip_outcome(e: EngineView, validator: ValidatorId, slot: Slot) -> (EngineView, Result<
    bool,
    ConsensusError,
>) {
    if !has_id(e.validators, validator) {
        (e, Err(ConsensusError::VotorError(VotorError::UnknownValidator(validator))))
    } else if e.skip_votes.contains((slot, validator)) {
        (e, Err(ConsensusError::VotorError(VotorError::DoubleVote(validator))))
    } else {
        let votes = e.skip_votes.push((slot, validator));
        let marks = stake_of(e.validators, skip_voters(votes, slot)) >= fallback_threshold(
            sum_stakes(e.validators),
        ) && !e.votor.skipped.contains(slot) && !slot_finalized(e.votor.certs, slot)
            && !slot_has_block(e.votor.blocks, slot);
        (
            EngineView {
                skip_votes: votes,
                votor: if marks {
                    VotorView { skipped: e.votor.skipped.push(slot), ..e.votor }
                } else {
                    e.votor
                },
                ..e
            },
            Ok(marks),
        )
    }
}

/// `r` is the engine's form of the vote result `out`.
pub open spec fn engine_cert_matches(
    r: Result<Option<FinalizationCertificate>, ConsensusError>,
    out: Result<Option<CertView>, VotorError>,
) -> bool {
    match (r, out) {
        (Ok(Some(c)), Ok(Some(d))) => c@ == d,
        (Ok(None), Ok(None)) => true,
        (Err(ConsensusError::VotorError(e1)), Err(e2)) => e1 == e2,
        _ => false,
    }
}

/// `r` reports the vote result `out` without its certificate.
pub open spec fn engine_unit_matches(
    r: Result<(), ConsensusError>,
    out: Result<Option<CertView>, VotorError>,
) -> bool {
    match (r, out) {
        (Ok(()), Ok(_)) => true,
        (Err(ConsensusError::VotorError(e1)), Err(e2)) => e1 == e2,
        _ => false,
    }
}

/// Main consensus engine state.
pub struct ConsensusEngine {
    validator_id: ValidatorId,
    validator_set: ValidatorSet,
    votor: Votor,
    rotor: Rotor,
    current_leader: ValidatorId,
    round1_start: Option<u64>,
    round2_start: Option<u64>,
    config: ConsensusConfig,
    skip_votes: Vec<(Slot, ValidatorId)>,
}

impl View for ConsensusEngine {
    type V = EngineView;

    closed spec fn view(&self) -> EngineView {
        EngineView {
            validator_id: self.validator_id,
            validators: self.validator_set@,
            votor: self.votor@,
            rotor: self.rotor@,
            leader: self.current_leader,
            round1_start: self.round1_start,
            round2_start: self.round2_start,
            config: self.config,
            skip_votes: self.skip_votes@,
        }
    }
}

impl ConsensusEngine {
    /// Votor and Rotor are well formed and hold the engine's registry, and
    /// the leader is a position of the round-robin schedule.
    pub closed spec fn wf(&self) -> bool {
        &&& self.validator_set.wf()
        &&& self.votor.wf()
        &&& self.rotor.wf()
        &&& self.votor@.validators == self.validator_set@
        &&& self.rotor@.validators == self.validator_set@
        &&& (self.current_leader.0 == 0 || self.current_leader.0 < self.validator_set@.len())
    }

    pub fn new(validator_id: ValidatorId, validator_set: ValidatorSet, config: ConsensusConfig) -> (r:
        Self)
        requires
            validator_set.wf(),
        ensures
            r.wf(),
            r@.validator_id == validator_id,
            r@.validators == validator_set@,
            r@.votor == (VotorView {
                slot: Slot(0),
                round: VoteRound::Round1,
                vote_sets: Map::empty(),
                certs: Seq::empty(),
                validators: validator_set@,
                blocks: Map::empty(),
                skipped: Seq::empty(),
            }),
            r@.rotor == (RotorView { validators: validator_set@, buffers: Map::empty() }),
            r@.leader == ValidatorId(0),
            r@.round1_start.is_none(),
            r@.round2_start.is_none(),
            r@.config == config,
            r@.skip_votes == Seq::<(Slot, ValidatorId)>::empty(),
    {
        let votor = Votor::new(validator_set.duplicate());
        let rotor = Rotor::new(validator_set.duplicate());
        let r = ConsensusEngine {
            validator_id,
            validator_set,
            votor,
            rotor,
            current_leader: ValidatorId(0),
            round1_start: None,
            round2_start: None,
            config,
            skip_votes: Vec::new(),
        };
        assert(r@.skip_votes =~= Seq::<(Slot, ValidatorId)>::empty());
        r
    }

    /// In every state the engine reaches, two certificates of one slot
    /// certify one block, each slot has at most one certificate, every
    /// certificate carries the stake of its voters and that stake reaches
    /// the quorum of its round, each validator has at most one vote per
    /// block and round, votes are filed under their own block and round, no
    /// round-1 quorum is left with its slot unsettled, and every shred buffer
    /// is consistent with its reconstructed block.
    pub proof fn lemma_safety(&self)
        requires
            self.wf(),
        ensures
            no_fork(self@.votor.certs),
            unique_per_slot(self@.votor.certs),
            quorum_valid(self@.votor.certs, self@.validators),
            no_double_vote(self@.votor.vote_sets),
            certs_match(self@.votor.certs),
            sets_match(self@.votor.vote_sets),
            buffers_consistent(self@.rotor.buffers),
            round1_quorums_settled(self@.votor),
    {
        self.votor.lemma_round1_quorums_settled();
        self.votor.lemma_vote_sets_match();
        self.rotor.lemma_buffers();
        self.votor.lemma_certificate_votes();
        self.votor.lemma_no_fork();
        self.votor.lemma_unique_certificate();
        self.votor.lemma_quorum_validity();
        self.votor.lemma_no_double_vote();
    }

    /// Two engines over one registry, with a total stake above 4, hold
    /// fast-path certificates whose voters share more than a fifth of the
    /// stake, and each shared voter has round-1 votes for both certified
    /// blocks. Certificates for two different blocks of one slot thus need
    /// validators holding over 20% of the stake to vote for both blocks,
    /// more than the Byzantine stake the protocol tolerates.
    pub proof fn lemma_fork_needs_equivocation(a: &ConsensusEngine, b: &ConsensusEngine, i: int, j: int)
        requires
            a.wf(),
            b.wf(),
            a@.validators == b@.validators,
            sum_stakes(a@.validators) > 4,
            0 <= i < a@.votor.certs.len(),
            0 <= j < b@.votor.certs.len(),
            a@.votor.certs[i].round == VoteRound::Round1,
            b@.votor.certs[j].round == VoteRound::Round1,
        ensures
            ({
                let c = a@.votor.certs[i];
                let d = b@.votor.certs[j];
                let both = voters(c.votes).intersect(voters(d.votes));
                &&& 5 * stake_of(a@.validators, both) > sum_stakes(a@.validators)
                &&& forall|id: ValidatorId|
                    #[trigger] both.contains(id) ==> (exists|k: int|
                        0 <= k < c.votes.len() && c.votes[k].validator == id
                            && c.votes[k].block_id == c.block_id && c.votes[k].round
                            == VoteRound::Round1) && (exists|k: int|
                        0 <= k < d.votes.len() && d.votes[k].validator == id
                            && d.votes[k].block_id == d.block_id && d.votes[k].round
                            == VoteRound::Round1)
            }),
    {
        a.lemma_safety();
        b.lemma_safety();
        let c = a@.votor.certs[i];
        let d = b@.votor.certs[j];
        lemma_fast_quorums_overlap(a@.validators, voters(c.votes), voters(d.votes));
        assert forall|id: ValidatorId| #[trigger]
            voters(c.votes).intersect(voters(d.votes)).contains(id) implies (exists|k: int|
            0 <= k < c.votes.len() && c.votes[k].validator == id && c.votes[k].block_id
                == c.block_id && c.votes[k].round == VoteRound::Round1) && (exists|k: int|
            0 <= k < d.votes.len() && d.votes[k].validator == id && d.votes[k].block_id
                == d.block_id && d.votes[k].round == VoteRound::Round1) by {
            let k1 = choose|k: int| 0 <= k < c.votes.len() && c.votes[k].validator == id;
            let k2 = choose|k: int| 0 <= k < d.votes.len() && d.votes[k].validator == id;
            assert(c.votes[k1].block_id == c.block_id);
            assert(d.votes[k2].block_id == d.block_id);
        }
    }

    /// Starts a slot as its leader: checks the leader role and the slot,
    /// splits the block into shreds for transport, records the block as the
    /// slot's proposal for voting, and starts the round-1 timer at `now_ms`.
    pub fn propose_block(&mut self, block: Block, now_ms: u64) -> (r: Result<
        Vec<Shred>,
        ConsensusError,
    >)
        requires
            old(self).wf(),
        ensures
            final(self).wf(),
            slot_monotonic(old(self)@.votor, final(self)@.votor),
            round_monotonic(old(self)@.votor, final(self)@.votor),
            old(self)@.leader != old(self)@.validator_id ==> r == Err::<Vec<Shred>, ConsensusError>(
                ConsensusError::NotLeader(block.slot),
            ) && final(self)@ == old(self)@,
            old(self)@.leader == old(self)@.validator_id && block.slot != old(self)@.votor.slot
                ==> r == Err::<Vec<Shred>, ConsensusError>(
                ConsensusError::InvalidSlot { expected: old(self)@.votor.slot, got: block.slot },
            ) && final(self)@ == old(self)@,
            old(self)@.leader == old(self)@.validator_id && block.slot == old(self)@.votor.slot
                && old(self)@.validators.len() == 0 ==> r == Err::<Vec<Shred>, ConsensusError>(
                ConsensusError::RotorError(RotorError::ErasureCodingFailed),
            ) && final(self)@ == old(self)@,
            old(self)@.leader == old(self)@.validator_id && block.slot == old(self)@.votor.slot
                && old(self)@.validators.len() > 0 ==> {
                let n = old(self)@.validators.len();
                &&& r is Ok
                &&& r.unwrap()@.len() == n
                &&& forall|i: int|
                    0 <= i < n ==> (#[trigger] r.unwrap()@[i])@ == (ShredView {
                        block_id: block.id,
                        index: i as usize,
                        total_shreds: n as usize,
                        data: coded_shred(block_bytes(block@), n, i),
                    })
                &&& final(self)@ == (EngineView {
                    round1_start: Some(now_ms),
                    votor: VotorView {
                        blocks: with_block(old(self)@.votor.blocks, block.id, block.slot),
                        ..old(self)@.votor
                    },
                    ..old(self)@
                })
            },
    {
        if self.current_leader != self.validator_id {
            return Err(ConsensusError::NotLeader(block.slot));
        }
        let slot = self.votor.current_slot();
        if block.slot != slot {
            return Err(ConsensusError::InvalidSlot { expected: slot, got: block.slot });
        }
        let shreds = match self.rotor.encode_block(&block) {
            Ok(s) => s,
            Err(e) => {
                return Err(ConsensusError::RotorError(e));
            },
        };
        self.votor.register_block(block.id, block.slot);
        self.round1_start = Some(now_ms);
        Ok(shreds)
    }

    /// Receives a shred; when it completes a block, records the block for
    /// voting and casts this validator's round-1 vote for it (a byzantine or
    /// offline validator casts none).
    pub fn receive_shred(&mut self, shred: Shred) -> (r: Result<(), ConsensusError>)
        requires
            old(self).wf(),
        ensures
            final(self).wf(),
            slot_monotonic(old(self)@.votor, final(self)@.votor),
            round_monotonic(old(self)@.votor, final(self)@.votor),
            ({
                let (buffers, out) = receive_outcome(
                    old(self)@.rotor.buffers,
                    old(self)@.validators.len(),
                    shred@,
                );
                &&& final(self)@.rotor == (RotorView { buffers, ..old(self)@.rotor })
                &&& match out {
                    Err(e) => r == Err::<(), ConsensusError>(ConsensusError::RotorError(e))
                        && final(self)@.votor == old(self)@.votor,
                    Ok(None) => r is Ok && final(self)@.votor == old(self)@.votor,
                    Ok(Some(b)) => {
                        let known = VotorView {
                            blocks: with_block(old(self)@.votor.blocks, b.id, b.slot),
                            ..old(self)@.votor
                        };
                        if is_silent(old(self)@.validators, old(self)@.validator_id) {
                            r is Ok && final(self)@.votor == known
                        } else {
                            let (v, res) = vote_outcome(known, own_vote(old(self)@, b));
                            final(self)@.votor == v && engine_unit_matches(r, res)
                        }
                    },
                }
            }),
            final(self)@ == (EngineView {
                votor: final(self)@.votor,
                rotor: final(self)@.rotor,
                ..old(self)@
            }),
    {
        match self.rotor.receive_shred(shred) {
            Err(e) => Err(ConsensusError::RotorError(e)),
            Ok(None) => Ok(()),
            Ok(Some(block)) => self.vote_for_block(block),
        }
    }

    /// Records `block` for voting and casts this validator's round-1 vote
    /// for it, unless it is flagged byzantine or offline.
    fn vote_for_block(&mut self, block: Block) -> (r: Result<(), ConsensusError>)
        requires
            old(self).wf(),
        ensures
            final(self).wf(),
            slot_monotonic(old(self)@.votor, final(self)@.votor),
            round_monotonic(old(self)@.votor, final(self)@.votor),
            is_silent(old(self)@.validators, old(self)@.validator_id) ==> r is Ok && final(self)@
                == (EngineView {
                votor: VotorView {
                    blocks: with_block(old(self)@.votor.blocks, block.id, block.slot),
                    ..old(self)@.votor
                },
                ..old(self)@
            }),
            !is_silent(old(self)@.validators, old(self)@.validator_id) ==> {
                let known = VotorView {
                    blocks: with_block(old(self)@.votor.blocks, block.id, block.slot),
                    ..old(self)@.votor
                };
                let (v, res) = vote_outcome(known, own_vote(old(self)@, block@));
                &&& final(self)@ == (EngineView { votor: v, ..old(self)@ })
                &&& engine_unit_matches(r, res)
            },
    {
        self.votor.register_block(block.id, block.slot);
        match self.validator_set.get_validator(&self.validator_id) {
            Some(config) => {
                if config.is_byzantine || config.is_offline {
                    return Ok(());
                }
                proof {
                    self.validator_set.lemma_wf();
                    if is_silent(self@.validators, self.validator_id) {
                        let i = choose|i: int|
                            0 <= i < self@.validators.len() && self@.validators[i].id
                                == self.validator_id && (self@.validators[i].is_byzantine
                                || self@.validators[i].is_offline);
                        let j = choose|j: int|
                            0 <= j < self@.validators.len() && self@.validators[j] == *config;
                        assert(i == j);
                    }
                }
            },
            None => {},
        }
        let vote = Vote {
            validator: self.validator_id,
            block_id: block.id,
            slot: block.slot,
            round: VoteRound::Round1,
            signature: Vec::new(),
        };
        assert(vote@ == own_vote(self@, block@));
        match self.votor.process_vote(vote) {
            Ok(_) => Ok(()),
            Err(e) => Err(ConsensusError::VotorError(e)),
        }
    }

    /// Processes a vote from any validator.
    pub fn process_vote(&mut self, vote: Vote) -> (r: Result<
        Option<FinalizationCertificate>,
        ConsensusError,
    >)
        requires
            old(self).wf(),
        ensures
            final(self).wf(),
            slot_monotonic(old(self)@.votor, final(self)@.votor),
            round_monotonic(old(self)@.votor, final(self)@.votor),
            final(self)@ == (EngineView {
                votor: vote_outcome(old(self)@.votor, vote@).0,
                ..old(self)@
            }),
            engine_cert_matches(r, vote_outcome(old(self)@.votor, vote@).1),
    {
        match self.votor.process_vote(vote) {
            Ok(c) => Ok(c),
            Err(e) => Err(ConsensusError::VotorError(e)),
        }
    }

    /// Opens round 2 once the round-1 timer, started at a proposal, has run
    /// for the configured timeout at `now_ms`, and starts the round-2 timer.
    /// Returns true once per timer; later calls return false until a new
    /// round 1 begins.
    pub fn check_round1_timeout(&mut self, now_ms: u64) -> (r: bool)
        requires
            old(self).wf(),
        ensures
            final(self).wf(),
            slot_monotonic(old(self)@.votor, final(self)@.votor),
            round_monotonic(old(self)@.votor, final(self)@.votor),
            r == match old(self)@.round1_start {
                Some(s) => now_ms >= s && now_ms - s >= old(self)@.config.round1_timeout_ms,
                None => false,
            },
            r ==> final(self)@ == (EngineView {
                votor: VotorView { round: VoteRound::Round2, ..old(self)@.votor },
                round1_start: None,
                round2_start: Some(now_ms),
                ..old(self)@
            }),
            !r ==> final(self)@ == old(self)@,
    {
        match self.round1_start {
            Some(start) => {
                if now_ms >= start && now_ms - start >= self.config.round1_timeout_ms {
                    self.advance_to_round2();
                    self.round1_start = None;
                    self.round2_start = Some(now_ms);
                    true
                } else {
                    false
                }
            },
            None => false,
        }
    }

    /// Liveness fallback: once the round-2 timer has run for the configured
    /// timeout at `now_ms` and the current slot has neither a certificate nor
    /// a skip mark, marks the slot skipped. Returns true once per timer.
    pub fn check_round2_timeout(&mut self, now_ms: u64) -> (r: bool)
        requires
            old(self).wf(),
        ensures
            final(self).wf(),
            slot_monotonic(old(self)@.votor, final(self)@.votor),
            round_monotonic(old(self)@.votor, final(self)@.votor),
            ({
                let elapsed = match old(self)@.round2_start {
                    Some(s) => now_ms >= s && now_ms - s >= old(self)@.config.round2_timeout_ms,
                    None => false,
                };
                let slot = old(self)@.votor.slot;
                let open = !slot_finalized(old(self)@.votor.certs, slot)
                    && !old(self)@.votor.skipped.contains(slot);
                &&& r == (elapsed && open)
                &&& final(self)@ == if !elapsed {
                    old(self)@
                } else if open {
                    EngineView {
                        round2_start: None,
                        votor: VotorView {
                            skipped: old(self)@.votor.skipped.push(slot),
                            ..old(self)@.votor
                        },
                        ..old(self)@
                    }
                } else {
                    EngineView { round2_start: None, ..old(self)@ }
                }
            }),
    {
        let elapsed = match self.round2_start {
            Some(start) => now_ms >= start && now_ms - start >= self.config.round2_timeout_ms,
            None => false,
        };
        if !elapsed {
            return false;
        }
        self.round2_start = None;
        let slot = self.votor.current_slot();
        if self.votor.slot_has_certificate(slot) || self.votor.is_skipped(slot) {
            return false;
        }
        self.votor.mark_skipped(slot);
        true
    }

    /// Opens round 2.
    fn advance_to_round2(&mut self)
        requires
            old(self).wf(),
        ensures
            final(self).wf(),
            final(self)@ == (EngineView {
                votor: VotorView { round: VoteRound::Round2, ..old(self)@.votor },
                ..old(self)@
            }),
    {
        self.votor.advance_to_round2();
    }

    /// Moves to the next slot: round 1 reopens, both timers are cleared and
    /// the leader rotates round-robin over the validator count.
    pub fn next_slot(&mut self)
        requires
            old(self).wf(),
            old(self)@.votor.slot.0 < u64::MAX,
            old(self)@.validators.len() > 0,
        ensures
            final(self).wf(),
            slot_monotonic(old(self)@.votor, final(self)@.votor),
            round_monotonic(old(self)@.votor, final(self)@.votor),
            final(self)@ == (EngineView {
                votor: VotorView {
                    slot: Slot((old(self)@.votor.slot.0 + 1) as u64),
                    round: VoteRound::Round1,
                    ..old(self)@.votor
                },
                round1_start: None,
                round2_start: None,
                leader: ValidatorId(
                    ((old(self)@.leader.0 + 1) % (old(self)@.validators.len() as int)) as u64,
                ),
                ..old(self)@
            }),
    {
        self.votor.next_slot();
        self.round1_start = None;
        self.round2_start = None;
        let n = self.validator_set.len() as u64;
        self.current_leader = ValidatorId((self.current_leader.0 + 1) % n);
    }

    /// Records a skip vote, as `skip_outcome` describes.
    pub fn process_skip_vote(&mut self, vote: SkipVote) -> (r: Result<bool, ConsensusError>)
        requires
            old(self).wf(),
        ensures
            final(self).wf(),
            slot_monotonic(old(self)@.votor, final(self)@.votor),
            round_monotonic(old(self)@.votor, final(self)@.votor),
            final(self)@ == skip_outcome(old(self)@, vote.validator, vote.slot).0,
            r == skip_outcome(old(self)@, vote.validator, vote.slot).1,
    {
        if self.validator_set.get_validator(&vote.validator).is_none() {
            return Err(ConsensusError::VotorError(VotorError::UnknownValidator(vote.validator)));
        }
        if self.has_skip_vote(vote.slot, vote.validator) {
            return Err(ConsensusError::VotorError(VotorError::DoubleVote(vote.validator)));
        }
        self.skip_votes.push((vote.slot, vote.validator));
        let stake = self.skip_stake(vote.slot);
        let marks = self.validator_set.check_fallback_quorum(stake) && !self.votor.is_skipped(
            vote.slot,
        ) && !self.votor.slot_has_certificate(vote.slot) && !self.votor.slot_has_block(vote.slot);
        if marks {
            self.votor.mark_skipped(vote.slot);
        }
        Ok(marks)
    }

    /// Casts this validator's skip vote for `slot` (a byzantine or offline
    /// validator casts none, and the result is `Ok(false)`).
    pub fn vote_skip(&mut self, slot: Slot) -> (r: Result<bool, ConsensusError>)
        requires
            old(self).wf(),
        ensures
            final(self).wf(),
            slot_monotonic(old(self)@.votor, final(self)@.votor),
            round_monotonic(old(self)@.votor, final(self)@.votor),
            is_silent(old(self)@.validators, old(self)@.validator_id) ==> r == Ok::<
                bool,
                ConsensusError,
            >(false) && final(self)@ == old(self)@,
            !is_silent(old(self)@.validators, old(self)@.validator_id) ==> final(self)@
                == skip_outcome(old(self)@, old(self)@.validator_id, slot).0 && r == skip_outcome(
                old(self)@,
                old(self)@.validator_id,
                slot,
            ).1,
    {
        match self.validator_set.get_validator(&self.validator_id) {
            Some(config) => {
                if config.is_byzantine || config.is_offline {
                    return Ok(false);
                }
                proof {
                    self.validator_set.lemma_wf();
                    if is_silent(self@.validators, self.validator_id) {
                        let i = choose|i: int|
                            0 <= i < self@.validators.len() && self@.validators[i].id
                                == self.validator_id && (self@.validators[i].is_byzantine
                                || self@.validators[i].is_offline);
                        let j = choose|j: int|
                            0 <= j < self@.validators.len() && self@.validators[j] == *config;
                        assert(i == j);
                    }
                }
            },
            None => {},
        }
        let vote = SkipVote { validator: self.validator_id, slot, signature: Vec::new() };
        self.process_skip_vote(vote)
    }

    /// `validator` has a skip vote for `slot`.
    fn has_skip_vote(&self, slot: Slot, validator: ValidatorId) -> (r: bool)
        ensures
            r == self@.skip_votes.contains((slot, validator)),
    {
        let mut i: usize = 0;
        while i < self.skip_votes.len()
            invariant
                0 <= i <= self.skip_votes@.len(),
                forall|j: int| 0 <= j < i ==> self.skip_votes@[j] != (slot, validator),
            decreases self.skip_votes@.len() - i,
        {
            let (s, v) = self.skip_votes[i];
            if s == slot && v == validator {
                assert(self.skip_votes@[i as int] == (slot, validator));
                return true;
            }
            i = i + 1;
        }
        false
    }

    /// Stake of the validators with a skip vote for `slot`.
    fn skip_stake(&self, slot: Slot) -> (r: StakeWeight)
        requires
            self.validator_set.wf(),
        ensures
            r.0 == stake_of(self@.validators, skip_voters(self@.skip_votes, slot)),
    {
        let ghost sv = self.skip_votes@;
        let mut ids: Vec<ValidatorId> = Vec::new();
        let mut i: usize = 0;
        while i < self.skip_votes.len()
            invariant
                0 <= i <= sv.len(),
                sv == self.skip_votes@,
                forall|k: int|
                    0 <= k < ids@.len() ==> exists|j: int|
                        0 <= j < i && sv[j] == (slot, #[trigger] ids@[k]),
                forall|j: int| 0 <= j < i && (#[trigger] sv[j]).0 == slot ==> ids@.contains(sv[j].1),
            decreases sv.len() - i,
        {
            let (s, v) = self.skip_votes[i];
            if s == slot {
                let ghost before = ids@;
                ids.push(v);
                proof {
                    assert(ids@[ids@.len() - 1] == v);
                    assert(ids@.drop_last() =~= before);
                    assert forall|k: int| 0 <= k < ids@.len() implies exists|j: int|
                        0 <= j < i + 1 && sv[j] == (slot, #[trigger] ids@[k]) by {
                        if k == ids@.len() - 1 {
                            assert(sv[i as int] == (slot, ids@[k]));
                        } else {
                            let j = choose|j: int| 0 <= j < i && sv[j] == (slot, ids@.drop_last()[k]);
                            assert(sv[j] == (slot, ids@[k]));
                        }
                    }
                    assert forall|j: int| 0 <= j < i + 1 && (#[trigger] sv[j]).0 == slot implies ids@.contains(sv[j].1) by {
                        if j < i {
                            assert(before.contains(sv[j].1));
                            let k = choose|k: int| 0 <= k < before.len() && before[k] == sv[j].1;
                            assert(ids@[k] == sv[j].1);
                        } else {
                            assert(ids@[ids@.len() - 1] == sv[j].1);
                        }
                    }
                }
            }
            i = i + 1;
        }
        proof {
            assert forall|id: ValidatorId| #[trigger] ids@.to_set().contains(id) == skip_voters(sv, slot).contains(id) by {
                if ids@.contains(id) {
                    let k = choose|k: int| 0 <= k < ids@.len() && ids@[k] == id;
                    let j = choose|j: int| 0 <= j < i && sv[j] == (slot, ids@[k]);
                    assert(sv.contains((slot, id)));
                }
                if sv.contains((slot, id)) {
                    let j = choose|j: int| 0 <= j < sv.len() && sv[j] == (slot, id);
                    assert(sv[j].0 == slot);
                }
            }
            assert(ids@.to_set() =~= skip_voters(sv, slot));
        }
        self.validator_set.calculate_stake(&ids)
    }

    /// `slot` was marked skipped.
    pub fn is_skipped(&self, slot: Slot) -> (r: bool)
        ensures
            r == self@.votor.skipped.contains(slot),
    {
        self.votor.is_skipped(slot)
    }

    /// This validator leads the current slot.
    pub fn is_leader(&self) -> (r: bool)
        ensures
            r == (self@.leader == self@.validator_id),
    {
        self.current_leader == self.validator_id
    }

    pub fn current_leader(&self) -> (r: ValidatorId)
        ensures
            r == self@.leader,
    {
        self.current_leader
    }

    /// Number of registered validators.
    pub fn validator_count(&self) -> (r: usize)
        ensures
            r == self@.validators.len(),
    {
        self.validator_set.len()
    }

    pub fn current_slot(&self) -> (r: Slot)
        ensures
            r == self@.votor.slot,
    {
        self.votor.current_slot()
    }

    pub fn current_round(&self) -> (r: VoteRound)
        ensures
            r == self@.votor.round,
    {
        self.votor.current_round()
    }

    /// The certificates, in the order they were emitted.
    pub fn finalized_blocks(&self) -> (r: &[FinalizationCertificate])
        ensures
            r@.map_values(|c: FinalizationCertificate| c@) == self@.votor.certs,
    {
        self.votor.finalized_blocks()
    }

    /// Some certificate certifies `block_id`.
    pub fn is_finalized(&self, block_id: &BlockId) -> (r: bool)
        ensures
            r == exists|i: int|
                0 <= i < self@.votor.certs.len() && self@.votor.certs[i].block_id == *block_id,
    {
        self.votor.is_finalized(block_id)
    }
}

} // verus!
