//! Votor: the voting state machine.
//!
//! Round 1 collects notarization votes toward the fast quorum (80% of
//! stake); round 2 collects finalization votes toward the fallback quorum
//! (60% of stake). A vote counts only for a block that was registered with
//! its slot, and only with that slot. At most one certificate is emitted
//! per slot, and none for a slot marked skipped.

use crate::types::{
    fallback_threshold, fast_threshold, has_id, lemma_stake_of_le_sum, lemma_stake_of_monotonic, stake_of, sum_stakes,
    vote_views, voters, voters_unique, with_vote, BlockId, CertView, FinalizationCertificate,
    Slot, StakeWeight, ValidatorConfig, ValidatorId, ValidatorSet, Vote, VoteRound, VoteSet,
    VoteSetView, VoteView, copy_votes, has_voter,
};
use vstd::prelude::*;

verus! {

/// Reasons for rejecting a vote.
#[derive(Debug, PartialEq, Eq)]
pub enum VotorError {
    DoubleVote(ValidatorId),
    InvalidRound,
    SlotMismatch { expected: Slot, got: Slot },
    UnknownValidator(ValidatorId),
    BlockNotFound(BlockId),
}

/// The vote sets of a sequence, keyed by block id.
pub open spec fn sets_map(s: Seq<VoteSetView>) -> Map<BlockId, VoteSetView> {
    Map::new(
        |id: BlockId| exists|i: int| 0 <= i < s.len() && s[i].block_id == id,
        |id: BlockId| s[choose|i: int| 0 <= i < s.len() && s[i].block_id == id],
    )
}

/// No two vote sets of `s` are for the same block.
pub open spec fn block_ids_unique(s: Seq<VoteSetView>) -> bool {
    forall|i: int, j: int|
        0 <= i < s.len() && 0 <= j < s.len() && s[i].block_id == s[j].block_id ==> i == j
}

/// A vote set for `id` with no votes.
pub open spec fn empty_set(id: BlockId) -> VoteSetView {
    VoteSetView { block_id: id, round1: Seq::empty(), round2: Seq::empty() }
}

/// The vote set of `id`, empty when none was created yet.
pub open spec fn set_or_empty(m: Map<BlockId, VoteSetView>, id: BlockId) -> VoteSetView {
    if m.contains_key(id) {
        m[id]
    } else {
        empty_set(id)
    }
}

/// `s` with `v` recorded in the map of its round.
pub open spec fn add_to_set(s: VoteSetView, v: VoteView) -> VoteSetView {
    match v.round {
        VoteRound::Round1 => VoteSetView { round1: with_vote(s.round1, v), ..s },
        VoteRound::Round2 => VoteSetView { round2: with_vote(s.round2, v), ..s },
    }
}

/// Stake of the validators with a vote in `votes`.
pub open spec fn round_stake(validators: Seq<ValidatorConfig>, votes: Seq<VoteView>) -> nat {
    stake_of(validators, voters(votes))
}

/// Some certificate is for `slot`.
pub open spec fn slot_finalized(certs: Seq<CertView>, slot: Slot) -> bool {
    exists|i: int| 0 <= i < certs.len() && certs[i].slot == slot
}

/// The certificate for `set` from a vote in `slot`: none when the slot is
/// already finalized or skipped; the fast path when round 1 reaches the
/// fast quorum; the fallback path when round 2 is open and reaches the
/// fallback quorum.
pub open spec fn finalization(
    validators: Seq<ValidatorConfig>,
    certs: Seq<CertView>,
    skipped: Seq<Slot>,
    round: VoteRound,
    set: VoteSetView,
    slot: Slot,
) -> Option<CertView> {
    let total = sum_stakes(validators);
    let s1 = round_stake(validators, set.round1);
    let s2 = round_stake(validators, set.round2);
    if slot_finalized(certs, slot) || skipped.contains(slot) {
        None
    } else if s1 >= fast_threshold(total) {
        Some(
            CertView {
                block_id: set.block_id,
                slot,
                round: VoteRound::Round1,
                votes: set.round1,
                total_stake: StakeWeight(s1 as u64),
            },
        )
    } else if round == VoteRound::Round2 && s2 >= fallback_threshold(total) {
        Some(
            CertView {
                block_id: set.block_id,
                slot,
                round: VoteRound::Round2,
                votes: set.round2,
                total_stake: StakeWeight(s2 as u64),
            },
        )
    } else {
        None
    }
}

/// A partition side whose stake is below the fallback quorum cannot
/// finalize: a vote set whose voters in both rounds all lie in that side
/// yields no certificate.
pub proof fn lemma_minority_cannot_finalize(
    v: VotorView,
    set: VoteSetView,
    slot: Slot,
    side: Set<ValidatorId>,
)
    requires
        voters(set.round1).subset_of(side),
        voters(set.round2).subset_of(side),
        stake_of(v.validators, side) < fallback_threshold(sum_stakes(v.validators)),
    ensures
        finalization(v.validators, v.certs, v.skipped, v.round, set, slot).is_none(),
{
    let t = sum_stakes(v.validators);
    lemma_stake_of_monotonic(v.validators, voters(set.round1), side);
    lemma_stake_of_monotonic(v.validators, voters(set.round2), side);
    assert((t * 60) / 100 <= (t * 80) / 100) by (nonlinear_arith);
}

/// At most one certificate per slot.
pub open spec fn unique_per_slot(certs: Seq<CertView>) -> bool {
    forall|i: int, j: int|
        0 <= i < certs.len() && 0 <= j < certs.len() && certs[i].slot == certs[j].slot ==> i == j
}

/// Two certificates of one slot certify one block.
pub open spec fn no_fork(certs: Seq<CertView>) -> bool {
    forall|i: int, j: int|
        0 <= i < certs.len() && 0 <= j < certs.len() && certs[i].slot == certs[j].slot
            ==> certs[i].block_id == certs[j].block_id
}

/// Each certificate carries the stake of its voters, one vote per voter,
/// and that stake reaches the quorum of its round.
pub open spec fn quorum_valid(certs: Seq<CertView>, validators: Seq<ValidatorConfig>) -> bool {
    forall|i: int|
        0 <= i < certs.len() ==> {
            let c = #[trigger] certs[i];
            &&& voters_unique(c.votes)
            &&& c.total_stake.0 == round_stake(validators, c.votes)
            &&& (c.round == VoteRound::Round1 ==> c.total_stake.0 >= fast_threshold(
                sum_stakes(validators),
            ))
            &&& (c.round == VoteRound::Round2 ==> c.total_stake.0 >= fallback_threshold(
                sum_stakes(validators),
            ))
        }
}

/// Every vote of `s` is for its block, in the round of its map.
pub open spec fn votes_match(s: VoteSetView) -> bool {
    &&& forall|k: int|
        #![trigger s.round1[k]]
        0 <= k < s.round1.len() ==> s.round1[k].block_id == s.block_id && s.round1[k].round
            == VoteRound::Round1
    &&& forall|k: int|
        #![trigger s.round2[k]]
        0 <= k < s.round2.len() ==> s.round2[k].block_id == s.block_id && s.round2[k].round
            == VoteRound::Round2
}

/// Each vote set is stored under its block and holds only votes for it.
pub open spec fn sets_match(sets: Map<BlockId, VoteSetView>) -> bool {
    forall|id: BlockId| #[trigger]
        sets.contains_key(id) ==> sets[id].block_id == id && votes_match(sets[id])
}

/// Every vote of a certificate is for its block, in its round.
pub open spec fn certs_match(certs: Seq<CertView>) -> bool {
    forall|i: int, k: int|
        0 <= i < certs.len() && 0 <= k < certs[i].votes.len() ==> (#[trigger] certs[i].votes[k]).block_id
            == certs[i].block_id && certs[i].votes[k].round == certs[i].round
}

/// Every vote set holds at most one vote per validator and round.
pub open spec fn no_double_vote(sets: Map<BlockId, VoteSetView>) -> bool {
    forall|id: BlockId| #[trigger] sets.contains_key(id) ==> sets[id].wf()
}

/// The known blocks after learning that `id` belongs to `slot`; the first
/// slot learned for a block stays.
pub open spec fn with_block(blocks: Map<BlockId, Slot>, id: BlockId, slot: Slot) -> Map<BlockId, Slot> {
    if blocks.contains_key(id) {
        blocks
    } else {
        blocks.insert(id, slot)
    }
}

/// Some known block belongs to `slot`.
pub open spec fn slot_has_block(blocks: Map<BlockId, Slot>, slot: Slot) -> bool {
    exists|id: BlockId| #[trigger] blocks.contains_key(id) && blocks[id] == slot
}

/// The state after a vote and the result it gets: a vote of an
/// unregistered validator, for a block not known, with a slot other than
/// its block's, or a second vote of a validator for one block in one round
/// is rejected and changes nothing; otherwise the vote is recorded and the
/// certificate `finalization` gives, if any, is appended.
pub open spec fn vote_outcome(v: VotorView, vote: VoteView) -> (VotorView, Result<
    Option<CertView>,
    VotorError,
>) {
    let prior = set_or_empty(v.vote_sets, vote.block_id);
    if !has_id(v.validators, vote.validator) {
        (v, Err(VotorError::UnknownValidator(vote.validator)))
    } else if !v.blocks.contains_key(vote.block_id) {
        (v, Err(VotorError::BlockNotFound(vote.block_id)))
    } else if v.blocks[vote.block_id] != vote.slot {
        (v, Err(VotorError::SlotMismatch { expected: v.blocks[vote.block_id], got: vote.slot }))
    } else if has_voter(prior.round(vote.round), vote.validator) {
        (v, Err(VotorError::DoubleVote(vote.validator)))
    } else {
        let set = add_to_set(prior, vote);
        let f = finalization(v.validators, v.certs, v.skipped, v.round, set, vote.slot);
        (
            VotorView {
                vote_sets: v.vote_sets.insert(vote.block_id, set),
                certs: if f.is_some() {
                    v.certs.push(f.unwrap())
                } else {
                    v.certs
                },
                ..v
            },
            Ok(f),
        )
    }
}

/// `r` is the executable form of the result `out`.
pub open spec fn cert_result_matches(
    r: Result<Option<FinalizationCertificate>, VotorError>,
    out: Result<Option<CertView>, VotorError>,
) -> bool {
    match (r, out) {
        (Ok(Some(c)), Ok(Some(d))) => c@ == d,
        (Ok(None), Ok(None)) => true,
        (Err(e1), Err(e2)) => e1 == e2,
        _ => false,
    }
}

/// The slot never decreases, and a step that changes it moves to the next
/// slot and reopens round 1.
pub open spec fn slot_monotonic(before: VotorView, after: VotorView) -> bool {
    &&& before.slot.0 <= after.slot.0
    &&& after.slot != before.slot ==> after.slot.0 == before.slot.0 + 1 && after.round
        == VoteRound::Round1
}

/// Within a slot the round never returns from round 2 to round 1, so it
/// moves from round 1 to round 2 at most once.
pub open spec fn round_monotonic(before: VotorView, after: VotorView) -> bool {
    after.slot == before.slot && before.round == VoteRound::Round2 ==> after.round
        == VoteRound::Round2
}

/// The state of a `Votor` as plain values.
pub struct VotorView {
    pub slot: Slot,
    pub round: VoteRound,
    pub vote_sets: Map<BlockId, VoteSetView>,
    pub certs: Seq<CertView>,
    pub validators: Seq<ValidatorConfig>,
    pub blocks: Map<BlockId, Slot>,
    pub skipped: Seq<Slot>,
}

/// The slots of a sequence of (block, slot) pairs, keyed by block.
pub open spec fn pairs_map(s: Seq<(BlockId, Slot)>) -> Map<BlockId, Slot> {
    Map::new(
        |id: BlockId| exists|i: int| 0 <= i < s.len() && s[i].0 == id,
        |id: BlockId| s[choose|i: int| 0 <= i < s.len() && s[i].0 == id].1,
    )
}

/// No two pairs of `s` have the same block.
pub open spec fn pair_keys_unique(s: Seq<(BlockId, Slot)>) -> bool {
    forall|i: int, j: int| 0 <= i < s.len() && 0 <= j < s.len() && s[i].0 == s[j].0 ==> i == j
}

/// The pair at position `i` gives the map's slot for its block.
pub proof fn lemma_pairs_map_index(s: Seq<(BlockId, Slot)>, i: int)
    requires
        pair_keys_unique(s),
        0 <= i < s.len(),
    ensures
        pairs_map(s).contains_key(s[i].0),
        pairs_map(s)[s[i].0] == s[i].1,
{
    let id = s[i].0;
    assert(pairs_map(s).contains_key(id));
    let j = choose|j: int| 0 <= j < s.len() && s[j].0 == id;
    assert(j == i);
}

/// Appending a pair for a new block inserts it into the map.
pub proof fn lemma_pairs_map_push(s: Seq<(BlockId, Slot)>, k: BlockId, v: Slot)
    requires
        pair_keys_unique(s),
        !pairs_map(s).contains_key(k),
    ensures
        pair_keys_unique(s.push((k, v))),
        pairs_map(s.push((k, v))) == pairs_map(s).insert(k, v),
{
    let t = s.push((k, v));
    assert forall|i: int, j: int|
        0 <= i < t.len() && 0 <= j < t.len() && t[i].0 == t[j].0 implies i == j by {
        if i < s.len() && j == s.len() {
            assert(s[i].0 == k);
        }
        if j < s.len() && i == s.len() {
            assert(s[j].0 == k);
        }
    }
    assert forall|id: BlockId| #[trigger]
        pairs_map(t).contains_key(id) == pairs_map(s).insert(k, v).contains_key(id) by {
        if pairs_map(s).contains_key(id) {
            let j = choose|j: int| 0 <= j < s.len() && s[j].0 == id;
            assert(t[j].0 == id);
        }
        if pairs_map(t).contains_key(id) {
            let j = choose|j: int| 0 <= j < t.len() && t[j].0 == id;
            if j < s.len() {
                assert(s[j].0 == id);
            }
        }
        if id == k {
            assert(t[s.len() as int].0 == id);
        }
    }
    assert forall|id: BlockId| #[trigger] pairs_map(t).contains_key(id) implies pairs_map(t)[id]
        == pairs_map(s).insert(k, v)[id] by {
        let j = choose|j: int| 0 <= j < t.len() && t[j].0 == id;
        lemma_pairs_map_index(t, j);
        if j < s.len() {
            lemma_pairs_map_index(s, j);
        }
    }
    assert(pairs_map(t) =~= pairs_map(s).insert(k, v));
}

/// Round 1 of vote set `id` holds no fast quorum left uncertified: once
/// it reaches the fast quorum, its block's slot is certified or skipped.
pub open spec fn fast_settled(v: VotorView, id: BlockId) -> bool {
    v.vote_sets.contains_key(id) && round_stake(v.validators, v.vote_sets[id].round1)
        >= fast_threshold(sum_stakes(v.validators)) ==> v.blocks.contains_key(id) && (slot_finalized(
        v.certs,
        v.blocks[id],
    ) || v.skipped.contains(v.blocks[id]))
}

/// Settled round-1 quorums stay settled when certificates and skip marks
/// are only added.
pub proof fn lemma_settled_grows(a: VotorView, b: VotorView)
    requires
        b.validators == a.validators,
        b.vote_sets == a.vote_sets,
        b.blocks == a.blocks,
        forall|s: Slot| #[trigger] slot_finalized(a.certs, s) ==> slot_finalized(b.certs, s),
        forall|s: Slot| #[trigger] a.skipped.contains(s) ==> b.skipped.contains(s),
    ensures
        forall|id: BlockId| #[trigger] fast_settled(a, id) ==> fast_settled(b, id),
{
}

/// A certificate appended to `certs` keeps every earlier slot finalized and
/// finalizes its own.
pub proof fn lemma_finalized_push(certs: Seq<CertView>, c: CertView)
    ensures
        forall|s: Slot| #[trigger] slot_finalized(certs, s) ==> slot_finalized(certs.push(c), s),
        slot_finalized(certs.push(c), c.slot),
{
    assert forall|s: Slot| #[trigger] slot_finalized(certs, s) implies slot_finalized(certs.push(c), s) by {
        let i = choose|i: int| 0 <= i < certs.len() && certs[i].slot == s;
        assert(certs.push(c)[i].slot == s);
    }
    assert(certs.push(c)[certs.len() as int].slot == c.slot);
}

/// No ids, no stake.
pub proof fn lemma_stake_of_empty(s: Seq<ValidatorConfig>)
    ensures
        stake_of(s, Set::<ValidatorId>::empty()) == 0,
    decreases s.len(),
{
    if s.len() > 0 {
        lemma_stake_of_empty(s.drop_last());
    }
}

/// Every vote set's round-1 quorum, if any, is settled.
pub open spec fn round1_quorums_settled(v: VotorView) -> bool {
    forall|id: BlockId| #[trigger] v.vote_sets.contains_key(id) ==> fast_settled(v, id)
}

/// The views of a sequence of certificates.
pub open spec fn cert_views(s: Seq<FinalizationCertificate>) -> Seq<CertView> {
    s.map_values(|c: FinalizationCertificate| c@)
}

/// The vote set at position `i` is the map's value for its block.
pub proof fn lemma_sets_map_index(s: Seq<VoteSetView>, i: int)
    requires
        block_ids_unique(s),
        0 <= i < s.len(),
    ensures
        sets_map(s).contains_key(s[i].block_id),
        sets_map(s)[s[i].block_id] == s[i],
{
    let id = s[i].block_id;
    assert(sets_map(s).contains_key(id));
    let j = choose|j: int| 0 <= j < s.len() && s[j].block_id == id;
    assert(j == i);
}

/// Replacing the vote set at one position updates the map at its block.
pub proof fn lemma_sets_map_update(s: Seq<VoteSetView>, i: int, n: VoteSetView)
    requires
        block_ids_unique(s),
        0 <= i < s.len(),
        n.block_id == s[i].block_id,
    ensures
        block_ids_unique(s.update(i, n)),
        sets_map(s.update(i, n)) == sets_map(s).insert(n.block_id, n),
{
    let t = s.update(i, n);
    assert(block_ids_unique(t));
    assert forall|id: BlockId| #[trigger]
        sets_map(t).contains_key(id) == sets_map(s).insert(n.block_id, n).contains_key(id) by {
        if sets_map(s).contains_key(id) {
            let j = choose|j: int| 0 <= j < s.len() && s[j].block_id == id;
            assert(t[j].block_id == id);
        }
        if sets_map(t).contains_key(id) {
            let j = choose|j: int| 0 <= j < t.len() && t[j].block_id == id;
            assert(s[j].block_id == id);
        }
    }
    assert forall|id: BlockId| #[trigger] sets_map(t).contains_key(id) implies sets_map(t)[id]
        == sets_map(s).insert(n.block_id, n)[id] by {
        let j = choose|j: int| 0 <= j < t.len() && t[j].block_id == id;
        lemma_sets_map_index(t, j);
        if j != i {
            lemma_sets_map_index(s, j);
        }
    }
    assert(sets_map(t) =~= sets_map(s).insert(n.block_id, n));
}

/// Appending a vote set for a new block inserts it into the map.
pub proof fn lemma_sets_map_push(s: Seq<VoteSetView>, n: VoteSetView)
    requires
        block_ids_unique(s),
        !sets_map(s).contains_key(n.block_id),
    ensures
        block_ids_unique(s.push(n)),
        sets_map(s.push(n)) == sets_map(s).insert(n.block_id, n),
{
    let t = s.push(n);
    assert forall|i: int, j: int|
        0 <= i < t.len() && 0 <= j < t.len() && t[i].block_id == t[j].block_id implies i == j by {
        if i < s.len() && j == s.len() {
            assert(s[i].block_id == n.block_id);
        }
        if j < s.len() && i == s.len() {
            assert(s[j].block_id == n.block_id);
        }
    }
    assert forall|id: BlockId| #[trigger]
        sets_map(t).contains_key(id) == sets_map(s).insert(n.block_id, n).contains_key(id) by {
        if sets_map(s).contains_key(id) {
            let j = choose|j: int| 0 <= j < s.len() && s[j].block_id == id;
            assert(t[j].block_id == id);
        }
        if sets_map(t).contains_key(id) {
            let j = choose|j: int| 0 <= j < t.len() && t[j].block_id == id;
            if j < s.len() {
                assert(s[j].block_id == id);
            }
        }
        if id == n.block_id {
            assert(t[s.len() as int].block_id == id);
        }
    }
    assert forall|id: BlockId| #[trigger] sets_map(t).contains_key(id) implies sets_map(t)[id]
        == sets_map(s).insert(n.block_id, n)[id] by {
        let j = choose|j: int| 0 <= j < t.len() && t[j].block_id == id;
        lemma_sets_map_index(t, j);
        if j < s.len() {
            lemma_sets_map_index(s, j);
        }
    }
    assert(sets_map(t) =~= sets_map(s).insert(n.block_id, n));
}

/// Recording a vote of a validator that has none in that round appends it.
pub proof fn lemma_with_vote_fresh(s: Seq<VoteView>, v: VoteView)
    requires
        voters_unique(s),
        !has_voter(s, v.validator),
    ensures
        with_vote(s, v) == s.push(v),
        voters_unique(s.push(v)),
        voters(s.push(v)) == voters(s).insert(v.validator),
{
    let t = s.push(v);
    assert forall|i: int, j: int|
        0 <= i < t.len() && 0 <= j < t.len() && t[i].validator == t[j].validator implies i
        == j by {
        if i < s.len() && j == s.len() {
            assert(s[i].validator == v.validator);
        }
        if j < s.len() && i == s.len() {
            assert(s[j].validator == v.validator);
        }
    }
    assert forall|id: ValidatorId| #[trigger] voters(t).contains(id) == voters(s).insert(
        v.validator,
    ).contains(id) by {
        if has_voter(s, id) {
            let k = choose|k: int| 0 <= k < s.len() && s[k].validator == id;
            assert(t[k].validator == id);
        }
        if has_voter(t, id) {
            let k = choose|k: int| 0 <= k < t.len() && t[k].validator == id;
            if k < s.len() {
                assert(s[k].validator == id);
            }
        }
        if id == v.validator {
            assert(t[s.len() as int].validator == id);
        }
    }
    assert(voters(t) =~= voters(s).insert(v.validator));
}

/// Votor state machine for managing votes and finalization.
pub struct Votor {
    current_slot: Slot,
    current_round: VoteRound,
    vote_sets: Vec<VoteSet>,
    finalized: Vec<FinalizationCertificate>,
    validator_set: ValidatorSet,
    blocks: Vec<(BlockId, Slot)>,
    skipped: Vec<Slot>,
}

impl View for Votor {
    type V = VotorView;

    closed spec fn view(&self) -> VotorView {
        VotorView {
            slot: self.current_slot,
            round: self.current_round,
            vote_sets: sets_map(self.set_views()),
            certs: cert_views(self.finalized@),
            validators: self.validator_set@,
            blocks: pairs_map(self.blocks@),
            skipped: self.skipped@,
        }
    }
}

impl Votor {
    closed spec fn set_views(&self) -> Seq<VoteSetView> {
        self.vote_sets@.map_values(|s: VoteSet| s@)
    }

    /// The internal invariant: a well-formed registry, one vote set per
    /// known block, one vote per validator and round, at most one
    /// certificate per slot, every certificate backed by a quorum of its
    /// round, and no round-1 quorum left without its slot settled.
    pub closed spec fn wf(&self) -> bool {
        &&& self.wf_core()
        &&& round1_quorums_settled(self@)
    }

    /// `wf`, but for whether the round-1 quorum of block `x` is settled.
    closed spec fn wf_pending(&self, x: BlockId) -> bool {
        &&& self.wf_core()
        &&& forall|id: BlockId| #[trigger] self@.vote_sets.contains_key(id) && id != x ==> fast_settled(self@, id)
    }

    closed spec fn wf_core(&self) -> bool {
        &&& self.validator_set.wf()
        &&& forall|id: BlockId| #[trigger] self@.vote_sets.contains_key(id) ==> self@.blocks.contains_key(id)
        &&& block_ids_unique(self.set_views())
        &&& no_double_vote(sets_map(self.set_views()))
        &&& unique_per_slot(cert_views(self.finalized@))
        &&& quorum_valid(cert_views(self.finalized@), self.validator_set@)
        &&& sets_match(sets_map(self.set_views()))
        &&& certs_match(cert_views(self.finalized@))
        &&& pair_keys_unique(self.blocks@)
    }

    pub fn new(validator_set: ValidatorSet) -> (r: Self)
        requires
            validator_set.wf(),
        ensures
            r.wf(),
            r@.slot == Slot(0),
            r@.round == VoteRound::Round1,
            r@.vote_sets == Map::<BlockId, VoteSetView>::empty(),
            r@.certs == Seq::<CertView>::empty(),
            r@.validators == validator_set@,
            r@.blocks == Map::<BlockId, Slot>::empty(),
            r@.skipped == Seq::<Slot>::empty(),
    {
        let r = Votor {
            current_slot: Slot(0),
            current_round: VoteRound::Round1,
            vote_sets: Vec::new(),
            finalized: Vec::new(),
            validator_set,
            blocks: Vec::new(),
            skipped: Vec::new(),
        };
        assert(r@.blocks =~= Map::<BlockId, Slot>::empty());
        assert(r@.skipped =~= Seq::<Slot>::empty());
        assert(r@.vote_sets =~= Map::<BlockId, VoteSetView>::empty());
        assert(r@.certs =~= Seq::<CertView>::empty());
        r
    }

    /// No two certificates of one slot certify different blocks.
    pub proof fn lemma_no_fork(&self)
        requires
            self.wf(),
        ensures
            no_fork(self@.certs),
    {
    }

    /// Every certificate's stake is the stake of its voters, and reaches the
    /// fast quorum for round 1 and the fallback quorum for round 2.
    pub proof fn lemma_quorum_validity(&self)
        requires
            self.wf(),
        ensures
            quorum_valid(self@.certs, self@.validators),
    {
    }

    /// In every vote set and round, each validator appears at most once.
    pub proof fn lemma_no_double_vote(&self)
        requires
            self.wf(),
        ensures
            no_double_vote(self@.vote_sets),
    {
    }

    /// Every vote set is stored under its block and holds only votes for
    /// that block, each in the map of its round.
    pub proof fn lemma_vote_sets_match(&self)
        requires
            self.wf(),
        ensures
            sets_match(self@.vote_sets),
    {
    }

    /// Every vote of a certificate is for its block, in its round.
    pub proof fn lemma_certificate_votes(&self)
        requires
            self.wf(),
        ensures
            certs_match(self@.certs),
    {
    }

    /// A round-1 fast quorum is never left uncertified: its block's slot is
    /// certified or skipped.
    pub proof fn lemma_round1_quorums_settled(&self)
        requires
            self.wf(),
        ensures
            round1_quorums_settled(self@),
    {
    }

    /// With a total stake of at least 2 (so that an empty round 1 is no fast
    /// quorum), a round-1 certificate comes only from a round-1 vote, and
    /// holds that vote's validator.
    pub proof fn lemma_round1_certificate_holds_voter(&self, vote: VoteView)
        requires
            self.wf(),
            sum_stakes(self@.validators) >= 2,
        ensures
            match vote_outcome(self@, vote).1 {
                Ok(Some(c)) => c.round == VoteRound::Round1 ==> vote.round == VoteRound::Round1
                    && has_voter(c.votes, vote.validator),
                _ => true,
            },
    {
        let v = self@;
        let prior = set_or_empty(v.vote_sets, vote.block_id);
        let t = sum_stakes(v.validators);
        assert((t * 80) / 100 >= 1) by (nonlinear_arith)
            requires
                t >= 2,
        ;
        if vote.round == VoteRound::Round1 {
            let r1 = with_vote(prior.round1, vote);
            if has_voter(prior.round1, vote.validator) {
                let k = choose|k: int| 0 <= k < prior.round1.len() && prior.round1[k].validator == vote.validator;
                assert(r1[k].validator == vote.validator);
            } else {
                assert(r1[prior.round1.len() as int].validator == vote.validator);
            }
        } else if !v.vote_sets.contains_key(vote.block_id) {
            assert(voters(prior.round1) =~= Set::<ValidatorId>::empty());
            lemma_stake_of_empty(v.validators);
        }
    }

    /// The finalized list holds at most one certificate per slot.
    pub proof fn lemma_unique_certificate(&self)
        requires
            self.wf(),
        ensures
            unique_per_slot(self@.certs),
    {
    }

    /// Position of the vote set of `id`, if any.
    fn find_set(&self, id: BlockId) -> (r: Option<usize>)
        requires
            self.wf_core(),
        ensures
            r.is_none() <==> !self@.vote_sets.contains_key(id),
            r.is_some() ==> r.unwrap() < self.vote_sets@.len() && self.vote_sets@[r.unwrap()
                as int]@ == self@.vote_sets[id],
    {
        let ghost sv = self.set_views();
        let mut i: usize = 0;
        while i < self.vote_sets.len()
            invariant
                0 <= i <= self.vote_sets@.len(),
                sv == self.set_views(),
                block_ids_unique(sv),
                forall|j: int| 0 <= j < i ==> sv[j].block_id != id,
            decreases self.vote_sets@.len() - i,
        {
            if self.vote_sets[i].block_id().same_as(&id) {
                proof {
                    assert(sv[i as int].block_id == id);
                    lemma_sets_map_index(sv, i as int);
                }
                return Some(i);
            }
            i = i + 1;
        }
        proof {
            if sets_map(sv).contains_key(id) {
                let j = choose|j: int| 0 <= j < sv.len() && sv[j].block_id == id;
                assert(sv[j].block_id != id);
            }
        }
        None
    }

    /// `slot` already has a certificate.
    pub fn slot_has_certificate(&self, slot: Slot) -> (r: bool)
        ensures
            r == slot_finalized(self@.certs, slot),
    {
        let mut i: usize = 0;
        while i < self.finalized.len()
            invariant
                0 <= i <= self.finalized@.len(),
                forall|j: int| 0 <= j < i ==> self.finalized@[j].slot != slot,
            decreases self.finalized@.len() - i,
        {
            if self.finalized[i].slot == slot {
                assert(cert_views(self.finalized@)[i as int].slot == slot);
                return true;
            }
            i = i + 1;
        }
        assert forall|j: int| 0 <= j < self.finalized@.len() implies cert_views(
            self.finalized@,
        )[j].slot != slot by {}
        false
    }

    /// Validates a vote: its validator must be registered, its block known,
    /// and its slot the slot of its block.
    fn validate_vote(&self, vote: &Vote) -> (r: Result<(), VotorError>)
        requires
            self.wf(),
        ensures
            !has_id(self@.validators, vote.validator) ==> r == Err::<(), VotorError>(
                VotorError::UnknownValidator(vote.validator),
            ),
            has_id(self@.validators, vote.validator) && !self@.blocks.contains_key(vote.block_id)
                ==> r == Err::<(), VotorError>(VotorError::BlockNotFound(vote.block_id)),
            has_id(self@.validators, vote.validator) && self@.blocks.contains_key(vote.block_id)
                && self@.blocks[vote.block_id] != vote.slot ==> r == Err::<(), VotorError>(
                VotorError::SlotMismatch { expected: self@.blocks[vote.block_id], got: vote.slot },
            ),
            has_id(self@.validators, vote.validator) && self@.blocks.contains_key(vote.block_id)
                && self@.blocks[vote.block_id] == vote.slot ==> r is Ok,
    {
        if self.validator_set.get_validator(&vote.validator).is_none() {
            return Err(VotorError::UnknownValidator(vote.validator));
        }
        match self.block_slot(vote.block_id) {
            None => Err(VotorError::BlockNotFound(vote.block_id)),
            Some(expected) => {
                if expected != vote.slot {
                    Err(VotorError::SlotMismatch { expected, got: vote.slot })
                } else {
                    Ok(())
                }
            },
        }
    }

    /// The slot of a known block.
    fn block_slot(&self, id: BlockId) -> (r: Option<Slot>)
        requires
            self.wf(),
        ensures
            r.is_some() == self@.blocks.contains_key(id),
            r.is_some() ==> r.unwrap() == self@.blocks[id],
    {
        let ghost bv = self.blocks@;
        let mut i: usize = 0;
        while i < self.blocks.len()
            invariant
                0 <= i <= bv.len(),
                bv == self.blocks@,
                pair_keys_unique(bv),
                forall|j: int| 0 <= j < i ==> bv[j].0 != id,
            decreases bv.len() - i,
        {
            let (b, slot) = self.blocks[i];
            if b.same_as(&id) {
                proof {
                    lemma_pairs_map_index(bv, i as int);
                }
                return Some(slot);
            }
            i = i + 1;
        }
        proof {
            if pairs_map(bv).contains_key(id) {
                let j = choose|j: int| 0 <= j < bv.len() && bv[j].0 == id;
                assert(bv[j].0 != id);
            }
        }
        None
    }

    /// Learns that block `block_id` belongs to `slot`; votes for a block are
    /// accepted only once it is known, and only with its slot. The first slot
    /// learned for a block stays.
    pub fn register_block(&mut self, block_id: BlockId, slot: Slot)
        requires
            old(self).wf(),
        ensures
            final(self).wf(),
            final(self)@ == (VotorView {
                blocks: with_block(old(self)@.blocks, block_id, slot),
                ..old(self)@
            }),
            slot_monotonic(old(self)@, final(self)@),
            round_monotonic(old(self)@, final(self)@),
    {
        if self.block_slot(block_id).is_some() {
            return;
        }
        let ghost bv = self.blocks@;
        self.blocks.push((block_id, slot));
        proof {
            lemma_pairs_map_push(bv, block_id, slot);
        }
    }

    /// Marks `slot` skipped: it gets no certificate from then on.
    pub fn mark_skipped(&mut self, slot: Slot)
        requires
            old(self).wf(),
        ensures
            final(self).wf(),
            final(self)@ == (VotorView {
                skipped: if old(self)@.skipped.contains(slot) {
                    old(self)@.skipped
                } else {
                    old(self)@.skipped.push(slot)
                },
                ..old(self)@
            }),
            slot_monotonic(old(self)@, final(self)@),
            round_monotonic(old(self)@, final(self)@),
    {
        let ghost v0 = self@;
        if !self.is_skipped(slot) {
            self.skipped.push(slot);
            proof {
                assert forall|s: Slot| #[trigger] v0.skipped.contains(s) implies self@.skipped.contains(s) by {
                    let i = choose|i: int| 0 <= i < v0.skipped.len() && v0.skipped[i] == s;
                    assert(self@.skipped[i] == s);
                }
                lemma_settled_grows(v0, self@);
            }
        }
    }

    /// `slot` was marked skipped.
    pub fn is_skipped(&self, slot: Slot) -> (r: bool)
        ensures
            r == self@.skipped.contains(slot),
    {
        let mut i: usize = 0;
        while i < self.skipped.len()
            invariant
                0 <= i <= self.skipped@.len(),
                forall|j: int| 0 <= j < i ==> self.skipped@[j] != slot,
            decreases self.skipped@.len() - i,
        {
            if self.skipped[i] == slot {
                assert(self.skipped@[i as int] == slot);
                return true;
            }
            i = i + 1;
        }
        false
    }

    /// Some known block belongs to `slot`.
    pub fn slot_has_block(&self, slot: Slot) -> (r: bool)
        requires
            self.wf(),
        ensures
            r == slot_has_block(self@.blocks, slot),
    {
        let ghost bv = self.blocks@;
        let mut i: usize = 0;
        while i < self.blocks.len()
            invariant
                0 <= i <= bv.len(),
                bv == self.blocks@,
                pair_keys_unique(bv),
                forall|j: int| 0 <= j < i ==> bv[j].1 != slot,
            decreases bv.len() - i,
        {
            let (b, s) = self.blocks[i];
            if s == slot {
                proof {
                    lemma_pairs_map_index(bv, i as int);
                    assert(pairs_map(bv).contains_key(b));
                }
                return true;
            }
            i = i + 1;
        }
        proof {
            if slot_has_block(pairs_map(bv), slot) {
                let id = choose|id: BlockId| #[trigger] pairs_map(bv).contains_key(id) && pairs_map(bv)[id] == slot;
                let j = choose|j: int| 0 <= j < bv.len() && bv[j].0 == id;
                lemma_pairs_map_index(bv, j);
                assert(bv[j].1 != slot);
            }
        }
        false
    }

    /// Total stake of the validators with a vote in `votes`.
    fn calculate_vote_stake(&self, votes: &Vec<Vote>) -> (r: StakeWeight)
        requires
            self.wf_core(),
        ensures
            r.0 == round_stake(self@.validators, vote_views(votes@)),
    {
        let mut ids: Vec<ValidatorId> = Vec::new();
        let mut i: usize = 0;
        while i < votes.len()
            invariant
                0 <= i <= votes@.len(),
                ids@.len() == i,
                forall|j: int| 0 <= j < i ==> ids@[j] == votes@[j].validator,
            decreases votes@.len() - i,
        {
            ids.push(votes[i].validator);
            i = i + 1;
        }
        let ghost vv = vote_views(votes@);
        assert forall|id: ValidatorId| #[trigger] ids@.to_set().contains(id) == voters(
            vv,
        ).contains(id) by {
            if ids@.contains(id) {
                let k = choose|k: int| 0 <= k < ids@.len() && ids@[k] == id;
                assert(vv[k].validator == id);
            }
            if has_voter(vv, id) {
                let k = choose|k: int| 0 <= k < vv.len() && vv[k].validator == id;
                assert(ids@[k] == id);
            }
        }
        assert(ids@.to_set() =~= voters(vv));
        self.validator_set.calculate_stake(&ids)
    }

    /// Builds a certificate from the votes that reached quorum.
    fn create_certificate(
        &self,
        block_id: BlockId,
        slot: Slot,
        round: VoteRound,
        votes: &Vec<Vote>,
        total_stake: StakeWeight,
    ) -> (r: FinalizationCertificate)
        ensures
            r@ == (CertView { block_id, slot, round, votes: vote_views(votes@), total_stake }),
    {
        FinalizationCertificate { block_id, slot, round, votes: copy_votes(votes), total_stake }
    }

    /// Records a certificate that `finalization` produced.
    fn record_certificate(&mut self, cert: &FinalizationCertificate)
        requires
            old(self).wf_pending(cert.block_id),
            !slot_finalized(old(self)@.certs, cert.slot),
            voters_unique(cert@.votes),
            cert.total_stake.0 == round_stake(old(self)@.validators, cert@.votes),
            cert.round == VoteRound::Round1 ==> cert.total_stake.0 >= fast_threshold(
                sum_stakes(old(self)@.validators),
            ),
            cert.round == VoteRound::Round2 ==> cert.total_stake.0 >= fallback_threshold(
                sum_stakes(old(self)@.validators),
            ),
            forall|k: int|
                #![trigger cert@.votes[k]]
                0 <= k < cert@.votes.len() ==> cert@.votes[k].block_id == cert.block_id
                    && cert@.votes[k].round == cert.round,
        ensures
            final(self).wf_pending(cert.block_id),
            final(self)@ == (VotorView { certs: old(self)@.certs.push(cert@), ..old(self)@ }),
    {
        let c = FinalizationCertificate {
            block_id: cert.block_id,
            slot: cert.slot,
            round: cert.round,
            votes: copy_votes(&cert.votes),
            total_stake: cert.total_stake,
        };
        let ghost before = cert_views(self.finalized@);
        let ghost v0 = self@;
        self.finalized.push(c);
        proof {
            let after = cert_views(self.finalized@);
            assert(after =~= before.push(cert@));
            lemma_finalized_push(before, cert@);
            lemma_settled_grows(v0, self@);
            assert forall|i: int, j: int|
                0 <= i < after.len() && 0 <= j < after.len() && after[i].slot
                    == after[j].slot implies i == j by {
                if i < before.len() && j == before.len() {
                    assert(before[i].slot == cert.slot);
                }
                if j < before.len() && i == before.len() {
                    assert(before[j].slot == cert.slot);
                }
            }
        }
    }

    /// Emits the certificate that the vote set of `block_id` earns from a
    /// vote in `slot`, if any.
    fn check_finalization(&mut self, block_id: BlockId, slot: Slot) -> (r: Result<
        Option<FinalizationCertificate>,
        VotorError,
    >)
        requires
            old(self).wf_pending(block_id),
            old(self)@.vote_sets.contains_key(block_id) ==> old(self)@.blocks[block_id] == slot,
        ensures
            final(self).wf(),
            match r {
                Err(e) => e == VotorError::BlockNotFound(block_id) && !old(
                    self,
                )@.vote_sets.contains_key(block_id) && final(self)@ == old(self)@,
                Ok(c) => {
                    let f = finalization(
                        old(self)@.validators,
                        old(self)@.certs,
                        old(self)@.skipped,
                        old(self)@.round,
                        old(self)@.vote_sets[block_id],
                        slot,
                    );
                    &&& old(self)@.vote_sets.contains_key(block_id)
                    &&& c.is_some() == f.is_some()
                    &&& c.is_some() ==> c.unwrap()@ == f.unwrap()
                    &&& final(self)@ == (VotorView {
                        certs: if f.is_some() {
                            old(self)@.certs.push(f.unwrap())
                        } else {
                            old(self)@.certs
                        },
                        ..old(self)@
                    })
                },
            },
    {
        let idx = match self.find_set(block_id) {
            Some(i) => i,
            None => {
                return Err(VotorError::BlockNotFound(block_id));
            },
        };
        if self.slot_has_certificate(slot) || self.is_skipped(slot) {
            return Ok(None);
        }
        let ghost set = self@.vote_sets[block_id];
        proof {
            assert(set.wf());
            self.validator_set.lemma_wf();
            lemma_stake_of_le_sum(self@.validators, voters(set.round1));
            lemma_stake_of_le_sum(self@.validators, voters(set.round2));
        }
        // Fast path: 80% of stake in round 1.
        let round1_stake = self.calculate_vote_stake(self.vote_sets[idx].votes(VoteRound::Round1));
        if self.validator_set.check_fast_quorum(round1_stake) {
            let cert = self.create_certificate(
                block_id,
                slot,
                VoteRound::Round1,
                self.vote_sets[idx].votes(VoteRound::Round1),
                round1_stake,
            );
            let ghost v0 = self@;
            self.record_certificate(&cert);
            proof {
                lemma_finalized_push(v0.certs, cert@);
                assert forall|id: BlockId| #[trigger] self@.vote_sets.contains_key(id) implies fast_settled(self@, id) by {
                    if id == block_id {
                        assert(slot_finalized(self@.certs, slot));
                    }
                }
            }
            return Ok(Some(cert));
        }
        // Fallback path: 60% of stake in round 2, once round 2 is open.
        if self.current_round == VoteRound::Round2 {
            let round2_stake = self.calculate_vote_stake(
                self.vote_sets[idx].votes(VoteRound::Round2),
            );
            if self.validator_set.check_fallback_quorum(round2_stake) {
                let cert = self.create_certificate(
                    block_id,
                    slot,
                    VoteRound::Round2,
                    self.vote_sets[idx].votes(VoteRound::Round2),
                    round2_stake,
                );
                let ghost v0 = self@;
                self.record_certificate(&cert);
                proof {
                    lemma_finalized_push(v0.certs, cert@);
                    assert forall|id: BlockId| #[trigger] self@.vote_sets.contains_key(id) implies fast_settled(self@, id) by {
                        if id == block_id {
                            assert(slot_finalized(self@.certs, slot));
                        }
                    }
                }
                return Ok(Some(cert));
            }
        }
        Ok(None)
    }

    /// Records a vote and emits a certificate the first moment a quorum is
    /// crossed in a slot that has none yet.
    ///
    /// Rejects a vote of an unregistered validator, and a second vote of a
    /// validator for the same block in the same round.
    pub fn process_vote(&mut self, vote: Vote) -> (r: Result<
        Option<FinalizationCertificate>,
        VotorError,
    >)
        requires
            old(self).wf(),
        ensures
            final(self).wf(),
            final(self)@ == vote_outcome(old(self)@, vote@).0,
            slot_monotonic(old(self)@, final(self)@),
            round_monotonic(old(self)@, final(self)@),
            cert_result_matches(r, vote_outcome(old(self)@, vote@).1),
    {
        match self.validate_vote(&vote) {
            Ok(()) => {},
            Err(e) => {
                return Err(e);
            },
        }
        let block_id = vote.block_id;
        let slot = vote.slot;
        let ghost sv = self.set_views();
        let ghost v = vote@;
        let ghost set = add_to_set(set_or_empty(self@.vote_sets, block_id), v);
        match self.find_set(block_id) {
            Some(i) => {
                proof {
                    lemma_sets_map_index(sv, i as int);
                }
                if self.vote_sets[i].has_vote(vote.round, vote.validator) {
                    return Err(VotorError::DoubleVote(vote.validator));
                }
                proof {
                    let old_set = sv[i as int];
                    assert(old_set.wf());
                    lemma_with_vote_fresh(old_set.round(v.round), v);
                }
                self.vote_sets[i].add_vote(vote);
                proof {
                    assert(self.vote_sets@[i as int]@ =~= set);
                    assert(self.set_views() =~= sv.update(i as int, set));
                    lemma_sets_map_update(sv, i as int, set);
                }
            },
            None => {
                let mut fresh = VoteSet::new(block_id);
                proof {
                    lemma_with_vote_fresh(Seq::empty(), v);
                }
                fresh.add_vote(vote);
                self.vote_sets.push(fresh);
                proof {
                    assert(fresh@ =~= set);
                    assert(self.set_views() =~= sv.push(set));
                    lemma_sets_map_push(sv, set);
                }
            },
        }
        proof {
            let m = sets_map(self.set_views());
            assert forall|id: BlockId| #[trigger] m.contains_key(id) implies m[id].wf() by {
                if id != block_id {
                    assert(sets_map(sv).contains_key(id));
                }
            }
        }
        self.check_finalization(block_id, slot)
    }

    /// Opens round 2 (round 1 timed out). Idempotent.
    pub fn advance_to_round2(&mut self)
        requires
            old(self).wf(),
        ensures
            final(self).wf(),
            final(self)@ == (VotorView { round: VoteRound::Round2, ..old(self)@ }),
            slot_monotonic(old(self)@, final(self)@),
            round_monotonic(old(self)@, final(self)@),
    {
        self.current_round = VoteRound::Round2;
    }

    /// Moves to the next slot and reopens round 1; vote sets and
    /// certificates are kept.
    pub fn next_slot(&mut self)
        requires
            old(self).wf(),
            old(self)@.slot.0 < u64::MAX,
        ensures
            final(self).wf(),
            final(self)@ == (VotorView {
                slot: Slot((old(self)@.slot.0 + 1) as u64),
                round: VoteRound::Round1,
                ..old(self)@
            }),
            slot_monotonic(old(self)@, final(self)@),
            round_monotonic(old(self)@, final(self)@),
    {
        self.current_slot = self.current_slot.next();
        self.current_round = VoteRound::Round1;
    }

    /// Some certificate certifies `block_id`.
    pub fn is_finalized(&self, block_id: &BlockId) -> (r: bool)
        ensures
            r == exists|i: int| 0 <= i < self@.certs.len() && self@.certs[i].block_id == *block_id,
    {
        let mut i: usize = 0;
        while i < self.finalized.len()
            invariant
                0 <= i <= self.finalized@.len(),
                forall|j: int| 0 <= j < i ==> self.finalized@[j].block_id != *block_id,
            decreases self.finalized@.len() - i,
        {
            if self.finalized[i].block_id.same_as(block_id) {
                assert(self@.certs[i as int].block_id == *block_id);
                return true;
            }
            i = i + 1;
        }
        assert forall|j: int| 0 <= j < self@.certs.len() implies self@.certs[j].block_id
            != *block_id by {
            assert(self@.certs[j] == self.finalized@[j]@);
        }
        false
    }

    pub fn current_slot(&self) -> (r: Slot)
        ensures
            r == self@.slot,
    {
        self.current_slot
    }

    pub fn current_round(&self) -> (r: VoteRound)
        ensures
            r == self@.round,
    {
        self.current_round
    }

    /// The certificates, in the order they were emitted.
    pub fn finalized_blocks(&self) -> (r: &[FinalizationCertificate])
        ensures
            r@.map_values(|c: FinalizationCertificate| c@) == self@.certs,
    {
        self.finalized.as_slice()
    }

    /// The vote set of `block_id`, if a vote for it was recorded.
    pub fn vote_set(&self, block_id: &BlockId) -> (r: Option<&VoteSet>)
        requires
            self.wf(),
        ensures
            r.is_some() == self@.vote_sets.contains_key(*block_id),
            r.is_some() ==> r.unwrap()@ == self@.vote_sets[*block_id],
    {
        match self.find_set(*block_id) {
            Some(i) => Some(&self.vote_sets[i]),
            None => None,
        }
    }
}

} // verus!
