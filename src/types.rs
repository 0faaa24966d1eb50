//! Core data types: identifiers, stake, blocks, votes, certificates and the
//! validator registry with its quorum predicates.

use crate::codec::{encode_header, header_bytes};
use crate::digest::{sha256, sha256_of};
use vstd::prelude::*;

verus! {

/// Unique identifier of a validator.
#[derive(Clone, Copy, Debug, PartialEq, Eq, Hash, PartialOrd, Ord, Structural)]
pub struct ValidatorId(pub u64);

/// Stake weight of a validator.
#[derive(Clone, Copy, Debug, PartialEq, Eq, PartialOrd, Ord, Structural)]
pub struct StakeWeight(pub u64);

impl StakeWeight {
    pub fn new(weight: u64) -> (r: Self)
        ensures
            r.0 == weight,
    {
        StakeWeight(weight)
    }

    pub fn as_u64(&self) -> (r: u64)
        ensures
            r == self.0,
    {
        self.0
    }
}

/// Slot number (height in the chain).
#[derive(Clone, Copy, Debug, PartialEq, Eq, PartialOrd, Ord, Hash, Structural)]
pub struct Slot(pub u64);

impl Slot {
    /// The successor slot.
    pub fn next(&self) -> (r: Slot)
        requires
            self.0 < u64::MAX,
        ensures
            r.0 == self.0 + 1,
    {
        Slot(self.0 + 1)
    }
}

/// Block identifier: a 32-byte digest of the block header.
#[derive(Clone, Copy, Debug, Eq, Hash, PartialOrd, Ord)]
pub struct BlockId(pub [u8; 32]);

impl BlockId {
    pub fn new(hash: [u8; 32]) -> (r: Self)
        ensures
            r.0 == hash,
    {
        BlockId(hash)
    }

    pub fn as_bytes(&self) -> (r: &[u8; 32])
        ensures
            *r == self.0,
    {
        &self.0
    }

    /// Byte-wise comparison of two identifiers.
    pub fn same_as(&self, other: &BlockId) -> (r: bool)
        ensures
            r == (*self == *other),
    {
        let mut i: usize = 0;
        while i < 32
            invariant
                0 <= i <= 32,
                forall|j: int| 0 <= j < i ==> self.0[j] == other.0[j],
            decreases 32 - i,
        {
            if self.0[i] != other.0[i] {
                return false;
            }
            i = i + 1;
        }
        assert(self.0 =~= other.0);
        true
    }
}

impl PartialEq for BlockId {
    fn eq(&self, other: &BlockId) -> (r: bool) {
        self.same_as(other)
    }
}

impl vstd::std_specs::cmp::PartialEqSpecImpl for BlockId {
    open spec fn obeys_eq_spec() -> bool {
        true
    }

    open spec fn eq_spec(&self, other: &BlockId) -> bool {
        *self == *other
    }
}

/// Voting round.
#[derive(Clone, Copy, Debug, PartialEq, Eq, Hash, Structural)]
pub enum VoteRound {
    /// Notarization vote (fast path).
    Round1,
    /// Finalization vote (fallback path).
    Round2,
}

/// Copies a byte vector.
pub fn copy_bytes(b: &Vec<u8>) -> (r: Vec<u8>)
    ensures
        r@ == b@,
{
    let mut r: Vec<u8> = Vec::new();
    let mut i: usize = 0;
    while i < b.len()
        invariant
            0 <= i <= b@.len(),
            r@ == b@.subrange(0, i as int),
        decreases b@.len() - i,
    {
        r.push(b[i]);
        i = i + 1;
    }
    assert(b@.subrange(0, i as int) =~= b@);
    r
}

/// Block proposal.
#[derive(Clone, Debug)]
pub struct Block {
    pub id: BlockId,
    pub slot: Slot,
    pub parent: Option<BlockId>,
    pub leader: ValidatorId,
    pub transactions: Vec<Vec<u8>>,
    pub timestamp: u64,
}

/// The contents of a block as plain values.
pub struct BlockView {
    pub id: BlockId,
    pub slot: Slot,
    pub parent: Option<BlockId>,
    pub leader: ValidatorId,
    pub transactions: Seq<Seq<u8>>,
    pub timestamp: u64,
}

impl View for Block {
    type V = BlockView;

    open spec fn view(&self) -> BlockView {
        BlockView {
            id: self.id,
            slot: self.slot,
            parent: self.parent,
            leader: self.leader,
            transactions: self.transactions@.map_values(|t: Vec<u8>| t@),
            timestamp: self.timestamp,
        }
    }
}

impl Block {
    /// The id this block's header hashes to: SHA-256 of the encoded slot,
    /// parent, leader and timestamp. The payload is not part of it.
    pub fn compute_id(&self) -> (r: BlockId)
        ensures
            r.0@ == sha256_of(header_bytes(self.slot, self.parent, self.leader, self.timestamp)),
    {
        let header = encode_header(self.slot, &self.parent, self.leader, self.timestamp);
        BlockId(sha256(&header))
    }

    /// A copy of the block with the same contents.
    pub fn duplicate(&self) -> (r: Block)
        ensures
            r@ == self@,
    {
        let mut txs: Vec<Vec<u8>> = Vec::new();
        let mut i: usize = 0;
        while i < self.transactions.len()
            invariant
                0 <= i <= self.transactions@.len(),
                txs@.len() == i,
                forall|j: int| 0 <= j < i ==> txs@[j]@ == self.transactions@[j]@,
            decreases self.transactions@.len() - i,
        {
            let t = copy_bytes(&self.transactions[i]);
            txs.push(t);
            i = i + 1;
        }
        assert(txs@.map_values(|t: Vec<u8>| t@) =~= self.transactions@.map_values(
            |t: Vec<u8>| t@,
        ));
        Block {
            id: self.id,
            slot: self.slot,
            parent: self.parent,
            leader: self.leader,
            transactions: txs,
            timestamp: self.timestamp,
        }
    }
}

/// Vote on a block.
#[derive(Clone, Debug)]
pub struct Vote {
    pub validator: ValidatorId,
    pub block_id: BlockId,
    pub slot: Slot,
    pub round: VoteRound,
    pub signature: Vec<u8>,
}

/// The contents of a vote as plain values.
pub struct VoteView {
    pub validator: ValidatorId,
    pub block_id: BlockId,
    pub slot: Slot,
    pub round: VoteRound,
    pub signature: Seq<u8>,
}

impl View for Vote {
    type V = VoteView;

    open spec fn view(&self) -> VoteView {
        VoteView {
            validator: self.validator,
            block_id: self.block_id,
            slot: self.slot,
            round: self.round,
            signature: self.signature@,
        }
    }
}

impl Vote {
    /// A copy of the vote with the same contents.
    pub fn duplicate(&self) -> (r: Vote)
        ensures
            r@ == self@,
    {
        Vote {
            validator: self.validator,
            block_id: self.block_id,
            slot: self.slot,
            round: self.round,
            signature: copy_bytes(&self.signature),
        }
    }
}

/// The views of a sequence of votes.
pub open spec fn vote_views(s: Seq<Vote>) -> Seq<VoteView> {
    s.map_values(|v: Vote| v@)
}

/// `id` has a vote in `s`.
pub open spec fn has_voter(s: Seq<VoteView>, id: ValidatorId) -> bool {
    exists|i: int| 0 <= i < s.len() && s[i].validator == id
}

/// The validators that have a vote in `s`.
pub open spec fn voters(s: Seq<VoteView>) -> Set<ValidatorId> {
    Set::new(|id: ValidatorId| has_voter(s, id))
}

/// Each validator has at most one vote in `s`.
pub open spec fn voters_unique(s: Seq<VoteView>) -> bool {
    forall|i: int, j: int|
        0 <= i < s.len() && 0 <= j < s.len() && s[i].validator == s[j].validator ==> i == j
}

/// `s` after recording `v`: a vote of the same validator is replaced in
/// place, otherwise `v` is appended.
pub open spec fn with_vote(s: Seq<VoteView>, v: VoteView) -> Seq<VoteView> {
    if has_voter(s, v.validator) {
        s.map_values(|x: VoteView| if x.validator == v.validator { v } else { x })
    } else {
        s.push(v)
    }
}

/// Vote collection for one block, one map from validator to vote per round.
#[derive(Clone, Debug)]
pub struct VoteSet {
    pub block_id: BlockId,
    round1_votes: Vec<Vote>,
    round2_votes: Vec<Vote>,
}

/// The contents of a vote set as plain values.
pub struct VoteSetView {
    pub block_id: BlockId,
    pub round1: Seq<VoteView>,
    pub round2: Seq<VoteView>,
}

impl View for VoteSet {
    type V = VoteSetView;

    closed spec fn view(&self) -> VoteSetView {
        VoteSetView {
            block_id: self.block_id,
            round1: vote_views(self.round1_votes@),
            round2: vote_views(self.round2_votes@),
        }
    }
}

impl VoteSetView {
    /// The votes of one round.
    pub open spec fn round(self, r: VoteRound) -> Seq<VoteView> {
        match r {
            VoteRound::Round1 => self.round1,
            VoteRound::Round2 => self.round2,
        }
    }

    /// At most one vote per validator in each round.
    pub open spec fn wf(self) -> bool {
        voters_unique(self.round1) && voters_unique(self.round2)
    }
}

/// Position of the vote of `id` in `votes`, if any.
fn find_voter(votes: &Vec<Vote>, id: ValidatorId) -> (r: Option<usize>)
    ensures
        r.is_none() <==> !has_voter(vote_views(votes@), id),
        r.is_some() ==> r.unwrap() < votes@.len() && votes@[r.unwrap() as int].validator == id,
{
    let mut i: usize = 0;
    while i < votes.len()
        invariant
            0 <= i <= votes@.len(),
            forall|j: int| 0 <= j < i ==> votes@[j].validator != id,
        decreases votes@.len() - i,
    {
        if votes[i].validator == id {
            assert(vote_views(votes@)[i as int].validator == id);
            return Some(i);
        }
        i = i + 1;
    }
    assert forall|j: int| 0 <= j < votes@.len() implies vote_views(votes@)[j].validator != id by {}
    None
}

/// Records `vote` in `votes`, replacing a vote of the same validator.
fn record_vote(votes: &mut Vec<Vote>, vote: Vote)
    requires
        voters_unique(vote_views(old(votes)@)),
    ensures
        vote_views(final(votes)@) == with_vote(vote_views(old(votes)@), vote@),
        voters_unique(vote_views(final(votes)@)),
{
    let ghost s = vote_views(votes@);
    let ghost v = vote@;
    match find_voter(votes, vote.validator) {
        Some(i) => {
            assert(s[i as int].validator == v.validator);
            votes.set(i, vote);
            assert forall|j: int| 0 <= j < s.len() && j != i implies s[j].validator
                != v.validator by {}
            assert(vote_views(votes@) =~= with_vote(s, v));
        },
        None => {
            votes.push(vote);
            assert(vote_views(votes@) =~= with_vote(s, v));
        },
    }
}

impl VoteSet {
    pub fn new(block_id: BlockId) -> (r: Self)
        ensures
            r@.block_id == block_id,
            r@.round1 == Seq::<VoteView>::empty(),
            r@.round2 == Seq::<VoteView>::empty(),
            r@.wf(),
    {
        let r = VoteSet { block_id, round1_votes: Vec::new(), round2_votes: Vec::new() };
        assert(r@.round1 =~= Seq::<VoteView>::empty());
        assert(r@.round2 =~= Seq::<VoteView>::empty());
        r
    }

    /// Records a vote in the map of its round; a vote of the same validator
    /// in that round is replaced.
    pub fn add_vote(&mut self, vote: Vote)
        requires
            old(self)@.wf(),
        ensures
            final(self)@.wf(),
            final(self)@.block_id == old(self)@.block_id,
            final(self)@.round(vote.round) == with_vote(old(self)@.round(vote.round), vote@),
            vote.round == VoteRound::Round1 ==> final(self)@.round2 == old(self)@.round2,
            vote.round == VoteRound::Round2 ==> final(self)@.round1 == old(self)@.round1,
    {
        match vote.round {
            VoteRound::Round1 => record_vote(&mut self.round1_votes, vote),
            VoteRound::Round2 => record_vote(&mut self.round2_votes, vote),
        }
    }

    /// The block this vote set is for.
    pub fn block_id(&self) -> (r: BlockId)
        ensures
            r == self@.block_id,
    {
        self.block_id
    }

    /// `validator` has a vote in round `round`.
    pub fn has_vote(&self, round: VoteRound, validator: ValidatorId) -> (r: bool)
        ensures
            r == has_voter(self@.round(round), validator),
    {
        match round {
            VoteRound::Round1 => find_voter(&self.round1_votes, validator).is_some(),
            VoteRound::Round2 => find_voter(&self.round2_votes, validator).is_some(),
        }
    }

    pub fn round1_count(&self) -> (r: usize)
        ensures
            r == self@.round1.len(),
    {
        self.round1_votes.len()
    }

    pub fn round2_count(&self) -> (r: usize)
        ensures
            r == self@.round2.len(),
    {
        self.round2_votes.len()
    }

    /// The votes of one round, in the order they were first recorded.
    pub fn votes(&self, round: VoteRound) -> (r: &Vec<Vote>)
        ensures
            vote_views(r@) == self@.round(round),
    {
        match round {
            VoteRound::Round1 => &self.round1_votes,
            VoteRound::Round2 => &self.round2_votes,
        }
    }
}

/// Finalized block certificate.
#[derive(Clone, Debug)]
pub struct FinalizationCertificate {
    pub block_id: BlockId,
    pub slot: Slot,
    pub round: VoteRound,
    pub votes: Vec<Vote>,
    pub total_stake: StakeWeight,
}

/// The contents of a certificate as plain values.
pub struct CertView {
    pub block_id: BlockId,
    pub slot: Slot,
    pub round: VoteRound,
    pub votes: Seq<VoteView>,
    pub total_stake: StakeWeight,
}

impl View for FinalizationCertificate {
    type V = CertView;

    open spec fn view(&self) -> CertView {
        CertView {
            block_id: self.block_id,
            slot: self.slot,
            round: self.round,
            votes: vote_views(self.votes@),
            total_stake: self.total_stake,
        }
    }
}

/// Copies a sequence of votes.
pub fn copy_votes(votes: &Vec<Vote>) -> (r: Vec<Vote>)
    ensures
        vote_views(r@) == vote_views(votes@),
{
    let mut r: Vec<Vote> = Vec::new();
    let mut i: usize = 0;
    while i < votes.len()
        invariant
            0 <= i <= votes@.len(),
            r@.len() == i,
            forall|j: int| 0 <= j < i ==> r@[j]@ == votes@[j]@,
        decreases votes@.len() - i,
    {
        r.push(votes[i].duplicate());
        i = i + 1;
    }
    assert(vote_views(r@) =~= vote_views(votes@));
    r
}

/// Configuration of one validator.
#[derive(Clone, Copy, Debug, PartialEq, Eq, Structural)]
pub struct ValidatorConfig {
    pub id: ValidatorId,
    pub stake: StakeWeight,
    pub is_byzantine: bool,
    pub is_offline: bool,
}

/// Sum of the stakes of a sequence of validators.
pub open spec fn sum_stakes(s: Seq<ValidatorConfig>) -> nat
    decreases s.len(),
{
    if s.len() == 0 {
        0
    } else {
        sum_stakes(s.drop_last()) + s.last().stake.0 as nat
    }
}

/// Sum of the stakes of the validators of `s` whose id lies in `ids`.
pub open spec fn stake_of(s: Seq<ValidatorConfig>, ids: Set<ValidatorId>) -> nat
    decreases s.len(),
{
    if s.len() == 0 {
        0
    } else {
        stake_of(s.drop_last(), ids) + if ids.contains(s.last().id) {
            s.last().stake.0 as nat
        } else {
            0nat
        }
    }
}

/// `id` is registered in `s`.
pub open spec fn has_id(s: Seq<ValidatorConfig>, id: ValidatorId) -> bool {
    exists|i: int| 0 <= i < s.len() && s[i].id == id
}

/// No two entries of `s` share an id.
pub open spec fn ids_unique(s: Seq<ValidatorConfig>) -> bool {
    forall|i: int, j: int| 0 <= i < s.len() && 0 <= j < s.len() && s[i].id == s[j].id ==> i == j
}

/// The registry after registering `c`: an entry with the same id is
/// replaced in place, otherwise `c` is appended.
pub open spec fn with_validator(s: Seq<ValidatorConfig>, c: ValidatorConfig) -> Seq<
    ValidatorConfig,
> {
    if has_id(s, c.id) {
        s.map_values(|x: ValidatorConfig| if x.id == c.id { c } else { x })
    } else {
        s.push(c)
    }
}

/// A validator that is neither byzantine nor offline.
pub open spec fn is_honest(c: ValidatorConfig) -> bool {
    !c.is_byzantine && !c.is_offline
}

/// Fast-path threshold: floor of 80% of the total stake.
pub open spec fn fast_threshold(total: nat) -> nat {
    (total * 80) / 100
}

/// Fallback threshold: floor of 60% of the total stake.
pub open spec fn fallback_threshold(total: nat) -> nat {
    (total * 60) / 100
}

/// The stake of any id set is at most the total stake.
pub proof fn lemma_stake_of_le_sum(s: Seq<ValidatorConfig>, ids: Set<ValidatorId>)
    ensures
        stake_of(s, ids) <= sum_stakes(s),
    decreases s.len(),
{
    if s.len() > 0 {
        lemma_stake_of_le_sum(s.drop_last(), ids);
    }
}

/// Replacing one entry changes the total by the difference of the stakes.
pub proof fn lemma_sum_stakes_update(s: Seq<ValidatorConfig>, i: int, c: ValidatorConfig)
    requires
        0 <= i < s.len(),
    ensures
        sum_stakes(s.update(i, c)) + s[i].stake.0 == sum_stakes(s) + c.stake.0,
    decreases s.len(),
{
    if i < s.len() - 1 {
        assert(s.update(i, c).drop_last() =~= s.drop_last().update(i, c));
        lemma_sum_stakes_update(s.drop_last(), i, c);
    } else {
        assert(s.update(i, c).drop_last() =~= s.drop_last());
    }
}

/// Adding ids never lowers their stake.
pub proof fn lemma_stake_of_monotonic(s: Seq<ValidatorConfig>, a: Set<ValidatorId>, b: Set<ValidatorId>)
    requires
        a.subset_of(b),
    ensures
        stake_of(s, a) <= stake_of(s, b),
    decreases s.len(),
{
    if s.len() > 0 {
        lemma_stake_of_monotonic(s.drop_last(), a, b);
    }
}

/// The stakes of two id sets add up to the stakes of their union and of
/// their intersection.
pub proof fn lemma_stake_of_union_intersect(
    s: Seq<ValidatorConfig>,
    a: Set<ValidatorId>,
    b: Set<ValidatorId>,
)
    ensures
        stake_of(s, a) + stake_of(s, b) == stake_of(s, a.union(b)) + stake_of(s, a.intersect(b)),
    decreases s.len(),
{
    if s.len() > 0 {
        lemma_stake_of_union_intersect(s.drop_last(), a, b);
    }
}

/// Two sets of validators that both reach the fast quorum share more than a
/// fifth of the total stake, once the total exceeds 4. So two blocks that
/// both gather a fast quorum need validators holding over 20% of the stake
/// to vote for both, more than the Byzantine stake the protocol tolerates.
pub proof fn lemma_fast_quorums_overlap(
    s: Seq<ValidatorConfig>,
    a: Set<ValidatorId>,
    b: Set<ValidatorId>,
)
    requires
        sum_stakes(s) > 4,
        stake_of(s, a) >= fast_threshold(sum_stakes(s)),
        stake_of(s, b) >= fast_threshold(sum_stakes(s)),
    ensures
        5 * stake_of(s, a.intersect(b)) > sum_stakes(s),
{
    let total = sum_stakes(s);
    let f = fast_threshold(total);
    lemma_stake_of_union_intersect(s, a, b);
    lemma_stake_of_le_sum(s, a.union(b));
    let i = stake_of(s, a.intersect(b));
    assert(i + total >= 2 * f);
    assert(10 * f >= 8 * total - 9) by (nonlinear_arith)
        requires
            f == (total * 80) / 100,
    ;
}

/// Network of validators with their stake distribution.
#[derive(Clone, Debug)]
pub struct ValidatorSet {
    validators: Vec<ValidatorConfig>,
    total_stake: StakeWeight,
}

impl View for ValidatorSet {
    type V = Seq<ValidatorConfig>;

    closed spec fn view(&self) -> Seq<ValidatorConfig> {
        self.validators@
    }
}

impl ValidatorSet {
    /// Ids are unique and the cached total is the sum of the stakes.
    pub closed spec fn wf(&self) -> bool {
        &&& ids_unique(self.validators@)
        &&& self.total_stake.0 == sum_stakes(self.validators@)
    }

    /// The total stake of the registry.
    pub open spec fn total(&self) -> nat {
        sum_stakes(self@)
    }

    pub fn new() -> (r: Self)
        ensures
            r.wf(),
            r@ == Seq::<ValidatorConfig>::empty(),
    {
        ValidatorSet { validators: Vec::new(), total_stake: StakeWeight(0) }
    }

    /// A copy of the registry.
    pub fn duplicate(&self) -> (r: Self)
        requires
            self.wf(),
        ensures
            r.wf(),
            r@ == self@,
    {
        let mut v: Vec<ValidatorConfig> = Vec::new();
        let mut i: usize = 0;
        while i < self.validators.len()
            invariant
                0 <= i <= self.validators@.len(),
                v@ == self.validators@.subrange(0, i as int),
            decreases self.validators@.len() - i,
        {
            v.push(self.validators[i]);
            i = i + 1;
            assert(v@ =~= self.validators@.subrange(0, i as int));
        }
        assert(v@ =~= self.validators@);
        ValidatorSet { validators: v, total_stake: self.total_stake }
    }

    /// Facts that every well-formed registry has.
    pub proof fn lemma_wf(&self)
        requires
            self.wf(),
        ensures
            ids_unique(self@),
            self.total() <= u64::MAX,
    {
    }

    /// Position of `id` in the registry, if registered.
    fn index_of(&self, id: ValidatorId) -> (r: Option<usize>)
        requires
            self.wf(),
        ensures
            r.is_none() <==> !has_id(self@, id),
            r.is_some() ==> r.unwrap() < self@.len() && self@[r.unwrap() as int].id == id,
    {
        let mut i: usize = 0;
        while i < self.validators.len()
            invariant
                0 <= i <= self.validators@.len(),
                forall|j: int| 0 <= j < i ==> self.validators@[j].id != id,
            decreases self.validators@.len() - i,
        {
            if self.validators[i].id == id {
                return Some(i);
            }
            i = i + 1;
        }
        None
    }

    /// Registers a validator; an existing entry with the same id is replaced.
    pub fn add_validator(&mut self, config: ValidatorConfig)
        requires
            old(self).wf(),
            sum_stakes(with_validator(old(self)@, config)) <= u64::MAX,
        ensures
            final(self).wf(),
            final(self)@ == with_validator(old(self)@, config),
    {
        match self.index_of(config.id) {
            Some(i) => {
                let ghost s = self.validators@;
                proof {
                    lemma_sum_stakes_update(s, i as int, config);
                    lemma_entry_le_sum(s, i as int);
                    assert(s.update(i as int, config) =~= with_validator(s, config));
                }
                let old_stake = self.validators[i].stake.0;
                self.total_stake = StakeWeight(self.total_stake.0 - old_stake + config.stake.0);
                self.validators.set(i, config);
            },
            None => {
                let ghost s = self.validators@;
                proof {
                    assert(s.push(config).drop_last() =~= s);
                }
                self.total_stake = StakeWeight(self.total_stake.0 + config.stake.0);
                self.validators.push(config);
            },
        }
    }

    /// The configuration registered under `id`.
    pub fn get_validator(&self, id: &ValidatorId) -> (r: Option<&ValidatorConfig>)
        requires
            self.wf(),
        ensures
            r.is_none() <==> !has_id(self@, *id),
            r.is_some() ==> self@.contains(*r.unwrap()) && r.unwrap().id == *id,
    {
        match self.index_of(*id) {
            Some(i) => Some(&self.validators[i]),
            None => None,
        }
    }

    pub fn total_stake(&self) -> (r: StakeWeight)
        requires
            self.wf(),
        ensures
            r.0 == self.total(),
    {
        self.total_stake
    }

    /// Validators that are neither byzantine nor offline, in registry order.
    pub fn honest_validators(&self) -> (r: Vec<ValidatorConfig>)
        ensures
            r@ == self@.filter(|c: ValidatorConfig| is_honest(c)),
    {
        let mut r: Vec<ValidatorConfig> = Vec::new();
        let mut i: usize = 0;
        while i < self.validators.len()
            invariant
                0 <= i <= self.validators@.len(),
                r@ == self.validators@.subrange(0, i as int).filter(
                    |c: ValidatorConfig| is_honest(c),
                ),
            decreases self.validators@.len() - i,
        {
            let c = self.validators[i];
            proof {
                let s = self.validators@;
                assert(s.subrange(0, i + 1).drop_last() =~= s.subrange(0, i as int));
                reveal(Seq::filter);
            }
            if !c.is_byzantine && !c.is_offline {
                r.push(c);
            }
            i = i + 1;
        }
        assert(self.validators@.subrange(0, i as int) =~= self.validators@);
        r
    }

    /// Sum of the stakes of the registered validators among `ids`; each
    /// registered validator counts once, unknown ids count nothing.
    pub fn calculate_stake(&self, validator_ids: &Vec<ValidatorId>) -> (r: StakeWeight)
        requires
            self.wf(),
        ensures
            r.0 == stake_of(self@, validator_ids@.to_set()),
    {
        let ghost ids = validator_ids@.to_set();
        let mut acc: u64 = 0;
        let mut i: usize = 0;
        while i < self.validators.len()
            invariant
                self.wf(),
                0 <= i <= self.validators@.len(),
                ids == validator_ids@.to_set(),
                acc == stake_of(self.validators@.subrange(0, i as int), ids),
            decreases self.validators@.len() - i,
        {
            let c = self.validators[i];
            proof {
                let s = self.validators@;
                assert(s.subrange(0, i + 1).drop_last() =~= s.subrange(0, i as int));
                lemma_stake_of_le_sum(s.subrange(0, i + 1), ids);
                lemma_sum_prefix_le(s, i + 1);
                assert(s.subrange(0, i + 1).last() == c);
                assert(ids.contains(c.id) == validator_ids@.contains(c.id));
            }
            if contains_validator_id(validator_ids, c.id) {
                acc = acc + c.stake.0;
            }
            i = i + 1;
        }
        assert(self.validators@.subrange(0, i as int) =~= self.validators@);
        StakeWeight(acc)
    }

    /// Fast quorum: `stake` reaches 80% of the total stake, rounded down.
    pub fn check_fast_quorum(&self, stake: StakeWeight) -> (r: bool)
        requires
            self.wf(),
        ensures
            r == (stake.0 >= fast_threshold(self.total())),
    {
        stake.0 >= fast_quorum_of(self.total_stake.0)
    }

    /// Fallback quorum: `stake` reaches 60% of the total stake, rounded down.
    pub fn check_fallback_quorum(&self, stake: StakeWeight) -> (r: bool)
        requires
            self.wf(),
        ensures
            r == (stake.0 >= fallback_threshold(self.total())),
    {
        stake.0 >= fallback_quorum_of(self.total_stake.0)
    }

    /// Number of registered validators.
    pub fn len(&self) -> (r: usize)
        ensures
            r == self@.len(),
    {
        self.validators.len()
    }

    /// The validator at position `i` of the registry.
    pub fn validator_at(&self, i: usize) -> (r: ValidatorConfig)
        requires
            i < self@.len(),
        ensures
            r == self@[i as int],
    {
        self.validators[i]
    }
}

/// One entry's stake is at most the total stake.
pub proof fn lemma_entry_le_sum(s: Seq<ValidatorConfig>, i: int)
    requires
        0 <= i < s.len(),
    ensures
        s[i].stake.0 <= sum_stakes(s),
    decreases s.len(),
{
    if i < s.len() - 1 {
        lemma_entry_le_sum(s.drop_last(), i);
    }
}

/// A prefix's stake is at most the total stake.
pub proof fn lemma_sum_prefix_le(s: Seq<ValidatorConfig>, k: int)
    requires
        0 <= k <= s.len(),
    ensures
        sum_stakes(s.subrange(0, k)) <= sum_stakes(s),
    decreases s.len() - k,
{
    if k < s.len() {
        assert(s.subrange(0, k + 1).drop_last() =~= s.subrange(0, k));
        lemma_sum_prefix_le(s, k + 1);
    } else {
        assert(s.subrange(0, k) =~= s);
    }
}

/// `id` occurs in `ids`.
pub fn contains_validator_id(ids: &Vec<ValidatorId>, id: ValidatorId) -> (r: bool)
    ensures
        r == ids@.contains(id),
{
    let mut i: usize = 0;
    while i < ids.len()
        invariant
            0 <= i <= ids@.len(),
            forall|j: int| 0 <= j < i ==> ids@[j] != id,
        decreases ids@.len() - i,
    {
        if ids[i] == id {
            return true;
        }
        i = i + 1;
    }
    false
}

/// Floor of 80% of `total`, computed without overflow.
pub fn fast_quorum_of(total: u64) -> (r: u64)
    ensures
        r == fast_threshold(total as nat),
{
    let q = total / 5;
    let m = total % 5;
    proof {
        assert((total as nat * 80) / 100 == 4 * q + (4 * m) / 5) by (nonlinear_arith)
            requires
                q == total / 5,
                m == total % 5,
                total >= 0,
        ;
    }
    4 * q + (4 * m) / 5
}

/// Floor of 60% of `total`, computed without overflow.
pub fn fallback_quorum_of(total: u64) -> (r: u64)
    ensures
        r == fallback_threshold(total as nat),
{
    let q = total / 5;
    let m = total % 5;
    proof {
        assert((total as nat * 60) / 100 == 3 * q + (3 * m) / 5) by (nonlinear_arith)
            requires
                q == total / 5,
                m == total % 5,
                total >= 0,
        ;
    }
    3 * q + (3 * m) / 5
}

} // verus!
