//! Rotor: block dissemination.
//!
//! A leader erasure-codes the encoding of a block into one shred per
//! validator; every other validator buffers the shreds it receives and
//! rebuilds the block once 80% of them, rounded up, are present.

use crate::codec::{
    block_bytes, block_fits, decode_block, decode_spec, encode_block_bytes, lemma_decode_block_bytes,
    header_bytes, push_bytes,
};
use crate::digest::sha256_of;
use crate::erasure::{
    coded_shred, encode_shreds, honest_slots, lemma_recover_any_k, recover, recover_spec,
};
use crate::types::{
    copy_bytes,
    has_id, ids_unique, is_honest, sum_stakes, Block, BlockId, BlockView, ValidatorConfig, ValidatorId, ValidatorSet,
};
use vstd::arithmetic::div_mod::{
    lemma_fundamental_div_mod, lemma_mod_bound,
};
use vstd::bytes::{spec_u64_from_le_bytes, u64_from_le_bytes};
use vstd::prelude::*;

verus! {

/// Reasons for rejecting a block or a shred.
#[derive(Debug, PartialEq, Eq, Structural)]
pub enum RotorError {
    ErasureCodingFailed,
    InsufficientShreds,
    InvalidShred,
}

/// A piece of an encoded block.
#[derive(Clone, Debug)]
pub struct Shred {
    pub block_id: BlockId,
    pub index: usize,
    pub total_shreds: usize,
    pub data: Vec<u8>,
}

/// The contents of a shred as plain values.
pub struct ShredView {
    pub block_id: BlockId,
    pub index: usize,
    pub total_shreds: usize,
    pub data: Seq<u8>,
}

impl View for Shred {
    type V = ShredView;

    open spec fn view(&self) -> ShredView {
        ShredView {
            block_id: self.block_id,
            index: self.index,
            total_shreds: self.total_shreds,
            data: self.data@,
        }
    }
}

/// Bytes per shred when `len` bytes are split over `n` shreds.
pub open spec fn chunk_size(len: nat, n: nat) -> nat {
    if n == 0 {
        0
    } else {
        len / n + if len % n == 0 {
            0nat
        } else {
            1nat
        }
    }
}

/// Chunk `i` of `n` of the encoding `bytes`, empty once the bytes run out.
pub open spec fn shred_data(bytes: Seq<u8>, n: nat, i: int) -> Seq<u8> {
    let c = chunk_size(bytes.len(), n);
    let lo = if i * c <= bytes.len() { i * c } else { bytes.len() as int };
    let hi = if (i + 1) * c <= bytes.len() { (i + 1) * c } else { bytes.len() as int };
    bytes.subrange(lo, hi)
}

/// Shreds needed to attempt reconstruction: 80% of `n` rounded up, that
/// is `n` less a fifth of `n` rounded down.
pub open spec fn shred_threshold(n: nat) -> nat {
    (n - n / 5) as nat
}

/// Number of filled slots.
pub open spec fn present_count(slots: Seq<Option<Seq<u8>>>) -> nat
    decreases slots.len(),
{
    if slots.len() == 0 {
        0
    } else {
        present_count(slots.drop_last()) + if slots.last().is_some() {
            1nat
        } else {
            0nat
        }
    }
}

/// `b`'s id is the digest of its header.
pub open spec fn id_matches_header(b: BlockView) -> bool {
    b.id.0@ == sha256_of(header_bytes(b.slot, b.parent, b.leader, b.timestamp))
}

/// Outcome of a reconstruction attempt on the slots of `id`: nothing yet
/// below the threshold; otherwise the block decoded from the encoding the
/// erasure code gives back, which must carry `id` and whose id must be the
/// digest of its header.
pub open spec fn reconstruction(slots: Seq<Option<Seq<u8>>>, id: BlockId) -> Result<
    Option<BlockView>,
    RotorError,
> {
    if present_count(slots) < shred_threshold(slots.len()) {
        Ok(None)
    } else {
        match recover_spec(slots) {
            None => Err(RotorError::ErasureCodingFailed),
            Some(bytes) => match decode_spec(bytes) {
                None => Err(RotorError::ErasureCodingFailed),
                Some(b) => if b.id == id && id_matches_header(b) {
                    Ok(Some(b))
                } else {
                    Err(RotorError::InvalidShred)
                },
            },
        }
    }
}

/// The reconstruction buffer of one block.
pub struct BufferView {
    pub slots: Seq<Option<Seq<u8>>>,
    pub block: Option<BlockView>,
}

/// The buffer of a block for which nothing was received yet.
pub open spec fn fresh_buffer(total: nat) -> BufferView {
    BufferView { slots: Seq::new(total, |i: int| None), block: None }
}

/// The state of a `Rotor` as plain values.
pub struct RotorView {
    pub validators: Seq<ValidatorConfig>,
    pub buffers: Map<BlockId, BufferView>,
}

/// Ids of the honest validators, in registry order.
pub open spec fn honest_ids(s: Seq<ValidatorConfig>) -> Seq<ValidatorId>
    decreases s.len(),
{
    if s.len() == 0 {
        Seq::empty()
    } else if is_honest(s.last()) {
        honest_ids(s.drop_last()).push(s.last().id)
    } else {
        honest_ids(s.drop_last())
    }
}

pub open spec fn opt_view(o: Option<Vec<u8>>) -> Option<Seq<u8>> {
    match o {
        Some(v) => Some(v@),
        None => None,
    }
}

pub open spec fn slots_view(s: Seq<Option<Vec<u8>>>) -> Seq<Option<Seq<u8>>> {
    s.map_values(|o: Option<Vec<u8>>| opt_view(o))
}

spec fn block_opt_view(o: Option<Block>) -> Option<BlockView> {
    match o {
        Some(b) => Some(b@),
        None => None,
    }
}

/// Received shreds and the reconstructed block of one block id.
struct BlockBuffer {
    block_id: BlockId,
    slots: Vec<Option<Vec<u8>>>,
    block: Option<Block>,
}

impl BlockBuffer {
    spec fn view(&self) -> BufferView {
        BufferView { slots: slots_view(self.slots@), block: block_opt_view(self.block) }
    }
}

spec fn buffer_views(s: Seq<BlockBuffer>) -> Seq<(BlockId, BufferView)> {
    s.map_values(|b: BlockBuffer| (b.block_id, b.view()))
}

spec fn keyed(s: Seq<(BlockId, BufferView)>) -> Map<BlockId, BufferView> {
    Map::new(
        |id: BlockId| exists|i: int| 0 <= i < s.len() && s[i].0 == id,
        |id: BlockId| s[choose|i: int| 0 <= i < s.len() && s[i].0 == id].1,
    )
}

spec fn keys_unique(s: Seq<(BlockId, BufferView)>) -> bool {
    forall|i: int, j: int| 0 <= i < s.len() && 0 <= j < s.len() && s[i].0 == s[j].0 ==> i == j
}

/// The entry at position `i` is the map's value for its key.
proof fn lemma_keyed_index(s: Seq<(BlockId, BufferView)>, i: int)
    requires
        keys_unique(s),
        0 <= i < s.len(),
    ensures
        keyed(s).contains_key(s[i].0),
        keyed(s)[s[i].0] == s[i].1,
{
    let id = s[i].0;
    assert(keyed(s).contains_key(id));
    let j = choose|j: int| 0 <= j < s.len() && s[j].0 == id;
    assert(j == i);
}

/// Replacing the value at one position updates the map at its key.
proof fn lemma_keyed_update(s: Seq<(BlockId, BufferView)>, i: int, v: BufferView)
    requires
        keys_unique(s),
        0 <= i < s.len(),
    ensures
        keys_unique(s.update(i, (s[i].0, v))),
        keyed(s.update(i, (s[i].0, v))) == keyed(s).insert(s[i].0, v),
{
    let k = s[i].0;
    let t = s.update(i, (k, v));
    assert forall|id: BlockId| #[trigger]
        keyed(t).contains_key(id) == keyed(s).insert(k, v).contains_key(id) by {
        if keyed(s).contains_key(id) {
            let j = choose|j: int| 0 <= j < s.len() && s[j].0 == id;
            assert(t[j].0 == id);
        }
        if keyed(t).contains_key(id) {
            let j = choose|j: int| 0 <= j < t.len() && t[j].0 == id;
            assert(s[j].0 == id);
        }
    }
    assert forall|id: BlockId| #[trigger] keyed(t).contains_key(id) implies keyed(t)[id] == keyed(
        s,
    ).insert(k, v)[id] by {
        let j = choose|j: int| 0 <= j < t.len() && t[j].0 == id;
        lemma_keyed_index(t, j);
        if j != i {
            lemma_keyed_index(s, j);
        }
    }
    assert(keyed(t) =~= keyed(s).insert(k, v));
}

/// Appending an entry with a new key inserts it into the map.
proof fn lemma_keyed_push(s: Seq<(BlockId, BufferView)>, k: BlockId, v: BufferView)
    requires
        keys_unique(s),
        !keyed(s).contains_key(k),
    ensures
        keys_unique(s.push((k, v))),
        keyed(s.push((k, v))) == keyed(s).insert(k, v),
{
    let t = s.push((k, v));
    assert forall|i: int, j: int|
        0 <= i < t.len() && 0 <= j < t.len() && t[i].0 == t[j].0 implies i == j by {
        if i < s.len() && j == s.len() {
            assert(s[i].0 == k);
        }
        if j < s.len() && i == s.len() {
            assert(s[j].0 == k);
        }
    }
    assert forall|id: BlockId| #[trigger]
        keyed(t).contains_key(id) == keyed(s).insert(k, v).contains_key(id) by {
        if keyed(s).contains_key(id) {
            let j = choose|j: int| 0 <= j < s.len() && s[j].0 == id;
            assert(t[j].0 == id);
        }
        if keyed(t).contains_key(id) {
            let j = choose|j: int| 0 <= j < t.len() && t[j].0 == id;
            if j < s.len() {
                assert(s[j].0 == id);
            }
        }
        if id == k {
            assert(t[s.len() as int].0 == id);
        }
    }
    assert forall|id: BlockId| #[trigger] keyed(t).contains_key(id) implies keyed(t)[id] == keyed(
        s,
    ).insert(k, v)[id] by {
        let j = choose|j: int| 0 <= j < t.len() && t[j].0 == id;
        lemma_keyed_index(t, j);
        if j < s.len() {
            lemma_keyed_index(s, j);
        }
    }
    assert(keyed(t) =~= keyed(s).insert(k, v));
}


/// `n` chunks of the chunk size cover all `len` bytes.
pub(crate) proof fn lemma_chunks_cover(len: nat, n: nat)
    requires
        n > 0,
    ensures
        n * chunk_size(len, n) >= len,
{
    let c = chunk_size(len, n);
    lemma_fundamental_div_mod(len as int, n as int);
    lemma_mod_bound(len as int, n as int);
    let q = len / n;
    let r = len % n;
    if r == 0 {
        assert(n * c == n * q);
    } else {
        assert(n * c == n * q + n) by (nonlinear_arith)
            requires
                c == q + 1,
        ;
    }
}

/// Reconstructing from any 80% of a block's shreds, rounded up, whichever
/// they are, gives the block back, equal in id and every field.
pub proof fn lemma_round_trip(b: BlockView, slots: Seq<Option<Seq<u8>>>)
    requires
        block_fits(b),
        id_matches_header(b),
        block_bytes(b).len() <= u64::MAX,
        slots.len() > 0,
        honest_slots(slots, block_bytes(b)),
        present_count(slots) >= shred_threshold(slots.len()),
    ensures
        reconstruction(slots, b.id) == Ok::<Option<BlockView>, RotorError>(Some(b)),
{
    lemma_recover_any_k(slots, block_bytes(b));
    lemma_decode_block_bytes(b);
}

/// Whatever the order in which a block's shreds arrive, the shred that
/// brings its buffer to 80% of the slots, rounded up, hands out the block,
/// when no block was reconstructed for it before.
pub proof fn lemma_receive_completes_block(
    buffers: Map<BlockId, BufferView>,
    b: BlockView,
    n: nat,
    i: int,
)
    requires
        block_fits(b),
        id_matches_header(b),
        block_bytes(b).len() <= u64::MAX,
        0 < n <= usize::MAX,
        0 <= i < n,
        buffers.contains_key(b.id),
        buffers[b.id].block.is_none(),
        buffers[b.id].slots.len() == n,
        honest_slots(
            buffers[b.id].slots.update(i, Some(coded_shred(block_bytes(b), n, i))),
            block_bytes(b),
        ),
        present_count(buffers[b.id].slots.update(i, Some(coded_shred(block_bytes(b), n, i))))
            >= shred_threshold(n),
    ensures
        receive_outcome(
            buffers,
            n,
            ShredView {
                block_id: b.id,
                index: i as usize,
                total_shreds: n as usize,
                data: coded_shred(block_bytes(b), n, i),
            },
        ).1 == Ok::<Option<BlockView>, RotorError>(Some(b)),
{
    lemma_round_trip(b, buffers[b.id].slots.update(i, Some(coded_shred(block_bytes(b), n, i))));
}


/// The block a reconstruction outcome yields, if any.
pub open spec fn yielded(out: Result<Option<BlockView>, RotorError>) -> Option<BlockView> {
    match out {
        Ok(Some(b)) => Some(b),
        _ => None,
    }
}

/// `r` is the executable form of the outcome `out`.
pub open spec fn outcome_matches(
    r: Result<Option<Block>, RotorError>,
    out: Result<Option<BlockView>, RotorError>,
) -> bool {
    match (r, out) {
        (Ok(Some(x)), Ok(Some(b))) => x@ == b,
        (Ok(None), Ok(None)) => true,
        (Err(e1), Err(e2)) => e1 == e2,
        _ => false,
    }
}

/// A buffer's reconstructed block carries the buffer's id, and a buffer
/// without one does not yield a block from the slots it holds.
pub open spec fn buffer_consistent(id: BlockId, buf: BufferView) -> bool {
    &&& buf.block.is_some() ==> buf.block.unwrap().id == id
    &&& buf.block.is_none() ==> yielded(reconstruction(buf.slots, id)).is_none()
}

/// Every buffer is consistent.
pub open spec fn buffers_consistent(m: Map<BlockId, BufferView>) -> bool {
    forall|id: BlockId| #[trigger] m.contains_key(id) ==> buffer_consistent(id, m[id])
}

/// A shred already held in its buffer changes nothing when it arrives
/// again, and hands out no block: duplicate shreds are idempotent.
pub proof fn lemma_duplicate_shred(buffers: Map<BlockId, BufferView>, n: nat, shred: ShredView)
    requires
        buffers_consistent(buffers),
        shred.total_shreds == n,
        buffers.contains_key(shred.block_id),
        shred.index < shred.total_shreds,
        shred.index < buffers[shred.block_id].slots.len(),
        buffers[shred.block_id].slots[shred.index as int] == Some(shred.data),
    ensures
        receive_outcome(buffers, n, shred).0 == buffers,
        yielded(receive_outcome(buffers, n, shred).1).is_none(),
{
    let id = shred.block_id;
    let buf = buffers[id];
    assert(buf.slots.update(shred.index as int, Some(shred.data)) =~= buf.slots);
    assert(buffer_consistent(id, buf));
    assert(buffers.insert(id, BufferView { slots: buf.slots, block: buf.block }) =~= buffers);
    if buf.block.is_none() {
        assert(buffers.insert(id, BufferView { slots: buf.slots, block: yielded(reconstruction(buf.slots, id)) }) =~= buffers);
    }
}

/// A consistent buffer that holds, in whatever order they came, at least
/// 80% of a block's shreds, rounded up, and no other data, has rebuilt a
/// block carrying that block's id.
pub proof fn lemma_honest_buffer_rebuilt(buf: BufferView, b: BlockView)
    requires
        buffer_consistent(b.id, buf),
        block_fits(b),
        id_matches_header(b),
        block_bytes(b).len() <= u64::MAX,
        buf.slots.len() > 0,
        honest_slots(buf.slots, block_bytes(b)),
        present_count(buf.slots) >= shred_threshold(buf.slots.len()),
    ensures
        buf.block.is_some(),
        buf.block.unwrap().id == b.id,
{
    lemma_round_trip(b, buf.slots);
}

/// The buffer of `id`, or a fresh one of `total` slots.
pub open spec fn buffer_or_fresh(m: Map<BlockId, BufferView>, id: BlockId, total: nat) -> BufferView {
    if m.contains_key(id) {
        m[id]
    } else {
        fresh_buffer(total)
    }
}

/// The buffers after receiving `shred` with `n` validators, and the result:
/// a shred whose total is not `n`, or whose index is not below its total or
/// below the length of its block's buffer, is rejected and changes nothing;
/// a new block gets a buffer of `n` slots; otherwise the shred fills its slot,
/// and a block that has no reconstructed block yet is reconstructed if
/// possible. A block is handed out once.
pub open spec fn receive_outcome(buffers: Map<BlockId, BufferView>, n: nat, shred: ShredView) -> (Map<
    BlockId,
    BufferView,
>, Result<Option<BlockView>, RotorError>) {
    let id = shred.block_id;
    let buf = buffer_or_fresh(buffers, id, n);
    if shred.total_shreds != n || shred.index >= shred.total_shreds || shred.index
        >= buf.slots.len() {
        (buffers, Err(RotorError::InvalidShred))
    } else {
        let slots = buf.slots.update(shred.index as int, Some(shred.data));
        if buf.block.is_some() {
            (buffers.insert(id, BufferView { slots, block: buf.block }), Ok(None))
        } else {
            let out = reconstruction(slots, id);
            (buffers.insert(id, BufferView { slots, block: yielded(out) }), out)
        }
    }
}

pub(crate) fn count_present(slots: &Vec<Option<Vec<u8>>>) -> (r: usize)
    ensures
        r == present_count(slots_view(slots@)),
{
    let ghost v = slots_view(slots@);
    let mut k: usize = 0;
    let mut i: usize = 0;
    while i < slots.len()
        invariant
            0 <= i <= slots@.len(),
            v == slots_view(slots@),
            k <= i,
            k == present_count(v.take(i as int)),
        decreases slots@.len() - i,
    {
        proof {
            assert(v.take(i + 1).drop_last() =~= v.take(i as int));
        }
        if slots[i].is_some() {
            k = k + 1;
        }
        i = i + 1;
    }
    assert(v.take(i as int) =~= v);
    k
}


fn empty_slots(total: usize) -> (r: Vec<Option<Vec<u8>>>)
    ensures
        slots_view(r@) == fresh_buffer(total as nat).slots,
{
    let mut r: Vec<Option<Vec<u8>>> = Vec::new();
    let mut i: usize = 0;
    while i < total
        invariant
            0 <= i <= total,
            r@.len() == i,
            forall|j: int| 0 <= j < i ==> r@[j].is_none(),
        decreases total - i,
    {
        r.push(None);
        i = i + 1;
    }
    assert(slots_view(r@) =~= fresh_buffer(total as nat).slots);
    r
}

/// One step of the xorshift generator that drives relay sampling.
pub open spec fn xorshift(x: u64) -> u64 {
    let a = x ^ (x << 13u64);
    let b = a ^ (a >> 7u64);
    b ^ (b << 17u64)
}

/// The sampling seed of a block: its first 8 id bytes, little-endian.
pub open spec fn relay_seed(id: BlockId) -> u64 {
    spec_u64_from_le_bytes(id.0@.subrange(0, 8))
}

/// Sum of the stakes of `c`, first entry first.
pub open spec fn stake_total(c: Seq<ValidatorConfig>) -> nat
    decreases c.len(),
{
    if c.len() == 0 {
        0
    } else {
        c[0].stake.0 as nat + stake_total(c.drop_first())
    }
}

/// The position that the draw `r` selects: the first entry whose
/// cumulative stake exceeds `r`.
pub open spec fn pick_index(c: Seq<ValidatorConfig>, r: nat) -> nat
    decreases c.len(),
{
    if c.len() == 0 {
        0
    } else if r < c[0].stake.0 {
        0
    } else {
        1 + pick_index(c.drop_first(), (r - c[0].stake.0) as nat)
    }
}

/// Up to `k` validators drawn from `c` by stake without replacement: each
/// draw takes the next generator state modulo the remaining stake, selects
/// by cumulative stake, and removes the selected validator.
pub open spec fn relay_sample(c: Seq<ValidatorConfig>, state: u64, k: nat) -> Seq<ValidatorId>
    decreases k,
{
    if k == 0 || stake_total(c) == 0 {
        Seq::empty()
    } else {
        let s = xorshift(state);
        let i = pick_index(c, (s as nat) % stake_total(c)) as int;
        seq![c[i].id] + relay_sample(c.remove(i), s, (k - 1) as nat)
    }
}

proof fn lemma_stake_total_push(c: Seq<ValidatorConfig>, x: ValidatorConfig)
    ensures
        stake_total(c.push(x)) == stake_total(c) + x.stake.0,
    decreases c.len(),
{
    if c.len() == 0 {
        assert(c.push(x).drop_first() =~= Seq::<ValidatorConfig>::empty());
        assert(c.push(x)[0] == x);
        assert(stake_total(c.push(x).drop_first()) == 0);
    } else {
        assert(c.push(x).drop_first() =~= c.drop_first().push(x));
        assert(c.push(x)[0] == c[0]);
        lemma_stake_total_push(c.drop_first(), x);
    }
}

proof fn lemma_stake_total_is_sum(c: Seq<ValidatorConfig>)
    ensures
        stake_total(c) == sum_stakes(c),
    decreases c.len(),
{
    if c.len() > 0 {
        lemma_stake_total_is_sum(c.drop_last());
        lemma_stake_total_push(c.drop_last(), c.last());
        assert(c.drop_last().push(c.last()) =~= c);
    }
}

proof fn lemma_stake_total_remove(c: Seq<ValidatorConfig>, i: int)
    requires
        0 <= i < c.len(),
    ensures
        stake_total(c.remove(i)) + c[i].stake.0 == stake_total(c),
    decreases c.len(),
{
    if i == 0 {
        assert(c.remove(0) =~= c.drop_first());
    } else {
        assert(c.remove(i).drop_first() =~= c.drop_first().remove(i - 1));
        assert(c.remove(i)[0] == c[0]);
        lemma_stake_total_remove(c.drop_first(), i - 1);
    }
}

proof fn lemma_pick_in_range(c: Seq<ValidatorConfig>, r: nat)
    requires
        r < stake_total(c),
    ensures
        pick_index(c, r) < c.len(),
    decreases c.len(),
{
    if c.len() > 0 && r >= c[0].stake.0 {
        lemma_pick_in_range(c.drop_first(), (r - c[0].stake.0) as nat);
    }
}

proof fn lemma_relay_sample_ids(c: Seq<ValidatorConfig>, state: u64, k: nat)
    requires
        ids_unique(c),
    ensures
        relay_sample(c, state, k).no_duplicates(),
        forall|j: int|
            0 <= j < relay_sample(c, state, k).len() ==> exists|m: int|
                0 <= m < c.len() && c[m].id == #[trigger] relay_sample(c, state, k)[j],
    decreases k,
{
    if k > 0 && stake_total(c) > 0 {
        let s = xorshift(state);
        let i = pick_index(c, (s as nat) % stake_total(c)) as int;
        lemma_pick_in_range(c, (s as nat) % stake_total(c));
        let rest = c.remove(i);
        assert forall|a: int, b: int|
            0 <= a < rest.len() && 0 <= b < rest.len() && rest[a].id == rest[b].id implies a
            == b by {
            let a2 = if a < i { a } else { a + 1 };
            let b2 = if b < i { b } else { b + 1 };
            assert(rest[a] == c[a2]);
            assert(rest[b] == c[b2]);
        }
        lemma_relay_sample_ids(rest, s, (k - 1) as nat);
        let tail = relay_sample(rest, s, (k - 1) as nat);
        let out = relay_sample(c, state, k);
        assert(out == seq![c[i].id] + tail);
        assert forall|j: int| 0 <= j < tail.len() implies tail[j] != c[i].id by {
            let m = choose|m: int| 0 <= m < rest.len() && rest[m].id == tail[j];
            let m2 = if m < i { m } else { m + 1 };
            assert(rest[m] == c[m2]);
        }
        assert forall|j: int| 0 <= j < out.len() implies exists|m: int|
            0 <= m < c.len() && c[m].id == #[trigger] out[j] by {
            if j == 0 {
                assert(c[i].id == out[0]);
            } else {
                assert(out[j] == tail[j - 1]);
                let m = choose|m: int| 0 <= m < rest.len() && rest[m].id == tail[j - 1];
                let m2 = if m < i { m } else { m + 1 };
                assert(rest[m] == c[m2]);
            }
        }
        assert forall|a: int, b: int|
            0 <= a < out.len() && 0 <= b < out.len() && a != b implies out[a] != out[b] by {
            if a > 0 && b > 0 {
                assert(out[a] == tail[a - 1]);
                assert(out[b] == tail[b - 1]);
            } else if a == 0 {
                assert(out[b] == tail[b - 1]);
            } else {
                assert(out[a] == tail[a - 1]);
            }
        }
    }
}

fn xorshift_step(x: u64) -> (r: u64)
    ensures
        r == xorshift(x),
{
    let a = x ^ (x << 13u64);
    let b = a ^ (a >> 7u64);
    b ^ (b << 17u64)
}

/// The position that draw `r` selects in `c`.
fn pick(c: &Vec<ValidatorConfig>, r: u64) -> (i: usize)
    requires
        r < stake_total(c@),
    ensures
        i == pick_index(c@, r as nat),
        i < c@.len(),
{
    let ghost cs = c@;
    let mut j: usize = 0;
    let mut acc: u64 = 0;
    proof {
        assert(cs.skip(0) =~= cs);
        lemma_pick_in_range(cs, r as nat);
    }
    while j < c.len()
        invariant
            cs == c@,
            0 <= j <= cs.len(),
            acc <= r,
            (r - acc) < stake_total(cs.skip(j as int)),
            pick_index(cs, r as nat) == j + pick_index(cs.skip(j as int), (r - acc) as nat),
        decreases cs.len() - j,
    {
        let st = c[j].stake.0;
        proof {
            assert(cs.skip(j as int)[0] == cs[j as int]);
            assert(cs.skip(j as int).drop_first() =~= cs.skip(j + 1));
        }
        if r - acc < st {
            return j;
        }
        acc = acc + st;
        j = j + 1;
    }
    proof {
        assert(cs.skip(j as int) =~= Seq::<ValidatorConfig>::empty());
    }
    j
}

/// Rotor handles block propagation.
pub struct Rotor {
    validator_set: ValidatorSet,
    buffers: Vec<BlockBuffer>,
}

impl View for Rotor {
    type V = RotorView;

    closed spec fn view(&self) -> RotorView {
        RotorView { validators: self.validator_set@, buffers: keyed(buffer_views(self.buffers@)) }
    }
}

impl Rotor {
    /// The registry is well formed and each block id has one buffer.
    pub closed spec fn wf(&self) -> bool {
        &&& self.base_wf()
        &&& buffers_consistent(self@.buffers)
    }

    /// The registry is well formed, each block id has one buffer, and each
    /// reconstructed block carries its buffer's id.
    closed spec fn base_wf(&self) -> bool {
        &&& self.validator_set.wf()
        &&& keys_unique(buffer_views(self.buffers@))
        &&& forall|id: BlockId| #[trigger]
            self@.buffers.contains_key(id) ==> self@.buffers[id].slots.len() == self@.validators.len()
        &&& forall|id: BlockId| #[trigger]
            self@.buffers.contains_key(id) && self@.buffers[id].block.is_some()
                ==> self@.buffers[id].block.unwrap().id == id
    }

    /// `wf`, but for whether the buffer of `id` would yield a block.
    closed spec fn wf_except(&self, id: BlockId) -> bool {
        &&& self.base_wf()
        &&& forall|other: BlockId| #[trigger]
            self@.buffers.contains_key(other) && other != id ==> buffer_consistent(
                other,
                self@.buffers[other],
            )
    }

    /// Every buffer is consistent.
    pub proof fn lemma_buffers(&self)
        requires
            self.wf(),
        ensures
            buffers_consistent(self@.buffers),
    {
    }

    pub fn new(validator_set: ValidatorSet) -> (r: Self)
        requires
            validator_set.wf(),
        ensures
            r.wf(),
            r@.validators == validator_set@,
            r@.buffers == Map::<BlockId, BufferView>::empty(),
    {
        let r = Rotor { validator_set, buffers: Vec::new() };
        assert(r@.buffers =~= Map::<BlockId, BufferView>::empty());
        r
    }

    /// Erasure-codes the encoding of `block` into one shred per validator
    /// (see `erasure`): any 80% of them, rounded up, rebuild the block. Fails
    /// when there are no validators.
    pub fn encode_block(&self, block: &Block) -> (r: Result<Vec<Shred>, RotorError>)
        requires
            self.wf(),
        ensures
            match r {
                Err(e) => e == RotorError::ErasureCodingFailed && self@.validators.len() == 0,
                Ok(shreds) => {
                    let n = self@.validators.len();
                    &&& n > 0
                    &&& shreds@.len() == n
                    &&& forall|i: int|
                        0 <= i < n ==> (#[trigger] shreds@[i])@ == (ShredView {
                            block_id: block.id,
                            index: i as usize,
                            total_shreds: n as usize,
                            data: coded_shred(block_bytes(block@), n, i),
                        })
                },
            },
    {
        let bytes = encode_block_bytes(block);
        let n = self.validator_set.len();
        if n == 0 {
            return Err(RotorError::ErasureCodingFailed);
        }
        let datas = encode_shreds(&bytes, n);
        let mut shreds: Vec<Shred> = Vec::new();
        let mut i: usize = 0;
        while i < n
            invariant
                0 <= i <= n,
                n == self@.validators.len(),
                bytes@ == block_bytes(block@),
                datas@.len() == n,
                forall|k: int| 0 <= k < n ==> (#[trigger] datas@[k])@ == coded_shred(bytes@, n as nat, k),
                shreds@.len() == i,
                forall|j: int|
                    0 <= j < i ==> (#[trigger] shreds@[j])@ == (ShredView {
                        block_id: block.id,
                        index: j as usize,
                        total_shreds: n as usize,
                        data: coded_shred(block_bytes(block@), n as nat, j),
                    }),
            decreases n - i,
        {
            let data = copy_bytes(&datas[i]);
            shreds.push(Shred { block_id: block.id, index: i, total_shreds: n, data });
            i = i + 1;
        }
        Ok(shreds)
    }

    /// Relays for dissemination: the first `count` honest validators, in
    /// registry order.
    pub fn select_relays(&self, count: usize) -> (r: Vec<ValidatorId>)
        requires
            self.wf(),
        ensures
            r@ == honest_ids(self@.validators).take(
                if count <= honest_ids(self@.validators).len() {
                    count as int
                } else {
                    honest_ids(self@.validators).len() as int
                },
            ),
            r@.no_duplicates(),
    {
        let ghost s = self@.validators;
        let mut all: Vec<ValidatorId> = Vec::new();
        let mut i: usize = 0;
        let n = self.validator_set.len();
        proof {
            self.validator_set.lemma_wf();
        }
        while i < n
            invariant
                0 <= i <= n,
                n == s.len(),
                s == self@.validators,
                ids_unique(s),
                all@ == honest_ids(s.take(i as int)),
            decreases n - i,
        {
            let c = self.validator_set.validator_at(i);
            proof {
                assert(s.take(i + 1).drop_last() =~= s.take(i as int));
            }
            if !c.is_byzantine && !c.is_offline {
                all.push(c.id);
            }
            i = i + 1;
        }
        proof {
            assert(s.take(i as int) =~= s);
            lemma_honest_ids_unique(s);
        }
        let k = if count <= all.len() {
            count
        } else {
            all.len()
        };
        all.truncate(k);
        proof {
            let h = honest_ids(s);
            assert forall|a: int, b: int|
                0 <= a < all@.len() && 0 <= b < all@.len() && a != b implies all@[a]
                != all@[b] by {
                assert(all@[a] == h[a]);
                assert(all@[b] == h[b]);
            }
        }
        all
    }

    /// Stores a shred in the buffer of its block and attempts
    /// reconstruction, as `receive_outcome` describes.
    pub fn receive_shred(&mut self, shred: Shred) -> (r: Result<Option<Block>, RotorError>)
        requires
            old(self).wf(),
        ensures
            final(self).wf(),
            final(self)@.validators == old(self)@.validators,
            final(self)@.buffers == receive_outcome(
                old(self)@.buffers,
                old(self)@.validators.len(),
                shred@,
            ).0,
            outcome_matches(
                r,
                receive_outcome(old(self)@.buffers, old(self)@.validators.len(), shred@).1,
            ),
    {
        let block_id = shred.block_id;
        let index = shred.index;
        let total = shred.total_shreds;
        if total != self.validator_set.len() || index >= total {
            return Err(RotorError::InvalidShred);
        }
        let ghost sv = buffer_views(self.buffers@);
        let idx = match self.find_buffer(block_id) {
            Some(i) => {
                if index >= self.buffers[i].slots.len() {
                    return Err(RotorError::InvalidShred);
                }
                i
            },
            None => {
                let slots = empty_slots(total);
                let fresh = BlockBuffer { block_id, slots, block: None };
                self.buffers.push(fresh);
                proof {
                    assert(buffer_views(self.buffers@) =~= sv.push((block_id, fresh.view())));
                    lemma_keyed_push(sv, block_id, fresh.view());
                }
                self.buffers.len() - 1
            },
        };
        let ghost mid = buffer_views(self.buffers@);
        let ghost before = self@.buffers;
        proof {
            lemma_keyed_index(mid, idx as int);
        }
        let mut buf = self.buffers.remove(idx);
        buf.slots.set(index, Some(shred.data));
        let ghost nb = buf.view();
        self.buffers.insert(idx, buf);
        proof {
            assert(buffer_views(self.buffers@) =~= mid.update(idx as int, (block_id, nb)));
            assert(slots_view(buf.slots@) =~= mid[idx as int].1.slots.update(
                index as int,
                Some(shred.data@),
            ));
            lemma_keyed_update(mid, idx as int, nb);
            assert(self@.buffers == before.insert(block_id, nb));
        }
        self.try_reconstruct_block(block_id)
    }

    /// Attempts to rebuild the block of `block_id` from its buffer.
    fn try_reconstruct_block(&mut self, block_id: BlockId) -> (r: Result<
        Option<Block>,
        RotorError,
    >)
        requires
            old(self).wf_except(block_id),
        ensures
            final(self).wf(),
            final(self)@.validators == old(self)@.validators,
            !old(self)@.buffers.contains_key(block_id) ==> r == Err::<Option<Block>, RotorError>(
                RotorError::InsufficientShreds,
            ) && final(self)@ == old(self)@,
            old(self)@.buffers.contains_key(block_id) && old(self)@.buffers[block_id].block.is_some()
                ==> (r matches Ok(None)) && final(self)@ == old(self)@,
            old(self)@.buffers.contains_key(block_id) && old(self)@.buffers[block_id].block.is_none()
                ==> {
                let buf = old(self)@.buffers[block_id];
                let out = reconstruction(buf.slots, block_id);
                &&& outcome_matches(r, out)
                &&& final(self)@.buffers == old(self)@.buffers.insert(
                    block_id,
                    BufferView { slots: buf.slots, block: yielded(out) },
                )
            },
    {
        let idx = match self.find_buffer(block_id) {
            Some(i) => i,
            None => {
                return Err(RotorError::InsufficientShreds);
            },
        };
        let ghost sv = buffer_views(self.buffers@);
        proof {
            lemma_keyed_index(sv, idx as int);
            assert(self@.buffers.insert(block_id, self@.buffers[block_id]) =~= self@.buffers);
        }
        if self.buffers[idx].block.is_some() {
            return Ok(None);
        }
        let total = self.buffers[idx].slots.len();
        let present = count_present(&self.buffers[idx].slots);
        if present < total - total / 5 {
            return Ok(None);
        }
        let data = match recover(&self.buffers[idx].slots) {
            Some(d) => d,
            None => {
                return Err(RotorError::ErasureCodingFailed);
            },
        };
        let block = match decode_block(&data) {
            Some(b) => b,
            None => {
                return Err(RotorError::ErasureCodingFailed);
            },
        };
        if !block.id.same_as(&block_id) {
            return Err(RotorError::InvalidShred);
        }
        let recomputed = block.compute_id();
        if !recomputed.same_as(&block.id) {
            proof {
                if id_matches_header(block@) {
                    assert(recomputed.0 =~= block.id.0);
                }
            }
            return Err(RotorError::InvalidShred);
        }
        let cached = block.duplicate();
        let mut buf = self.buffers.remove(idx);
        buf.block = Some(cached);
        let ghost nb = buf.view();
        self.buffers.insert(idx, buf);
        proof {
            assert(buffer_views(self.buffers@) =~= sv.update(idx as int, (block_id, nb)));
            lemma_keyed_update(sv, idx as int, nb);
        }
        Ok(Some(block))
    }

    /// Relays for the dissemination of `block_id`: up to `count` distinct
    /// validators drawn by stake without replacement, from a generator
    /// seeded by the block id, so that every node computes the same set.
    pub fn sample_relays(&self, block_id: &BlockId, count: usize) -> (r: Vec<ValidatorId>)
        requires
            self.wf(),
        ensures
            r@ == relay_sample(self@.validators, relay_seed(*block_id), count as nat),
            r@.no_duplicates(),
            forall|j: int| 0 <= j < r@.len() ==> has_id(self@.validators, #[trigger] r@[j]),
    {
        let ghost c0 = self@.validators;
        let n = self.validator_set.len();
        let mut cands: Vec<ValidatorConfig> = Vec::new();
        let mut m: usize = 0;
        while m < n
            invariant
                0 <= m <= n,
                n == c0.len(),
                c0 == self@.validators,
                cands@ == c0.subrange(0, m as int),
            decreases n - m,
        {
            cands.push(self.validator_set.validator_at(m));
            m = m + 1;
            assert(cands@ =~= c0.subrange(0, m as int));
        }
        assert(cands@ =~= c0);
        let mut seed_bytes: Vec<u8> = Vec::new();
        let mut b: usize = 0;
        while b < 8
            invariant
                0 <= b <= 8,
                seed_bytes@ == block_id.0@.subrange(0, b as int),
            decreases 8 - b,
        {
            seed_bytes.push(block_id.0[b]);
            b = b + 1;
            assert(seed_bytes@ =~= block_id.0@.subrange(0, b as int));
        }
        let seed = u64_from_le_bytes(seed_bytes.as_slice());
        let mut state = seed;
        let mut total = self.validator_set.total_stake().0;
        proof {
            lemma_stake_total_is_sum(c0);
            assert(relay_sample(c0, seed, count as nat) =~= Seq::<ValidatorId>::empty() + relay_sample(
                c0,
                seed,
                count as nat,
            ));
        }
        let mut out: Vec<ValidatorId> = Vec::new();
        let mut k: usize = 0;
        while k < count && total > 0
            invariant
                k <= count,
                total == stake_total(cands@),
                out@ + relay_sample(cands@, state, (count - k) as nat) == relay_sample(
                    c0,
                    seed,
                    count as nat,
                ),
            decreases count - k,
        {
            let ghost before = cands@;
            let ghost prev = state;
            state = xorshift_step(state);
            let r = state % total;
            let i = pick(&cands, r);
            let picked = cands.remove(i);
            proof {
                lemma_stake_total_remove(before, i as int);
                let rest = relay_sample(before.remove(i as int), state, (count - k - 1) as nat);
                assert(relay_sample(before, prev, (count - k) as nat) == seq![before[i as int].id]
                    + rest);
                assert(out@.push(picked.id) + rest =~= out@ + (seq![before[i as int].id] + rest));
            }
            total = total - picked.stake.0;
            out.push(picked.id);
            k = k + 1;
        }
        proof {
            assert(relay_sample(cands@, state, (count - k) as nat) =~= Seq::<ValidatorId>::empty());
            assert(out@ + Seq::<ValidatorId>::empty() =~= out@);
            self.validator_set.lemma_wf();
            lemma_relay_sample_ids(c0, seed, count as nat);
            assert forall|j: int| 0 <= j < out@.len() implies has_id(c0, #[trigger] out@[j]) by {
                let m = choose|m: int| 0 <= m < c0.len() && c0[m].id == out@[j];
            }
        }
        out
    }

    /// A reconstructed block is held for `block_id`.
    pub fn has_block(&self, block_id: &BlockId) -> (r: bool)
        requires
            self.wf(),
        ensures
            r == (self@.buffers.contains_key(*block_id) && self@.buffers[*block_id].block.is_some()),
    {
        match self.find_buffer(*block_id) {
            Some(i) => self.buffers[i].block.is_some(),
            None => false,
        }
    }

    /// The reconstructed block for `block_id`, if any.
    pub fn get_block(&self, block_id: &BlockId) -> (r: Option<&Block>)
        requires
            self.wf(),
        ensures
            r.is_some() == (self@.buffers.contains_key(*block_id)
                && self@.buffers[*block_id].block.is_some()),
            r.is_some() ==> r.unwrap()@ == self@.buffers[*block_id].block.unwrap(),
            r.is_some() ==> r.unwrap().id == *block_id,
    {
        match self.find_buffer(*block_id) {
            Some(i) => match &self.buffers[i].block {
                Some(b) => Some(b),
                None => None,
            },
            None => None,
        }
    }

    /// Typical network delay in milliseconds, for simulations.
    pub fn simulate_propagation_delay_ms(&self) -> (r: u64)
        ensures
            r == 30,
    {
        30
    }

    /// Position of the buffer of `id`, if any.
    fn find_buffer(&self, id: BlockId) -> (r: Option<usize>)
        requires
            self.base_wf(),
        ensures
            r.is_none() <==> !self@.buffers.contains_key(id),
            r.is_some() ==> r.unwrap() < self.buffers@.len() && self.buffers@[r.unwrap()
                as int].block_id == id && self.buffers@[r.unwrap() as int].view()
                == self@.buffers[id],
    {
        let ghost sv = buffer_views(self.buffers@);
        let mut i: usize = 0;
        while i < self.buffers.len()
            invariant
                0 <= i <= self.buffers@.len(),
                sv == buffer_views(self.buffers@),
                keys_unique(sv),
                forall|j: int| 0 <= j < i ==> sv[j].0 != id,
            decreases self.buffers@.len() - i,
        {
            if self.buffers[i].block_id.same_as(&id) {
                proof {
                    assert(sv[i as int].0 == id);
                    lemma_keyed_index(sv, i as int);
                }
                return Some(i);
            }
            i = i + 1;
        }
        proof {
            if keyed(sv).contains_key(id) {
                let j = choose|j: int| 0 <= j < sv.len() && sv[j].0 == id;
                assert(sv[j].0 != id);
            }
        }
        None
    }
}

/// Every honest id comes from an entry of the registry.
proof fn lemma_honest_ids_in(s: Seq<ValidatorConfig>, k: int)
    requires
        0 <= k < honest_ids(s).len(),
    ensures
        exists|j: int| 0 <= j < s.len() && s[j].id == honest_ids(s)[k],
    decreases s.len(),
{
    if s.len() > 0 {
        let p = honest_ids(s.drop_last());
        if k < p.len() {
            lemma_honest_ids_in(s.drop_last(), k);
            let j = choose|j: int| 0 <= j < s.drop_last().len() && s.drop_last()[j].id == p[k];
            assert(s[j].id == honest_ids(s)[k]);
        } else {
            assert(s[s.len() - 1].id == honest_ids(s)[k]);
        }
    }
}

/// With unique ids in the registry, the honest ids are distinct.
proof fn lemma_honest_ids_unique(s: Seq<ValidatorConfig>)
    requires
        ids_unique(s),
    ensures
        honest_ids(s).no_duplicates(),
    decreases s.len(),
{
    if s.len() > 0 {
        let d = s.drop_last();
        assert(ids_unique(d));
        lemma_honest_ids_unique(d);
        if is_honest(s.last()) {
            let p = honest_ids(d);
            assert forall|k: int| 0 <= k < p.len() implies p[k] != s.last().id by {
                lemma_honest_ids_in(d, k);
                let j = choose|j: int| 0 <= j < d.len() && d[j].id == p[k];
                assert(s[j].id == p[k]);
            }
        }
    }
}

} // verus!
