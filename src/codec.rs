//! Deterministic binary encoding of blocks.
//!
//! Integers are 8-byte little-endian; a block id is its 32 bytes; an
//! optional parent is a tag byte (0 = none, 1 = some) followed by the id
//! when present; a byte string and a list are prefixed by their length as
//! an 8-byte integer. A block is its id, slot, parent, leader, payload
//! entries and timestamp, in that order. The header (slot, parent, leader,
//! timestamp) is what a block id is computed from.

use crate::types::{Block, BlockId, BlockView, Slot, ValidatorId};
use vstd::bytes::{
    lemma_auto_spec_u64_to_from_le_bytes, spec_u64_from_le_bytes, spec_u64_to_le_bytes,
    u64_from_le_bytes, u64_to_le_bytes,
};
use vstd::prelude::*;

verus! {

/// An integer as 8 little-endian bytes.
pub open spec fn u64_bytes(x: u64) -> Seq<u8> {
    spec_u64_to_le_bytes(x)
}

/// An optional parent id: a tag byte, then the id when present.
pub open spec fn parent_bytes(p: Option<BlockId>) -> Seq<u8> {
    match p {
        None => seq![0u8],
        Some(id) => seq![1u8] + id.0@,
    }
}

/// A byte string prefixed by its length.
pub open spec fn field_bytes(t: Seq<u8>) -> Seq<u8> {
    u64_bytes(t.len() as u64) + t
}

/// The payload entries one after another, each prefixed by its length.
pub open spec fn entries_bytes(ts: Seq<Seq<u8>>) -> Seq<u8>
    decreases ts.len(),
{
    if ts.len() == 0 {
        Seq::empty()
    } else {
        field_bytes(ts[0]) + entries_bytes(ts.drop_first())
    }
}

/// The bytes a block id is computed from.
pub open spec fn header_bytes(slot: Slot, parent: Option<BlockId>, leader: ValidatorId, timestamp: u64) -> Seq<u8> {
    u64_bytes(slot.0) + (parent_bytes(parent) + (u64_bytes(leader.0) + u64_bytes(timestamp)))
}

/// The encoding of a whole block.
pub open spec fn block_bytes(b: BlockView) -> Seq<u8> {
    b.id.0@ + (u64_bytes(b.slot.0) + (parent_bytes(b.parent) + (u64_bytes(b.leader.0) + (
    u64_bytes(b.transactions.len() as u64) + (entries_bytes(b.transactions) + u64_bytes(
        b.timestamp,
    ))))))
}

/// Every length of the block fits in the 8-byte length prefix.
pub open spec fn block_fits(b: BlockView) -> bool {
    &&& b.transactions.len() <= u64::MAX
    &&& forall|i: int| 0 <= i < b.transactions.len() ==> #[trigger] b.transactions[i].len() <= u64::MAX
}

/// The block that `s` encodes, if any.
pub open spec fn decode_spec(s: Seq<u8>) -> Option<BlockView> {
    if exists|b: BlockView| block_fits(b) && block_bytes(b) == s {
        Some(choose|b: BlockView| block_fits(b) && block_bytes(b) == s)
    } else {
        None
    }
}

/// An integer's 8 bytes decode back to it.
pub(crate) proof fn lemma_u64_bytes(x: u64)
    ensures
        u64_bytes(x).len() == 8,
        spec_u64_from_le_bytes(u64_bytes(x)) == x,
{
    lemma_auto_spec_u64_to_from_le_bytes();
}

/// Equal 8-byte encodings come from equal integers.
pub(crate) proof fn lemma_u64_bytes_injective(x: u64, y: u64)
    requires
        u64_bytes(x) == u64_bytes(y),
    ensures
        x == y,
{
    lemma_u64_bytes(x);
    lemma_u64_bytes(y);
}

/// Two concatenations whose first parts have one length are equal part by part.
pub(crate) proof fn lemma_peel(x1: Seq<u8>, y1: Seq<u8>, x2: Seq<u8>, y2: Seq<u8>)
    requires
        x1.len() == x2.len(),
        x1 + y1 == x2 + y2,
    ensures
        x1 == x2,
        y1 == y2,
{
    assert(x1 =~= (x1 + y1).subrange(0, x1.len() as int));
    assert(x2 =~= (x2 + y2).subrange(0, x2.len() as int));
    assert(y1 =~= (x1 + y1).subrange(x1.len() as int, (x1 + y1).len() as int));
    assert(y2 =~= (x2 + y2).subrange(x2.len() as int, (x2 + y2).len() as int));
}

/// Appending an entry appends its length-prefixed bytes.
proof fn lemma_entries_push(ts: Seq<Seq<u8>>, t: Seq<u8>)
    ensures
        entries_bytes(ts.push(t)) == entries_bytes(ts) + field_bytes(t),
    decreases ts.len(),
{
    if ts.len() == 0 {
        assert(ts.push(t).drop_first() =~= Seq::<Seq<u8>>::empty());
        assert(ts.push(t)[0] == t);
        assert(entries_bytes(ts.push(t).drop_first()) =~= Seq::<u8>::empty());
        assert(entries_bytes(ts) =~= Seq::<u8>::empty());
        assert(entries_bytes(ts.push(t)) =~= entries_bytes(ts) + field_bytes(t));
    } else {
        assert(ts.push(t).drop_first() =~= ts.drop_first().push(t));
        lemma_entries_push(ts.drop_first(), t);
        assert(entries_bytes(ts.push(t)) =~= entries_bytes(ts) + field_bytes(t));
    }
}

/// Equal payload encodings with the same number of entries, each entry
/// fitting its length prefix, come from the same entries.
proof fn lemma_entries_injective(a: Seq<Seq<u8>>, b: Seq<Seq<u8>>, ra: Seq<u8>, rb: Seq<u8>)
    requires
        a.len() == b.len(),
        forall|i: int| 0 <= i < a.len() ==> #[trigger] a[i].len() <= u64::MAX,
        forall|i: int| 0 <= i < b.len() ==> #[trigger] b[i].len() <= u64::MAX,
        entries_bytes(a) + ra == entries_bytes(b) + rb,
    ensures
        a == b,
        ra == rb,
    decreases a.len(),
{
    if a.len() == 0 {
        assert(entries_bytes(a) =~= Seq::<u8>::empty());
        assert(entries_bytes(b) =~= Seq::<u8>::empty());
        assert(a =~= b);
        assert(ra =~= entries_bytes(a) + ra);
        assert(rb =~= entries_bytes(b) + rb);
    } else {
        let a0 = a[0];
        let b0 = b[0];
        assert(a[0].len() <= u64::MAX);
        assert(b[0].len() <= u64::MAX);
        lemma_u64_bytes(a0.len() as u64);
        lemma_u64_bytes(b0.len() as u64);
        let ta = a0 + (entries_bytes(a.drop_first()) + ra);
        let tb = b0 + (entries_bytes(b.drop_first()) + rb);
        assert(entries_bytes(a) + ra =~= u64_bytes(a0.len() as u64) + ta);
        assert(entries_bytes(b) + rb =~= u64_bytes(b0.len() as u64) + tb);
        lemma_peel(u64_bytes(a0.len() as u64), ta, u64_bytes(b0.len() as u64), tb);
        lemma_u64_bytes_injective(a0.len() as u64, b0.len() as u64);
        lemma_peel(a0, entries_bytes(a.drop_first()) + ra, b0, entries_bytes(b.drop_first()) + rb);
        lemma_entries_injective(a.drop_first(), b.drop_first(), ra, rb);
        assert(a =~= b) by {
            assert forall|i: int| 0 <= i < a.len() implies a[i] == b[i] by {
                if i > 0 {
                    assert(a[i] == a.drop_first()[i - 1]);
                    assert(b[i] == b.drop_first()[i - 1]);
                }
            }
        }
    }
}

/// The block encoding is injective on blocks whose lengths fit.
pub proof fn lemma_block_bytes_injective(a: BlockView, b: BlockView)
    requires
        block_fits(a),
        block_fits(b),
        block_bytes(a) == block_bytes(b),
    ensures
        a == b,
{
    let ra5 = entries_bytes(a.transactions) + u64_bytes(a.timestamp);
    let rb5 = entries_bytes(b.transactions) + u64_bytes(b.timestamp);
    let ra4 = u64_bytes(a.transactions.len() as u64) + ra5;
    let rb4 = u64_bytes(b.transactions.len() as u64) + rb5;
    let ra3 = u64_bytes(a.leader.0) + ra4;
    let rb3 = u64_bytes(b.leader.0) + rb4;
    let ra2 = parent_bytes(a.parent) + ra3;
    let rb2 = parent_bytes(b.parent) + rb3;
    let ra1 = u64_bytes(a.slot.0) + ra2;
    let rb1 = u64_bytes(b.slot.0) + rb2;
    lemma_u64_bytes(a.slot.0);
    lemma_u64_bytes(b.slot.0);
    lemma_u64_bytes(a.leader.0);
    lemma_u64_bytes(b.leader.0);
    lemma_u64_bytes(a.transactions.len() as u64);
    lemma_u64_bytes(b.transactions.len() as u64);
    lemma_u64_bytes(a.timestamp);
    lemma_u64_bytes(b.timestamp);
    lemma_peel(a.id.0@, ra1, b.id.0@, rb1);
    assert(a.id.0 =~= b.id.0);
    lemma_peel(u64_bytes(a.slot.0), ra2, u64_bytes(b.slot.0), rb2);
    lemma_u64_bytes_injective(a.slot.0, b.slot.0);
    assert(ra2[0] == parent_bytes(a.parent)[0]);
    assert(rb2[0] == parent_bytes(b.parent)[0]);
    lemma_peel(parent_bytes(a.parent), ra3, parent_bytes(b.parent), rb3);
    match (a.parent, b.parent) {
        (Some(pa), Some(pb)) => {
            lemma_peel(seq![1u8], pa.0@, seq![1u8], pb.0@);
            assert(pa.0 =~= pb.0);
        },
        _ => {},
    }
    lemma_peel(u64_bytes(a.leader.0), ra4, u64_bytes(b.leader.0), rb4);
    lemma_u64_bytes_injective(a.leader.0, b.leader.0);
    lemma_peel(u64_bytes(a.transactions.len() as u64), ra5, u64_bytes(b.transactions.len() as u64), rb5);
    lemma_u64_bytes_injective(a.transactions.len() as u64, b.transactions.len() as u64);
    lemma_entries_injective(a.transactions, b.transactions, u64_bytes(a.timestamp), u64_bytes(b.timestamp));
    lemma_u64_bytes_injective(a.timestamp, b.timestamp);
}

/// Decoding the encoding of a block gives the block back.
pub proof fn lemma_decode_block_bytes(b: BlockView)
    requires
        block_fits(b),
    ensures
        decode_spec(block_bytes(b)) == Some(b),
{
    let s = block_bytes(b);
    assert(block_fits(b) && block_bytes(b) == s);
    let c = choose|c: BlockView| block_fits(c) && block_bytes(c) == s;
    lemma_block_bytes_injective(b, c);
}

/// The rest of `s` from `pos` splits at the length of its first part.
pub(crate) proof fn lemma_rest(s: Seq<u8>, pos: int, x: Seq<u8>, y: Seq<u8>)
    requires
        0 <= pos <= s.len(),
        s.subrange(pos, s.len() as int) == x + y,
    ensures
        pos + x.len() <= s.len(),
        s.subrange(pos, pos + x.len()) == x,
        s.subrange(pos + x.len(), s.len() as int) == y,
{
    assert(s.subrange(pos, pos + x.len()) =~= (x + y).subrange(0, x.len() as int));
    assert(s.subrange(pos + x.len(), s.len() as int) =~= (x + y).subrange(
        x.len() as int,
        (x + y).len() as int,
    ));
    assert(x =~= (x + y).subrange(0, x.len() as int));
    assert(y =~= (x + y).subrange(x.len() as int, (x + y).len() as int));
}

/// Adjacent subranges concatenate.
pub(crate) proof fn lemma_join(s: Seq<u8>, i: int, j: int, k: int)
    requires
        0 <= i <= j <= k <= s.len(),
    ensures
        s.subrange(i, k) == s.subrange(i, j) + s.subrange(j, k),
{
    assert(s.subrange(i, k) =~= s.subrange(i, j) + s.subrange(j, k));
}

/// Every block value fits the length prefixes.
pub proof fn lemma_block_fits(b: &Block)
    ensures
        block_fits(b@),
{
    assert(b.transactions.len() == b.transactions@.len());
    assert forall|i: int| 0 <= i < b@.transactions.len() implies #[trigger] b@.transactions[i].len()
        <= u64::MAX by {
        assert(b@.transactions[i] == b.transactions@[i]@);
        assert(b.transactions@[i].len() == b.transactions@[i]@.len());
    }
}

/// Appends the bytes of `s` to `out`.
pub(crate) fn push_bytes(out: &mut Vec<u8>, s: &[u8])
    ensures
        final(out)@ == old(out)@ + s@,
{
    let ghost start = out@;
    let mut i: usize = 0;
    while i < s.len()
        invariant
            0 <= i <= s@.len(),
            out@ == start + s@.subrange(0, i as int),
        decreases s@.len() - i,
    {
        out.push(s[i]);
        i = i + 1;
        assert(out@ =~= start + s@.subrange(0, i as int));
    }
    assert(s@.subrange(0, i as int) =~= s@);
}

pub(crate) fn push_u64(out: &mut Vec<u8>, x: u64)
    ensures
        final(out)@ == old(out)@ + u64_bytes(x),
{
    let b = u64_to_le_bytes(x);
    push_bytes(out, b.as_slice());
}

fn push_parent(out: &mut Vec<u8>, p: &Option<BlockId>)
    ensures
        final(out)@ == old(out)@ + parent_bytes(*p),
{
    let ghost start = out@;
    match p {
        None => {
            out.push(0u8);
            assert(out@ =~= start + parent_bytes(*p));
        },
        Some(id) => {
            out.push(1u8);
            push_bytes(out, id.as_bytes().as_slice());
            assert(out@ =~= start + parent_bytes(*p));
        },
    }
}

/// The header bytes a block id is computed from.
pub fn encode_header(slot: Slot, parent: &Option<BlockId>, leader: ValidatorId, timestamp: u64) -> (r:
    Vec<u8>)
    ensures
        r@ == header_bytes(slot, *parent, leader, timestamp),
{
    let mut out: Vec<u8> = Vec::new();
    push_u64(&mut out, slot.0);
    push_parent(&mut out, parent);
    push_u64(&mut out, leader.0);
    push_u64(&mut out, timestamp);
    assert(out@ =~= header_bytes(slot, *parent, leader, timestamp));
    out
}

/// The encoding of a block.
pub fn encode_block_bytes(block: &Block) -> (r: Vec<u8>)
    ensures
        r@ == block_bytes(block@),
{
    let ghost b = block@;
    let mut out: Vec<u8> = Vec::new();
    push_bytes(&mut out, block.id.as_bytes().as_slice());
    push_u64(&mut out, block.slot.0);
    push_parent(&mut out, &block.parent);
    push_u64(&mut out, block.leader.0);
    push_u64(&mut out, block.transactions.len() as u64);
    let ghost prefix = out@;
    let mut i: usize = 0;
    while i < block.transactions.len()
        invariant
            0 <= i <= block.transactions@.len(),
            b == block@,
            out@ == prefix + entries_bytes(b.transactions.take(i as int)),
        decreases block.transactions@.len() - i,
    {
        let t = &block.transactions[i];
        push_u64(&mut out, t.len() as u64);
        push_bytes(&mut out, t.as_slice());
        proof {
            assert(b.transactions.take(i + 1) =~= b.transactions.take(i as int).push(t@));
            lemma_entries_push(b.transactions.take(i as int), t@);
        }
        i = i + 1;
        assert(out@ =~= prefix + entries_bytes(b.transactions.take(i as int)));
    }
    assert(b.transactions.take(i as int) =~= b.transactions);
    push_u64(&mut out, block.timestamp);
    assert(out@ =~= block_bytes(b));
    out
}

pub(crate) fn read_u64(bytes: &Vec<u8>, pos: usize) -> (r: Option<u64>)
    ensures
        r.is_some() == (pos + 8 <= bytes@.len()),
        r.is_some() ==> bytes@.subrange(pos as int, pos + 8) == u64_bytes(r.unwrap()),
{
    if pos > bytes.len() || bytes.len() - pos < 8 {
        return None;
    }
    let mut b: Vec<u8> = Vec::new();
    let mut k: usize = 0;
    while k < 8
        invariant
            0 <= k <= 8,
            pos + 8 <= bytes.len(),
            b@ == bytes@.subrange(pos as int, pos + k),
        decreases 8 - k,
    {
        b.push(bytes[pos + k]);
        k = k + 1;
        assert(b@ =~= bytes@.subrange(pos as int, pos + k));
    }
    let x = u64_from_le_bytes(b.as_slice());
    proof {
        lemma_auto_spec_u64_to_from_le_bytes();
        assert(spec_u64_to_le_bytes(spec_u64_from_le_bytes(b@)) == b@);
    }
    Some(x)
}

pub(crate) fn read_id(bytes: &Vec<u8>, pos: usize) -> (r: Option<BlockId>)
    ensures
        r.is_some() == (pos + 32 <= bytes@.len()),
        r.is_some() ==> bytes@.subrange(pos as int, pos + 32) == r.unwrap().0@,
{
    if pos > bytes.len() || bytes.len() - pos < 32 {
        return None;
    }
    let mut a: [u8; 32] = [0u8; 32];
    let mut k: usize = 0;
    while k < 32
        invariant
            0 <= k <= 32,
            pos + 32 <= bytes.len(),
            forall|j: int| 0 <= j < k ==> a@[j] == bytes@[pos + j],
        decreases 32 - k,
    {
        a[k] = bytes[pos + k];
        k = k + 1;
    }
    assert(bytes@.subrange(pos as int, pos + 32) =~= a@);
    Some(BlockId(a))
}

pub(crate) fn read_bytes(bytes: &Vec<u8>, pos: usize, len: u64) -> (r: Option<Vec<u8>>)
    requires
        pos <= bytes@.len(),
    ensures
        r.is_some() == (pos + len <= bytes@.len()),
        r.is_some() ==> r.unwrap()@ == bytes@.subrange(pos as int, pos + len),
{
    if ((bytes.len() - pos) as u64) < len {
        return None;
    }
    let n = len as usize;
    let mut b: Vec<u8> = Vec::new();
    let mut k: usize = 0;
    while k < n
        invariant
            0 <= k <= n,
            n == len,
            pos + n <= bytes.len(),
            b@ == bytes@.subrange(pos as int, pos + k),
        decreases n - k,
    {
        b.push(bytes[pos + k]);
        k = k + 1;
        assert(b@ =~= bytes@.subrange(pos as int, pos + k));
    }
    Some(b)
}

spec fn after_count(b: BlockView) -> Seq<u8> {
    entries_bytes(b.transactions) + u64_bytes(b.timestamp)
}

spec fn after_leader(b: BlockView) -> Seq<u8> {
    u64_bytes(b.transactions.len() as u64) + after_count(b)
}

spec fn after_parent(b: BlockView) -> Seq<u8> {
    u64_bytes(b.leader.0) + after_leader(b)
}

spec fn after_slot(b: BlockView) -> Seq<u8> {
    parent_bytes(b.parent) + after_parent(b)
}

spec fn after_id(b: BlockView) -> Seq<u8> {
    u64_bytes(b.slot.0) + after_slot(b)
}

/// Decodes a block: `Some` exactly when `bytes` is the encoding of a block,
/// and then that block.
pub fn decode_block(bytes: &Vec<u8>) -> (r: Option<Block>)
    ensures
        match r {
            Some(b) => decode_spec(bytes@) == Some(b@),
            None => decode_spec(bytes@).is_none(),
        },
{
    let ghost s = bytes@;
    let ghost len = s.len() as int;
    let ghost has = exists|b: BlockView| block_fits(b) && block_bytes(b) == s;
    let ghost t = choose|b: BlockView| block_fits(b) && block_bytes(b) == s;
    proof {
        assert(s.subrange(0, len) =~= s);
        if has {
            lemma_u64_bytes(t.slot.0);
            lemma_u64_bytes(t.leader.0);
            lemma_u64_bytes(t.transactions.len() as u64);
            lemma_u64_bytes(t.timestamp);
        }
    }
    // id
    let id = match read_id(bytes, 0) {
        Some(x) => x,
        None => {
            proof {
                if has {
                    lemma_rest(s, 0, t.id.0@, after_id(t));
                }
            }
            return None;
        },
    };
    proof {
        if has {
            lemma_rest(s, 0, t.id.0@, after_id(t));
        }
    }
    // slot
    let slot = match read_u64(bytes, 32) {
        Some(x) => x,
        None => {
            proof {
                if has {
                    lemma_rest(s, 32, u64_bytes(t.slot.0), after_slot(t));
                }
            }
            return None;
        },
    };
    proof {
        if has {
            lemma_rest(s, 32, u64_bytes(t.slot.0), after_slot(t));
            lemma_u64_bytes_injective(slot, t.slot.0);
        }
    }
    // parent
    let parent_at: usize = 40;
    if bytes.len() <= parent_at {
        proof {
            if has {
                lemma_rest(s, 40, parent_bytes(t.parent), after_parent(t));
            }
        }
        return None;
    }
    let tag = bytes[parent_at];
    proof {
        if has {
            lemma_rest(s, 40, parent_bytes(t.parent), after_parent(t));
            assert(s[40] == s.subrange(40, 40 + parent_bytes(t.parent).len() as int)[0]);
        }
    }
    let parent: Option<BlockId>;
    let leader_at: usize;
    if tag == 0 {
        parent = None;
        leader_at = 41;
        proof {
            assert(s.subrange(40, 41) =~= seq![0u8]);
        }
    } else if tag == 1 {
        let pid = match read_id(bytes, 41) {
            Some(x) => x,
            None => {
                proof {
                    if has {
                        let pt = t.parent.unwrap();
                        assert(s.subrange(41, len) =~= pt.0@ + after_parent(t));
                        lemma_rest(s, 41, pt.0@, after_parent(t));
                    }
                }
                return None;
            },
        };
        parent = Some(pid);
        leader_at = 73;
        proof {
            assert(s.subrange(40, 41) =~= seq![1u8]);
            lemma_join(s, 40, 41, 73);
            assert(s.subrange(40, 73) =~= parent_bytes(parent));
        }
    } else {
        return None;
    }
    proof {
        if has {
            if tag == 1 {
                let pt = t.parent.unwrap();
                assert(s.subrange(41, len) =~= pt.0@ + after_parent(t));
                lemma_rest(s, 41, pt.0@, after_parent(t));
                assert(pt.0 =~= parent.unwrap().0);
            }
            assert(parent == t.parent);
            assert(s.subrange(leader_at as int, len) == after_parent(t));
        }
    }
    // leader
    let leader = match read_u64(bytes, leader_at) {
        Some(x) => x,
        None => {
            proof {
                if has {
                    lemma_rest(s, leader_at as int, u64_bytes(t.leader.0), after_leader(t));
                }
            }
            return None;
        },
    };
    let count_at: usize = leader_at + 8;
    proof {
        if has {
            lemma_rest(s, leader_at as int, u64_bytes(t.leader.0), after_leader(t));
            lemma_u64_bytes_injective(leader, t.leader.0);
        }
    }
    // number of entries
    let n = match read_u64(bytes, count_at) {
        Some(x) => x,
        None => {
            proof {
                if has {
                    lemma_rest(s, count_at as int, u64_bytes(t.transactions.len() as u64), after_count(t));
                }
            }
            return None;
        },
    };
    let entries_at: usize = count_at + 8;
    proof {
        if has {
            lemma_rest(s, count_at as int, u64_bytes(t.transactions.len() as u64), after_count(t));
            lemma_u64_bytes_injective(n, t.transactions.len() as u64);
            assert(t.transactions.skip(0) =~= t.transactions);
        }
        assert(s.subrange(entries_at as int, entries_at as int) =~= entries_bytes(Seq::<Seq<u8>>::empty()));
    }
    // entries
    let mut txs: Vec<Vec<u8>> = Vec::new();
    let mut pos: usize = entries_at;
    let mut i: u64 = 0;
    while i < n
        invariant
            s == bytes@,
            len == s.len(),
            entries_at <= pos <= bytes.len(),
            i <= n,
            txs@.len() == i,
            s.subrange(entries_at as int, pos as int) == entries_bytes(
                txs@.map_values(|v: Vec<u8>| v@),
            ),
            has == (exists|b: BlockView| block_fits(b) && block_bytes(b) == s),
            has ==> block_fits(t) && block_bytes(t) == s,
            has ==> n == t.transactions.len(),
            has ==> txs@.map_values(|v: Vec<u8>| v@) == t.transactions.take(i as int),
            has ==> s.subrange(pos as int, len) == entries_bytes(t.transactions.skip(i as int))
                + u64_bytes(t.timestamp),
        decreases n - i,
    {
        let ghost views = txs@.map_values(|v: Vec<u8>| v@);
        proof {
            if has {
                let ts = t.transactions;
                let x = ts[i as int];
                assert(ts.skip(i as int)[0] == x);
                assert(ts.skip(i as int).drop_first() =~= ts.skip(i + 1));
                assert(x.len() <= u64::MAX);
                lemma_u64_bytes(x.len() as u64);
                assert(s.subrange(pos as int, len) =~= u64_bytes(x.len() as u64) + (x + (
                entries_bytes(ts.skip(i + 1)) + u64_bytes(t.timestamp))));
                lemma_rest(
                    s,
                    pos as int,
                    u64_bytes(x.len() as u64),
                    x + (entries_bytes(ts.skip(i + 1)) + u64_bytes(t.timestamp)),
                );
            }
        }
        let m = match read_u64(bytes, pos) {
            Some(x) => x,
            None => {
                return None;
            },
        };
        let q = pos + 8;
        proof {
            if has {
                let x = t.transactions[i as int];
                lemma_u64_bytes_injective(m, x.len() as u64);
                lemma_rest(
                    s,
                    q as int,
                    x,
                    entries_bytes(t.transactions.skip(i + 1)) + u64_bytes(t.timestamp),
                );
            }
        }
        let data = match read_bytes(bytes, q, m) {
            Some(d) => d,
            None => {
                return None;
            },
        };
        let next = q + m as usize;
        proof {
            lemma_join(s, entries_at as int, pos as int, q as int);
            lemma_join(s, entries_at as int, q as int, next as int);
            lemma_entries_push(views, data@);
            assert(data@.len() as u64 == m);
        }
        txs.push(data);
        proof {
            assert(txs@.map_values(|v: Vec<u8>| v@) =~= views.push(data@));
            if has {
                assert(t.transactions.take(i + 1) =~= t.transactions.take(i as int).push(
                    t.transactions[i as int],
                ));
            }
        }
        pos = next;
        i = i + 1;
    }
    proof {
        if has {
            assert(t.transactions.take(i as int) =~= t.transactions);
            assert(t.transactions.skip(i as int) =~= Seq::<Seq<u8>>::empty());
            assert(entries_bytes(t.transactions.skip(i as int)) =~= Seq::<u8>::empty());
            assert(s.subrange(pos as int, len) =~= u64_bytes(t.timestamp) + Seq::<u8>::empty());
            lemma_rest(s, pos as int, u64_bytes(t.timestamp), Seq::<u8>::empty());
        }
    }
    // timestamp
    let timestamp = match read_u64(bytes, pos) {
        Some(x) => x,
        None => {
            return None;
        },
    };
    if pos + 8 != bytes.len() {
        return None;
    }
    let block = Block {
        id,
        slot: Slot(slot),
        parent,
        leader: ValidatorId(leader),
        transactions: txs,
        timestamp,
    };
    proof {
        let b = block@;
        let e = pos as int;
        lemma_u64_bytes(timestamp);
        assert(b.transactions =~= txs@.map_values(|v: Vec<u8>| v@));
        lemma_join(s, entries_at as int, e, len);
        lemma_join(s, count_at as int, entries_at as int, len);
        lemma_join(s, leader_at as int, count_at as int, len);
        lemma_join(s, 40, leader_at as int, len);
        lemma_join(s, 32, 40, len);
        lemma_join(s, 0, 32, len);
        assert(txs@.len() == n);
        assert(s.subrange(entries_at as int, len) == after_count(b));
        assert(s.subrange(count_at as int, len) == after_leader(b));
        assert(s.subrange(leader_at as int, len) == after_parent(b));
        assert(s.subrange(40, len) == after_slot(b));
        assert(s.subrange(32, len) == after_id(b));
        assert(s == block_bytes(b));
        lemma_block_fits(&block);
        let c = choose|c: BlockView| block_fits(c) && block_bytes(c) == s;
        lemma_block_bytes_injective(b, c);
    }
    Some(block)
}

} // verus!
