//! Wire encoding of the messages validators exchange: votes, skip votes,
//! shreds and certificates.
//!
//! Integers are little-endian, 8 bytes wide except a shred's index and total,
//! which take 4; a block id is its 32 bytes; a round is one byte, 1 or 2; a
//! byte string and a list are prefixed by their length as an 8-byte integer.

use crate::codec::{
    field_bytes, lemma_join, lemma_peel, lemma_rest, lemma_u64_bytes, lemma_u64_bytes_injective,
    push_bytes, push_u64, read_bytes, read_id, read_u64, u64_bytes,
};
use crate::consensus::{SkipVote, SkipVoteView};
use crate::rotor::{Shred, ShredView};
use crate::types::{CertView, FinalizationCertificate, Slot, ValidatorId, Vote, VoteRound, VoteView};
use vstd::bytes::{
    lemma_auto_spec_u32_to_from_le_bytes, spec_u32_from_le_bytes, spec_u32_to_le_bytes,
    u32_from_le_bytes, u32_to_le_bytes,
};
use vstd::prelude::*;

verus! {

/// A round as its wire byte.
pub open spec fn round_byte(r: VoteRound) -> u8 {
    match r {
        VoteRound::Round1 => 1,
        VoteRound::Round2 => 2,
    }
}

/// The encoding of a vote: validator, block id, slot, round, signature.
pub open spec fn vote_bytes(v: VoteView) -> Seq<u8> {
    u64_bytes(v.validator.0) + (v.block_id.0@ + (u64_bytes(v.slot.0) + (seq![round_byte(v.round)]
        + field_bytes(v.signature))))
}

/// The vote's signature fits its length prefix.
pub open spec fn vote_fits(v: VoteView) -> bool {
    v.signature.len() <= u64::MAX
}

/// The vote that `s` encodes, if any.
pub open spec fn decode_vote_spec(s: Seq<u8>) -> Option<VoteView> {
    if exists|v: VoteView| vote_fits(v) && vote_bytes(v) == s {
        Some(choose|v: VoteView| vote_fits(v) && vote_bytes(v) == s)
    } else {
        None
    }
}

fn push_round(out: &mut Vec<u8>, r: VoteRound)
    ensures
        final(out)@ == old(out)@.push(round_byte(r)),
{
    match r {
        VoteRound::Round1 => out.push(1u8),
        VoteRound::Round2 => out.push(2u8),
    }
}

fn push_field(out: &mut Vec<u8>, t: &Vec<u8>)
    ensures
        final(out)@ == old(out)@ + field_bytes(t@),
{
    let ghost start = out@;
    push_u64(out, t.len() as u64);
    push_bytes(out, t.as_slice());
    assert(out@ =~= start + field_bytes(t@));
}

fn push_vote(out: &mut Vec<u8>, v: &Vote)
    ensures
        final(out)@ == old(out)@ + vote_bytes(v@),
{
    let ghost start = out@;
    push_u64(out, v.validator.0);
    push_bytes(out, v.block_id.as_bytes().as_slice());
    push_u64(out, v.slot.0);
    push_round(out, v.round);
    push_field(out, &v.signature);
    assert(out@ =~= start + vote_bytes(v@));
}

/// The wire encoding of a vote.
pub fn encode_vote(v: &Vote) -> (r: Vec<u8>)
    ensures
        r@ == vote_bytes(v@),
{
    let mut out: Vec<u8> = Vec::new();
    push_vote(&mut out, v);
    assert(out@ =~= vote_bytes(v@));
    out
}

/// Two byte strings prefixed by their length, each followed by more bytes,
/// are equal with their tails when the whole is.
proof fn lemma_field_injective(a: Seq<u8>, b: Seq<u8>, ra: Seq<u8>, rb: Seq<u8>)
    requires
        a.len() <= u64::MAX,
        b.len() <= u64::MAX,
        field_bytes(a) + ra == field_bytes(b) + rb,
    ensures
        a == b,
        ra == rb,
{
    lemma_u64_bytes(a.len() as u64);
    lemma_u64_bytes(b.len() as u64);
    assert(field_bytes(a) + ra =~= u64_bytes(a.len() as u64) + (a + ra));
    assert(field_bytes(b) + rb =~= u64_bytes(b.len() as u64) + (b + rb));
    lemma_peel(u64_bytes(a.len() as u64), a + ra, u64_bytes(b.len() as u64), b + rb);
    lemma_u64_bytes_injective(a.len() as u64, b.len() as u64);
    lemma_peel(a, ra, b, rb);
}

/// The vote encoding is injective.
pub proof fn lemma_vote_bytes_injective(a: VoteView, b: VoteView)
    requires
        vote_fits(a),
        vote_fits(b),
        vote_bytes(a) == vote_bytes(b),
    ensures
        a == b,
{
    let a3 = seq![round_byte(a.round)] + field_bytes(a.signature);
    let b3 = seq![round_byte(b.round)] + field_bytes(b.signature);
    let a2 = u64_bytes(a.slot.0) + a3;
    let b2 = u64_bytes(b.slot.0) + b3;
    let a1 = a.block_id.0@ + a2;
    let b1 = b.block_id.0@ + b2;
    lemma_u64_bytes(a.validator.0);
    lemma_u64_bytes(b.validator.0);
    lemma_u64_bytes(a.slot.0);
    lemma_u64_bytes(b.slot.0);
    lemma_peel(u64_bytes(a.validator.0), a1, u64_bytes(b.validator.0), b1);
    lemma_u64_bytes_injective(a.validator.0, b.validator.0);
    lemma_peel(a.block_id.0@, a2, b.block_id.0@, b2);
    assert(a.block_id.0 =~= b.block_id.0);
    lemma_peel(u64_bytes(a.slot.0), a3, u64_bytes(b.slot.0), b3);
    lemma_u64_bytes_injective(a.slot.0, b.slot.0);
    lemma_peel(seq![round_byte(a.round)], field_bytes(a.signature), seq![round_byte(b.round)], field_bytes(b.signature));
    assert(seq![round_byte(a.round)][0] == seq![round_byte(b.round)][0]);
    lemma_field_injective(a.signature, b.signature, Seq::empty(), Seq::empty());
    assert(field_bytes(a.signature) + Seq::<u8>::empty() =~= field_bytes(a.signature));
    assert(field_bytes(b.signature) + Seq::<u8>::empty() =~= field_bytes(b.signature));
}

/// Decoding the encoding of a vote gives the vote back.
pub proof fn lemma_decode_vote_bytes(v: VoteView)
    requires
        vote_fits(v),
    ensures
        decode_vote_spec(vote_bytes(v)) == Some(v),
{
    let s = vote_bytes(v);
    assert(vote_fits(v) && vote_bytes(v) == s);
    let c = choose|c: VoteView| vote_fits(c) && vote_bytes(c) == s;
    lemma_vote_bytes_injective(v, c);
}

fn read_round(bytes: &Vec<u8>, pos: usize) -> (r: Option<VoteRound>)
    ensures
        r.is_some() == (pos < bytes@.len() && (bytes@[pos as int] == 1 || bytes@[pos as int] == 2)),
        r.is_some() ==> bytes@[pos as int] == round_byte(r.unwrap()),
{
    if pos >= bytes.len() {
        return None;
    }
    if bytes[pos] == 1 {
        Some(VoteRound::Round1)
    } else if bytes[pos] == 2 {
        Some(VoteRound::Round2)
    } else {
        None
    }
}

/// Reads a length-prefixed byte string at `pos` that ends the input.
fn read_last_field(bytes: &Vec<u8>, pos: usize) -> (r: Option<Vec<u8>>)
    requires
        pos <= bytes@.len(),
    ensures
        r.is_some() ==> bytes@.subrange(pos as int, bytes@.len() as int) == field_bytes(r.unwrap()@),
        (exists|t: Seq<u8>|
            t.len() <= u64::MAX && bytes@.subrange(pos as int, bytes@.len() as int) == field_bytes(t))
            ==> r.is_some(),
{
    let ghost s = bytes@;
    let ghost len = s.len() as int;
    let ghost has = exists|t: Seq<u8>| t.len() <= u64::MAX && s.subrange(pos as int, len) == field_bytes(t);
    let ghost t = choose|t: Seq<u8>| t.len() <= u64::MAX && s.subrange(pos as int, len) == field_bytes(t);
    proof {
        if has {
            lemma_u64_bytes(t.len() as u64);
            lemma_rest(s, pos as int, u64_bytes(t.len() as u64), t);
        }
    }
    let n = match read_u64(bytes, pos) {
        Some(x) => x,
        None => {
            return None;
        },
    };
    assert(bytes@.len() == bytes.len());
    let q = pos + 8;
    proof {
        if has {
            lemma_u64_bytes_injective(n, t.len() as u64);
        }
    }
    let data = match read_bytes(bytes, q, n) {
        Some(d) => d,
        None => {
            return None;
        },
    };
    if q + (n as usize) != bytes.len() {
        return None;
    }
    proof {
        lemma_join(s, pos as int, q as int, len);
        lemma_u64_bytes(n);
        assert(data@.len() as u64 == n);
    }
    Some(data)
}

/// Decodes a vote: `Some` exactly when `bytes` is the encoding of a vote,
/// and then that vote.
pub fn decode_vote(bytes: &Vec<u8>) -> (r: Option<Vote>)
    ensures
        match r {
            Some(v) => decode_vote_spec(bytes@) == Some(v@),
            None => decode_vote_spec(bytes@).is_none(),
        },
{
    let ghost s = bytes@;
    let ghost len = s.len() as int;
    let ghost has = exists|v: VoteView| vote_fits(v) && vote_bytes(v) == s;
    let ghost t = choose|v: VoteView| vote_fits(v) && vote_bytes(v) == s;
    let ghost a3 = seq![round_byte(t.round)] + field_bytes(t.signature);
    let ghost a2 = u64_bytes(t.slot.0) + a3;
    let ghost a1 = t.block_id.0@ + a2;
    proof {
        assert(s.subrange(0, len) =~= s);
        if has {
            lemma_u64_bytes(t.validator.0);
            lemma_u64_bytes(t.slot.0);
            lemma_rest(s, 0, u64_bytes(t.validator.0), a1);
            lemma_rest(s, 8, t.block_id.0@, a2);
            lemma_rest(s, 40, u64_bytes(t.slot.0), a3);
            lemma_rest(s, 48, seq![round_byte(t.round)], field_bytes(t.signature));
        }
    }
    let validator = match read_u64(bytes, 0) {
        Some(x) => x,
        None => {
            return None;
        },
    };
    let block_id = match read_id(bytes, 8) {
        Some(x) => x,
        None => {
            return None;
        },
    };
    let slot = match read_u64(bytes, 40) {
        Some(x) => x,
        None => {
            return None;
        },
    };
    let round = match read_round(bytes, 48) {
        Some(x) => x,
        None => {
            proof {
                if has {
                    assert(s[48] == s.subrange(48, 49)[0]);
                }
            }
            return None;
        },
    };
    let signature = match read_last_field(bytes, 49) {
        Some(x) => x,
        None => {
            return None;
        },
    };
    let v = Vote { validator: ValidatorId(validator), block_id, slot: Slot(slot), round, signature };
    proof {
        assert(s.subrange(48, 49) =~= seq![round_byte(round)]);
        lemma_join(s, 48, 49, len);
        lemma_join(s, 40, 48, len);
        lemma_join(s, 8, 40, len);
        lemma_join(s, 0, 8, len);
        assert(s == vote_bytes(v@));
        assert(v@.signature.len() == v.signature.len());
        let c = choose|c: VoteView| vote_fits(c) && vote_bytes(c) == s;
        lemma_vote_bytes_injective(v@, c);
    }
    Some(v)
}

/// The encoding of a skip vote: validator, slot, signature.
pub open spec fn skip_vote_bytes(v: SkipVoteView) -> Seq<u8> {
    u64_bytes(v.validator.0) + (u64_bytes(v.slot.0) + field_bytes(v.signature))
}

/// The skip vote that `s` encodes, if any.
pub open spec fn decode_skip_vote_spec(s: Seq<u8>) -> Option<SkipVoteView> {
    if exists|v: SkipVoteView| v.signature.len() <= u64::MAX && skip_vote_bytes(v) == s {
        Some(choose|v: SkipVoteView| v.signature.len() <= u64::MAX && skip_vote_bytes(v) == s)
    } else {
        None
    }
}

/// The wire encoding of a skip vote.
pub fn encode_skip_vote(v: &SkipVote) -> (r: Vec<u8>)
    ensures
        r@ == skip_vote_bytes(v@),
{
    let mut out: Vec<u8> = Vec::new();
    push_u64(&mut out, v.validator.0);
    push_u64(&mut out, v.slot.0);
    push_field(&mut out, &v.signature);
    assert(out@ =~= skip_vote_bytes(v@));
    out
}

/// The skip-vote encoding is injective.
pub proof fn lemma_skip_vote_bytes_injective(a: SkipVoteView, b: SkipVoteView)
    requires
        a.signature.len() <= u64::MAX,
        b.signature.len() <= u64::MAX,
        skip_vote_bytes(a) == skip_vote_bytes(b),
    ensures
        a == b,
{
    let a1 = u64_bytes(a.slot.0) + field_bytes(a.signature);
    let b1 = u64_bytes(b.slot.0) + field_bytes(b.signature);
    lemma_u64_bytes(a.validator.0);
    lemma_u64_bytes(b.validator.0);
    lemma_u64_bytes(a.slot.0);
    lemma_u64_bytes(b.slot.0);
    lemma_peel(u64_bytes(a.validator.0), a1, u64_bytes(b.validator.0), b1);
    lemma_u64_bytes_injective(a.validator.0, b.validator.0);
    lemma_peel(u64_bytes(a.slot.0), field_bytes(a.signature), u64_bytes(b.slot.0), field_bytes(b.signature));
    lemma_u64_bytes_injective(a.slot.0, b.slot.0);
    assert(field_bytes(a.signature) + Seq::<u8>::empty() =~= field_bytes(a.signature));
    assert(field_bytes(b.signature) + Seq::<u8>::empty() =~= field_bytes(b.signature));
    lemma_field_injective(a.signature, b.signature, Seq::empty(), Seq::empty());
}

/// Decoding the encoding of a skip vote gives the skip vote back.
pub proof fn lemma_decode_skip_vote_bytes(v: SkipVoteView)
    requires
        v.signature.len() <= u64::MAX,
    ensures
        decode_skip_vote_spec(skip_vote_bytes(v)) == Some(v),
{
    let s = skip_vote_bytes(v);
    assert(v.signature.len() <= u64::MAX && skip_vote_bytes(v) == s);
    let c = choose|c: SkipVoteView| c.signature.len() <= u64::MAX && skip_vote_bytes(c) == s;
    lemma_skip_vote_bytes_injective(v, c);
}

/// Decodes a skip vote: `Some` exactly when `bytes` is the encoding of a
/// skip vote, and then that skip vote.
pub fn decode_skip_vote(bytes: &Vec<u8>) -> (r: Option<SkipVote>)
    ensures
        match r {
            Some(v) => decode_skip_vote_spec(bytes@) == Some(v@),
            None => decode_skip_vote_spec(bytes@).is_none(),
        },
{
    let ghost s = bytes@;
    let ghost len = s.len() as int;
    let ghost has = exists|v: SkipVoteView| v.signature.len() <= u64::MAX && skip_vote_bytes(v) == s;
    let ghost t = choose|v: SkipVoteView| v.signature.len() <= u64::MAX && skip_vote_bytes(v) == s;
    proof {
        assert(s.subrange(0, len) =~= s);
        if has {
            lemma_u64_bytes(t.validator.0);
            lemma_u64_bytes(t.slot.0);
            lemma_rest(s, 0, u64_bytes(t.validator.0), u64_bytes(t.slot.0) + field_bytes(t.signature));
            lemma_rest(s, 8, u64_bytes(t.slot.0), field_bytes(t.signature));
        }
    }
    let validator = match read_u64(bytes, 0) {
        Some(x) => x,
        None => {
            return None;
        },
    };
    let slot = match read_u64(bytes, 8) {
        Some(x) => x,
        None => {
            return None;
        },
    };
    let signature = match read_last_field(bytes, 16) {
        Some(x) => x,
        None => {
            return None;
        },
    };
    let v = SkipVote { validator: ValidatorId(validator), slot: Slot(slot), signature };
    proof {
        lemma_join(s, 8, 16, len);
        lemma_join(s, 0, 8, len);
        assert(s == skip_vote_bytes(v@));
        assert(v@.signature.len() == v.signature.len());
        let c = choose|c: SkipVoteView| c.signature.len() <= u64::MAX && skip_vote_bytes(c) == s;
        lemma_skip_vote_bytes_injective(v@, c);
    }
    Some(v)
}

/// An integer as 4 little-endian bytes.
pub open spec fn u32_bytes(x: u32) -> Seq<u8> {
    spec_u32_to_le_bytes(x)
}

/// The encoding of a shred: block id, index, total, data.
pub open spec fn shred_bytes(s: ShredView) -> Seq<u8> {
    s.block_id.0@ + (u32_bytes(s.index as u32) + (u32_bytes(s.total_shreds as u32) + field_bytes(
        s.data,
    )))
}

/// The shred's index and total fit 4 bytes and its data its length prefix.
pub open spec fn shred_fits(s: ShredView) -> bool {
    &&& s.index <= u32::MAX
    &&& s.total_shreds <= u32::MAX
    &&& s.data.len() <= u64::MAX
}

/// The shred that `s` encodes, if any.
pub open spec fn decode_shred_spec(s: Seq<u8>) -> Option<ShredView> {
    if exists|v: ShredView| shred_fits(v) && shred_bytes(v) == s {
        Some(choose|v: ShredView| shred_fits(v) && shred_bytes(v) == s)
    } else {
        None
    }
}

/// An integer's 4 bytes decode back to it.
proof fn lemma_u32_bytes(x: u32)
    ensures
        u32_bytes(x).len() == 4,
        spec_u32_from_le_bytes(u32_bytes(x)) == x,
{
    lemma_auto_spec_u32_to_from_le_bytes();
    assert(spec_u32_to_le_bytes(x).len() == 4);
}

/// The wire encoding of a shred; `None` when its index or total does not
/// fit 4 bytes.
pub fn encode_shred(s: &Shred) -> (r: Option<Vec<u8>>)
    ensures
        r.is_some() == (s.index <= u32::MAX && s.total_shreds <= u32::MAX),
        r.is_some() ==> r.unwrap()@ == shred_bytes(s@),
{
    if s.index > u32::MAX as usize || s.total_shreds > u32::MAX as usize {
        return None;
    }
    let mut out: Vec<u8> = Vec::new();
    push_bytes(&mut out, s.block_id.as_bytes().as_slice());
    let index = u32_to_le_bytes(s.index as u32);
    push_bytes(&mut out, index.as_slice());
    let total = u32_to_le_bytes(s.total_shreds as u32);
    push_bytes(&mut out, total.as_slice());
    push_field(&mut out, &s.data);
    assert(out@ =~= shred_bytes(s@));
    Some(out)
}

/// The shred encoding is injective.
pub proof fn lemma_shred_bytes_injective(a: ShredView, b: ShredView)
    requires
        shred_fits(a),
        shred_fits(b),
        shred_bytes(a) == shred_bytes(b),
    ensures
        a == b,
{
    let a2 = u32_bytes(a.total_shreds as u32) + field_bytes(a.data);
    let b2 = u32_bytes(b.total_shreds as u32) + field_bytes(b.data);
    let a1 = u32_bytes(a.index as u32) + a2;
    let b1 = u32_bytes(b.index as u32) + b2;
    lemma_u32_bytes(a.index as u32);
    lemma_u32_bytes(b.index as u32);
    lemma_u32_bytes(a.total_shreds as u32);
    lemma_u32_bytes(b.total_shreds as u32);
    lemma_peel(a.block_id.0@, a1, b.block_id.0@, b1);
    assert(a.block_id.0 =~= b.block_id.0);
    lemma_peel(u32_bytes(a.index as u32), a2, u32_bytes(b.index as u32), b2);
    lemma_peel(u32_bytes(a.total_shreds as u32), field_bytes(a.data), u32_bytes(b.total_shreds as u32), field_bytes(b.data));
    assert(field_bytes(a.data) + Seq::<u8>::empty() =~= field_bytes(a.data));
    assert(field_bytes(b.data) + Seq::<u8>::empty() =~= field_bytes(b.data));
    lemma_field_injective(a.data, b.data, Seq::empty(), Seq::empty());
}

/// Decoding the encoding of a shred gives the shred back.
pub proof fn lemma_decode_shred_bytes(v: ShredView)
    requires
        shred_fits(v),
    ensures
        decode_shred_spec(shred_bytes(v)) == Some(v),
{
    let s = shred_bytes(v);
    assert(shred_fits(v) && shred_bytes(v) == s);
    let c = choose|c: ShredView| shred_fits(c) && shred_bytes(c) == s;
    lemma_shred_bytes_injective(v, c);
}

fn read_u32(bytes: &Vec<u8>, pos: usize) -> (r: Option<u32>)
    ensures
        r.is_some() == (pos + 4 <= bytes@.len()),
        r.is_some() ==> bytes@.subrange(pos as int, pos + 4) == u32_bytes(r.unwrap()),
{
    if pos > bytes.len() || bytes.len() - pos < 4 {
        return None;
    }
    let mut b: Vec<u8> = Vec::new();
    let mut k: usize = 0;
    while k < 4
        invariant
            0 <= k <= 4,
            pos + 4 <= bytes.len(),
            b@ == bytes@.subrange(pos as int, pos + k),
        decreases 4 - k,
    {
        b.push(bytes[pos + k]);
        k = k + 1;
        assert(b@ =~= bytes@.subrange(pos as int, pos + k));
    }
    let x = u32_from_le_bytes(b.as_slice());
    proof {
        lemma_auto_spec_u32_to_from_le_bytes();
        assert(spec_u32_to_le_bytes(spec_u32_from_le_bytes(b@)) == b@);
    }
    Some(x)
}

/// Decodes a shred: `Some` exactly when `bytes` is the encoding of a shred,
/// and then that shred.
pub fn decode_shred(bytes: &Vec<u8>) -> (r: Option<Shred>)
    ensures
        match r {
            Some(v) => decode_shred_spec(bytes@) == Some(v@),
            None => decode_shred_spec(bytes@).is_none(),
        },
{
    let ghost s = bytes@;
    let ghost len = s.len() as int;
    let ghost has = exists|v: ShredView| shred_fits(v) && shred_bytes(v) == s;
    let ghost t = choose|v: ShredView| shred_fits(v) && shred_bytes(v) == s;
    let ghost a2 = u32_bytes(t.total_shreds as u32) + field_bytes(t.data);
    let ghost a1 = u32_bytes(t.index as u32) + a2;
    proof {
        assert(s.subrange(0, len) =~= s);
        if has {
            lemma_u32_bytes(t.index as u32);
            lemma_u32_bytes(t.total_shreds as u32);
            lemma_rest(s, 0, t.block_id.0@, a1);
            lemma_rest(s, 32, u32_bytes(t.index as u32), a2);
            lemma_rest(s, 36, u32_bytes(t.total_shreds as u32), field_bytes(t.data));
        }
    }
    let block_id = match read_id(bytes, 0) {
        Some(x) => x,
        None => {
            return None;
        },
    };
    let index = match read_u32(bytes, 32) {
        Some(x) => x,
        None => {
            return None;
        },
    };
    let total = match read_u32(bytes, 36) {
        Some(x) => x,
        None => {
            return None;
        },
    };
    let data = match read_last_field(bytes, 40) {
        Some(x) => x,
        None => {
            return None;
        },
    };
    let v = Shred { block_id, index: index as usize, total_shreds: total as usize, data };
    proof {
        lemma_join(s, 36, 40, len);
        lemma_join(s, 32, 36, len);
        lemma_join(s, 0, 32, len);
        assert(s == shred_bytes(v@));
        assert(v@.data.len() == v.data.len());
        let c = choose|c: ShredView| shred_fits(c) && shred_bytes(c) == s;
        lemma_shred_bytes_injective(v@, c);
    }
    Some(v)
}

/// The votes one after another.
pub open spec fn votes_bytes(vs: Seq<VoteView>) -> Seq<u8>
    decreases vs.len(),
{
    if vs.len() == 0 {
        Seq::empty()
    } else {
        vote_bytes(vs[0]) + votes_bytes(vs.drop_first())
    }
}

/// The encoding of a certificate: block id, slot, round, the votes as a
/// list, total stake.
pub open spec fn certificate_bytes(c: CertView) -> Seq<u8> {
    c.block_id.0@ + (u64_bytes(c.slot.0) + (seq![round_byte(c.round)] + (u64_bytes(
        c.votes.len() as u64,
    ) + (votes_bytes(c.votes) + u64_bytes(c.total_stake.0)))))
}

/// Appending a vote appends its encoding.
proof fn lemma_votes_push(vs: Seq<VoteView>, v: VoteView)
    ensures
        votes_bytes(vs.push(v)) == votes_bytes(vs) + vote_bytes(v),
    decreases vs.len(),
{
    if vs.len() == 0 {
        assert(vs.push(v).drop_first() =~= Seq::<VoteView>::empty());
        assert(vs.push(v)[0] == v);
        assert(votes_bytes(vs.push(v).drop_first()) =~= Seq::<u8>::empty());
        assert(votes_bytes(vs) =~= Seq::<u8>::empty());
        assert(votes_bytes(vs.push(v)) =~= votes_bytes(vs) + vote_bytes(v));
    } else {
        assert(vs.push(v).drop_first() =~= vs.drop_first().push(v));
        lemma_votes_push(vs.drop_first(), v);
        assert(votes_bytes(vs.push(v)) =~= votes_bytes(vs) + vote_bytes(v));
    }
}

/// The wire encoding of a certificate.
pub fn encode_certificate(c: &FinalizationCertificate) -> (r: Vec<u8>)
    ensures
        r@ == certificate_bytes(c@),
{
    let ghost cv = c@;
    let mut out: Vec<u8> = Vec::new();
    push_bytes(&mut out, c.block_id.as_bytes().as_slice());
    push_u64(&mut out, c.slot.0);
    push_round(&mut out, c.round);
    push_u64(&mut out, c.votes.len() as u64);
    let ghost prefix = out@;
    let mut i: usize = 0;
    while i < c.votes.len()
        invariant
            0 <= i <= c.votes@.len(),
            cv == c@,
            out@ == prefix + votes_bytes(cv.votes.take(i as int)),
        decreases c.votes@.len() - i,
    {
        push_vote(&mut out, &c.votes[i]);
        proof {
            assert(cv.votes.take(i + 1) =~= cv.votes.take(i as int).push(c.votes@[i as int]@));
            lemma_votes_push(cv.votes.take(i as int), c.votes@[i as int]@);
        }
        i = i + 1;
        assert(out@ =~= prefix + votes_bytes(cv.votes.take(i as int)));
    }
    assert(cv.votes.take(i as int) =~= cv.votes);
    push_u64(&mut out, c.total_stake.0);
    assert(out@ =~= certificate_bytes(cv));
    out
}

} // verus!
