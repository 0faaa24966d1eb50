//! The erasure code that block dissemination uses.
//!
//! An encoding of `len` bytes is cut into `n` chunks of `chunk_size(len, n)`
//! bytes, the last ones padded with zeros. Shred `i` carries the encoding's
//! length as 8 little-endian bytes, then chunk `i` and the `n / 5` chunks
//! before it, cyclically. Every chunk thus lives on `n / 5 + 1` shreds, and
//! any `n - n / 5` shreds (80% of `n`, rounded up) hold every chunk.

use crate::codec::{lemma_u64_bytes, push_bytes, read_u64, u64_bytes};
use crate::rotor::{
    chunk_size, count_present, opt_view, present_count, shred_data, shred_threshold, slots_view,
};
use vstd::bytes::spec_u64_from_le_bytes;
use vstd::prelude::*;

verus! {

/// Chunks that each shred carries besides its own: a fifth of `n`.
pub open spec fn extra_chunks(n: nat) -> nat {
    n / 5
}

/// `q` zero bytes.
pub open spec fn zeros(q: nat) -> Seq<u8> {
    Seq::new(q, |k: int| 0u8)
}

/// Chunk `j` of `bytes`, padded with zeros to the chunk size.
pub open spec fn padded_chunk(bytes: Seq<u8>, n: nat, j: int) -> Seq<u8> {
    let d = shred_data(bytes, n, j);
    d + zeros((chunk_size(bytes.len(), n) - d.len()) as nat)
}

/// The chunk that shred `i` carries at position `t`: `t` chunks before its
/// own, cyclically.
pub open spec fn carried(n: nat, i: int, t: int) -> int {
    if i >= t {
        i - t
    } else {
        i + n - t
    }
}

/// The shred that carries chunk `j` at position `t`.
pub open spec fn holder_slot(n: nat, j: int, t: int) -> int {
    if j + t < n {
        j + t
    } else {
        j + t - n
    }
}

/// The padded chunks that shred `i` carries at positions `0 .. q`.
pub open spec fn carried_parts(bytes: Seq<u8>, n: nat, i: int, q: nat) -> Seq<u8>
    decreases q,
{
    if q == 0 {
        Seq::empty()
    } else {
        carried_parts(bytes, n, i, (q - 1) as nat) + padded_chunk(bytes, n, carried(n, i, q - 1))
    }
}

/// The data of shred `i` of `n` for the encoding `bytes`.
pub open spec fn coded_shred(bytes: Seq<u8>, n: nat, i: int) -> Seq<u8> {
    u64_bytes(bytes.len() as u64) + carried_parts(bytes, n, i, extra_chunks(n) + 1)
}

/// Length of every shred's data when chunks have `c` bytes.
pub open spec fn shred_len(n: nat, c: nat) -> nat {
    8 + (extra_chunks(n) + 1) * c
}

/// The first position `t' >= t` at which a filled slot of the expected
/// length holds chunk `j`.
pub open spec fn holder(slots: Seq<Option<Seq<u8>>>, j: int, c: nat, t: nat) -> Option<nat>
    decreases extra_chunks(slots.len()) + 1 - t,
{
    let n = slots.len();
    if t > extra_chunks(n) {
        None
    } else {
        let h = holder_slot(n, j, t as int);
        if slots[h].is_some() && slots[h].unwrap().len() == shred_len(n, c) {
            Some(t)
        } else {
            holder(slots, j, c, t + 1)
        }
    }
}

/// Chunk `j` as its first holder carries it.
pub open spec fn recovered_chunk(slots: Seq<Option<Seq<u8>>>, j: int, c: nat) -> Seq<u8> {
    let t = holder(slots, j, c, 0).unwrap() as int;
    let d = slots[holder_slot(slots.len(), j, t)].unwrap();
    d.subrange(8 + t * c, 8 + (t + 1) * c)
}

/// Chunks `0 .. q` each have a holder.
pub open spec fn all_held(slots: Seq<Option<Seq<u8>>>, c: nat, q: int) -> bool {
    forall|j: int| 0 <= j < q ==> #[trigger] holder(slots, j, c, 0).is_some()
}

/// Chunks `0 .. q` as recovered, concatenated.
pub open spec fn recovered(slots: Seq<Option<Seq<u8>>>, c: nat, q: nat) -> Seq<u8>
    decreases q,
{
    if q == 0 {
        Seq::empty()
    } else {
        recovered(slots, c, (q - 1) as nat) + recovered_chunk(slots, q - 1, c)
    }
}

/// The first filled slot.
pub open spec fn first_present(slots: Seq<Option<Seq<u8>>>) -> int
    decreases slots.len(),
{
    if slots.len() == 0 || slots[0].is_some() {
        0
    } else {
        1 + first_present(slots.drop_first())
    }
}

/// The encoding that the slots give back, if they do: its length is read
/// from the first filled slot, and every chunk from its first holder.
pub open spec fn recover_spec(slots: Seq<Option<Seq<u8>>>) -> Option<Seq<u8>> {
    let n = slots.len();
    if present_count(slots) == 0 {
        None
    } else {
        let d = slots[first_present(slots)].unwrap();
        if d.len() < 8 {
            None
        } else {
            let len = spec_u64_from_le_bytes(d.subrange(0, 8)) as nat;
            let c = chunk_size(len, n);
            if !all_held(slots, c, n as int) || n * c < len {
                None
            } else {
                Some(recovered(slots, c, n).subrange(0, len as int))
            }
        }
    }
}

/// Filled slots among positions `lo .. hi`.
pub open spec fn count_range(s: Seq<Option<Seq<u8>>>, lo: int, hi: int) -> nat
    decreases hi - lo,
{
    if hi <= lo {
        0
    } else {
        count_range(s, lo, hi - 1) + if s[hi - 1].is_some() {
            1nat
        } else {
            0nat
        }
    }
}

proof fn lemma_count_split(s: Seq<Option<Seq<u8>>>, a: int, b: int, c: int)
    requires
        a <= b <= c,
    ensures
        count_range(s, a, c) == count_range(s, a, b) + count_range(s, b, c),
    decreases c - b,
{
    if c > b {
        lemma_count_split(s, a, b, c - 1);
    }
}

proof fn lemma_count_bound(s: Seq<Option<Seq<u8>>>, a: int, b: int)
    requires
        a <= b,
    ensures
        count_range(s, a, b) <= b - a,
    decreases b - a,
{
    if b > a {
        lemma_count_bound(s, a, b - 1);
    }
}

proof fn lemma_count_none(s: Seq<Option<Seq<u8>>>, a: int, b: int)
    requires
        a <= b,
        forall|k: int| a <= k < b ==> s[k].is_none(),
    ensures
        count_range(s, a, b) == 0,
    decreases b - a,
{
    if b > a {
        lemma_count_none(s, a, b - 1);
    }
}

proof fn lemma_count_all(s: Seq<Option<Seq<u8>>>)
    ensures
        present_count(s) == count_range(s, 0, s.len() as int),
    decreases s.len(),
{
    if s.len() > 0 {
        lemma_count_all(s.drop_last());
        lemma_count_prefix(s, s.drop_last(), s.len() - 1);
    }
}

proof fn lemma_count_prefix(s: Seq<Option<Seq<u8>>>, p: Seq<Option<Seq<u8>>>, hi: int)
    requires
        0 <= hi <= p.len(),
        p.len() <= s.len(),
        forall|k: int| 0 <= k < p.len() ==> p[k] == s[k],
    ensures
        count_range(s, 0, hi) == count_range(p, 0, hi),
    decreases hi,
{
    if hi > 0 {
        lemma_count_prefix(s, p, hi - 1);
    }
}

/// With every slot of the cyclic window of chunk `j` empty, fewer than the
/// threshold are filled.
proof fn lemma_window_empty(s: Seq<Option<Seq<u8>>>, j: int)
    requires
        s.len() > 0,
        0 <= j < s.len(),
        forall|t: int| 0 <= t <= extra_chunks(s.len()) ==> #[trigger] s[holder_slot(s.len(), j, t)].is_none(),
    ensures
        present_count(s) < shred_threshold(s.len()),
{
    let n = s.len() as int;
    let m = extra_chunks(s.len()) as int;
    lemma_count_all(s);
    if j + m < n {
        assert forall|k: int| j <= k < j + m + 1 implies s[k].is_none() by {
            assert(holder_slot(s.len(), j, k - j) == k);
        }
        lemma_count_split(s, 0, j, n);
        lemma_count_split(s, j, j + m + 1, n);
        lemma_count_none(s, j, j + m + 1);
        lemma_count_bound(s, 0, j);
        lemma_count_bound(s, j + m + 1, n);
    } else {
        let w = j + m + 1 - n;
        assert forall|k: int| j <= k < n implies s[k].is_none() by {
            assert(holder_slot(s.len(), j, k - j) == k);
        }
        assert forall|k: int| 0 <= k < w implies s[k].is_none() by {
            assert(holder_slot(s.len(), j, k + n - j) == k);
        }
        lemma_count_split(s, 0, w, n);
        lemma_count_split(s, w, j, n);
        lemma_count_none(s, 0, w);
        lemma_count_none(s, j, n);
        lemma_count_bound(s, w, j);
    }
}

proof fn lemma_padded_len(bytes: Seq<u8>, n: nat, j: int)
    requires
        n > 0,
        0 <= j,
    ensures
        padded_chunk(bytes, n, j).len() == chunk_size(bytes.len(), n),
{
    let c = chunk_size(bytes.len(), n);
    assert((j + 1) * c == j * c + c) by (nonlinear_arith);
    assert(j * c >= 0) by (nonlinear_arith)
        requires
            j >= 0,
    ;
}

proof fn lemma_carried_parts(bytes: Seq<u8>, n: nat, i: int, q: nat, t: int)
    requires
        n > 0,
        0 <= i < n,
        q <= n,
        0 <= t < q,
    ensures
        carried_parts(bytes, n, i, q).len() == q * chunk_size(bytes.len(), n),
        carried_parts(bytes, n, i, q).subrange(
            t * chunk_size(bytes.len(), n),
            (t + 1) * chunk_size(bytes.len(), n),
        ) == padded_chunk(bytes, n, carried(n, i, t)),
    decreases q,
{
    let c = chunk_size(bytes.len(), n);
    let prev = carried_parts(bytes, n, i, (q - 1) as nat);
    let last = padded_chunk(bytes, n, carried(n, i, q - 1));
    lemma_padded_len(bytes, n, carried(n, i, q - 1));
    assert(q * c == (q - 1) * c + c) by (nonlinear_arith);
    if q == 1 {
        assert(prev =~= Seq::<u8>::empty());
    } else {
        lemma_carried_parts(bytes, n, i, (q - 1) as nat, 0);
    }
    if t < q - 1 {
        lemma_carried_parts(bytes, n, i, (q - 1) as nat, t);
        assert((t + 1) * c <= (q - 1) * c) by (nonlinear_arith)
            requires
                t + 1 <= q - 1,
                c >= 0,
        ;
        assert(t * c >= 0) by (nonlinear_arith)
            requires
                t >= 0,
                c >= 0,
        ;
        assert((t + 1) * c == t * c + c) by (nonlinear_arith);
        assert((prev + last).subrange(t * c, (t + 1) * c) =~= prev.subrange(t * c, (t + 1) * c));
    } else {
        assert((prev + last).subrange(t * c, (t + 1) * c) =~= last);
    }
}

/// The padded chunks `0 .. q` are the bytes up to chunk `q`, then zeros.
proof fn lemma_padded_prefix(bytes: Seq<u8>, n: nat, q: int)
    requires
        n > 0,
        0 <= q,
    ensures
        ({
            let c = chunk_size(bytes.len(), n);
            let e = if q * c <= bytes.len() { q * c } else { bytes.len() as int };
            padded_concat(bytes, n, q as nat) == bytes.subrange(0, e) + zeros((q * c - e) as nat)
        }),
    decreases q,
{
    let c = chunk_size(bytes.len(), n);
    assert(q * c >= 0) by (nonlinear_arith)
        requires
            q >= 0,
    ;
    if q == 0 {
        assert(q * c == 0) by (nonlinear_arith)
            requires
                q == 0,
        ;
        assert(bytes.subrange(0, 0) + zeros(0) =~= Seq::<u8>::empty());
    } else {
        lemma_padded_prefix(bytes, n, q - 1);
        assert(q * c == (q - 1) * c + c) by (nonlinear_arith);
        assert((q - 1) * c >= 0) by (nonlinear_arith)
            requires
                q >= 1,
        ;
        let e0 = if (q - 1) * c <= bytes.len() { (q - 1) * c } else { bytes.len() as int };
        let e1 = if q * c <= bytes.len() { q * c } else { bytes.len() as int };
        assert(((q - 1) + 1) * c == q * c);
        let d = shred_data(bytes, n, q - 1);
        assert(d =~= bytes.subrange(e0, e1));
        assert(padded_chunk(bytes, n, q - 1) =~= bytes.subrange(e0, e1) + zeros((c - (e1 - e0)) as nat));
        if (q - 1) * c <= bytes.len() {
            assert(padded_concat(bytes, n, q as nat) =~= bytes.subrange(0, e1) + zeros(
                (q * c - e1) as nat,
            ));
        } else {
            assert(padded_concat(bytes, n, q as nat) =~= bytes.subrange(0, e1) + zeros(
                (q * c - e1) as nat,
            ));
        }
    }
}

/// The padded chunks `0 .. q`, concatenated.
pub open spec fn padded_concat(bytes: Seq<u8>, n: nat, q: nat) -> Seq<u8>
    decreases q,
{
    if q == 0 {
        Seq::empty()
    } else {
        padded_concat(bytes, n, (q - 1) as nat) + padded_chunk(bytes, n, q - 1)
    }
}

/// Slots each empty or holding the shred of its position for `bytes`.
pub open spec fn honest_slots(slots: Seq<Option<Seq<u8>>>, bytes: Seq<u8>) -> bool {
    forall|i: int|
        0 <= i < slots.len() && #[trigger] slots[i].is_some() ==> slots[i].unwrap() == coded_shred(
            bytes,
            slots.len(),
            i,
        )
}

proof fn lemma_coded_len(bytes: Seq<u8>, n: nat, i: int)
    requires
        n > 0,
        0 <= i < n,
    ensures
        coded_shred(bytes, n, i).len() == shred_len(n, chunk_size(bytes.len(), n)),
{
    lemma_u64_bytes(bytes.len() as u64);
    lemma_carried_parts(bytes, n, i, extra_chunks(n) + 1, 0);
}

/// In honest slots, a holder search from `t` fails only if the window from
/// `t` on is empty, and when it succeeds the holder carries chunk `j`.
proof fn lemma_holder_honest(slots: Seq<Option<Seq<u8>>>, bytes: Seq<u8>, j: int, t: nat)
    requires
        slots.len() > 0,
        0 <= j < slots.len(),
        honest_slots(slots, bytes),
    ensures
        ({
            let n = slots.len();
            let c = chunk_size(bytes.len(), n);
            match holder(slots, j, c, t) {
                None => forall|u: int|
                    t <= u <= extra_chunks(n) ==> #[trigger] slots[holder_slot(n, j, u)].is_none(),
                Some(u) => t <= u <= extra_chunks(n) && slots[holder_slot(n, j, u as int)].is_some(),
            }
        }),
    decreases extra_chunks(slots.len()) + 1 - t,
{
    let n = slots.len();
    let c = chunk_size(bytes.len(), n);
    if t <= extra_chunks(n) {
        let h = holder_slot(n, j, t as int);
        if slots[h].is_some() {
            lemma_coded_len(bytes, n, h);
        } else {
            lemma_holder_honest(slots, bytes, j, t + 1);
        }
    }
}

/// Recovered chunks `0 .. q` of honest slots are the padded chunks.
proof fn lemma_recovered_honest(slots: Seq<Option<Seq<u8>>>, bytes: Seq<u8>, q: nat)
    requires
        slots.len() > 0,
        q <= slots.len(),
        honest_slots(slots, bytes),
        present_count(slots) >= shred_threshold(slots.len()),
    ensures
        all_held(slots, chunk_size(bytes.len(), slots.len()), q as int),
        recovered(slots, chunk_size(bytes.len(), slots.len()), q) == padded_concat(
            bytes,
            slots.len(),
            q,
        ),
    decreases q,
{
    let n = slots.len();
    let c = chunk_size(bytes.len(), n);
    if q > 0 {
        lemma_recovered_honest(slots, bytes, (q - 1) as nat);
        let j = q - 1;
        lemma_holder_honest(slots, bytes, j, 0);
        if holder(slots, j, c, 0).is_none() {
            lemma_window_empty(slots, j);
        }
        let t = holder(slots, j, c, 0).unwrap() as int;
        let h = holder_slot(n, j, t);
        lemma_u64_bytes(bytes.len() as u64);
        lemma_carried_parts(bytes, n, h, extra_chunks(n) + 1, t);
        assert(carried(n, h, t) == j);
        let d = coded_shred(bytes, n, h);
        let parts = carried_parts(bytes, n, h, extra_chunks(n) + 1);
        assert(t * c >= 0) by (nonlinear_arith)
            requires
                t >= 0,
        ;
        assert((t + 1) * c <= (extra_chunks(n) + 1) * c) by (nonlinear_arith)
            requires
                t <= extra_chunks(n),
        ;
        assert((t + 1) * c == t * c + c) by (nonlinear_arith);
        assert(d.subrange(8 + t * c, 8 + (t + 1) * c) =~= parts.subrange(t * c, (t + 1) * c));
        assert(all_held(slots, c, q as int)) by {
            assert forall|k: int| 0 <= k < q implies #[trigger] holder(slots, k, c, 0).is_some() by {
                if k < q - 1 {
                    assert(all_held(slots, c, (q - 1) as int));
                }
            }
        }
    }
}

proof fn lemma_first_present(slots: Seq<Option<Seq<u8>>>)
    requires
        present_count(slots) > 0,
    ensures
        0 <= first_present(slots) < slots.len(),
        slots[first_present(slots)].is_some(),
    decreases slots.len(),
{
    lemma_count_all(slots);
    if slots.len() > 0 && slots[0].is_none() {
        let rest = slots.drop_first();
        lemma_count_all(rest);
        lemma_count_split(slots, 0, 1, slots.len() as int);
        assert forall|k: int| 0 <= k < rest.len() implies rest[k] == slots[k + 1] by {}
        lemma_count_shift(slots, rest, rest.len() as int);
        assert(count_range(slots, 0, 0) == 0);
        assert(count_range(slots, 0, 1) == 0);
        lemma_first_present(rest);
    } else if slots.len() == 0 {
        assert(false);
    }
}

proof fn lemma_count_shift(s: Seq<Option<Seq<u8>>>, r: Seq<Option<Seq<u8>>>, hi: int)
    requires
        0 <= hi <= r.len(),
        r.len() + 1 == s.len(),
        forall|k: int| 0 <= k < r.len() ==> r[k] == s[k + 1],
    ensures
        count_range(s, 1, hi + 1) == count_range(r, 0, hi),
    decreases hi,
{
    if hi > 0 {
        lemma_count_shift(s, r, hi - 1);
    }
}

/// Any `n - n / 5` filled slots of the shreds of an encoding give the
/// encoding back, whichever they are.
pub proof fn lemma_recover_any_k(slots: Seq<Option<Seq<u8>>>, bytes: Seq<u8>)
    requires
        slots.len() > 0,
        bytes.len() <= u64::MAX,
        honest_slots(slots, bytes),
        present_count(slots) >= shred_threshold(slots.len()),
    ensures
        recover_spec(slots) == Some(bytes),
{
    let n = slots.len();
    let c = chunk_size(bytes.len(), n);
    assert(shred_threshold(n) > 0);
    lemma_first_present(slots);
    let f = first_present(slots);
    let d = slots[f].unwrap();
    lemma_coded_len(bytes, n, f);
    lemma_u64_bytes(bytes.len() as u64);
    assert(d.subrange(0, 8) =~= u64_bytes(bytes.len() as u64));
    assert(spec_u64_from_le_bytes(d.subrange(0, 8)) as nat == bytes.len());
    lemma_recovered_honest(slots, bytes, n);
    lemma_padded_prefix(bytes, n, n as int);
    lemma_chunks_cover_len(bytes.len(), n);
    assert(recovered(slots, c, n).subrange(0, bytes.len() as int) =~= bytes);
}

proof fn lemma_chunks_cover_len(len: nat, n: nat)
    requires
        n > 0,
    ensures
        n * chunk_size(len, n) >= len,
{
    crate::rotor::lemma_chunks_cover(len, n);
}

/// Bounds of chunk `j` in an encoding of `len` bytes with chunk size `c`.
fn chunk_bounds(len: usize, c: usize, j: usize) -> (r: (usize, usize))
    ensures
        r.0 == (if j * c <= len { j * c } else { len as int }),
        r.1 == (if (j + 1) * c <= len { (j + 1) * c } else { len as int }),
{
    proof {
        assert((j as u128) * (c as u128) <= 0xffff_ffff_ffff_ffffu128 * 0xffff_ffff_ffff_ffffu128) by (nonlinear_arith)
            requires
                j <= 0xffff_ffff_ffff_ffffu128,
                c <= 0xffff_ffff_ffff_ffffu128,
        ;
        assert((j as u128 + 1) * (c as u128) <= 0x1_0000_0000_0000_0000u128 * 0xffff_ffff_ffff_ffffu128) by (nonlinear_arith)
            requires
                j + 1 <= 0x1_0000_0000_0000_0000u128,
                c <= 0xffff_ffff_ffff_ffffu128,
        ;
    }
    let lo_wide = (j as u128) * (c as u128);
    let hi_wide = (j as u128 + 1) * (c as u128);
    let lo = if lo_wide <= len as u128 {
        lo_wide as usize
    } else {
        len
    };
    let hi = if hi_wide <= len as u128 {
        hi_wide as usize
    } else {
        len
    };
    (lo, hi)
}

/// Appends padded chunk `j` of `bytes`.
fn push_padded(out: &mut Vec<u8>, bytes: &Vec<u8>, n: usize, c: usize, j: usize)
    requires
        n > 0,
        c == chunk_size(bytes@.len(), n as nat),
    ensures
        final(out)@ == old(out)@ + padded_chunk(bytes@, n as nat, j as int),
{
    let ghost start = out@;
    let (lo, hi) = chunk_bounds(bytes.len(), c, j);
    proof {
        assert((j + 1) * c == j * c + c) by (nonlinear_arith);
        assert(j * c >= 0) by (nonlinear_arith)
            requires
                j >= 0,
                c >= 0,
        ;
    }
    let mut k: usize = lo;
    while k < hi
        invariant
            lo <= k <= hi,
            hi <= bytes@.len(),
            out@ == start + bytes@.subrange(lo as int, k as int),
        decreases hi - k,
    {
        out.push(bytes[k]);
        k = k + 1;
        assert(out@ =~= start + bytes@.subrange(lo as int, k as int));
    }
    let pad = c - (hi - lo);
    let ghost mid = out@;
    let mut z: usize = 0;
    while z < pad
        invariant
            0 <= z <= pad,
            out@ == mid + zeros(z as nat),
        decreases pad - z,
    {
        out.push(0u8);
        z = z + 1;
        assert(out@ =~= mid + zeros(z as nat));
    }
    assert(shred_data(bytes@, n as nat, j as int) =~= bytes@.subrange(lo as int, hi as int));
    assert(out@ =~= start + padded_chunk(bytes@, n as nat, j as int));
}

/// The shreds of an encoding for `n` validators.
pub fn encode_shreds(bytes: &Vec<u8>, n: usize) -> (r: Vec<Vec<u8>>)
    requires
        n > 0,
    ensures
        r@.len() == n,
        forall|i: int| 0 <= i < n ==> (#[trigger] r@[i])@ == coded_shred(bytes@, n as nat, i),
{
    let len = bytes.len();
    proof {
        if len % n != 0 {
            vstd::arithmetic::div_mod::lemma_div_is_ordered_by_denominator(len as int, 2, n as int);
        }
    }
    let c = len / n + if len % n == 0 {
        0
    } else {
        1
    };
    let m = n / 5;
    let mut out: Vec<Vec<u8>> = Vec::new();
    let mut i: usize = 0;
    while i < n
        invariant
            0 <= i <= n,
            n > 0,
            m == extra_chunks(n as nat),
            len == bytes@.len(),
            c == chunk_size(len as nat, n as nat),
            out@.len() == i,
            forall|k: int| 0 <= k < i ==> (#[trigger] out@[k])@ == coded_shred(bytes@, n as nat, k),
        decreases n - i,
    {
        let mut d = vstd::bytes::u64_to_le_bytes(len as u64);
        let ghost head = d@;
        let mut t: usize = 0;
        while t <= m
            invariant
                0 <= t <= m + 1,
                0 <= i < n,
                n > 0,
                m == extra_chunks(n as nat),
                m < n,
                len == bytes@.len(),
                c == chunk_size(len as nat, n as nat),
                head == u64_bytes(len as u64),
                d@ == head + carried_parts(bytes@, n as nat, i as int, t as nat),
            decreases m + 1 - t,
        {
            let j = if i >= t {
                i - t
            } else {
                n - (t - i)
            };
            push_padded(&mut d, bytes, n, c, j);
            proof {
                assert(head + carried_parts(bytes@, n as nat, i as int, (t + 1) as nat) =~= head
                    + carried_parts(bytes@, n as nat, i as int, t as nat) + padded_chunk(
                    bytes@,
                    n as nat,
                    j as int,
                ));
            }
            t = t + 1;
        }
        out.push(d);
        i = i + 1;
    }
    out
}

proof fn lemma_first_present_at(s: Seq<Option<Seq<u8>>>, f: int)
    requires
        0 <= f < s.len(),
        s[f].is_some(),
        forall|k: int| 0 <= k < f ==> s[k].is_none(),
    ensures
        first_present(s) == f,
    decreases f,
{
    if f > 0 {
        let r = s.drop_first();
        assert forall|k: int| 0 <= k < f - 1 implies r[k].is_none() by {
            assert(r[k] == s[k + 1]);
        }
        lemma_first_present_at(r, f - 1);
    }
}

/// The first filled slot.
fn first_filled(slots: &Vec<Option<Vec<u8>>>) -> (f: usize)
    requires
        present_count(slots_view(slots@)) > 0,
    ensures
        f < slots@.len(),
        first_present(slots_view(slots@)) == f,
        slots_view(slots@)[f as int].is_some(),
{
    let ghost s = slots_view(slots@);
    let mut f: usize = 0;
    while f < slots.len()
        invariant
            0 <= f <= slots@.len(),
            s == slots_view(slots@),
            present_count(s) > 0,
            forall|k: int| 0 <= k < f ==> s[k].is_none(),
        decreases slots@.len() - f,
    {
        if slots[f].is_some() {
            proof {
                lemma_first_present_at(s, f as int);
            }
            return f;
        }
        f = f + 1;
    }
    proof {
        lemma_count_all(s);
        lemma_count_none(s, 0, s.len() as int);
    }
    f
}

/// The first position `t` at which chunk `j` has a holder of length
/// `expected`.
fn find_holder(slots: &Vec<Option<Vec<u8>>>, j: usize, c: u64, expected: u128) -> (r: Option<usize>)
    requires
        j < slots@.len(),
        expected == shred_len(slots@.len(), c as nat),
    ensures
        match holder(slots_view(slots@), j as int, c as nat, 0) {
            Some(t) => r == Some(t as usize),
            None => r.is_none(),
        },
        r.is_some() ==> holder(slots_view(slots@), j as int, c as nat, 0) == Some(r.unwrap() as nat),
        r.is_some() ==> r.unwrap() <= extra_chunks(slots@.len()) && slots_view(slots@)[holder_slot(
            slots@.len(),
            j as int,
            r.unwrap() as int,
        )].is_some() && slots_view(slots@)[holder_slot(slots@.len(), j as int, r.unwrap() as int)].unwrap().len()
            == expected,
{
    let ghost s = slots_view(slots@);
    let n = slots.len();
    let m = n / 5;
    let mut t: usize = 0;
    while t <= m
        invariant
            0 <= t <= m + 1,
            n == s.len(),
            m == extra_chunks(n as nat),
            j < n,
            s == slots_view(slots@),
            expected == shred_len(n as nat, c as nat),
            holder(s, j as int, c as nat, 0) == holder(s, j as int, c as nat, t as nat),
        decreases m + 1 - t,
    {
        let h = if t < n - j {
            j + t
        } else {
            t - (n - j)
        };
        assert(h == holder_slot(n as nat, j as int, t as int));
        match &slots[h] {
            Some(d) => {
                if d.len() as u128 == expected {
                    assert(s[h as int] == Some(d@));
                    return Some(t);
                }
            },
            None => {},
        }
        t = t + 1;
    }
    None
}

/// The encoding the filled slots give back, as `recover_spec` describes.
pub fn recover(slots: &Vec<Option<Vec<u8>>>) -> (r: Option<Vec<u8>>)
    ensures
        match r {
            Some(v) => recover_spec(slots_view(slots@)) == Some(v@),
            None => recover_spec(slots_view(slots@)).is_none(),
        },
{
    let ghost s = slots_view(slots@);
    let n = slots.len();
    if count_present(slots) == 0 {
        return None;
    }
    let f = first_filled(slots);
    let d = match &slots[f] {
        Some(d) => d,
        None => {
            return None;
        },
    };
    if d.len() < 8 {
        return None;
    }
    let len = match read_u64(d, 0) {
        Some(x) => x,
        None => {
            return None;
        },
    };
    proof {
        lemma_u64_bytes(len);
        assert(s[f as int] == Some(d@));
        assert(spec_u64_from_le_bytes(d@.subrange(0, 8)) == len);
    }
    let n64 = n as u64;
    proof {
        if len % n64 != 0 {
            vstd::arithmetic::div_mod::lemma_div_is_ordered_by_denominator(len as int, 2, n64 as int);
        }
    }
    let c: u64 = len / n64 + if len % n64 == 0 {
        0
    } else {
        1
    };
    let m = n / 5;
    proof {
        assert(((m as u128) + 1) * (c as u128) <= 0x1_0000_0000_0000_0000u128 * 0xffff_ffff_ffff_ffffu128) by (nonlinear_arith)
            requires
                m + 1 <= 0x1_0000_0000_0000_0000u128,
                c <= 0xffff_ffff_ffff_ffffu128,
        ;
    }
    let expected: u128 = 8 + ((m as u128) + 1) * (c as u128);
    let mut joined: Vec<u8> = Vec::new();
    let mut j: usize = 0;
    while j < n
        invariant
            0 <= j <= n,
            n == s.len(),
            n > 0,
            m == extra_chunks(n as nat),
            s == slots_view(slots@),
            c == chunk_size(len as nat, n as nat),
            expected == shred_len(n as nat, c as nat),
            joined@ == recovered(s, c as nat, j as nat),
            joined@.len() == j * c,
            all_held(s, c as nat, j as int),
            present_count(s) > 0,
            s[first_present(s)] == Some(d@),
            d@.len() >= 8,
            spec_u64_from_le_bytes(d@.subrange(0, 8)) == len,
        decreases n - j,
    {
        let t = match find_holder(slots, j, c, expected) {
            Some(t) => t,
            None => {
                proof {
                    assert(!all_held(s, c as nat, n as int));
                }
                return None;
            },
        };
        let h = if t < n - j {
            j + t
        } else {
            t - (n - j)
        };
        assert(h == holder_slot(n as nat, j as int, t as int));
        let dd = match &slots[h] {
            Some(dd) => dd,
            None => {
                assert(s[h as int] == opt_view(slots@[h as int]));
                return None;
            },
        };
        assert(s[h as int] == Some(dd@));
        proof {
            assert(t <= m);
            assert((t as u128 + 1) * (c as u128) <= ((m as u128) + 1) * (c as u128)) by (nonlinear_arith)
                requires
                    t <= m,
            ;
            assert((t as u128 + 1) * (c as u128) == (t as u128) * (c as u128) + c) by (nonlinear_arith);
        }
        assert(dd@.len() == expected);
        assert(8 + (t as u128 + 1) * (c as u128) <= dd@.len());
        assert(dd@.len() == dd.len());
        let lo = (8 + (t as u128) * (c as u128)) as usize;
        let hi = (8 + (t as u128 + 1) * (c as u128)) as usize;
        let ghost before = joined@;
        let mut k: usize = lo;
        while k < hi
            invariant
                lo <= k <= hi,
                hi <= dd@.len(),
                joined@ == before + dd@.subrange(lo as int, k as int),
            decreases hi - k,
        {
            joined.push(dd[k]);
            k = k + 1;
            assert(joined@ =~= before + dd@.subrange(lo as int, k as int));
        }
        proof {
            assert(s[h as int] == opt_view(slots@[h as int]));
            assert(holder(s, j as int, c as nat, 0) == Some(t as nat));
            assert(lo as int == 8 + (t as int) * (c as int));
            assert(hi as int == 8 + (t as int + 1) * (c as int));
            assert(recovered_chunk(s, j as int, c as nat) == dd@.subrange(lo as int, hi as int));
            assert((j + 1) * c == j * c + c) by (nonlinear_arith);
            assert forall|q: int| 0 <= q < j + 1 implies #[trigger] holder(s, q, c as nat, 0).is_some() by {
                if q < j {
                    assert(all_held(s, c as nat, j as int));
                }
            }
        }
        j = j + 1;
    }
    proof {
        assert((n as u128) * (c as u128) <= 0xffff_ffff_ffff_ffffu128 * 0xffff_ffff_ffff_ffffu128) by (nonlinear_arith)
            requires
                n <= 0xffff_ffff_ffff_ffffu128,
                c <= 0xffff_ffff_ffff_ffffu128,
        ;
    }
    if (n as u128) * (c as u128) < len as u128 {
        return None;
    }
    assert(len as int <= joined@.len());
    assert(joined@.len() == joined.len());
    joined.truncate(len as usize);
    Some(joined)
}

} // verus!
