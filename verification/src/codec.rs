//! The ledger's durable byte format and its codec. Each entry is written
//! as an eight-byte little-endian identity length, the identity bytes, and
//! an eight-byte little-endian last-used time. Loading tolerates any byte
//! string: malformed or duplicated content yields nothing, which the
//! caller treats as a fresh first run.

use vstd::prelude::*;
use crate::state::Entry;
use crate::state::State;
use crate::state::bytes_eq;
use crate::state::unique_ids;

verus! {

/// `x` written as `n` little-endian bytes.
pub open spec fn le_bytes(x: int, n: nat) -> Seq<u8>
    decreases n,
{
    if n == 0 {
        Seq::empty()
    } else {
        seq![(x % 256) as u8] + le_bytes(x / 256, (n - 1) as nat)
    }
}

/// The value that little-endian bytes denote.
pub open spec fn le_val(b: Seq<u8>) -> int
    decreases b.len(),
{
    if b.len() == 0 {
        0
    } else {
        b[0] + 256 * le_val(b.drop_first())
    }
}

/// 256 to the power `n`.
pub open spec fn pow256(n: nat) -> int
    decreases n,
{
    if n == 0 {
        1
    } else {
        256 * pow256((n - 1) as nat)
    }
}

/// One encoded entry: identity length, identity, last-used time.
pub open spec fn encode_entry(id: Seq<u8>, t: u64) -> Seq<u8> {
    le_bytes(id.len() as int, 8) + id + le_bytes(t as int, 8)
}

/// The encoded ledger: the entries one after another.
pub open spec fn encode_entries(s: Seq<Entry>) -> Seq<u8>
    decreases s.len(),
{
    if s.len() == 0 {
        Seq::empty()
    } else {
        encode_entry(s.first().id@, s.first().last_used) + encode_entries(s.drop_first())
    }
}

/// The (identity, last-used) pairs a sequence of entries carries.
pub open spec fn pairs_of(s: Seq<Entry>) -> Seq<(Seq<u8>, u64)> {
    Seq::new(s.len(), |i: int| (s[i].id@, s[i].last_used))
}

/// No two pairs carry the same identity.
pub open spec fn dup_free(ps: Seq<(Seq<u8>, u64)>) -> bool {
    forall|i: int, j: int| 0 <= i < j < ps.len() ==> ps[i].0 != ps[j].0
}

/// The pairs that a byte string decodes to, or nothing when it is not a
/// well-formed encoding.
pub open spec fn decode_pairs(b: Seq<u8>) -> Option<Seq<(Seq<u8>, u64)>>
    decreases b.len(),
    via decode_pairs_decreases
{
    if b.len() == 0 {
        Some(Seq::empty())
    } else if b.len() < 8 {
        None
    } else {
        let n = le_val(b.take(8));
        if b.len() < 16 + n {
            None
        } else {
            let id = b.subrange(8, 8 + n);
            let t = le_val(b.subrange(8 + n, 16 + n));
            match decode_pairs(b.skip(16 + n)) {
                Some(rest) => Some(seq![(id, t as u64)] + rest),
                None => None,
            }
        }
    }
}

#[via_fn]
proof fn decode_pairs_decreases(b: Seq<u8>) {
    if b.len() >= 8 {
        lemma_le_val_bound(b.take(8));
    }
}

/// Little-endian bytes denote a value within range.
pub proof fn lemma_le_val_bound(b: Seq<u8>)
    ensures
        0 <= le_val(b) < pow256(b.len()),
    decreases b.len(),
{
    if b.len() > 0 {
        lemma_le_val_bound(b.drop_first());
    }
}

/// There are `n` little-endian bytes.
pub proof fn lemma_le_bytes_len(x: int, n: nat)
    ensures
        le_bytes(x, n).len() == n,
    decreases n,
{
    if n > 0 {
        lemma_le_bytes_len(x / 256, (n - 1) as nat);
    }
}

/// Writing a value in range and reading it back yields the value.
pub proof fn lemma_le_round_trip(x: int, n: nat)
    requires
        0 <= x < pow256(n),
    ensures
        le_val(le_bytes(x, n)) == x,
    decreases n,
{
    if n > 0 {
        assert(pow256(n) == 256 * pow256((n - 1) as nat));
        assert(x == 256 * (x / 256) + x % 256);
        assert(x / 256 < pow256((n - 1) as nat)) by (nonlinear_arith)
            requires
                x < 256 * pow256((n - 1) as nat),
                x == 256 * (x / 256) + x % 256,
                0 <= x % 256,
        ;
        lemma_le_round_trip(x / 256, (n - 1) as nat);
        let b = le_bytes(x, n);
        assert(b.drop_first() =~= le_bytes(x / 256, (n - 1) as nat));
        assert(b[0] == (x % 256) as u8);
    }
}

/// Encoding distributes over concatenation of entry sequences.
proof fn lemma_encode_app(a: Seq<Entry>, b: Seq<Entry>)
    ensures
        encode_entries(a + b) == encode_entries(a) + encode_entries(b),
    decreases a.len(),
{
    if a.len() == 0 {
        assert(a + b =~= b);
        assert(encode_entries(a) + encode_entries(b) =~= encode_entries(b));
    } else {
        assert((a + b).first() == a.first());
        assert((a + b).drop_first() =~= a.drop_first() + b);
        lemma_encode_app(a.drop_first(), b);
        assert(encode_entries(a + b) =~= encode_entries(a) + encode_entries(b));
    }
}

/// Decoding an encoded ledger yields exactly its pairs.
pub proof fn lemma_decode_encode(s: Seq<Entry>)
    ensures
        decode_pairs(encode_entries(s)) == Some(pairs_of(s)),
    decreases s.len(),
{
    if s.len() == 0 {
        assert(pairs_of(s) =~= Seq::<(Seq<u8>, u64)>::empty());
    } else {
        let e = s.first();
        let id = e.id@;
        let t = e.last_used;
        let n = id.len() as int;
        let head = encode_entry(id, t);
        let rest = encode_entries(s.drop_first());
        let b = encode_entries(s);
        assert(b == head + rest);
        lemma_le_bytes_len(n, 8);
        lemma_le_bytes_len(t as int, 8);
        assert(e.id.len() == id.len());
        assert(n <= usize::MAX);
        assert(head.len() == 16 + n);
        assert(pow256(8) == 0x1_0000_0000_0000_0000) by {
            reveal_with_fuel(pow256, 10);
        }
        assert(b.take(8) =~= le_bytes(n, 8));
        lemma_le_round_trip(n, 8);
        assert(le_val(b.take(8)) == n);
        assert(b.len() == 16 + n + rest.len());
        assert(b.subrange(8, 8 + n) =~= id);
        assert(b.subrange(8 + n, 16 + n) =~= le_bytes(t as int, 8));
        lemma_le_round_trip(t as int, 8);
        assert(le_val(b.subrange(8 + n, 16 + n)) == t as int);
        assert(b.skip(16 + n) =~= rest);
        lemma_decode_encode(s.drop_first());
        assert(decode_pairs(b) == Some(seq![(id, t)] + pairs_of(s.drop_first())));
        assert(seq![(id, t)] + pairs_of(s.drop_first()) =~= pairs_of(s));
    }
}

/// Law: saving a ledger with distinct identities and loading the bytes
/// back yields exactly the same set of (identity, last-used) pairs, with
/// no duplicates.
pub proof fn lemma_save_load_round_trip(s: Seq<Entry>)
    requires
        unique_ids(s),
    ensures
        decode_pairs(encode_entries(s)) == Some(pairs_of(s)),
        dup_free(pairs_of(s)),
{
    lemma_decode_encode(s);
}

/// Append `x` as eight little-endian bytes.
fn push_le64(out: &mut Vec<u8>, x: u64)
    ensures
        final(out)@ == old(out)@ + le_bytes(x as int, 8),
{
    let mut v = x;
    let mut k: usize = 0;
    proof {
        assert(out@ + le_bytes(v as int, 8) == old(out)@ + le_bytes(x as int, 8));
    }
    while k < 8
        invariant
            k <= 8,
            out@ + le_bytes(v as int, (8 - k) as nat) == old(out)@ + le_bytes(x as int, 8),
        decreases 8 - k,
    {
        let ghost out0 = out@;
        let ghost v0 = v as int;
        out.push((v % 256) as u8);
        v = v / 256;
        k += 1;
        proof {
            assert(le_bytes(v0, (8 - k + 1) as nat) == seq![(v0 % 256) as u8] + le_bytes(
                v0 / 256,
                (8 - k) as nat,
            ));
            assert(out@ + le_bytes(v as int, (8 - k) as nat) =~= out0 + le_bytes(
                v0,
                (8 - k + 1) as nat,
            ));
        }
    }
    proof {
        assert(le_bytes(v as int, 0) =~= Seq::<u8>::empty());
        assert(out@ + le_bytes(v as int, 0) =~= out@);
    }
}

/// Append a copy of the byte string.
fn push_bytes(out: &mut Vec<u8>, a: &Vec<u8>)
    ensures
        final(out)@ == old(out)@ + a@,
{
    let mut i: usize = 0;
    while i < a.len()
        invariant
            i <= a@.len(),
            out@ == old(out)@ + a@.take(i as int),
        decreases a@.len() - i,
    {
        out.push(a[i]);
        proof {
            assert(old(out)@ + a@.take(i as int) + seq![a@[i as int]] =~= old(out)@ + a@.take(
                i + 1,
            ));
        }
        i += 1;
    }
    proof {
        assert(a@.take(a@.len() as int) =~= a@);
    }
}

/// Read the eight little-endian bytes at `pos`.
fn read_le64(b: &Vec<u8>, pos: usize) -> (r: u64)
    requires
        pos + 8 <= b@.len(),
    ensures
        r as int == le_val(b@.subrange(pos as int, pos as int + 8)),
{
    proof {
        assert(pow256(8) == 0x1_0000_0000_0000_0000) by {
            reveal_with_fuel(pow256, 10);
        }
        assert(pow256(7) == 0x100_0000_0000_0000) by {
            reveal_with_fuel(pow256, 9);
        }
    }
    proof {
        assert(b.len() == b@.len());
    }
    let mut r: u64 = 0;
    let mut k: usize = 8;
    while k > 0
        invariant
            k <= 8,
            pos + 8 <= b@.len(),
            b@.len() <= usize::MAX,
            r as int == le_val(b@.subrange(pos + k, pos as int + 8)),
            (r as int) < pow256((8 - k) as nat),
        decreases k,
    {
        proof {
            lemma_pow256_le((8 - k) as nat, 7);
            assert(pow256(7) == 0x100_0000_0000_0000) by {
                reveal_with_fuel(pow256, 9);
            }
        }
        let ghost r0 = r as int;
        k -= 1;
        r = r * 256 + (b[pos + k] as u64);
        proof {
            let s = b@.subrange(pos + k, pos as int + 8);
            assert(s.drop_first() =~= b@.subrange(pos + k + 1, pos as int + 8));
            assert(s[0] == b@[pos + k]);
            assert(le_val(s) == b@[pos + k] + 256 * r0);
            assert(pow256((8 - k) as nat) == 256 * pow256((7 - k) as nat));
        }
    }
    proof {
        assert(b@.subrange(pos as int, pos as int + 8) == b@.subrange(pos + 0, pos as int + 8));
    }
    r
}

/// Powers of 256 do not decrease.
proof fn lemma_pow256_le(a: nat, b: nat)
    requires
        a <= b,
    ensures
        1 <= pow256(a) <= pow256(b),
    decreases b,
{
    if a == b {
        lemma_pow256_pos(a);
    } else {
        lemma_pow256_le(a, (b - 1) as nat);
        lemma_pow256_pos((b - 1) as nat);
    }
}

proof fn lemma_pow256_pos(n: nat)
    ensures
        pow256(n) >= 1,
    decreases n,
{
    if n > 0 {
        lemma_pow256_pos((n - 1) as nat);
    }
}

/// A copy of the bytes at `[from, to)`.
fn copy_range(b: &Vec<u8>, from: usize, to: usize) -> (r: Vec<u8>)
    requires
        from <= to <= b@.len(),
    ensures
        r@ == b@.subrange(from as int, to as int),
{
    let mut r: Vec<u8> = Vec::new();
    let mut i = from;
    while i < to
        invariant
            from <= i <= to <= b@.len(),
            r@ == b@.subrange(from as int, i as int),
        decreases to - i,
    {
        r.push(b[i]);
        proof {
            assert(b@.subrange(from as int, i as int) + seq![b@[i as int]] =~= b@.subrange(
                from as int,
                i + 1,
            ));
        }
        i += 1;
    }
    r
}

/// The ledger's durable byte form.
pub fn save_bytes(state: &State) -> (r: Vec<u8>)
    ensures
        r@ == encode_entries(state.entries@),
{
    let mut out: Vec<u8> = Vec::new();
    let mut i: usize = 0;
    while i < state.entries.len()
        invariant
            i <= state.entries@.len(),
            out@ == encode_entries(state.entries@.take(i as int)),
        decreases state.entries@.len() - i,
    {
        let e = &state.entries[i];
        push_le64(&mut out, e.id.len() as u64);
        push_bytes(&mut out, &e.id);
        push_le64(&mut out, e.last_used);
        proof {
            let s = state.entries@;
            let single = seq![s[i as int]];
            assert(s.take(i + 1) =~= s.take(i as int) + single);
            lemma_encode_app(s.take(i as int), single);
            assert(single.len() == 1);
            assert(single.first() == s[i as int]);
            assert(single.drop_first() =~= Seq::<Entry>::empty());
            assert(encode_entries(Seq::<Entry>::empty()) == Seq::<u8>::empty());
            assert(encode_entries(single) == encode_entry(
                single.first().id@,
                single.first().last_used,
            ) + encode_entries(single.drop_first()));
            assert(encode_entries(single) =~= encode_entry(
                s[i as int].id@,
                s[i as int].last_used,
            ));
            assert(out@ =~= encode_entries(s.take(i + 1)));
        }
        i += 1;
    }
    proof {
        assert(state.entries@.take(state.entries@.len() as int) =~= state.entries@);
    }
    out
}

/// Rebuild a ledger from its durable bytes. Yields nothing when the bytes
/// are not a well-formed encoding or hold a duplicated identity; the
/// caller then starts from an empty ledger as a first run.
pub fn load_bytes(bytes: &Vec<u8>) -> (r: Option<State>)
    ensures
        match r {
            Some(st) => st.wf() && decode_pairs(bytes@) == Some(pairs_of(st.entries@)),
            None => match decode_pairs(bytes@) {
                Some(ps) => !dup_free(ps),
                None => true,
            },
        },
{
    let mut entries: Vec<Entry> = Vec::new();
    let mut pos: usize = 0;
    let len = bytes.len();
    proof {
        assert(bytes@.skip(0) =~= bytes@);
        assert(pairs_of(entries@) =~= Seq::<(Seq<u8>, u64)>::empty());
    }
    while pos < len
        invariant
            pos <= len,
            len == bytes@.len(),
            decode_pairs(bytes@) == match decode_pairs(bytes@.skip(pos as int)) {
                Some(rest) => Some(pairs_of(entries@) + rest),
                None => None::<Seq<(Seq<u8>, u64)>>,
            },
        decreases len - pos,
    {
        let remaining = len - pos;
        let ghost tailseq = bytes@.skip(pos as int);
        proof {
            assert(tailseq.len() == remaining);
        }
        if remaining < 8 {
            return None;
        }
        let n64 = read_le64(bytes, pos);
        proof {
            assert(tailseq.take(8) =~= bytes@.subrange(pos as int, pos as int + 8));
            lemma_le_val_bound(tailseq.take(8));
        }
        if remaining < 16 || n64 > (remaining - 16) as u64 {
            proof {
                assert(tailseq.len() < 16 + le_val(tailseq.take(8)));
            }
            return None;
        }
        let n = n64 as usize;
        let id = copy_range(bytes, pos + 8, pos + 8 + n);
        let t = read_le64(bytes, pos + 8 + n);
        let ghost entries0 = entries@;
        entries.push(Entry { id, last_used: t });
        proof {
            assert(tailseq.subrange(8, 8 + n as int) =~= bytes@.subrange(
                pos + 8,
                pos + 8 + n as int,
            ));
            assert(tailseq.subrange(8 + n as int, 16 + n as int) =~= bytes@.subrange(
                pos + 8 + n as int,
                pos + 16 + n as int,
            ));
            assert(tailseq.skip(16 + n as int) =~= bytes@.skip(pos + 16 + n as int));
            assert(pairs_of(entries@) =~= pairs_of(entries0) + seq![
                (entries@.last().id@, entries@.last().last_used),
            ]);
        }
        pos = pos + 16 + n;
        proof {
            let idv = entries@.last().id@;
            let tv = entries@.last().last_used;
            assert(decode_pairs(tailseq) == match decode_pairs(bytes@.skip(pos as int)) {
                Some(rest) => Some(seq![(idv, tv)] + rest),
                None => None::<Seq<(Seq<u8>, u64)>>,
            });
            if decode_pairs(bytes@.skip(pos as int)) is Some {
                let rest = decode_pairs(bytes@.skip(pos as int)).unwrap();
                assert(pairs_of(entries0) + (seq![(idv, tv)] + rest) =~= pairs_of(entries@)
                    + rest);
            }
        }
    }
    proof {
        assert(bytes@.skip(len as int) =~= Seq::<u8>::empty());
        assert(pairs_of(entries@) + Seq::<(Seq<u8>, u64)>::empty() =~= pairs_of(entries@));
    }
    let m = entries.len();
    let mut i: usize = 0;
    while i < m
        invariant
            i <= m,
            m == entries@.len(),
            forall|a: int, bb: int| 0 <= a < bb < entries@.len() && a < i ==> entries@[a].id@
                != entries@[bb].id@,
            decode_pairs(bytes@) == Some(pairs_of(entries@)),
        decreases m - i,
    {
        let mut j = i + 1;
        while j < m
            invariant
                i < j <= m,
                m == entries@.len(),
                decode_pairs(bytes@) == Some(pairs_of(entries@)),
                forall|bb: int| i < bb < j ==> entries@[i as int].id@ != entries@[bb].id@,
            decreases m - j,
        {
            if bytes_eq(&entries[i].id, &entries[j].id) {
                proof {
                    assert(pairs_of(entries@)[i as int].0 == pairs_of(entries@)[j as int].0);
                }
                return None;
            }
            j += 1;
        }
        i += 1;
    }
    let st = State { entries };
    proof {
        assert(unique_ids(st.entries@));
    }
    Some(st)
}

} // verus!
