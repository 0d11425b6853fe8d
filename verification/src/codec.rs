//! The on-disk snapshot format, fixed for compatibility: a CBOR
//! array of maps, one map per record, each with a text key "name"
//! carrying the name as a text string and a text key "is_finished"
//! carrying a boolean.  Lengths use the shortest CBOR form.
//!
//! Encoding and decoding are implemented here and proved inverse to
//! each other; the decoder accepts exactly the encoder's output.

use vstd::prelude::*;
use vstd::arithmetic::div_mod::{lemma_fundamental_div_mod, lemma_fundamental_div_mod_converse};
use crate::torrent::TorrentStatus;
use crate::snapshot::Snapshot;
use crate::torrent::obs_seq;

verus! {

/// The encoded key "name": a five-byte CBOR text string.
pub open spec fn key_name_bytes() -> Seq<u8> {
    seq![0x64u8, 0x6eu8, 0x61u8, 0x6du8, 0x65u8]
}

/// The encoded key "is_finished": a twelve-byte CBOR text string.
pub open spec fn key_finished_bytes() -> Seq<u8> {
    seq![0x6bu8, 0x69u8, 0x73u8, 0x5fu8, 0x66u8, 0x69u8, 0x6eu8, 0x69u8, 0x73u8, 0x68u8, 0x65u8,
        0x64u8]
}

/// Big-endian bytes of a value below 2^16.
pub open spec fn be2(n: nat) -> Seq<u8> {
    seq![(((n / 0x100) % 0x100) as u8), ((n % 0x100) as u8)]
}

/// Big-endian bytes of a value below 2^32.
pub open spec fn be4(n: nat) -> Seq<u8> {
    be2(n / 0x10000) + be2(n % 0x10000)
}

/// Big-endian bytes of a value below 2^64.
pub open spec fn be8(n: nat) -> Seq<u8> {
    be4(n / 0x100000000) + be4(n % 0x100000000)
}

/// The CBOR head for a count `n` under major-type base byte `base`
/// (0x60 for text strings, 0x80 for arrays), in the shortest form.
pub open spec fn len_header(base: u8, n: nat) -> Seq<u8> {
    if n < 24 {
        seq![((base + n) as u8)]
    } else if n < 0x100 {
        seq![((base + 24) as u8), (n as u8)]
    } else if n < 0x10000 {
        seq![((base + 25) as u8)] + be2(n)
    } else if n < 0x100000000 {
        seq![((base + 26) as u8)] + be4(n)
    } else {
        seq![((base + 27) as u8)] + be8(n)
    }
}

/// The encoding of one record: a two-entry map from "name" to the
/// name and from "is_finished" to the flag.
pub open spec fn encode_record(name: Seq<u8>, fin: bool) -> Seq<u8> {
    seq![0xa2u8] + key_name_bytes() + len_header(0x60, name.len()) + name + key_finished_bytes()
        + seq![(if fin { 0xf5u8 } else { 0xf4u8 })]
}

/// The concatenated encodings of a sequence of records.
pub open spec fn encode_records(s: Seq<(Seq<u8>, bool)>) -> Seq<u8>
    decreases s.len(),
{
    if s.len() == 0 {
        Seq::empty()
    } else {
        encode_record(s.first().0, s.first().1) + encode_records(s.drop_first())
    }
}

/// The full snapshot encoding: an array head followed by the records.
pub open spec fn encode_snapshot_bytes(s: Seq<(Seq<u8>, bool)>) -> Seq<u8> {
    len_header(0x80, s.len()) + encode_records(s)
}

/// The value of two big-endian bytes.
pub open spec fn rec2(b: Seq<u8>) -> nat {
    (b[0] as nat) * 0x100 + (b[1] as nat)
}

/// The value of four big-endian bytes.
pub open spec fn rec4(b: Seq<u8>) -> nat {
    rec2(b.take(2)) * 0x10000 + rec2(b.subrange(2, 4))
}

/// The value of eight big-endian bytes.
pub open spec fn rec8(b: Seq<u8>) -> nat {
    rec4(b.take(4)) * 0x100000000 + rec4(b.subrange(4, 8))
}

/// Parses a CBOR head under base byte `base`; on success yields the
/// count and the remaining bytes.  Non-shortest forms are rejected.
pub open spec fn parse_len(b: Seq<u8>, base: u8) -> Option<(nat, Seq<u8>)> {
    if b.len() == 0 {
        None
    } else {
        let h = b[0];
        if base <= h && h < base + 24 {
            Some((((h - base) as nat), b.skip(1)))
        } else if h == base + 24 {
            if b.len() >= 2 && b[1] >= 24 {
                Some(((b[1] as nat), b.skip(2)))
            } else {
                None
            }
        } else if h == base + 25 {
            if b.len() >= 3 && rec2(b.subrange(1, 3)) >= 0x100 {
                Some((rec2(b.subrange(1, 3)), b.skip(3)))
            } else {
                None
            }
        } else if h == base + 26 {
            if b.len() >= 5 && rec4(b.subrange(1, 5)) >= 0x10000 {
                Some((rec4(b.subrange(1, 5)), b.skip(5)))
            } else {
                None
            }
        } else if h == base + 27 {
            if b.len() >= 9 && rec8(b.subrange(1, 9)) >= 0x100000000 {
                Some((rec8(b.subrange(1, 9)), b.skip(9)))
            } else {
                None
            }
        } else {
            None
        }
    }
}

/// Parses one record; on success yields the record and the rest.
pub open spec fn parse_record(b: Seq<u8>) -> Option<((Seq<u8>, bool), Seq<u8>)> {
    if b.len() < 6 || b[0] != 0xa2 || b.subrange(1, 6) != key_name_bytes() {
        None
    } else {
        match parse_len(b.skip(6), 0x60) {
            None => None,
            Some((n, r1)) => {
                if r1.len() < n {
                    None
                } else {
                    let name = r1.take(n as int);
                    let r2 = r1.skip(n as int);
                    if r2.len() < 13 || r2.subrange(0, 12) != key_finished_bytes() {
                        None
                    } else if r2[12] == 0xf4 {
                        Some(((name, false), r2.skip(13)))
                    } else if r2[12] == 0xf5 {
                        Some(((name, true), r2.skip(13)))
                    } else {
                        None
                    }
                }
            }
        }
    }
}

/// Parses `n` consecutive records.
pub open spec fn parse_records(b: Seq<u8>, n: nat) -> Option<(Seq<(Seq<u8>, bool)>, Seq<u8>)>
    decreases n,
{
    if n == 0 {
        Some((Seq::empty(), b))
    } else {
        match parse_record(b) {
            None => None,
            Some((r, rest)) => match parse_records(rest, (n - 1) as nat) {
                None => None,
                Some((s, rest2)) => Some((seq![r] + s, rest2)),
            },
        }
    }
}

/// Decodes a whole snapshot file: an array head, that many records,
/// and nothing after them.
pub open spec fn decode_snapshot_bytes(b: Seq<u8>) -> Option<Seq<(Seq<u8>, bool)>> {
    match parse_len(b, 0x80) {
        None => None,
        Some((n, rest)) => match parse_records(rest, n) {
            None => None,
            Some((s, rest2)) => if rest2.len() == 0 {
                Some(s)
            } else {
                None
            },
        },
    }
}

proof fn lemma_rec2_be2(n: nat)
    requires
        n < 0x10000,
    ensures
        rec2(be2(n)) == n,
{
    lemma_fundamental_div_mod(n as int, 0x100);
}

proof fn lemma_rec4_be4(n: nat)
    requires
        n < 0x100000000,
    ensures
        rec4(be4(n)) == n,
{
    let hi = n / 0x10000;
    let lo = n % 0x10000;
    assert(be4(n).take(2) =~= be2(hi));
    assert(be4(n).subrange(2, 4) =~= be2(lo));
    lemma_rec2_be2(hi);
    lemma_rec2_be2(lo);
    lemma_fundamental_div_mod(n as int, 0x10000);
}

proof fn lemma_rec8_be8(n: nat)
    requires
        n < 0x10000000000000000,
    ensures
        rec8(be8(n)) == n,
{
    let hi = n / 0x100000000;
    let lo = n % 0x100000000;
    assert(be8(n).take(4) =~= be4(hi));
    assert(be8(n).subrange(4, 8) =~= be4(lo));
    lemma_rec4_be4(hi);
    lemma_rec4_be4(lo);
    lemma_fundamental_div_mod(n as int, 0x100000000);
}

proof fn lemma_parse_len_roundtrip(base: u8, n: nat, tail: Seq<u8>)
    requires
        base == 0x60 || base == 0x80,
        n < 0x10000000000000000,
    ensures
        parse_len(len_header(base, n) + tail, base) == Some((n, tail)),
{
    let b = len_header(base, n) + tail;
    if n < 24 {
        assert(b[0] == (base + n) as u8);
        assert(b.skip(1) =~= tail);
    } else if n < 0x100 {
        assert(b[0] == (base + 24) as u8);
        assert(b[1] == n as u8);
        assert(b.skip(2) =~= tail);
    } else if n < 0x10000 {
        assert(b[0] == (base + 25) as u8);
        assert(b.subrange(1, 3) =~= be2(n));
        lemma_rec2_be2(n);
        assert(b.skip(3) =~= tail);
    } else if n < 0x100000000 {
        assert(b[0] == (base + 26) as u8);
        assert(b.subrange(1, 5) =~= be4(n));
        lemma_rec4_be4(n);
        assert(b.skip(5) =~= tail);
    } else {
        assert(b[0] == (base + 27) as u8);
        assert(b.subrange(1, 9) =~= be8(n));
        lemma_rec8_be8(n);
        assert(b.skip(9) =~= tail);
    }
}

#[verifier::rlimit(50)]
proof fn lemma_parse_record_roundtrip(name: Seq<u8>, fin: bool, tail: Seq<u8>)
    requires
        name.len() < 0x10000000000000000,
    ensures
        parse_record(encode_record(name, fin) + tail) == Some(((name, fin), tail)),
{
    let fb: u8 = if fin { 0xf5 } else { 0xf4 };
    let hd = len_header(0x60, name.len());
    let b = encode_record(name, fin) + tail;
    assert(hd.len() >= 1);
    assert(b.len() >= 6);
    assert(b[0] == 0xa2);
    assert(b.subrange(1, 6) =~= key_name_bytes());
    let tail1 = name + (key_finished_bytes() + (seq![fb] + tail));
    assert(b.skip(6) =~= hd + tail1);
    lemma_parse_len_roundtrip(0x60, name.len(), tail1);
    assert(parse_len(b.skip(6), 0x60) == Some((name.len(), tail1)));
    assert(tail1.len() >= name.len());
    assert(tail1.take(name.len() as int) =~= name);
    let r2 = tail1.skip(name.len() as int);
    assert(r2 =~= key_finished_bytes() + (seq![fb] + tail));
    assert(r2.len() >= 13);
    assert(r2.subrange(0, 12) =~= key_finished_bytes());
    assert(r2[12] == fb);
    assert(r2.skip(13) =~= tail);
}

proof fn lemma_parse_records_roundtrip(s: Seq<(Seq<u8>, bool)>, tail: Seq<u8>)
    requires
        forall|i: int| 0 <= i < s.len() ==> #[trigger] s[i].0.len() < 0x10000000000000000,
    ensures
        parse_records(encode_records(s) + tail, s.len()) == Some((s, tail)),
    decreases s.len(),
{
    if s.len() == 0 {
        assert(encode_records(s) + tail =~= tail);
    } else {
        let rest = encode_records(s.drop_first()) + tail;
        assert(encode_records(s) + tail =~= encode_record(s.first().0, s.first().1) + rest);
        assert(s[0].0.len() < 0x10000000000000000);
        lemma_parse_record_roundtrip(s.first().0, s.first().1, rest);
        assert(forall|i: int| 0 <= i < s.drop_first().len()
            ==> #[trigger] s.drop_first()[i].0.len() < 0x10000000000000000);
        lemma_parse_records_roundtrip(s.drop_first(), tail);
        assert(seq![s.first()] + s.drop_first() =~= s);
    }
}

proof fn lemma_encode_records_push(s: Seq<(Seq<u8>, bool)>, x: (Seq<u8>, bool))
    ensures
        encode_records(s.push(x)) == encode_records(s) + encode_record(x.0, x.1),
    decreases s.len(),
{
    if s.len() == 0 {
        assert(s.push(x).first() == x);
        assert(s.push(x).drop_first() =~= Seq::<(Seq<u8>, bool)>::empty());
        assert(encode_record(x.0, x.1) + encode_records(Seq::empty())
            =~= encode_records(s) + encode_record(x.0, x.1));
    } else {
        assert(s.push(x).first() == s.first());
        assert(s.push(x).drop_first() =~= s.drop_first().push(x));
        lemma_encode_records_push(s.drop_first(), x);
        assert(encode_record(s.first().0, s.first().1) + (encode_records(s.drop_first())
            + encode_record(x.0, x.1)) =~= (encode_record(s.first().0, s.first().1)
            + encode_records(s.drop_first())) + encode_record(x.0, x.1));
    }
}

/// The round-trip law: decoding the encoding of any snapshot value
/// yields that value back.  The size bounds are those any value held
/// in memory meets.
pub proof fn lemma_encode_decode_roundtrip(s: Seq<(Seq<u8>, bool)>)
    requires
        s.len() < 0x10000000000000000,
        forall|i: int| 0 <= i < s.len() ==> #[trigger] s[i].0.len() < 0x10000000000000000,
    ensures
        decode_snapshot_bytes(encode_snapshot_bytes(s)) == Some(s),
{
    lemma_parse_len_roundtrip(0x80, s.len(), encode_records(s));
    assert(encode_snapshot_bytes(s) =~= len_header(0x80, s.len()) + encode_records(s));
    lemma_parse_records_roundtrip(s, Seq::empty());
    assert(encode_records(s) + Seq::<u8>::empty() =~= encode_records(s));
}

proof fn lemma_be2_rec2(s: Seq<u8>)
    requires
        s.len() == 2,
    ensures
        rec2(s) < 0x10000,
        be2(rec2(s)) == s,
{
    let n = rec2(s);
    lemma_fundamental_div_mod_converse(n as int, 0x100, s[0] as int, s[1] as int);
    assert(be2(n) =~= s);
}

proof fn lemma_be4_rec4(s: Seq<u8>)
    requires
        s.len() == 4,
    ensures
        rec4(s) < 0x100000000,
        be4(rec4(s)) == s,
{
    let hi = s.take(2);
    let lo = s.subrange(2, 4);
    lemma_be2_rec2(hi);
    lemma_be2_rec2(lo);
    let n = rec4(s);
    lemma_fundamental_div_mod_converse(n as int, 0x10000, rec2(hi) as int, rec2(lo) as int);
    assert(be4(n) =~= s);
}

proof fn lemma_be8_rec8(s: Seq<u8>)
    requires
        s.len() == 8,
    ensures
        rec8(s) < 0x10000000000000000,
        be8(rec8(s)) == s,
{
    let hi = s.take(4);
    let lo = s.subrange(4, 8);
    lemma_be4_rec4(hi);
    lemma_be4_rec4(lo);
    let n = rec8(s);
    lemma_fundamental_div_mod_converse(
        n as int,
        0x100000000,
        rec4(hi) as int,
        rec4(lo) as int,
    );
    assert(be8(n) =~= s);
}

proof fn lemma_parse_len_sound(b: Seq<u8>, base: u8)
    requires
        base == 0x60 || base == 0x80,
        parse_len(b, base) is Some,
    ensures
        b == len_header(base, parse_len(b, base)->Some_0.0) + parse_len(b, base)->Some_0.1,
{
    let h = b[0];
    let n = parse_len(b, base)->Some_0.0;
    let rest = parse_len(b, base)->Some_0.1;
    if base <= h && h < base + 24 {
        assert(b =~= seq![h] + b.skip(1));
        assert(len_header(base, n) =~= seq![h]);
    } else if h == base + 24 {
        assert(b =~= seq![b[0], b[1]] + b.skip(2));
        assert(len_header(base, n) =~= seq![b[0], b[1]]);
    } else if h == base + 25 {
        lemma_be2_rec2(b.subrange(1, 3));
        assert(len_header(base, n) =~= seq![h] + b.subrange(1, 3));
        assert(b =~= (seq![h] + b.subrange(1, 3)) + b.skip(3));
    } else if h == base + 26 {
        lemma_be4_rec4(b.subrange(1, 5));
        assert(len_header(base, n) =~= seq![h] + b.subrange(1, 5));
        assert(b =~= (seq![h] + b.subrange(1, 5)) + b.skip(5));
    } else {
        assert(h == base + 27);
        lemma_be8_rec8(b.subrange(1, 9));
        assert(len_header(base, n) =~= seq![h] + b.subrange(1, 9));
        assert(b =~= (seq![h] + b.subrange(1, 9)) + b.skip(9));
    }
}

proof fn seq_assoc<T>(a: Seq<T>, b: Seq<T>, c: Seq<T>)
    ensures
        (a + b) + c == a + (b + c),
{
    assert((a + b) + c =~= a + (b + c));
}

#[verifier::rlimit(100)]
proof fn lemma_parse_record_sound(b: Seq<u8>)
    requires
        parse_record(b) is Some,
    ensures
        b == encode_record(parse_record(b)->Some_0.0.0, parse_record(b)->Some_0.0.1)
            + parse_record(b)->Some_0.1,
{
    let (n, r1) = parse_len(b.skip(6), 0x60)->Some_0;
    lemma_parse_len_sound(b.skip(6), 0x60);
    let name = r1.take(n as int);
    let r2 = r1.skip(n as int);
    let fb = r2[12];
    let fin = parse_record(b)->Some_0.0.1;
    let rest = r2.skip(13);
    let hd = seq![0xa2u8];
    let kn = key_name_bytes();
    let lh = len_header(0x60, n);
    let kf = key_finished_bytes();
    let fbs = seq![fb];
    assert(name.len() == n);
    assert(fbs =~= seq![(if fin { 0xf5u8 } else { 0xf4u8 })]);

    let enc = encode_record(name, fin);
    assert(enc == ((((hd + kn) + lh) + name) + kf) + fbs);
    seq_assoc((((hd + kn) + lh) + name) + kf, fbs, rest);
    seq_assoc(((hd + kn) + lh) + name, kf, fbs + rest);
    seq_assoc((hd + kn) + lh, name, kf + (fbs + rest));
    seq_assoc(hd + kn, lh, name + (kf + (fbs + rest)));
    assert(enc + rest == (hd + kn) + (lh + (name + (kf + (fbs + rest)))));

    assert(r2 =~= kf + (fbs + rest));
    assert(r1 =~= name + r2);
    assert(b =~= b.take(6) + b.skip(6));
    assert(b.take(6) =~= hd + kn);
    assert(b == (hd + kn) + (lh + r1));
    assert(r1 == name + (kf + (fbs + rest)));
}

proof fn lemma_parse_records_sound(b: Seq<u8>, n: nat)
    requires
        parse_records(b, n) is Some,
    ensures
        parse_records(b, n)->Some_0.0.len() == n,
        b == encode_records(parse_records(b, n)->Some_0.0) + parse_records(b, n)->Some_0.1,
    decreases n,
{
    if n == 0 {
        assert(encode_records(Seq::empty()) + b =~= b);
    } else {
        let (r, rest) = parse_record(b)->Some_0;
        lemma_parse_record_sound(b);
        lemma_parse_records_sound(rest, (n - 1) as nat);
        let (s, rest2) = parse_records(rest, (n - 1) as nat)->Some_0;
        assert((seq![r] + s).first() == r);
        assert((seq![r] + s).drop_first() =~= s);
        assert(encode_records(seq![r] + s) == encode_record(r.0, r.1) + encode_records(s));
        assert(b =~= (encode_record(r.0, r.1) + encode_records(s)) + rest2);
    }
}

/// The decoder accepts exactly the encoder's output: whatever decodes
/// successfully is byte-for-byte the encoding of what it decodes to.
/// With the round-trip law this characterizes the decoder completely:
/// any other byte sequence is rejected as malformed.
pub proof fn lemma_decode_accepts_only_encodings(b: Seq<u8>)
    requires
        decode_snapshot_bytes(b) is Some,
    ensures
        b == encode_snapshot_bytes(decode_snapshot_bytes(b)->Some_0),
{
    let (n, rest) = parse_len(b, 0x80)->Some_0;
    lemma_parse_len_sound(b, 0x80);
    lemma_parse_records_sound(rest, n);
    let (s, rest2) = parse_records(rest, n)->Some_0;
    assert(rest =~= encode_records(s) + rest2);
    assert(rest2 =~= Seq::<u8>::empty());
    assert(rest =~= encode_records(s));
    assert(b =~= len_header(0x80, s.len()) + encode_records(s));
}

fn push_be2(out: &mut Vec<u8>, v: u64)
    requires
        v < 0x10000,
    ensures
        final(out)@ == old(out)@ + be2(v as nat),
{
    out.push(((v / 0x100) % 0x100) as u8);
    out.push((v % 0x100) as u8);
    proof {
        assert(out@ =~= old(out)@ + be2(v as nat));
    }
}

fn push_be4(out: &mut Vec<u8>, v: u64)
    requires
        v < 0x100000000,
    ensures
        final(out)@ == old(out)@ + be4(v as nat),
{
    push_be2(out, v / 0x10000);
    push_be2(out, v % 0x10000);
    proof {
        assert(out@ =~= old(out)@ + be4(v as nat));
    }
}

fn push_be8(out: &mut Vec<u8>, v: u64)
    ensures
        final(out)@ == old(out)@ + be8(v as nat),
{
    assert(v / 0x100000000 < 0x100000000);
    push_be4(out, v / 0x100000000);
    push_be4(out, v % 0x100000000);
    proof {
        assert(out@ =~= old(out)@ + be8(v as nat));
    }
}

fn push_len_header(out: &mut Vec<u8>, base: u8, n: u64)
    requires
        base == 0x60 || base == 0x80,
    ensures
        final(out)@ == old(out)@ + len_header(base, n as nat),
{
    if n < 24 {
        out.push(base + (n as u8));
        proof {
            assert(out@ =~= old(out)@ + len_header(base, n as nat));
        }
    } else if n < 0x100 {
        out.push(base + 24);
        out.push(n as u8);
        proof {
            assert(out@ =~= old(out)@ + len_header(base, n as nat));
        }
    } else if n < 0x10000 {
        out.push(base + 25);
        push_be2(out, n);
        proof {
            assert(out@ =~= old(out)@ + len_header(base, n as nat));
        }
    } else if n < 0x100000000 {
        out.push(base + 26);
        push_be4(out, n);
        proof {
            assert(out@ =~= old(out)@ + len_header(base, n as nat));
        }
    } else {
        out.push(base + 27);
        push_be8(out, n);
        proof {
            assert(out@ =~= old(out)@ + len_header(base, n as nat));
        }
    }
}

fn push_bytes(out: &mut Vec<u8>, b: &Vec<u8>)
    ensures
        final(out)@ == old(out)@ + b@,
{
    let mut i: usize = 0;
    while i < b.len()
        invariant
            i <= b@.len(),
            out@ == old(out)@ + b@.take(i as int),
        decreases b@.len() - i,
    {
        out.push(b[i]);
        i = i + 1;
        proof {
            assert(old(out)@ + b@.take(i - 1) + seq![b@[i - 1]] =~= old(out)@ + b@.take(i as int));
        }
    }
    proof {
        assert(old(out)@ + b@.take(b@.len() as int) =~= old(out)@ + b@);
    }
}

/// The key "name" as held in the encoding.
fn key_name_vec() -> (r: Vec<u8>)
    ensures
        r@ == key_name_bytes(),
{
    let mut r: Vec<u8> = Vec::new();
    r.push(0x64);
    r.push(0x6e);
    r.push(0x61);
    r.push(0x6d);
    r.push(0x65);
    proof {
        assert(r@ =~= key_name_bytes());
    }
    r
}

/// The key "is_finished" as held in the encoding.
fn key_finished_vec() -> (r: Vec<u8>)
    ensures
        r@ == key_finished_bytes(),
{
    let mut r: Vec<u8> = Vec::new();
    r.push(0x6b);
    r.push(0x69);
    r.push(0x73);
    r.push(0x5f);
    r.push(0x66);
    r.push(0x69);
    r.push(0x6e);
    r.push(0x69);
    r.push(0x73);
    r.push(0x68);
    r.push(0x65);
    r.push(0x64);
    proof {
        assert(r@ =~= key_finished_bytes());
    }
    r
}

fn push_record(out: &mut Vec<u8>, t: &TorrentStatus)
    ensures
        final(out)@ == old(out)@ + encode_record(t.name@, t.is_finished),
{
    out.push(0xa2);
    let kn = key_name_vec();
    push_bytes(out, &kn);
    push_len_header(out, 0x60, t.name.len() as u64);
    push_bytes(out, &t.name);
    let kf = key_finished_vec();
    push_bytes(out, &kf);
    out.push(if t.is_finished { 0xf5 } else { 0xf4 });
    proof {
        assert(out@ =~= old(out)@ + encode_record(t.name@, t.is_finished));
    }
}

/// Encodes a snapshot into the fixed on-disk byte format.
pub fn encode_snapshot(s: &Snapshot) -> (out: Vec<u8>)
    ensures
        out@ == encode_snapshot_bytes(s.records_view()),
{
    let ghost rv = s.records_view();
    let mut out: Vec<u8> = Vec::new();
    push_len_header(&mut out, 0x80, s.records.len() as u64);
    let mut i: usize = 0;
    proof {
        assert(rv.take(0) =~= Seq::<(Seq<u8>, bool)>::empty());
        assert(out@ =~= len_header(0x80, rv.len()) + encode_records(rv.take(0)));
    }
    while i < s.records.len()
        invariant
            i <= s.records@.len(),
            rv == s.records_view(),
            out@ == len_header(0x80, rv.len()) + encode_records(rv.take(i as int)),
        decreases s.records@.len() - i,
    {
        let ghost out0 = out@;
        push_record(&mut out, &s.records[i]);
        proof {
            assert(rv.take(i + 1) =~= rv.take(i as int).push(rv[i as int]));
            lemma_encode_records_push(rv.take(i as int), rv[i as int]);
            assert(out@ =~= len_header(0x80, rv.len()) + encode_records(rv.take(i + 1)));
        }
        i = i + 1;
    }
    proof {
        assert(rv.take(rv.len() as int) =~= rv);
    }
    out
}

fn parse_len_exec(b: &Vec<u8>, pos: usize, base: u8) -> (r: Option<(u64, usize)>)
    requires
        pos <= b@.len(),
        base == 0x60 || base == 0x80,
    ensures
        match r {
            Some(vp) => pos < vp.1 <= b@.len() && parse_len(b@.skip(pos as int), base)
                == Some((vp.0 as nat, b@.skip(vp.1 as int))),
            None => parse_len(b@.skip(pos as int), base) == None::<(nat, Seq<u8>)>,
        },
{
    let ghost s = b@.skip(pos as int);
    let rem = b.len() - pos;
    if rem == 0 {
        return None;
    }
    let h = b[pos];
    proof {
        assert(s[0] == b@[pos as int]);
    }
    if base <= h && h < base + 24 {
        proof {
            assert(s.skip(1) =~= b@.skip(pos + 1));
        }
        Some((((h - base) as u64), pos + 1))
    } else if h == base + 24 {
        if rem >= 2 {
            let v = b[pos + 1];
            proof {
                assert(s[1] == b@[pos + 1]);
            }
            if v >= 24 {
                proof {
                    assert(s.skip(2) =~= b@.skip(pos + 2));
                }
                Some(((v as u64), pos + 2))
            } else {
                None
            }
        } else {
            None
        }
    } else if h == base + 25 {
        if rem >= 3 {
            let v: u64 = (b[pos + 1] as u64) * 0x100 + (b[pos + 2] as u64);
            proof {
                assert(s.subrange(1, 3) =~= seq![b@[pos + 1], b@[pos + 2]]);
                assert(rec2(s.subrange(1, 3)) == v as nat);
            }
            if v >= 0x100 {
                proof {
                    assert(s.skip(3) =~= b@.skip(pos + 3));
                }
                Some((v, pos + 3))
            } else {
                None
            }
        } else {
            None
        }
    } else if h == base + 26 {
        if rem >= 5 {
            let hi: u64 = (b[pos + 1] as u64) * 0x100 + (b[pos + 2] as u64);
            let lo: u64 = (b[pos + 3] as u64) * 0x100 + (b[pos + 4] as u64);
            let v: u64 = hi * 0x10000 + lo;
            proof {
                let sub = s.subrange(1, 5);
                assert(sub =~= seq![b@[pos + 1], b@[pos + 2], b@[pos + 3], b@[pos + 4]]);
                assert(sub.take(2) =~= seq![b@[pos + 1], b@[pos + 2]]);
                assert(sub.subrange(2, 4) =~= seq![b@[pos + 3], b@[pos + 4]]);
                assert(rec4(s.subrange(1, 5)) == v as nat);
            }
            if v >= 0x10000 {
                proof {
                    assert(s.skip(5) =~= b@.skip(pos + 5));
                }
                Some((v, pos + 5))
            } else {
                None
            }
        } else {
            None
        }
    } else if h == base + 27 {
        if rem >= 9 {
            let h1: u64 = (b[pos + 1] as u64) * 0x100 + (b[pos + 2] as u64);
            let h2: u64 = (b[pos + 3] as u64) * 0x100 + (b[pos + 4] as u64);
            let h3: u64 = (b[pos + 5] as u64) * 0x100 + (b[pos + 6] as u64);
            let h4: u64 = (b[pos + 7] as u64) * 0x100 + (b[pos + 8] as u64);
            let hi: u64 = h1 * 0x10000 + h2;
            let lo: u64 = h3 * 0x10000 + h4;
            let v: u64 = hi * 0x100000000 + lo;
            proof {
                let sub = s.subrange(1, 9);
                assert(sub =~= seq![b@[pos + 1], b@[pos + 2], b@[pos + 3], b@[pos + 4],
                    b@[pos + 5], b@[pos + 6], b@[pos + 7], b@[pos + 8]]);
                assert(sub.take(4) =~= seq![b@[pos + 1], b@[pos + 2], b@[pos + 3], b@[pos + 4]]);
                assert(sub.subrange(4, 8) =~= seq![b@[pos + 5], b@[pos + 6], b@[pos + 7],
                    b@[pos + 8]]);
                assert(sub.take(4).take(2) =~= seq![b@[pos + 1], b@[pos + 2]]);
                assert(sub.take(4).subrange(2, 4) =~= seq![b@[pos + 3], b@[pos + 4]]);
                assert(sub.subrange(4, 8).take(2) =~= seq![b@[pos + 5], b@[pos + 6]]);
                assert(sub.subrange(4, 8).subrange(2, 4) =~= seq![b@[pos + 7], b@[pos + 8]]);
                assert(rec8(s.subrange(1, 9)) == v as nat);
            }
            if v >= 0x100000000 {
                proof {
                    assert(s.skip(9) =~= b@.skip(pos + 9));
                }
                Some((v, pos + 9))
            } else {
                None
            }
        } else {
            None
        }
    } else {
        None
    }
}

/// Copies `len` bytes of `b` starting at `from`.
fn copy_range(b: &Vec<u8>, from: usize, len: usize) -> (r: Vec<u8>)
    requires
        from + len <= b@.len(),
    ensures
        r@ == b@.subrange(from as int, from + len),
{
    let mut r: Vec<u8> = Vec::new();
    let mut j: usize = 0;
    let blen = b.len();
    while j < len
        invariant
            j <= len,
            from + len <= blen,
            blen == b@.len(),
            r@ == b@.subrange(from as int, from + j),
        decreases len - j,
    {
        r.push(b[from + j]);
        j = j + 1;
        proof {
            assert(r@ =~= b@.subrange(from as int, from + j));
        }
    }
    r
}

#[verifier::rlimit(50)]
fn parse_record_exec(b: &Vec<u8>, pos: usize) -> (r: Option<(TorrentStatus, usize)>)
    requires
        pos <= b@.len(),
    ensures
        match r {
            Some(tp) => pos < tp.1 <= b@.len() && parse_record(b@.skip(pos as int))
                == Some((tp.0@, b@.skip(tp.1 as int))),
            None => parse_record(b@.skip(pos as int)) == None::<((Seq<u8>, bool), Seq<u8>)>,
        },
{
    let ghost s = b@.skip(pos as int);
    let rem = b.len() - pos;
    if rem < 6 {
        return None;
    }
    if b[pos] != 0xa2 {
        proof {
            assert(s[0] == b@[pos as int]);
        }
        return None;
    }
    let kn = key_name_vec();
    let head = copy_range(b, pos + 1, 5);
    proof {
        assert(s.subrange(1, 6) =~= b@.subrange(pos + 1, pos + 6));
    }
    if !crate::torrent::bytes_eq(&head, &kn) {
        return None;
    }
    let (nlen64, p1) = match parse_len_exec(b, pos + 6, 0x60) {
        None => {
            proof {
                assert(s.skip(6) =~= b@.skip(pos + 6));
            }
            return None;
        }
        Some(vp) => vp,
    };
    proof {
        assert(s.skip(6) =~= b@.skip(pos + 6));
    }
    let ghost r1 = b@.skip(p1 as int);
    if nlen64 > (b.len() - p1) as u64 {
        proof {
            assert(r1.len() < nlen64 as nat);
        }
        return None;
    }
    let nlen = nlen64 as usize;
    let name = copy_range(b, p1, nlen);
    let p2 = p1 + nlen;
    proof {
        assert(name@ =~= r1.take(nlen64 as nat as int));
        assert(r1.skip(nlen64 as nat as int) =~= b@.skip(p2 as int));
    }
    let ghost r2 = b@.skip(p2 as int);
    if b.len() - p2 < 13 {
        return None;
    }
    let kf = key_finished_vec();
    let key = copy_range(b, p2, 12);
    proof {
        assert(r2.subrange(0, 12) =~= b@.subrange(p2 as int, p2 + 12));
    }
    if !crate::torrent::bytes_eq(&key, &kf) {
        return None;
    }
    let fb = b[p2 + 12];
    proof {
        assert(r2[12] == b@[p2 + 12]);
    }
    if fb == 0xf4 {
        proof {
            assert(r2.skip(13) =~= b@.skip(p2 + 13));
        }
        Some((TorrentStatus { name, is_finished: false }, p2 + 13))
    } else if fb == 0xf5 {
        proof {
            assert(r2.skip(13) =~= b@.skip(p2 + 13));
        }
        Some((TorrentStatus { name, is_finished: true }, p2 + 13))
    } else {
        None
    }
}

/// The result of parsing, with the records parsed so far in front.
spec fn with_prefix(pre: Seq<(Seq<u8>, bool)>, r: Option<(Seq<(Seq<u8>, bool)>, Seq<u8>)>)
    -> Option<(Seq<(Seq<u8>, bool)>, Seq<u8>)> {
    match r {
        None => None,
        Some((s, rest)) => Some((pre + s, rest)),
    }
}

proof fn lemma_with_prefix_empty(r: Option<(Seq<(Seq<u8>, bool)>, Seq<u8>)>)
    ensures
        with_prefix(Seq::empty(), r) == r,
{
    match r {
        None => {}
        Some((s, rest)) => {
            assert(Seq::<(Seq<u8>, bool)>::empty() + s =~= s);
        }
    }
}

proof fn lemma_with_prefix_step(
    pre: Seq<(Seq<u8>, bool)>,
    x: (Seq<u8>, bool),
    r: Option<(Seq<(Seq<u8>, bool)>, Seq<u8>)>,
)
    ensures
        with_prefix(pre.push(x), r) == with_prefix(pre, with_prefix(seq![x], r)),
{
    match r {
        None => {}
        Some((s, rest)) => {
            assert(pre.push(x) + s =~= pre + (seq![x] + s));
        }
    }
}

/// Decodes a snapshot file.  Returns the records held in it, or
/// `None` when the bytes are not a well-formed snapshot encoding.
pub fn decode_snapshot(b: &Vec<u8>) -> (r: Option<Vec<TorrentStatus>>)
    ensures
        match r {
            Some(v) => decode_snapshot_bytes(b@) == Some(obs_seq(v@)),
            None => decode_snapshot_bytes(b@) == None::<Seq<(Seq<u8>, bool)>>,
        },
{
    proof {
        assert(b@.skip(0) =~= b@);
    }
    let (n, p0) = match parse_len_exec(b, 0, 0x80) {
        None => {
            return None;
        }
        Some(vp) => vp,
    };
    let mut acc: Vec<TorrentStatus> = Vec::new();
    let mut pos = p0;
    let mut i: u64 = 0;
    proof {
        lemma_with_prefix_empty(parse_records(b@.skip(p0 as int), n as nat));
        assert(obs_seq(acc@) =~= Seq::<(Seq<u8>, bool)>::empty());
    }
    while i < n
        invariant
            i <= n,
            pos <= b@.len(),
            p0 <= b@.len(),
            parse_len(b@, 0x80) == Some((n as nat, b@.skip(p0 as int))),
            with_prefix(obs_seq(acc@), parse_records(b@.skip(pos as int), (n - i) as nat))
                == parse_records(b@.skip(p0 as int), n as nat),
        decreases n - i,
    {
        let ghost acc0 = acc@;
        match parse_record_exec(b, pos) {
            None => {
                return None;
            }
            Some((t, p)) => {
                proof {
                    let tailr = parse_records(b@.skip(p as int), (n - i - 1) as nat);
                    assert(parse_records(b@.skip(pos as int), (n - i) as nat)
                        == with_prefix(seq![t@], tailr));
                    lemma_with_prefix_step(obs_seq(acc0), t@, tailr);
                }
                acc.push(t);
                proof {
                    assert(obs_seq(acc@) =~= obs_seq(acc0).push(t@));
                }
                pos = p;
            }
        }
        i = i + 1;
    }
    if pos != b.len() {
        proof {
            assert(b@.skip(pos as int).len() > 0);
        }
        return None;
    }
    proof {
        assert(b@.skip(pos as int).len() == 0);
        assert(obs_seq(acc@) + Seq::<(Seq<u8>, bool)>::empty() =~= obs_seq(acc@));
    }
    Some(acc)
}

} // verus!
