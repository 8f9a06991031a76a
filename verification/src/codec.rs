//! The binary format: a fixed signature, a little-endian rule count, the
//! rule patterns at four bytes each, and the reduced sequence at two bytes
//! per symbol to the end of the stream.
//!
//! The sequence carries no length prefix; its length is whatever remains,
//! and a trailing odd byte is dropped rather than read out of bounds.  The
//! diagnostic `matches` count of a rule is not persisted and is restored as
//! zero.

use vstd::prelude::*;
use crate::table::{BpeElem, pats_of};

verus! {

/// The failures of parsing: a stream that does not begin with the signature,
/// or one that ends inside a fixed-width field.
#[derive(Debug, Clone, Copy, PartialEq, Eq, Structural)]
pub enum BpeError {
    BadSignature,
    Truncated,
}

/// The four fixed bytes that open every encoded stream.
pub open spec fn sig_bytes() -> Seq<u8> {
    seq![200u8, 191u8, 111u8, 0u8]
}

/// A 16-bit value in little-endian byte order.
pub open spec fn le16_bytes(x: u16) -> Seq<u8> {
    seq![(x % 256) as u8, (x / 256) as u8]
}

/// The 16-bit value of two little-endian bytes.
pub open spec fn le16_val(b0: u8, b1: u8) -> u16 {
    (b0 + 256 * b1) as u16
}

/// A 32-bit count in little-endian byte order (exact for `n` below `2^32`).
pub open spec fn le32_bytes(n: nat) -> Seq<u8> {
    seq![(n % 256) as u8, ((n / 256) % 256) as u8, ((n / 65536) % 256) as u8, ((n / 16777216)
        % 256) as u8]
}

/// The value of four little-endian bytes.
pub open spec fn le32_val(b0: u8, b1: u8, b2: u8, b3: u8) -> int {
    b0 + 256 * b1 + 65536 * b2 + 16777216 * b3
}

/// The rule patterns, serialized in order, four bytes each.
pub open spec fn ser_rules(pats: Seq<(u16, u16)>) -> Seq<u8>
    decreases pats.len(),
{
    if pats.len() == 0 {
        Seq::empty()
    } else {
        le16_bytes(pats[0].0) + le16_bytes(pats[0].1) + ser_rules(pats.skip(1))
    }
}

/// The symbol sequence, serialized in order, two bytes each.
pub open spec fn ser_symbols(s: Seq<u16>) -> Seq<u8>
    decreases s.len(),
{
    if s.len() == 0 {
        Seq::empty()
    } else {
        le16_bytes(s[0]) + ser_symbols(s.skip(1))
    }
}

/// The whole encoded stream for a sequence and a rule table.
pub open spec fn serialize_bytes(s: Seq<u16>, pats: Seq<(u16, u16)>) -> Seq<u8> {
    sig_bytes() + le32_bytes(pats.len()) + ser_rules(pats) + ser_symbols(s)
}

/// `n` rule patterns read from the front of `bytes`.
pub open spec fn parse_rules(bytes: Seq<u8>, n: nat) -> Seq<(u16, u16)>
    decreases n,
{
    if n == 0 {
        Seq::empty()
    } else {
        seq![(le16_val(bytes[0], bytes[1]), le16_val(bytes[2], bytes[3]))] + parse_rules(
            bytes.skip(4),
            (n - 1) as nat,
        )
    }
}

/// Symbols read from the front of `bytes` to its end; a final odd byte is
/// dropped.
pub open spec fn parse_symbols(bytes: Seq<u8>) -> Seq<u16>
    decreases bytes.len(),
{
    if bytes.len() < 2 {
        Seq::empty()
    } else {
        seq![le16_val(bytes[0], bytes[1])] + parse_symbols(bytes.skip(2))
    }
}

/// The result of parsing an encoded stream: the sequence and the rule
/// patterns, or the error the stream deserves.  The signature is checked
/// first, then the header and the rule section must be complete.
pub open spec fn parse_bytes(bytes: Seq<u8>) -> Result<(Seq<u16>, Seq<(u16, u16)>), BpeError> {
    if bytes.len() < 4 {
        Err(BpeError::Truncated)
    } else if bytes.take(4) != sig_bytes() {
        Err(BpeError::BadSignature)
    } else if bytes.len() < 8 {
        Err(BpeError::Truncated)
    } else {
        let n = le32_val(bytes[4], bytes[5], bytes[6], bytes[7]);
        if bytes.len() < 8 + 4 * n {
            Err(BpeError::Truncated)
        } else {
            Ok((parse_symbols(bytes.skip(8 + 4 * n)), parse_rules(bytes.skip(8), n as nat)))
        }
    }
}

/// Appending one pattern extends its serialization at the end.
proof fn lemma_ser_rules_push(pats: Seq<(u16, u16)>, p: (u16, u16))
    ensures
        ser_rules(pats.push(p)) == ser_rules(pats) + le16_bytes(p.0) + le16_bytes(p.1),
    decreases pats.len(),
{
    if pats.len() == 0 {
        assert(pats.push(p).skip(1) =~= Seq::<(u16, u16)>::empty());
        assert(pats.push(p)[0] == p);
        assert(ser_rules(Seq::<(u16, u16)>::empty()) == Seq::<u8>::empty());
        assert(ser_rules(pats.push(p)) == le16_bytes(p.0) + le16_bytes(p.1) + Seq::<u8>::empty());
        assert(ser_rules(pats.push(p)) =~= ser_rules(pats) + le16_bytes(p.0) + le16_bytes(p.1));
    } else {
        lemma_ser_rules_push(pats.skip(1), p);
        assert(pats.push(p).skip(1) =~= pats.skip(1).push(p));
        assert(pats.push(p)[0] == pats[0]);
        assert(ser_rules(pats.push(p)) =~= ser_rules(pats) + le16_bytes(p.0) + le16_bytes(p.1));
    }
}

/// Appending one symbol extends its serialization at the end.
proof fn lemma_ser_symbols_push(s: Seq<u16>, x: u16)
    ensures
        ser_symbols(s.push(x)) == ser_symbols(s) + le16_bytes(x),
    decreases s.len(),
{
    if s.len() == 0 {
        assert(s.push(x).skip(1) =~= Seq::<u16>::empty());
        assert(s.push(x)[0] == x);
        assert(ser_symbols(Seq::<u16>::empty()) == Seq::<u8>::empty());
        assert(ser_symbols(s.push(x)) == le16_bytes(x) + Seq::<u8>::empty());
        assert(ser_symbols(s.push(x)) =~= ser_symbols(s) + le16_bytes(x));
    } else {
        lemma_ser_symbols_push(s.skip(1), x);
        assert(s.push(x).skip(1) =~= s.skip(1).push(x));
        assert(s.push(x)[0] == s[0]);
        assert(ser_symbols(s.push(x)) =~= ser_symbols(s) + le16_bytes(x));
    }
}

/// The rule section is four bytes per rule.
proof fn lemma_ser_rules_len(pats: Seq<(u16, u16)>)
    ensures
        ser_rules(pats).len() == 4 * pats.len(),
    decreases pats.len(),
{
    if pats.len() > 0 {
        lemma_ser_rules_len(pats.skip(1));
    }
}

/// The sequence section is two bytes per symbol.
proof fn lemma_ser_symbols_len(s: Seq<u16>)
    ensures
        ser_symbols(s).len() == 2 * s.len(),
    decreases s.len(),
{
    if s.len() > 0 {
        lemma_ser_symbols_len(s.skip(1));
    }
}

/// Parsing the rule section back yields the patterns, whatever follows.
proof fn lemma_parse_ser_rules(pats: Seq<(u16, u16)>, rest: Seq<u8>)
    ensures
        parse_rules(ser_rules(pats) + rest, pats.len()) == pats,
    decreases pats.len(),
{
    if pats.len() > 0 {
        let bytes = ser_rules(pats) + rest;
        lemma_parse_ser_rules(pats.skip(1), rest);
        assert(bytes.skip(4) =~= ser_rules(pats.skip(1)) + rest);
        assert(bytes[0] == (pats[0].0 % 256) as u8 && bytes[1] == (pats[0].0 / 256) as u8);
        assert(bytes[2] == (pats[0].1 % 256) as u8 && bytes[3] == (pats[0].1 / 256) as u8);
        assert(le16_val(bytes[0], bytes[1]) == pats[0].0);
        assert(le16_val(bytes[2], bytes[3]) == pats[0].1);
        assert(parse_rules(bytes, pats.len()) =~= pats);
    } else {
        assert(parse_rules(ser_rules(pats) + rest, pats.len()) =~= pats);
    }
}

/// Parsing the sequence section back yields the symbols.
proof fn lemma_parse_ser_symbols(s: Seq<u16>)
    ensures
        parse_symbols(ser_symbols(s)) == s,
    decreases s.len(),
{
    if s.len() > 0 {
        let bytes = ser_symbols(s);
        lemma_parse_ser_symbols(s.skip(1));
        lemma_ser_symbols_len(s);
        assert(bytes.skip(2) =~= ser_symbols(s.skip(1)));
        assert(le16_val(bytes[0], bytes[1]) == s[0]);
        assert(parse_symbols(bytes) =~= s);
    } else {
        assert(parse_symbols(ser_symbols(s)) =~= s);
    }
}

/// The binary round trip: parsing a serialized table and sequence yields
/// them back (with the rules reduced to their patterns; the diagnostic
/// counts are not persisted).
pub proof fn lemma_binary_round_trip(s: Seq<u16>, pats: Seq<(u16, u16)>)
    requires
        pats.len() <= u32::MAX,
    ensures
        parse_bytes(serialize_bytes(s, pats)) == Ok::<(Seq<u16>, Seq<(u16, u16)>), BpeError>(
            (s, pats),
        ),
{
    let n = pats.len();
    let bytes = serialize_bytes(s, pats);
    lemma_ser_rules_len(pats);
    lemma_ser_symbols_len(s);
    assert(bytes.len() == 8 + 4 * n + 2 * s.len());
    assert(bytes.take(4) =~= sig_bytes());
    assert(bytes[4] == (n % 256) as u8 && bytes[5] == ((n / 256) % 256) as u8 && bytes[6] == ((n
        / 65536) % 256) as u8 && bytes[7] == ((n / 16777216) % 256) as u8);
    assert(le32_val(bytes[4], bytes[5], bytes[6], bytes[7]) == n) by {
        assert(n % 256 + 256 * ((n / 256) % 256) + 65536 * ((n / 65536) % 256) + 16777216 * ((n
            / 16777216) % 256) == n) by (nonlinear_arith)
            requires
                n <= u32::MAX,
        ;
    }
    assert(bytes.skip(8) =~= ser_rules(pats) + ser_symbols(s));
    lemma_parse_ser_rules(pats, ser_symbols(s));
    assert(bytes.skip(8 + 4 * (n as int)) =~= ser_symbols(s));
    lemma_parse_ser_symbols(s);
}

/// Serializes the reduced sequence and the rule table to the binary format.
pub fn write_bpe(file: &Vec<u16>, bpe: &Vec<BpeElem>) -> (out: Vec<u8>)
    requires
        bpe@.len() <= u32::MAX,
    ensures
        out@ == serialize_bytes(file@, pats_of(bpe@)),
{
    let ghost pats = pats_of(bpe@);
    let mut out: Vec<u8> = Vec::new();
    out.push(200);
    out.push(191);
    out.push(111);
    out.push(0);
    assert(out@ =~= sig_bytes());
    let n = bpe.len() as u32;
    out.push((n % 256) as u8);
    out.push((n / 256 % 256) as u8);
    out.push((n / 65536 % 256) as u8);
    out.push((n / 16777216 % 256) as u8);
    assert(out@ =~= sig_bytes() + le32_bytes(pats.len()));
    let ghost header = out@;
    let mut i: usize = 0;
    assert(ser_rules(pats.take(0)) =~= Seq::<u8>::empty());
    assert(out@ =~= header + ser_rules(pats.take(0)));
    while i < bpe.len()
        invariant
            i <= bpe@.len(),
            pats == pats_of(bpe@),
            out@ == header + ser_rules(pats.take(i as int)),
        decreases bpe@.len() - i,
    {
        let (a, b) = bpe[i].pat;
        assert(pats[i as int] == bpe@[i as int].pat);
        out.push((a % 256) as u8);
        out.push((a / 256) as u8);
        out.push((b % 256) as u8);
        out.push((b / 256) as u8);
        proof {
            lemma_ser_rules_push(pats.take(i as int), (a, b));
            assert(pats.take(i + 1) =~= pats.take(i as int).push((a, b)));
            assert(out@ =~= header + ser_rules(pats.take(i + 1)));
        }
        i += 1;
    }
    assert(pats.take(pats.len() as int) =~= pats);
    let ghost mid = out@;
    let mut j: usize = 0;
    assert(ser_symbols(file@.take(0)) =~= Seq::<u8>::empty());
    assert(out@ =~= mid + ser_symbols(file@.take(0)));
    while j < file.len()
        invariant
            j <= file@.len(),
            out@ == mid + ser_symbols(file@.take(j as int)),
        decreases file@.len() - j,
    {
        let x = file[j];
        out.push((x % 256) as u8);
        out.push((x / 256) as u8);
        proof {
            lemma_ser_symbols_push(file@.take(j as int), x);
            assert(file@.take(j + 1) =~= file@.take(j as int).push(x));
            assert(out@ =~= mid + ser_symbols(file@.take(j + 1)));
        }
        j += 1;
    }
    assert(file@.take(file@.len() as int) =~= file@);
    assert(out@ =~= serialize_bytes(file@, pats));
    out
}

/// Parses an encoded stream back into the sequence and the rule table.  The
/// result is exactly `parse_bytes` of the input; every restored rule carries
/// a `matches` count of zero.
pub fn read_bpe(bytes: &Vec<u8>) -> (r: Result<(Vec<u16>, Vec<BpeElem>), BpeError>)
    ensures
        match r {
            Ok(p) => parse_bytes(bytes@) == Ok::<(Seq<u16>, Seq<(u16, u16)>), BpeError>(
                (p.0@, pats_of(p.1@)),
            ) && forall|i: int| 0 <= i < p.1@.len() ==> (#[trigger] p.1@[i]).matches == 0,
            Err(e) => parse_bytes(bytes@) == Err::<(Seq<u16>, Seq<(u16, u16)>), BpeError>(e),
        },
{
    if bytes.len() < 4 {
        return Err(BpeError::Truncated);
    }
    if !(bytes[0] == 200 && bytes[1] == 191 && bytes[2] == 111 && bytes[3] == 0) {
        assert(bytes@.take(4) != sig_bytes()) by {
            if bytes@.take(4) == sig_bytes() {
                assert(bytes@.take(4)[0] == 200 && bytes@.take(4)[1] == 191 && bytes@.take(4)[2]
                    == 111 && bytes@.take(4)[3] == 0);
            }
        }
        return Err(BpeError::BadSignature);
    }
    assert(bytes@.take(4) =~= sig_bytes());
    if bytes.len() < 8 {
        return Err(BpeError::Truncated);
    }
    let n32: u32 = bytes[4] as u32 + 256 * (bytes[5] as u32) + 65536 * (bytes[6] as u32)
        + 16777216 * (bytes[7] as u32);
    let ghost nn = le32_val(bytes@[4], bytes@[5], bytes@[6], bytes@[7]);
    assert(n32 == nn);
    if n32 as u64 > ((bytes.len() - 8) as u64) / 4 {
        assert(bytes@.len() < 8 + 4 * nn);
        return Err(BpeError::Truncated);
    }
    let n = n32 as usize;
    assert(8 + 4 * nn <= bytes@.len());
    let mut table: Vec<BpeElem> = Vec::new();
    let mut i: usize = 0;
    assert(parse_rules(bytes@.skip(8), nn as nat) =~= pats_of(table@) + parse_rules(
        bytes@.skip(8),
        nn as nat,
    ));
    while i < n
        invariant
            i <= n,
            n == nn,
            8 + 4 * nn <= bytes@.len() <= usize::MAX,
            table@.len() == i,
            forall|k: int| 0 <= k < table@.len() ==> (#[trigger] table@[k]).matches == 0,
            parse_rules(bytes@.skip(8), nn as nat) == pats_of(table@) + parse_rules(
                bytes@.skip(8 + 4 * i),
                (nn - i) as nat,
            ),
        decreases n - i,
    {
        let off: usize = 8 + 4 * i;
        let a: u16 = bytes[off] as u16 + 256 * (bytes[off + 1] as u16);
        let b: u16 = bytes[off + 2] as u16 + 256 * (bytes[off + 3] as u16);
        let ghost pre = table@;
        table.push(BpeElem { pat: (a, b), matches: 0 });
        proof {
            let tail = bytes@.skip(8 + 4 * (i as int));
            assert(tail[0] == bytes@[8 + 4 * (i as int)]);
            assert(tail[1] == bytes@[8 + 4 * (i as int) + 1]);
            assert(tail[2] == bytes@[8 + 4 * (i as int) + 2]);
            assert(tail[3] == bytes@[8 + 4 * (i as int) + 3]);
            assert(a == le16_val(tail[0], tail[1]));
            assert(b == le16_val(tail[2], tail[3]));
            assert(tail.skip(4) =~= bytes@.skip(8 + 4 * (i + 1)));
            assert(pats_of(table@) =~= pats_of(pre).push((a, b)));
            assert(parse_rules(tail, (nn - i) as nat) == seq![(a, b)] + parse_rules(
                tail.skip(4),
                (nn - i - 1) as nat,
            ));
            assert(pats_of(table@) + parse_rules(bytes@.skip(8 + 4 * (i + 1)), (nn - i
                - 1) as nat) =~= pats_of(pre) + parse_rules(tail, (nn - i) as nat));
        }
        i += 1;
    }
    assert(parse_rules(bytes@.skip(8 + 4 * (n as int)), 0) =~= Seq::<(u16, u16)>::empty());
    assert(pats_of(table@) + Seq::<(u16, u16)>::empty() =~= pats_of(table@));
    let start: usize = 8 + 4 * n;
    let mut seq_out: Vec<u16> = Vec::new();
    let mut j: usize = start;
    assert(parse_symbols(bytes@.skip(start as int)) =~= seq_out@ + parse_symbols(
        bytes@.skip(j as int),
    ));
    while j < bytes.len() - 1
        invariant
            8 <= start <= j <= bytes@.len() <= usize::MAX,
            parse_symbols(bytes@.skip(start as int)) == seq_out@ + parse_symbols(
                bytes@.skip(j as int),
            ),
        decreases bytes@.len() - j,
    {
        let x: u16 = bytes[j] as u16 + 256 * (bytes[j + 1] as u16);
        let ghost pre = seq_out@;
        seq_out.push(x);
        proof {
            let tail = bytes@.skip(j as int);
            assert(tail[0] == bytes@[j as int] && tail[1] == bytes@[j + 1]);
            assert(x == le16_val(tail[0], tail[1]));
            assert(tail.skip(2) =~= bytes@.skip(j + 2));
            assert(parse_symbols(tail) == seq![x] + parse_symbols(tail.skip(2)));
            assert(pre + parse_symbols(tail) =~= seq_out@ + parse_symbols(bytes@.skip(j + 2)));
        }
        j += 2;
    }
    assert(parse_symbols(bytes@.skip(j as int)) =~= Seq::<u16>::empty()) by {
        assert(bytes@.skip(j as int).len() < 2);
    }
    assert(seq_out@ + Seq::<u16>::empty() =~= seq_out@);
    Ok((seq_out, table))
}

} // verus!
