//! The dependency-graph export: the rule table rendered as dot text.
//!
//! Every rule contributes two edges, from its code to the two pattern
//! symbols.  A node whose fully expanded literal form is valid text is also
//! given a quoted, escaped label showing that expansion.

use vstd::prelude::*;
use crate::table::{BpeElem, pats_of, wf_pats, expansion, reconstruct_bpe_elem};

verus! {

/// Decimal digits of `n`, most significant first.
pub open spec fn dec_digits(n: nat) -> Seq<u8>
    decreases n,
{
    if n < 10 {
        seq![(48 + n) as u8]
    } else {
        dec_digits(n / 10).push((48 + n % 10) as u8)
    }
}

/// Escaping for a quoted dot label: a backslash or a double quote gains a
/// backslash, a newline (or a carriage return directly before one) becomes
/// a backslash followed by the letter `n`, and every other byte is kept.
pub open spec fn escaped(s: Seq<u8>) -> Seq<u8>
    decreases s.len(),
{
    if s.len() == 0 {
        Seq::empty()
    } else if s[0] == 92 {
        seq![92u8, 92u8] + escaped(s.skip(1))
    } else if s[0] == 34 {
        seq![92u8, 34u8] + escaped(s.skip(1))
    } else if s[0] == 13 && s.len() >= 2 && s[1] == 10 {
        seq![92u8, 110u8] + escaped(s.skip(2))
    } else if s[0] == 10 {
        seq![92u8, 110u8] + escaped(s.skip(1))
    } else {
        seq![s[0]] + escaped(s.skip(1))
    }
}

/// The literal bytes of a symbol sequence: symbols below 256 narrowed to
/// bytes, rule codes dropped.
pub open spec fn literal_bytes(s: Seq<u16>) -> Seq<u8>
    decreases s.len(),
{
    if s.len() == 0 {
        Seq::empty()
    } else if s[0] < 256 {
        seq![s[0] as u8] + literal_bytes(s.skip(1))
    } else {
        literal_bytes(s.skip(1))
    }
}

/// A continuation byte of a multi-byte encoded character.
pub open spec fn is_cont(b: u8) -> bool {
    128 <= b <= 191
}

/// Validity of a byte sequence as UTF-8: one-byte characters below 128,
/// lead bytes followed by the right number of continuation bytes, with the
/// restricted second-byte ranges that rule out overlong forms, surrogates
/// and values beyond the last code point.
pub open spec fn is_utf8(s: Seq<u8>) -> bool
    decreases s.len(),
{
    if s.len() == 0 {
        true
    } else {
        let b0 = s[0];
        if b0 < 128 {
            is_utf8(s.skip(1))
        } else if 194 <= b0 <= 223 {
            s.len() >= 2 && is_cont(s[1]) && is_utf8(s.skip(2))
        } else if b0 == 224 {
            s.len() >= 3 && 160 <= s[1] <= 191 && is_cont(s[2]) && is_utf8(s.skip(3))
        } else if (225 <= b0 <= 236) || b0 == 238 || b0 == 239 {
            s.len() >= 3 && is_cont(s[1]) && is_cont(s[2]) && is_utf8(s.skip(3))
        } else if b0 == 237 {
            s.len() >= 3 && 128 <= s[1] <= 159 && is_cont(s[2]) && is_utf8(s.skip(3))
        } else if b0 == 240 {
            s.len() >= 4 && 144 <= s[1] <= 191 && is_cont(s[2]) && is_cont(s[3]) && is_utf8(
                s.skip(4),
            )
        } else if 241 <= b0 <= 243 {
            s.len() >= 4 && is_cont(s[1]) && is_cont(s[2]) && is_cont(s[3]) && is_utf8(s.skip(4))
        } else if b0 == 244 {
            s.len() >= 4 && 128 <= s[1] <= 143 && is_cont(s[2]) && is_cont(s[3]) && is_utf8(
                s.skip(4),
            )
        } else {
            false
        }
    }
}

/// Decides UTF-8 validity of `s`.
pub fn is_valid_utf8(s: &Vec<u8>) -> (r: bool)
    ensures
        r == is_utf8(s@),
{
    let mut j: usize = 0;
    assert(s@.skip(0) =~= s@);
    while j < s.len()
        invariant
            j <= s@.len(),
            is_utf8(s@) == is_utf8(s@.skip(j as int)),
        decreases s@.len() - j,
    {
        let ghost tail = s@.skip(j as int);
        assert(tail.len() == s@.len() - j);
        let b0 = s[j];
        assert(tail[0] == b0);
        if b0 < 128 {
            assert(tail.skip(1) =~= s@.skip(j + 1));
            j += 1;
        } else if 194 <= b0 && b0 <= 223 {
            if j + 1 >= s.len() {
                return false;
            }
            let b1 = s[j + 1];
            assert(tail[1] == b1);
            if !(128 <= b1 && b1 <= 191) {
                return false;
            }
            assert(tail.skip(2) =~= s@.skip(j + 2));
            j += 2;
        } else if b0 >= 224 && b0 <= 239 {
            if s.len() - j < 3 {
                return false;
            }
            let b1 = s[j + 1];
            let b2 = s[j + 2];
            assert(tail[1] == b1 && tail[2] == b2);
            let lo: u8 = if b0 == 224 {
                160
            } else {
                128
            };
            let hi: u8 = if b0 == 237 {
                159
            } else {
                191
            };
            if !(lo <= b1 && b1 <= hi) {
                return false;
            }
            if !(128 <= b2 && b2 <= 191) {
                return false;
            }
            assert(tail.skip(3) =~= s@.skip(j + 3));
            j += 3;
        } else if b0 >= 240 && b0 <= 244 {
            if s.len() - j < 4 {
                return false;
            }
            let b1 = s[j + 1];
            let b2 = s[j + 2];
            let b3 = s[j + 3];
            assert(tail[1] == b1 && tail[2] == b2 && tail[3] == b3);
            let lo: u8 = if b0 == 240 {
                144
            } else {
                128
            };
            let hi: u8 = if b0 == 244 {
                143
            } else {
                191
            };
            if !(lo <= b1 && b1 <= hi) {
                return false;
            }
            if !(128 <= b2 && b2 <= 191) {
                return false;
            }
            if !(128 <= b3 && b3 <= 191) {
                return false;
            }
            assert(tail.skip(4) =~= s@.skip(j + 4));
            j += 4;
        } else {
            return false;
        }
    }
    assert(s@.skip(j as int).len() == 0);
    true
}

/// Escapes `s` for use inside a quoted dot label.
pub fn double_quote(s: &Vec<u8>) -> (r: Vec<u8>)
    ensures
        r@ == escaped(s@),
{
    let mut out: Vec<u8> = Vec::new();
    let mut j: usize = 0;
    assert(s@.skip(0) =~= s@);
    assert(escaped(s@) =~= out@ + escaped(s@.skip(0)));
    while j < s.len()
        invariant
            j <= s@.len(),
            escaped(s@) == out@ + escaped(s@.skip(j as int)),
        decreases s@.len() - j,
    {
        let ghost tail = s@.skip(j as int);
        let ghost pre = out@;
        assert(tail[0] == s@[j as int]);
        let c = s[j];
        if c == 92 {
            out.push(92);
            out.push(92);
            proof {
                assert(tail.skip(1) =~= s@.skip(j + 1));
                assert(pre + escaped(tail) =~= out@ + escaped(s@.skip(j + 1)));
            }
            j += 1;
        } else if c == 34 {
            out.push(92);
            out.push(34);
            proof {
                assert(tail.skip(1) =~= s@.skip(j + 1));
                assert(pre + escaped(tail) =~= out@ + escaped(s@.skip(j + 1)));
            }
            j += 1;
        } else if c == 13 && j + 1 < s.len() && s[j + 1] == 10 {
            out.push(92);
            out.push(110);
            proof {
                assert(tail[1] == s@[j + 1]);
                assert(tail.skip(2) =~= s@.skip(j + 2));
                assert(pre + escaped(tail) =~= out@ + escaped(s@.skip(j + 2)));
            }
            j += 2;
        } else if c == 10 {
            out.push(92);
            out.push(110);
            proof {
                assert(tail.skip(1) =~= s@.skip(j + 1));
                assert(pre + escaped(tail) =~= out@ + escaped(s@.skip(j + 1)));
            }
            j += 1;
        } else {
            out.push(c);
            proof {
                assert(c != 13 || j + 1 == s@.len() || s@[j + 1] != 10);
                assert(tail.len() >= 2 ==> tail[1] == s@[j + 1]);
                assert(tail.skip(1) =~= s@.skip(j + 1));
                assert(pre + escaped(tail) =~= out@ + escaped(s@.skip(j + 1)));
            }
            j += 1;
        }
    }
    assert(escaped(s@.skip(j as int)) =~= Seq::<u8>::empty());
    assert(out@ + Seq::<u8>::empty() =~= out@);
    out
}

/// Narrows a symbol sequence to its literal bytes, dropping rule codes.
fn to_literal_bytes(s: &Vec<u16>) -> (r: Vec<u8>)
    ensures
        r@ == literal_bytes(s@),
{
    let mut out: Vec<u8> = Vec::new();
    let mut j: usize = 0;
    assert(s@.skip(0) =~= s@);
    assert(literal_bytes(s@) =~= out@ + literal_bytes(s@.skip(0)));
    while j < s.len()
        invariant
            j <= s@.len(),
            literal_bytes(s@) == out@ + literal_bytes(s@.skip(j as int)),
        decreases s@.len() - j,
    {
        let ghost tail = s@.skip(j as int);
        let ghost pre = out@;
        assert(tail[0] == s@[j as int]);
        let x = s[j];
        if x < 256 {
            out.push(x as u8);
        }
        proof {
            assert(tail.skip(1) =~= s@.skip(j + 1));
            assert(pre + literal_bytes(tail) =~= out@ + literal_bytes(s@.skip(j + 1)));
        }
        j += 1;
    }
    assert(literal_bytes(s@.skip(j as int)) =~= Seq::<u8>::empty());
    assert(out@ + Seq::<u8>::empty() =~= out@);
    out
}

/// Appends the decimal digits of `x`.
fn push_decimal(out: &mut Vec<u8>, x: u16)
    ensures
        final(out)@ == old(out)@ + dec_digits(x as nat),
    decreases x,
{
    if x < 10 {
        out.push(48 + x as u8);
        assert(old(out)@.push((48 + x as nat) as u8) =~= old(out)@ + dec_digits(x as nat));
    } else {
        push_decimal(out, x / 10);
        out.push(48 + (x % 10) as u8);
        assert(dec_digits(x as nat) == dec_digits((x as nat) / 10).push(
            (48 + (x as nat) % 10) as u8,
        ));
        assert(old(out)@ + dec_digits((x / 10) as nat) + seq![(48 + (x as nat) % 10) as u8] =~= old(
            out,
        )@ + dec_digits(x as nat));
    }
}

/// Appends the contents of `other`.
fn append_bytes(out: &mut Vec<u8>, other: &Vec<u8>)
    ensures
        final(out)@ == old(out)@ + other@,
{
    let ghost orig = out@;
    let mut j: usize = 0;
    assert(orig + other@.take(0) =~= orig);
    while j < other.len()
        invariant
            j <= other@.len(),
            out@ == orig + other@.take(j as int),
        decreases other@.len() - j,
    {
        out.push(other[j]);
        assert(orig + other@.take(j + 1) =~= (orig + other@.take(j as int)).push(
            other@[j as int],
        ));
        j += 1;
    }
    assert(other@.take(other@.len() as int) =~= other@);
}

/// The label line of the rule at index `i`, or nothing when its expansion
/// is not valid text.  The label holds the code and the quoted expansion,
/// escaped once as a piece of text and once more as a whole label.
pub open spec fn label_line(pats: Seq<(u16, u16)>, i: int) -> Seq<u8> {
    let code = (256 + i) as u16;
    let bytes = literal_bytes(expansion(pats, code));
    if is_utf8(bytes) {
        let inner = dec_digits(code as nat) + seq![32u8, 34u8] + escaped(bytes) + seq![34u8];
        dec_digits(code as nat) + seq![
            32u8,
            91u8,
            108u8,
            97u8,
            98u8,
            101u8,
            108u8,
            61u8,
            34u8,
        ] + escaped(inner) + seq![34u8, 93u8, 10u8]
    } else {
        Seq::empty()
    }
}

/// The two edge lines of the rule at index `i`: its code pointing at each
/// pattern symbol.
pub open spec fn edge_lines(pats: Seq<(u16, u16)>, i: int) -> Seq<u8> {
    let code = (256 + i) as u16;
    dec_digits(code as nat) + seq![32u8, 45u8, 62u8, 32u8] + dec_digits(pats[i].0 as nat) + seq![
        10u8,
    ] + dec_digits(code as nat) + seq![32u8, 45u8, 62u8, 32u8] + dec_digits(pats[i].1 as nat)
        + seq![10u8]
}

/// Everything emitted for the first `n` rules, in order.
pub open spec fn nodes_up_to(pats: Seq<(u16, u16)>, n: int) -> Seq<u8>
    decreases n,
{
    if n <= 0 {
        Seq::empty()
    } else {
        nodes_up_to(pats, n - 1) + label_line(pats, n - 1) + edge_lines(pats, n - 1)
    }
}

/// The opening of the dot text, with the optional left-to-right layout.
pub open spec fn dot_header(horizontal: bool) -> Seq<u8> {
    seq![100u8, 105u8, 103u8, 114u8, 97u8, 112u8, 104u8, 32u8, 123u8, 10u8] + if horizontal {
        seq![114u8, 97u8, 110u8, 107u8, 100u8, 105u8, 114u8, 61u8, 76u8, 82u8, 10u8]
    } else {
        Seq::empty()
    }
}

/// The whole dot text of a rule table.
pub open spec fn dot_bytes(pats: Seq<(u16, u16)>, horizontal: bool) -> Seq<u8> {
    dot_header(horizontal) + nodes_up_to(pats, pats.len() as int) + seq![125u8, 10u8]
}

/// Appends the label line (when the expansion is valid text) and the two
/// edge lines of the rule at index `i`.
#[verifier::rlimit(80)]
fn push_node(out: &mut Vec<u8>, bpe: &Vec<BpeElem>, i: usize)
    requires
        wf_pats(pats_of(bpe@)),
        i < bpe@.len() <= 65280,
    ensures
        final(out)@ == old(out)@ + label_line(pats_of(bpe@), i as int) + edge_lines(
            pats_of(bpe@),
            i as int,
        ),
{
    let ghost pats = pats_of(bpe@);
    let ghost pre = out@;
    let code: u16 = (256 + i) as u16;
    let elems_opt = reconstruct_bpe_elem(bpe, code);
    assert(elems_opt is Some);
    let elems = elems_opt.unwrap();
    let bytes = to_literal_bytes(&elems);
    assert(bytes@ == literal_bytes(expansion(pats, code)));
    if is_valid_utf8(&bytes) {
        let mut inner: Vec<u8> = Vec::new();
        push_decimal(&mut inner, code);
        inner.push(32);
        inner.push(34);
        let esc = double_quote(&bytes);
        append_bytes(&mut inner, &esc);
        inner.push(34);
        assert(inner@ =~= dec_digits(code as nat) + seq![32u8, 34u8] + escaped(bytes@)
            + seq![34u8]);
        let outer = double_quote(&inner);
        push_decimal(out, code);
        out.push(32);
        out.push(91);
        out.push(108);
        out.push(97);
        out.push(98);
        out.push(101);
        out.push(108);
        out.push(61);
        out.push(34);
        append_bytes(out, &outer);
        out.push(34);
        out.push(93);
        out.push(10);
        assert(out@ =~= pre + label_line(pats, i as int));
    } else {
        assert(out@ =~= pre + label_line(pats, i as int));
    }
    let ghost mid = out@;
    let (a, b) = bpe[i].pat;
    assert(pats[i as int] == bpe@[i as int].pat);
    push_decimal(out, code);
    out.push(32);
    out.push(45);
    out.push(62);
    out.push(32);
    push_decimal(out, a);
    out.push(10);
    push_decimal(out, code);
    out.push(32);
    out.push(45);
    out.push(62);
    out.push(32);
    push_decimal(out, b);
    out.push(10);
    assert(out@ =~= mid + edge_lines(pats, i as int));
    assert(out@ =~= pre + label_line(pats, i as int) + edge_lines(pats, i as int));
}

/// Renders the rule table as dot text: a directed graph with an edge from
/// every rule code to each of its two pattern symbols, and a label with the
/// escaped literal expansion wherever that expansion is valid text.
pub fn write_dot(bpe: &Vec<BpeElem>, horizontal: bool) -> (out: Vec<u8>)
    requires
        wf_pats(pats_of(bpe@)),
        bpe@.len() <= 65280,
    ensures
        out@ == dot_bytes(pats_of(bpe@), horizontal),
{
    let ghost pats = pats_of(bpe@);
    let mut out: Vec<u8> = Vec::new();
    out.push(100);
    out.push(105);
    out.push(103);
    out.push(114);
    out.push(97);
    out.push(112);
    out.push(104);
    out.push(32);
    out.push(123);
    out.push(10);
    if horizontal {
        out.push(114);
        out.push(97);
        out.push(110);
        out.push(107);
        out.push(100);
        out.push(105);
        out.push(114);
        out.push(61);
        out.push(76);
        out.push(82);
        out.push(10);
    }
    assert(out@ =~= dot_header(horizontal));
    let ghost header = out@;
    let mut i: usize = 0;
    assert(out@ =~= header + nodes_up_to(pats, 0));
    while i < bpe.len()
        invariant
            i <= bpe@.len() <= 65280,
            pats == pats_of(bpe@),
            wf_pats(pats),
            out@ == header + nodes_up_to(pats, i as int),
        decreases bpe@.len() - i,
    {
        push_node(&mut out, bpe, i);
        assert(out@ =~= header + nodes_up_to(pats, i + 1));
        i += 1;
    }
    out.push(125);
    out.push(10);
    assert(out@ =~= dot_bytes(pats, horizontal));
    out
}

} // verus!
