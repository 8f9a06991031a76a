//! The decoder: reverse-order rule expansion restoring the original sequence.
//!
//! Rules are processed from the highest code down.  Expanding a code inserts
//! its two-symbol pattern in place of every occurrence; because a later rule
//! can only reference symbols that existed when it was created, unwinding the
//! highest code first exposes lower codes for the following passes.

use vstd::prelude::*;
use vstd::pervasive::VecAdditionalExecFns;
use crate::table::{BpeElem, pats_of};

verus! {

/// One expansion pass: every occurrence of `code` in `s` is replaced by the
/// two symbols `a`, `b`; everything else is kept.  Mirrors a right-to-left
/// scan that rewrites the occurrence in place and inserts the second symbol
/// after it.
pub open spec fn expand_code(s: Seq<u16>, code: u16, a: u16, b: u16) -> Seq<u16>
    decreases s.len(),
{
    if s.len() == 0 {
        s
    } else if s.last() == code {
        expand_code(s.drop_last(), code, a, b).push(a).push(b)
    } else {
        expand_code(s.drop_last(), code, a, b).push(s.last())
    }
}

/// The result of decoding `s` under the patterns `pats`: the rule at index
/// `i` carries code `256 + i`, and rules are expanded from the last one down
/// to the first.
pub open spec fn decode_all(s: Seq<u16>, pats: Seq<(u16, u16)>) -> Seq<u16>
    decreases pats.len(),
{
    if pats.len() == 0 {
        s
    } else {
        let i = pats.len() - 1;
        decode_all(expand_code(s, (256 + i) as u16, pats[i].0, pats[i].1), pats.drop_last())
    }
}

/// A sequence without any occurrence of `code` is left unchanged by an
/// expansion pass for `code`.
pub proof fn lemma_expand_absent(s: Seq<u16>, code: u16, a: u16, b: u16)
    requires
        forall|j: int| 0 <= j < s.len() ==> s[j] != code,
    ensures
        expand_code(s, code, a, b) == s,
    decreases s.len(),
{
    if s.len() > 0 {
        lemma_expand_absent(s.drop_last(), code, a, b);
        assert(expand_code(s, code, a, b) =~= s);
    }
}

/// Replaces every occurrence of `code` in `file` by the pair `a`, `b`,
/// scanning right to left.
fn expand_pass(file: &mut Vec<u16>, code: u16, a: u16, b: u16)
    ensures
        final(file)@ == expand_code(old(file)@, code, a, b),
{
    let ghost orig = file@;
    let mut j: usize = file.len();
    assert(orig.take(orig.len() as int) =~= orig);
    assert(orig.skip(orig.len() as int) =~= Seq::<u16>::empty());
    while j > 0
        invariant
            j <= file@.len(),
            j <= orig.len(),
            file@.take(j as int) == orig.take(j as int),
            expand_code(orig, code, a, b) == expand_code(file@.take(j as int), code, a, b)
                + file@.skip(j as int),
        decreases j,
    {
        j -= 1;
        let ghost pre = file@;
        let x = file[j];
        assert(pre.take(j + 1).last() == x);
        assert(pre.take(j + 1).drop_last() =~= pre.take(j as int));
        if x == code {
            file.set(j, a);
            file.insert(j + 1, b);
            assert(file@.take(j as int) =~= pre.take(j as int));
            assert(file@.skip(j as int) =~= seq![a, b] + pre.skip(j + 1));
            assert(expand_code(pre.take(j + 1), code, a, b) + pre.skip(j + 1) =~= expand_code(
                file@.take(j as int),
                code,
                a,
                b,
            ) + file@.skip(j as int));
        } else {
            assert(file@.skip(j as int) =~= seq![x] + pre.skip(j + 1));
            assert(expand_code(pre.take(j + 1), code, a, b) + pre.skip(j + 1) =~= expand_code(
                file@.take(j as int),
                code,
                a,
                b,
            ) + file@.skip(j as int));
        }
        assert(file@.take(j as int) =~= orig.take(j as int));
    }
    assert(file@.take(0) =~= Seq::<u16>::empty());
    assert(expand_code(Seq::<u16>::empty(), code, a, b) + file@.skip(0) =~= file@);
}

/// Decodes `file` in place under the rule table `bpe`, expanding codes from
/// the highest down; the result is `decode_all` of the input.  A malformed
/// table is not an error: a code that occurs nowhere simply leaves the
/// sequence unchanged for that rule.
pub fn decode(file: &mut Vec<u16>, bpe: &Vec<BpeElem>)
    requires
        bpe@.len() <= 65280,
    ensures
        final(file)@ == decode_all(old(file)@, pats_of(bpe@)),
{
    let ghost orig = file@;
    let ghost pats = pats_of(bpe@);
    let mut i: usize = bpe.len();
    assert(pats.take(i as int) =~= pats);
    while i > 0
        invariant
            i <= bpe@.len() <= 65280,
            pats == pats_of(bpe@),
            decode_all(orig, pats) == decode_all(file@, pats.take(i as int)),
        decreases i,
    {
        i -= 1;
        let code: u16 = (256 + i) as u16;
        let (a, b) = bpe[i].pat;
        assert(pats[i as int] == bpe@[i as int].pat);
        let ghost pre = file@;
        expand_pass(file, code, a, b);
        proof {
            let t = pats.take(i + 1);
            assert(t.len() == i + 1);
            assert(t[i as int] == pats[i as int]);
            assert(t.drop_last() =~= pats.take(i as int));
            assert(decode_all(pre, t) == decode_all(
                expand_code(pre, (256 + i) as u16, a, b),
                pats.take(i as int),
            ));
        }
    }
    assert(pats.take(0) =~= Seq::<(u16, u16)>::empty());
}

} // verus!
