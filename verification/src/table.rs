//! The rule table: substitution rules whose codes are given by position.
//!
//! A symbol is a 16-bit value: `0..256` are literal bytes, `256 + i` is the
//! code of the rule at index `i`.  A rule never stores its own code; the
//! mapping from index to code is fixed by the specification functions here.

use vstd::prelude::*;

verus! {

/// One substitution rule: `pat` is the two-symbol pattern the rule's code
/// stands for, and `matches` records how many replacements were performed
/// when the rule was created (diagnostic only; decoding ignores it).
#[derive(Debug, Clone, Copy, PartialEq, Eq)]
pub struct BpeElem {
    pub pat: (u16, u16),
    pub matches: usize,
}

/// The patterns of a rule table, in creation order.
pub open spec fn pats_of(rules: Seq<BpeElem>) -> Seq<(u16, u16)> {
    rules.map(|i: int, r: BpeElem| r.pat)
}

/// Every symbol of `s` lies below `bound`.
pub open spec fn symbols_below(s: Seq<u16>, bound: int) -> bool {
    forall|j: int| 0 <= j < s.len() ==> (s[j] as int) < bound
}

/// Well-formedness of a rule table: the pattern of the rule at index `i`
/// names only literal bytes or codes of rules at indices below `i`, so the
/// table forms a directed acyclic graph with literals as leaves.
pub open spec fn wf_pats(pats: Seq<(u16, u16)>) -> bool {
    forall|i: int|
        0 <= i < pats.len() ==> (#[trigger] pats[i]).0 < 256 + i && pats[i].1 < 256 + i
}

/// Decides well-formedness of a rule table (the DAG invariant).
pub fn is_well_formed(bpe: &Vec<BpeElem>) -> (r: bool)
    ensures
        r == wf_pats(pats_of(bpe@)),
{
    let mut i: usize = 0;
    while i < bpe.len()
        invariant
            i <= bpe@.len(),
            forall|j: int|
                0 <= j < i ==> (#[trigger] pats_of(bpe@)[j]).0 < 256 + j && pats_of(bpe@)[j].1
                    < 256 + j,
        decreases bpe@.len() - i,
    {
        let (a, b) = bpe[i].pat;
        assert(pats_of(bpe@)[i as int] == bpe@[i as int].pat);
        if !(a < 256 || (a as usize) - 256 < i) || !(b < 256 || (b as usize) - 256 < i) {
            assert(!wf_pats(pats_of(bpe@)));
            return false;
        }
        i += 1;
    }
    true
}

/// The fully expanded literal form of a symbol: a literal byte expands to
/// itself, a rule code to the concatenated expansions of its pattern.  The
/// guard on the recursive case makes the function total; for a well-formed
/// table it is always taken on in-range codes.
pub open spec fn expansion(pats: Seq<(u16, u16)>, sym: u16) -> Seq<u16>
    decreases sym,
{
    if sym < 256 {
        seq![sym]
    } else {
        let i = sym - 256;
        if i < pats.len() && pats[i].0 < sym && pats[i].1 < sym {
            expansion(pats, pats[i].0) + expansion(pats, pats[i].1)
        } else {
            Seq::empty()
        }
    }
}

/// Reconstructs the literal expansion of `idx`: `Some` of the expansion when
/// `idx` is a literal or an in-range rule code, `None` otherwise.
pub fn reconstruct_bpe_elem(bpe: &Vec<BpeElem>, idx: u16) -> (r: Option<Vec<u16>>)
    requires
        wf_pats(pats_of(bpe@)),
    ensures
        r is Some <==> (idx as int) < 256 + bpe@.len(),
        r matches Some(v) ==> v@ == expansion(pats_of(bpe@), idx),
    decreases idx,
{
    if idx < 256 {
        let v: Vec<u16> = vec![idx];
        assert(v@ =~= expansion(pats_of(bpe@), idx));
        return Some(v);
    }
    let i = (idx as usize) - 256;
    if i >= bpe.len() {
        return None;
    }
    let (a, b) = bpe[i].pat;
    assert(pats_of(bpe@)[i as int] == bpe@[i as int].pat);
    assert(a < idx && b < idx);
    let left = reconstruct_bpe_elem(bpe, a);
    let right = reconstruct_bpe_elem(bpe, b);
    let mut v = left.unwrap();
    let rv = right.unwrap();
    let mut j: usize = 0;
    while j < rv.len()
        invariant
            j <= rv@.len(),
            v@ == expansion(pats_of(bpe@), a) + rv@.take(j as int),
        decreases rv@.len() - j,
    {
        v.push(rv[j]);
        assert(rv@.take(j + 1) =~= rv@.take(j as int).push(rv@[j as int]));
        j += 1;
    }
    assert(rv@.take(rv@.len() as int) =~= rv@);
    assert(v@ == expansion(pats_of(bpe@), idx));
    Some(v)
}

} // verus!
