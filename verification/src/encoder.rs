//! The encoder: iterative greedy pair merging.
//!
//! Each iteration counts every adjacent symbol pair, picks a most frequent
//! one (ties go to the numerically smallest pair, a documented deterministic
//! choice), mints the next rule code and rewrites the sequence right to left,
//! so that in a run of identical symbols the rightmost pair is consumed first
//! and at most every second element is merged in one pass.

use vstd::prelude::*;
use vstd::pervasive::VecAdditionalExecFns;
use crate::table::{BpeElem, pats_of, symbols_below, wf_pats};
use crate::decoder::{expand_code, decode_all, lemma_expand_absent};

verus! {

/// How often the adjacent pair `a`, `b` occurs in `s` (counting overlapping
/// occurrences).
pub open spec fn pair_count(s: Seq<u16>, a: u16, b: u16) -> nat
    decreases s.len(),
{
    if s.len() < 2 {
        0
    } else {
        pair_count(s.drop_last(), a, b) + if s[s.len() - 2] == a && s[s.len() - 1] == b {
            1nat
        } else {
            0nat
        }
    }
}

/// One merge pass: scanning right to left, each occurrence of the adjacent
/// pair `a`, `b` is replaced by the single symbol `code`, and the scan
/// continues to the left of the replacement on the already-shrunk sequence.
pub open spec fn merge_pass(s: Seq<u16>, a: u16, b: u16, code: u16) -> Seq<u16>
    decreases s.len(),
{
    if s.len() < 2 {
        s
    } else if s[s.len() - 2] == a && s[s.len() - 1] == b {
        merge_pass(s.take(s.len() - 2).push(code), a, b, code)
    } else {
        merge_pass(s.drop_last(), a, b, code).push(s.last())
    }
}

/// The number of replacements a merge pass performs.
pub open spec fn merge_count(s: Seq<u16>, a: u16, b: u16, code: u16) -> nat
    decreases s.len(),
{
    if s.len() < 2 {
        0
    } else if s[s.len() - 2] == a && s[s.len() - 1] == b {
        1 + merge_count(s.take(s.len() - 2).push(code), a, b, code)
    } else {
        merge_count(s.drop_last(), a, b, code)
    }
}

/// The sequence after the merge passes of all rules in `pats`, applied in
/// creation order with the code each rule was minted under: the reduced form
/// that encoding with exactly this table produces.
pub open spec fn apply_rules(s: Seq<u16>, pats: Seq<(u16, u16)>) -> Seq<u16>
    decreases pats.len(),
{
    if pats.len() == 0 {
        s
    } else {
        let k = pats.len() - 1;
        merge_pass(apply_rules(s, pats.drop_last()), pats[k].0, pats[k].1, (256 + k) as u16)
    }
}

/// A merge pass removes exactly one element per replacement.
pub proof fn lemma_merge_len(s: Seq<u16>, a: u16, b: u16, code: u16)
    ensures
        merge_pass(s, a, b, code).len() + merge_count(s, a, b, code) == s.len(),
    decreases s.len(),
{
    if s.len() >= 2 {
        if s[s.len() - 2] == a && s[s.len() - 1] == b {
            lemma_merge_len(s.take(s.len() - 2).push(code), a, b, code);
        } else {
            lemma_merge_len(s.drop_last(), a, b, code);
        }
    }
}

/// A merge pass introduces no symbol beyond those of the input and the new
/// code: a bound on the input and the code bounds the output.
pub proof fn lemma_merge_symbols(s: Seq<u16>, a: u16, b: u16, code: u16, bound: int)
    requires
        symbols_below(s, bound),
        (code as int) < bound,
    ensures
        symbols_below(merge_pass(s, a, b, code), bound),
    decreases s.len(),
{
    if s.len() >= 2 {
        if s[s.len() - 2] == a && s[s.len() - 1] == b {
            let u = s.take(s.len() - 2).push(code);
            assert(symbols_below(u, bound)) by {
                assert forall|j: int| 0 <= j < u.len() implies (u[j] as int) < bound by {
                    if j < s.len() - 2 {
                        assert(u[j] == s[j]);
                    }
                }
            }
            lemma_merge_symbols(u, a, b, code, bound);
        } else {
            assert(symbols_below(s.drop_last(), bound)) by {
                assert forall|j: int| 0 <= j < s.len() - 1 implies (s.drop_last()[j] as int)
                    < bound by {
                    assert(s.drop_last()[j] == s[j]);
                }
            }
            lemma_merge_symbols(s.drop_last(), a, b, code, bound);
        }
    }
}

/// If the pair occurs at all, a merge pass performs at least one replacement.
pub proof fn lemma_merge_progress(s: Seq<u16>, a: u16, b: u16, code: u16)
    requires
        pair_count(s, a, b) >= 1,
    ensures
        merge_count(s, a, b, code) >= 1,
    decreases s.len(),
{
    if s.len() >= 2 && !(s[s.len() - 2] == a && s[s.len() - 1] == b) {
        lemma_merge_progress(s.drop_last(), a, b, code);
    }
}

/// A pair has a positive count exactly when it occurs at some position.
pub proof fn lemma_pair_count_occurrence(s: Seq<u16>, a: u16, b: u16)
    ensures
        pair_count(s, a, b) >= 1 <==> exists|j: int|
            0 <= j < s.len() - 1 && #[trigger] s[j] == a && s[j + 1] == b,
    decreases s.len(),
{
    if s.len() >= 2 {
        lemma_pair_count_occurrence(s.drop_last(), a, b);
        if s[s.len() - 2] == a && s[s.len() - 1] == b {
            let w = s.len() - 2;
            assert(0 <= w < s.len() - 1 && s[w] == a && s[w + 1] == b);
        } else {
            if pair_count(s, a, b) >= 1 {
                let j = choose|j: int|
                    0 <= j < s.drop_last().len() - 1 && #[trigger] s.drop_last()[j] == a
                        && s.drop_last()[j + 1] == b;
                assert(s[j] == a && s[j + 1] == b);
            }
            if exists|j: int| 0 <= j < s.len() - 1 && #[trigger] s[j] == a && s[j + 1] == b {
                let j = choose|j: int| 0 <= j < s.len() - 1 && #[trigger] s[j] == a && s[j + 1] == b;
                assert(j < s.len() - 2);
                assert(s.drop_last()[j] == a && s.drop_last()[j + 1] == b);
            }
        }
    }
}

/// Expanding the minted code after a merge pass yields the same result as
/// expanding the input directly: the pass is inverted by the expansion, as
/// long as the code itself is not part of the merged pattern.
pub proof fn lemma_expand_merge(s: Seq<u16>, a: u16, b: u16, code: u16)
    requires
        a != code,
        b != code,
    ensures
        expand_code(merge_pass(s, a, b, code), code, a, b) == expand_code(s, code, a, b),
    decreases s.len(),
{
    if s.len() < 2 {
    } else if s[s.len() - 2] == a && s[s.len() - 1] == b {
        let u = s.take(s.len() - 2).push(code);
        lemma_expand_merge(u, a, b, code);
        assert(u.drop_last() =~= s.take(s.len() - 2));
        assert(expand_code(u, code, a, b) == expand_code(s.take(s.len() - 2), code, a, b).push(
            a,
        ).push(b));
        assert(s.last() == b && b != code);
        assert(s.drop_last().last() == a && a != code);
        assert(s.drop_last().drop_last() =~= s.take(s.len() - 2));
        assert(expand_code(s.drop_last(), code, a, b) == expand_code(
            s.take(s.len() - 2),
            code,
            a,
            b,
        ).push(a));
        assert(expand_code(s, code, a, b) == expand_code(s.take(s.len() - 2), code, a, b).push(
            a,
        ).push(b));
    } else {
        lemma_expand_merge(s.drop_last(), a, b, code);
        let m = merge_pass(s.drop_last(), a, b, code);
        let x = s.last();
        assert(merge_pass(s, a, b, code) == m.push(x));
        assert(m.push(x).drop_last() =~= m);
        assert(m.push(x).last() == x);
        if x == code {
            assert(expand_code(m.push(x), code, a, b) == expand_code(m, code, a, b).push(a).push(
                b,
            ));
            assert(expand_code(s, code, a, b) == expand_code(s.drop_last(), code, a, b).push(
                a,
            ).push(b));
        } else {
            assert(expand_code(m.push(x), code, a, b) == expand_code(m, code, a, b).push(x));
            assert(expand_code(s, code, a, b) == expand_code(s.drop_last(), code, a, b).push(x));
        }
    }
}

/// Applying a well-formed rule table keeps every symbol below the bound
/// that its length allows: the input's literals and the minted codes.
pub proof fn lemma_apply_symbols(s: Seq<u16>, pats: Seq<(u16, u16)>)
    requires
        symbols_below(s, 256),
        wf_pats(pats),
    ensures
        symbols_below(apply_rules(s, pats), 256 + pats.len() as int),
    decreases pats.len(),
{
    if pats.len() == 0 {
    } else {
        let k = pats.len() - 1;
        let sub = pats.drop_last();
        assert(wf_pats(sub)) by {
            assert forall|i: int|
                0 <= i < sub.len() implies (#[trigger] sub[i]).0 < 256 + i && sub[i].1 < 256
                + i by {
                assert(sub[i] == pats[i]);
            }
        }
        lemma_apply_symbols(s, sub);
        let mid = apply_rules(s, sub);
        assert(symbols_below(mid, 256 + pats.len() as int)) by {
            assert forall|j: int| 0 <= j < mid.len() implies (mid[j] as int) < 256
                + pats.len() by {
                assert((mid[j] as int) < 256 + sub.len());
            }
        }
        lemma_merge_symbols(mid, pats[k].0, pats[k].1, (256 + k) as u16, 256 + pats.len() as int);
    }
}

/// The round trip: decoding the result of applying a well-formed rule table
/// to a sequence of literal bytes restores that sequence exactly.  The
/// length bound keeps every minted code inside the 16-bit symbol space.
pub proof fn lemma_round_trip(s: Seq<u16>, pats: Seq<(u16, u16)>)
    requires
        symbols_below(s, 256),
        wf_pats(pats),
        pats.len() <= 65280,
    ensures
        decode_all(apply_rules(s, pats), pats) == s,
    decreases pats.len(),
{
    if pats.len() == 0 {
    } else {
        let k = pats.len() - 1;
        let a = pats[k].0;
        let b = pats[k].1;
        let code = (256 + k) as u16;
        let sub = pats.drop_last();
        assert(wf_pats(sub)) by {
            assert forall|i: int|
                0 <= i < sub.len() implies (#[trigger] sub[i]).0 < 256 + i && sub[i].1 < 256
                + i by {
                assert(sub[i] == pats[i]);
            }
        }
        lemma_round_trip(s, sub);
        let mid = apply_rules(s, sub);
        lemma_apply_symbols(s, sub);
        assert((a as int) < 256 + k && (b as int) < 256 + k);
        assert(a != code && b != code);
        assert(forall|j: int| 0 <= j < mid.len() ==> mid[j] != code);
        lemma_expand_merge(mid, a, b, code);
        lemma_expand_absent(mid, code, a, b);
        assert(expand_code(apply_rules(s, pats), code, a, b) == mid);
        assert(decode_all(apply_rules(s, pats), pats) == decode_all(mid, sub));
    }
}

/// Counts the occurrences of the adjacent pair `a`, `b` in `s`.
fn count_pair(s: &Vec<u16>, a: u16, b: u16) -> (c: usize)
    ensures
        c == pair_count(s@, a, b),
{
    if s.len() < 2 {
        return 0;
    }
    let mut c: usize = 0;
    let mut j: usize = 1;
    assert(pair_count(s@.take(1), a, b) == 0);
    while j < s.len()
        invariant
            1 <= j <= s@.len(),
            c <= j - 1,
            c == pair_count(s@.take(j as int), a, b),
        decreases s@.len() - j,
    {
        assert(s@.take(j + 1).drop_last() =~= s@.take(j as int));
        assert(s@.take(j + 1)[j - 1] == s@[j - 1] && s@.take(j + 1)[j as int] == s@[j as int]);
        if s[j - 1] == a && s[j] == b {
            c += 1;
        }
        j += 1;
    }
    assert(s@.take(s@.len() as int) =~= s@);
    c
}

/// `a`, `b` comes no later than `x`, `y` in the numeric order on pairs.
pub open spec fn pair_le(a: u16, b: u16, x: u16, y: u16) -> bool {
    a < x || (a == x && b <= y)
}

/// The rule at index `k` of `rules` records a greedy choice over the
/// sequence it was created on (the input with the first `k` rules applied):
/// its pattern occurred at least `min_count` times, no pair occurred more
/// often, no equally frequent pair is numerically smaller, and `matches` is
/// exactly the number of replacements of that pass.
pub open spec fn greedy_choice(orig: Seq<u16>, rules: Seq<BpeElem>, k: int, min_count: int) -> bool {
    let pats = pats_of(rules);
    let mid = apply_rules(orig, pats.take(k));
    let a = pats[k].0;
    let b = pats[k].1;
    &&& pair_count(mid, a, b) >= min_count
    &&& forall|x: u16, y: u16| #[trigger] pair_count(mid, x, y) <= pair_count(mid, a, b)
    &&& forall|x: u16, y: u16|
        #[trigger] pair_count(mid, x, y) == pair_count(mid, a, b) ==> pair_le(a, b, x, y)
    &&& rules[k].matches == merge_count(mid, a, b, (256 + k) as u16)
}

/// Selects the most frequent adjacent pair of `s` together with its count;
/// `None` exactly when the sequence has no adjacent pair.  Among equally
/// frequent pairs the numerically smallest is chosen, so selection is
/// deterministic.
fn select_max_pair(s: &Vec<u16>) -> (r: Option<(u16, u16, usize)>)
    ensures
        r is None <==> s@.len() < 2,
        r matches Some((a, b, c)) ==> c == pair_count(s@, a, b) && c >= 1 && (forall|x: u16, y: u16|
            #[trigger] pair_count(s@, x, y) <= c) && (forall|x: u16, y: u16|
            #[trigger] pair_count(s@, x, y) == c ==> pair_le(a, b, x, y)),
{
    if s.len() < 2 {
        return None;
    }
    let mut best_a = s[0];
    let mut best_b = s[1];
    let mut best_c = count_pair(s, best_a, best_b);
    proof {
        lemma_pair_count_occurrence(s@, best_a, best_b);
        assert(s@[0] == best_a && s@[0int + 1] == best_b);
    }
    let mut j: usize = 1;
    while j < s.len() - 1
        invariant
            2 <= s@.len(),
            1 <= j <= s@.len() - 1,
            best_c == pair_count(s@, best_a, best_b),
            best_c >= 1,
            forall|k: int|
                0 <= k < j ==> pair_count(s@, #[trigger] s@[k], s@[k + 1]) <= best_c,
            forall|k: int|
                0 <= k < j && pair_count(s@, #[trigger] s@[k], s@[k + 1]) == best_c ==> pair_le(
                    best_a,
                    best_b,
                    s@[k],
                    s@[k + 1],
                ),
        decreases s@.len() - j,
    {
        let x = s[j];
        let y = s[j + 1];
        let c = count_pair(s, x, y);
        proof {
            lemma_pair_count_occurrence(s@, x, y);
            assert(s@[j as int] == x && s@[j + 1] == y);
        }
        if c > best_c || (c == best_c && (x < best_a || (x == best_a && y < best_b))) {
            best_a = x;
            best_b = y;
            best_c = c;
        }
        j += 1;
    }
    proof {
        assert forall|x: u16, y: u16| #[trigger] pair_count(s@, x, y) <= best_c by {
            lemma_pair_count_occurrence(s@, x, y);
            if pair_count(s@, x, y) >= 1 {
                let k = choose|k: int| 0 <= k < s@.len() - 1 && #[trigger] s@[k] == x && s@[k + 1] == y;
                assert(pair_count(s@, s@[k], s@[k + 1]) <= best_c);
            }
        }
        assert forall|x: u16, y: u16| #[trigger] pair_count(s@, x, y) == best_c implies pair_le(
            best_a,
            best_b,
            x,
            y,
        ) by {
            lemma_pair_count_occurrence(s@, x, y);
            let k = choose|k: int| 0 <= k < s@.len() - 1 && #[trigger] s@[k] == x && s@[k + 1] == y;
            assert(pair_count(s@, s@[k], s@[k + 1]) == best_c);
        }
    }
    Some((best_a, best_b, best_c))
}

/// One replacement pass: rewrites every occurrence of the pair `a`, `b` in
/// `file` to `code`, scanning right to left, and returns the number of
/// replacements.
fn replace_pass(file: &mut Vec<u16>, a: u16, b: u16, code: u16) -> (matches: usize)
    ensures
        final(file)@ == merge_pass(old(file)@, a, b, code),
        matches == merge_count(old(file)@, a, b, code),
{
    let ghost orig = file@;
    if file.len() < 2 {
        return 0;
    }
    let mut matches: usize = 0;
    let mut j: usize = file.len() - 1;
    assert(orig.take(orig.len() as int) =~= orig);
    assert(orig.skip(orig.len() as int) =~= Seq::<u16>::empty());
    proof {
        lemma_merge_len(orig, a, b, code);
    }
    while j > 0
        invariant
            j + 1 <= file@.len(),
            merge_pass(orig, a, b, code) == merge_pass(file@.take(j + 1), a, b, code) + file@.skip(
                j + 1,
            ),
            merge_count(orig, a, b, code) == matches + merge_count(file@.take(j + 1), a, b, code),
            matches <= orig.len() <= usize::MAX,
        decreases j,
    {
        j -= 1;
        let ghost pre = file@;
        let ghost k = j + 2;
        assert(pre.take(k)[k - 2] == pre[j as int] && pre.take(k)[k - 1] == pre[j + 1]);
        if file[j] == a && file[j + 1] == b {
            file.set(j, code);
            file.remove(j + 1);
            proof {
                let u = pre.take(k).take(k - 2).push(code);
                assert(merge_pass(pre.take(k), a, b, code) == merge_pass(u, a, b, code));
                assert(merge_count(pre.take(k), a, b, code) == 1 + merge_count(u, a, b, code));
                assert(file@.take(j + 1) =~= u);
                assert(file@.skip(j + 1) =~= pre.skip(k));
                lemma_merge_len(orig, a, b, code);
            }
            matches += 1;
        } else {
            proof {
                assert(merge_pass(pre.take(k), a, b, code) == merge_pass(
                    pre.take(k).drop_last(),
                    a,
                    b,
                    code,
                ).push(pre.take(k).last()));
                assert(pre.take(k).drop_last() =~= pre.take(j + 1));
                assert(merge_pass(pre.take(k), a, b, code) + pre.skip(k) =~= merge_pass(
                    pre.take(j + 1),
                    a,
                    b,
                    code,
                ) + pre.skip(j + 1));
            }
        }
    }
    assert(file@.take(1).len() < 2);
    assert(merge_pass(file@.take(1), a, b, code) + file@.skip(1) =~= file@);
    matches
}

/// The iteration cap of `encode`: at most this many rules are created.
pub const MAX_ITERATIONS: usize = 10000;

/// The frequency threshold of `encode`: a pair is merged only while it
/// occurs at least this often.
pub const MIN_PAIR_FREQUENCY: usize = 2;

/// Encodes `file` in place with an explicit iteration cap and frequency
/// threshold, returning the rule table.
///
/// Each iteration selects a most frequent adjacent pair (ties resolved to
/// the numerically smallest pair), stops if its count is below `min_count`,
/// and otherwise replaces it by the next rule code.  The contract states the
/// round trip: decoding the reduced sequence under the returned table
/// restores the input.
pub fn encode_with(file: &mut Vec<u16>, max_iters: usize, min_count: usize) -> (table: Vec<
    BpeElem,
>)
    requires
        symbols_below(old(file)@, 256),
        min_count >= 1,
        max_iters <= 65280,
    ensures
        wf_pats(pats_of(table@)),
        decode_all(final(file)@, pats_of(table@)) == old(file)@,
        final(file)@ == apply_rules(old(file)@, pats_of(table@)),
        forall|k: int|
            0 <= k < table@.len() ==> greedy_choice(old(file)@, table@, k, min_count as int),
        symbols_below(final(file)@, 256 + table@.len() as int),
        table@.len() <= max_iters,
        final(file)@.len() <= old(file)@.len(),
        forall|i: int| 0 <= i < table@.len() ==> (#[trigger] table@[i]).matches >= 1,
        table@.len() < max_iters ==> forall|x: u16, y: u16|
            #[trigger] pair_count(final(file)@, x, y) < min_count,
        (forall|x: u16, y: u16| #[trigger] pair_count(old(file)@, x, y) < min_count)
            ==> table@.len() == 0 && final(file)@ == old(file)@,
{
    let ghost orig = file@;
    let mut table: Vec<BpeElem> = Vec::new();
    let mut done = false;
    let mut i: usize = 0;
    while i < max_iters && !done
        invariant
            i <= max_iters <= 65280,
            min_count >= 1,
            table@.len() <= i,
            !done ==> table@.len() == i,
            wf_pats(pats_of(table@)),
            decode_all(file@, pats_of(table@)) == orig,
            file@ == apply_rules(orig, pats_of(table@)),
            forall|k: int| 0 <= k < table@.len() ==> greedy_choice(orig, table@, k, min_count as int),
            symbols_below(file@, 256 + table@.len() as int),
            file@.len() <= orig.len(),
            forall|k: int| 0 <= k < table@.len() ==> (#[trigger] table@[k]).matches >= 1,
            done ==> forall|x: u16, y: u16| #[trigger] pair_count(file@, x, y) < min_count,
            (forall|x: u16, y: u16| #[trigger] pair_count(orig, x, y) < min_count)
                ==> table@.len() == 0 && file@ == orig,
        decreases max_iters - i,
    {
        let ghost pats = pats_of(table@);
        match select_max_pair(file) {
            None => {
                proof {
                    assert forall|x: u16, y: u16| #[trigger] pair_count(file@, x, y)
                        < min_count by {
                        assert(file@.len() < 2);
                    }
                }
                done = true;
            },
            Some((a, b, c)) => {
                if c < min_count {
                    done = true;
                } else {
                    let ghost pre = file@;
                    let code: u16 = (256 + table.len()) as u16;
                    proof {
                        lemma_pair_count_occurrence(pre, a, b);
                        let k = choose|k: int|
                            0 <= k < pre.len() - 1 && #[trigger] pre[k] == a && pre[k + 1] == b;
                        assert((pre[k] as int) < 256 + table@.len());
                        assert((a as int) < code && (b as int) < code);
                    }
                    let ghost tseq = table@;
                    let m = replace_pass(file, a, b, code);
                    table.push(BpeElem { pat: (a, b), matches: m });
                    proof {
                        let npats = pats_of(table@);
                        assert(npats =~= pats.push((a, b)));
                        assert(npats.drop_last() =~= pats);
                        lemma_merge_progress(pre, a, b, code);
                        lemma_merge_len(pre, a, b, code);
                        lemma_merge_symbols(pre, a, b, code, 256 + npats.len() as int);
                        lemma_expand_merge(pre, a, b, code);
                        lemma_expand_absent(pre, code, a, b);
                        assert(expand_code(file@, code, a, b) == pre);
                        assert(decode_all(file@, npats) == decode_all(pre, pats));
                        assert(npats[npats.len() - 1] == (a, b));
                        assert(file@ == apply_rules(orig, npats));
                        let ntable = table@;
                        assert(ntable.drop_last() =~= tseq);
                        let oldtable = tseq;
                        assert(pats_of(oldtable) =~= pats);
                        assert forall|k: int|
                            0 <= k < ntable.len() implies greedy_choice(
                            orig,
                            ntable,
                            k,
                            min_count as int,
                        ) by {
                            assert(npats.take(k) =~= pats.take(k));
                            if k < ntable.len() - 1 {
                                assert(greedy_choice(orig, oldtable, k, min_count as int));
                                assert(ntable[k] == oldtable[k]);
                                assert(npats[k] == pats[k]);
                            } else {
                                assert(npats.take(k) =~= pats);
                                assert(apply_rules(orig, npats.take(k)) == pre);
                                assert(npats[k] == (a, b));
                                assert(ntable[k].matches == m);
                            }
                        }
                        assert(wf_pats(npats)) by {
                            assert forall|k: int|
                                0 <= k < npats.len() implies (#[trigger] npats[k]).0 < 256 + k
                                && npats[k].1 < 256 + k by {
                                if k < pats.len() {
                                    assert(npats[k] == pats[k]);
                                }
                            }
                        }
                    }
                }
            },
        }
        i += 1;
    }
    table
}

/// Encodes `file` in place into its fully reduced form and returns the rule
/// table, using the default iteration cap and frequency threshold.
pub fn encode(file: &mut Vec<u16>) -> (table: Vec<BpeElem>)
    requires
        symbols_below(old(file)@, 256),
    ensures
        wf_pats(pats_of(table@)),
        decode_all(final(file)@, pats_of(table@)) == old(file)@,
        final(file)@ == apply_rules(old(file)@, pats_of(table@)),
        forall|k: int|
            0 <= k < table@.len() ==> greedy_choice(old(file)@, table@, k, MIN_PAIR_FREQUENCY as int),
        symbols_below(final(file)@, 256 + table@.len() as int),
        table@.len() <= MAX_ITERATIONS,
        final(file)@.len() <= old(file)@.len(),
        forall|i: int| 0 <= i < table@.len() ==> (#[trigger] table@[i]).matches >= 1,
        table@.len() < MAX_ITERATIONS ==> forall|x: u16, y: u16|
            #[trigger] pair_count(final(file)@, x, y) < MIN_PAIR_FREQUENCY,
        (forall|x: u16, y: u16| #[trigger] pair_count(old(file)@, x, y) < MIN_PAIR_FREQUENCY)
            ==> table@.len() == 0 && final(file)@ == old(file)@,
{
    encode_with(file, MAX_ITERATIONS, MIN_PAIR_FREQUENCY)
}

} // verus!
