//! Ranking of candidates: a stable ordering by a key that discounts the
//! path score by the weighted frequency and continuation probability.
use vstd::prelude::*;
use crate::dictionary::FIXED;

verus! {

/// Bound on every score that the engine computes.
pub const SCORE_BOUND: u128 = 0x20_0000_0000_0000_0000_0000_0000;

/// A candidate that survived the distance computation.
#[derive(Clone, Copy, Debug, PartialEq, Eq, Structural)]
pub struct Candidate {
    /// Position of the word in the dictionary.
    pub index: usize,
    /// Length-normalised path distance plus end penalty, in thousandths
    /// of a key per point.
    pub score: u128,
    /// Log frequency, in thousandths.
    pub freq: u32,
    /// Continuation probability, in thousandths.
    pub bigram: u64,
}

/// The ranking key in millionths: score less the weighted frequency and
/// continuation probability. Lower ranks first.
pub open spec fn rank_key(c: Candidate, pop_weight: i32, bigram_weight: i32) -> int {
    c.score * FIXED - c.freq * pop_weight - c.bigram * bigram_weight
}

/// Inserts `x` after every element whose key is not above its own.
pub open spec fn insert_ranked(s: Seq<Candidate>, x: Candidate, pw: i32, bw: i32) -> Seq<Candidate>
    decreases s.len(),
{
    if s.len() == 0 {
        seq![x]
    } else if rank_key(s.last(), pw, bw) <= rank_key(x, pw, bw) {
        s.push(x)
    } else {
        insert_ranked(s.drop_last(), x, pw, bw).push(s.last())
    }
}

/// Stable ordering by ranking key: equal keys keep their order.
pub open spec fn rank(s: Seq<Candidate>, pw: i32, bw: i32) -> Seq<Candidate>
    decreases s.len(),
{
    if s.len() == 0 {
        s
    } else {
        insert_ranked(rank(s.drop_last(), pw, bw), s.last(), pw, bw)
    }
}

/// A candidate whose position and score the engine can handle.
pub open spec fn fits(c: Candidate, n: nat) -> bool {
    c.index < n && c.score < SCORE_BOUND
}

proof fn lemma_insert_at(s: Seq<Candidate>, x: Candidate, p: int, pw: i32, bw: i32)
    requires
        0 <= p <= s.len(),
        p == 0 || rank_key(s[p - 1], pw, bw) <= rank_key(x, pw, bw),
        forall|j: int| p <= j < s.len() ==> rank_key(#[trigger] s[j], pw, bw) > rank_key(x, pw, bw),
    ensures
        insert_ranked(s, x, pw, bw) == s.insert(p, x),
    decreases s.len(),
{
    if s.len() == 0 {
        assert(s.insert(p, x) =~= seq![x]);
    } else if p == s.len() {
        assert(s.insert(p, x) =~= s.push(x));
    } else {
        let t = s.drop_last();
        assert forall|j: int| p <= j < t.len() implies rank_key(#[trigger] t[j], pw, bw) > rank_key(x, pw, bw) by {
            assert(t[j] == s[j]);
        }
        lemma_insert_at(t, x, p, pw, bw);
        assert(s.insert(p, x) =~= t.insert(p, x).push(s.last()));
    }
}

pub proof fn lemma_insert_fits(s: Seq<Candidate>, x: Candidate, pw: i32, bw: i32, n: nat)
    requires
        forall|i: int| 0 <= i < s.len() ==> fits(#[trigger] s[i], n),
        fits(x, n),
    ensures
        insert_ranked(s, x, pw, bw).len() == s.len() + 1,
        forall|i: int| 0 <= i < insert_ranked(s, x, pw, bw).len() ==> fits(#[trigger] insert_ranked(s, x, pw, bw)[i], n),
    decreases s.len(),
{
    if s.len() > 0 {
        let t = s.drop_last();
        assert forall|i: int| 0 <= i < t.len() implies fits(#[trigger] t[i], n) by {
            assert(t[i] == s[i]);
        }
        lemma_insert_fits(t, x, pw, bw, n);
    }
}

pub proof fn lemma_rank_fits(s: Seq<Candidate>, pw: i32, bw: i32, n: nat)
    requires
        forall|i: int| 0 <= i < s.len() ==> fits(#[trigger] s[i], n),
    ensures
        rank(s, pw, bw).len() == s.len(),
        forall|i: int| 0 <= i < rank(s, pw, bw).len() ==> fits(#[trigger] rank(s, pw, bw)[i], n),
    decreases s.len(),
{
    if s.len() > 0 {
        let t = s.drop_last();
        assert forall|i: int| 0 <= i < t.len() implies fits(#[trigger] t[i], n) by {
            assert(t[i] == s[i]);
        }
        lemma_rank_fits(t, pw, bw, n);
        lemma_insert_fits(rank(t, pw, bw), s.last(), pw, bw, n);
    }
}

/// The ranking key of a candidate.
fn key_of(c: &Candidate, pw: i32, bw: i32) -> (r: i128)
    requires
        c.score < SCORE_BOUND,
    ensures
        r == rank_key(*c, pw, bw),
{
    assert(-0x1_0000_0000 * 0x8000_0000 <= c.freq * pw <= 0x1_0000_0000 * 0x8000_0000) by (nonlinear_arith)
        requires
            0 <= c.freq <= 0xffff_ffff,
            -0x8000_0000 <= pw <= 0x7fff_ffff,
    ;
    assert(-0x1_0000_0000_0000_0000 * 0x8000_0000 <= c.bigram * bw <= 0x1_0000_0000_0000_0000 * 0x8000_0000) by (nonlinear_arith)
        requires
            0 <= c.bigram <= 0xffff_ffff_ffff_ffff,
            -0x8000_0000 <= bw <= 0x7fff_ffff,
    ;
    assert(0 <= c.score * 1000 <= 0x20_0000_0000_0000_0000_0000_0000 * 1000) by (nonlinear_arith)
        requires
            0 <= c.score < 0x20_0000_0000_0000_0000_0000_0000,
    ;
    let base: i128 = c.score as i128 * 1000;
    assert(base == c.score * FIXED);
    let f: i128 = (c.freq as i128) * (pw as i128);
    let b: i128 = (c.bigram as i128) * (bw as i128);
    base - f - b
}

fn insert_candidate(out: &mut Vec<Candidate>, x: Candidate, pw: i32, bw: i32)
    requires
        forall|i: int| 0 <= i < old(out)@.len() ==> (#[trigger] old(out)@[i]).score < SCORE_BOUND,
        x.score < SCORE_BOUND,
    ensures
        final(out)@ == insert_ranked(old(out)@, x, pw, bw),
{
    let kx = key_of(&x, pw, bw);
    let mut p: usize = out.len();
    while p > 0 && key_of(&out[p - 1], pw, bw) > kx
        invariant
            p <= out@.len(),
            out@ == old(out)@,
            forall|i: int| 0 <= i < out@.len() ==> (#[trigger] out@[i]).score < SCORE_BOUND,
            kx == rank_key(x, pw, bw),
            forall|j: int| p <= j < out@.len() ==> rank_key(#[trigger] out@[j], pw, bw) > rank_key(x, pw, bw),
        decreases p,
    {
        p = p - 1;
    }
    proof {
        lemma_insert_at(out@, x, p as int, pw, bw);
    }
    out.insert(p, x);
}

/// Orders candidates by ranking key, ascending; equal keys keep their
/// order.
pub fn rank_candidates(cands: &Vec<Candidate>, pop_weight: i32, bigram_weight: i32) -> (r: Vec<Candidate>)
    requires
        forall|i: int| 0 <= i < cands@.len() ==> (#[trigger] cands@[i]).score < SCORE_BOUND,
    ensures
        r@ == rank(cands@, pop_weight, bigram_weight),
{
    let mut out: Vec<Candidate> = Vec::new();
    let n = cands.len();
    for t in 0..n
        invariant
            n == cands@.len(),
            forall|i: int| 0 <= i < cands@.len() ==> (#[trigger] cands@[i]).score < SCORE_BOUND,
            out@ == rank(cands@.take(t as int), pop_weight, bigram_weight),
    {
        proof {
            lemma_rank_fits(cands@.take(t as int), pop_weight, bigram_weight, usize::MAX as nat + 1);
            assert(cands@.take(t + 1).drop_last() =~= cands@.take(t as int));
        }
        insert_candidate(&mut out, cands[t], pop_weight, bigram_weight);
    }
    assert(cands@.take(n as int) =~= cands@);
    out
}


/// Consecutive keys do not decrease.
pub open spec fn ranked_in_order(s: Seq<Candidate>, pw: i32, bw: i32) -> bool {
    forall|i: int, j: int| 0 <= i < j < s.len() ==> rank_key(#[trigger] s[i], pw, bw) <= rank_key(#[trigger] s[j], pw, bw)
}

proof fn lemma_insert_keys_below(s: Seq<Candidate>, x: Candidate, pw: i32, bw: i32, bound: int)
    requires
        forall|i: int| 0 <= i < s.len() ==> rank_key(#[trigger] s[i], pw, bw) <= bound,
        rank_key(x, pw, bw) <= bound,
    ensures
        forall|i: int| 0 <= i < insert_ranked(s, x, pw, bw).len() ==> rank_key(#[trigger] insert_ranked(s, x, pw, bw)[i], pw, bw) <= bound,
    decreases s.len(),
{
    if s.len() > 0 {
        let t = s.drop_last();
        assert forall|i: int| 0 <= i < t.len() implies rank_key(#[trigger] t[i], pw, bw) <= bound by {
            assert(t[i] == s[i]);
        }
        lemma_insert_keys_below(t, x, pw, bw, bound);
        let r = insert_ranked(s, x, pw, bw);
        if rank_key(s.last(), pw, bw) <= rank_key(x, pw, bw) {
            assert forall|i: int| 0 <= i < r.len() implies rank_key(#[trigger] r[i], pw, bw) <= bound by {
                if i < s.len() {
                    assert(r[i] == s[i]);
                }
            }
        } else {
            let u = insert_ranked(t, x, pw, bw);
            assert forall|i: int| 0 <= i < r.len() implies rank_key(#[trigger] r[i], pw, bw) <= bound by {
                if i < u.len() {
                    assert(r[i] == u[i]);
                } else {
                    assert(r[i] == s[s.len() - 1]);
                }
            }
        }
    }
}

proof fn lemma_insert_in_order(s: Seq<Candidate>, x: Candidate, pw: i32, bw: i32)
    requires
        ranked_in_order(s, pw, bw),
    ensures
        ranked_in_order(insert_ranked(s, x, pw, bw), pw, bw),
    decreases s.len(),
{
    if s.len() > 0 {
        let t = s.drop_last();
        let l = s.last();
        assert(ranked_in_order(t, pw, bw)) by {
            assert forall|i: int, j: int| 0 <= i < j < t.len() implies rank_key(#[trigger] t[i], pw, bw) <= rank_key(#[trigger] t[j], pw, bw) by {
                assert(t[i] == s[i] && t[j] == s[j]);
            }
        }
        if rank_key(l, pw, bw) > rank_key(x, pw, bw) {
            lemma_insert_in_order(t, x, pw, bw);
            assert forall|i: int| 0 <= i < t.len() implies rank_key(#[trigger] t[i], pw, bw) <= rank_key(l, pw, bw) by {
                assert(t[i] == s[i]);
                assert(s[s.len() - 1] == l);
            }
            lemma_insert_keys_below(t, x, pw, bw, rank_key(l, pw, bw));
            let u = insert_ranked(t, x, pw, bw);
            assert forall|i: int, j: int| 0 <= i < j < u.push(l).len() implies rank_key(#[trigger] u.push(l)[i], pw, bw) <= rank_key(#[trigger] u.push(l)[j], pw, bw) by {
                if j < u.len() {
                    assert(u.push(l)[i] == u[i] && u.push(l)[j] == u[j]);
                } else {
                    assert(u.push(l)[i] == u[i]);
                }
            }
        } else {
            assert forall|i: int, j: int| 0 <= i < j < s.push(x).len() implies rank_key(#[trigger] s.push(x)[i], pw, bw) <= rank_key(#[trigger] s.push(x)[j], pw, bw) by {
                if j < s.len() {
                    assert(s.push(x)[i] == s[i] && s.push(x)[j] == s[j]);
                } else {
                    assert(s.push(x)[i] == s[i]);
                    if i < s.len() - 1 {
                        assert(rank_key(s[i], pw, bw) <= rank_key(s[s.len() - 1], pw, bw));
                    }
                }
            }
        }
    }
}

/// The ranked candidates come in order of their keys.
pub proof fn lemma_rank_in_order(s: Seq<Candidate>, pw: i32, bw: i32)
    ensures
        ranked_in_order(rank(s, pw, bw), pw, bw),
    decreases s.len(),
{
    if s.len() > 0 {
        lemma_rank_in_order(s.drop_last(), pw, bw);
        lemma_insert_in_order(rank(s.drop_last(), pw, bw), s.last(), pw, bw);
    }
}

/// Raising the frequency weight can only widen the lead, or narrow the
/// deficit, of a word that is at least as frequent as another: if it
/// ranked ahead of the other (a strictly lower key), or level with it, it
/// still does.
pub proof fn lemma_pop_weight_favours_frequent(a: Candidate, b: Candidate, pw1: i32, pw2: i32, bw: i32)
    requires
        pw1 <= pw2,
        a.freq >= b.freq,
    ensures
        rank_key(a, pw2, bw) - rank_key(b, pw2, bw) <= rank_key(a, pw1, bw) - rank_key(b, pw1, bw),
        rank_key(a, pw1, bw) < rank_key(b, pw1, bw) ==> rank_key(a, pw2, bw) < rank_key(b, pw2, bw),
        rank_key(a, pw1, bw) <= rank_key(b, pw1, bw) ==> rank_key(a, pw2, bw) <= rank_key(b, pw2, bw),
        pw1 < pw2 && a.freq > b.freq ==> rank_key(a, pw2, bw) - rank_key(b, pw2, bw) < rank_key(
            a,
            pw1,
            bw,
        ) - rank_key(b, pw1, bw),
{
    assert(pw1 < pw2 && a.freq > b.freq ==> (a.freq - b.freq) * pw1 < (a.freq - b.freq) * pw2) by (nonlinear_arith);
    assert((a.freq - b.freq) * pw1 <= (a.freq - b.freq) * pw2) by (nonlinear_arith)
        requires
            pw1 <= pw2,
            a.freq >= b.freq,
    ;
    assert(a.freq * pw2 - b.freq * pw2 == (a.freq - b.freq) * pw2) by (nonlinear_arith);
    assert(a.freq * pw1 - b.freq * pw1 == (a.freq - b.freq) * pw1) by (nonlinear_arith);
}


proof fn lemma_insert_contains(s: Seq<Candidate>, x: Candidate, pw: i32, bw: i32)
    ensures
        insert_ranked(s, x, pw, bw).contains(x),
        forall|j: int| 0 <= j < s.len() ==> insert_ranked(s, x, pw, bw).contains(#[trigger] s[j]),
    decreases s.len(),
{
    let r = insert_ranked(s, x, pw, bw);
    if s.len() == 0 {
        assert(r[0] == x);
    } else if rank_key(s.last(), pw, bw) <= rank_key(x, pw, bw) {
        assert(r[s.len() as int] == x);
        assert forall|j: int| 0 <= j < s.len() implies r.contains(#[trigger] s[j]) by {
            assert(r[j] == s[j]);
        }
    } else {
        let t = s.drop_last();
        let u = insert_ranked(t, x, pw, bw);
        lemma_insert_contains(t, x, pw, bw);
        let k = choose|k: int| 0 <= k < u.len() && u[k] == x;
        assert(r[k] == x);
        assert forall|j: int| 0 <= j < s.len() implies r.contains(#[trigger] s[j]) by {
            if j == s.len() - 1 {
                assert(r[u.len() as int] == s[j]);
            } else {
                assert(t[j] == s[j]);
                assert(u.contains(t[j]));
                let m = choose|m: int| 0 <= m < u.len() && u[m] == t[j];
                assert(r[m] == s[j]);
            }
        }
    }
}

/// Ranking drops no candidate.
pub proof fn lemma_rank_contains(s: Seq<Candidate>, pw: i32, bw: i32)
    ensures
        rank(s, pw, bw).len() == s.len(),
        forall|j: int| 0 <= j < s.len() ==> rank(s, pw, bw).contains(#[trigger] s[j]),
    decreases s.len(),
{
    if s.len() > 0 {
        let t = s.drop_last();
        let u = rank(t, pw, bw);
        lemma_rank_contains(t, pw, bw);
        lemma_insert_contains(u, s.last(), pw, bw);
        lemma_insert_len(u, s.last(), pw, bw);
        let r = rank(s, pw, bw);
        assert forall|j: int| 0 <= j < s.len() implies r.contains(#[trigger] s[j]) by {
            if j < s.len() - 1 {
                assert(t[j] == s[j]);
                assert(u.contains(t[j]));
                let m = choose|m: int| 0 <= m < u.len() && u[m] == t[j];
                assert(r.contains(u[m]));
            }
        }
    }
}

proof fn lemma_insert_len(s: Seq<Candidate>, x: Candidate, pw: i32, bw: i32)
    ensures
        insert_ranked(s, x, pw, bw).len() == s.len() + 1,
    decreases s.len(),
{
    if s.len() > 0 {
        lemma_insert_len(s.drop_last(), x, pw, bw);
    }
}


proof fn lemma_insert_from(s: Seq<Candidate>, x: Candidate, pw: i32, bw: i32)
    ensures
        forall|j: int| 0 <= j < insert_ranked(s, x, pw, bw).len() ==> #[trigger] insert_ranked(s, x, pw, bw)[j] == x
            || s.contains(insert_ranked(s, x, pw, bw)[j]),
    decreases s.len(),
{
    let r = insert_ranked(s, x, pw, bw);
    if s.len() == 0 {
    } else if rank_key(s.last(), pw, bw) <= rank_key(x, pw, bw) {
        assert forall|j: int| 0 <= j < r.len() implies #[trigger] r[j] == x || s.contains(r[j]) by {
            if j < s.len() {
                assert(r[j] == s[j]);
            }
        }
    } else {
        let t = s.drop_last();
        let u = insert_ranked(t, x, pw, bw);
        lemma_insert_from(t, x, pw, bw);
        assert forall|j: int| 0 <= j < r.len() implies #[trigger] r[j] == x || s.contains(r[j]) by {
            if j < u.len() {
                assert(r[j] == u[j]);
                if u[j] != x {
                    let m = choose|m: int| 0 <= m < t.len() && t[m] == u[j];
                    assert(s[m] == t[m]);
                }
            } else {
                assert(r[j] == s[s.len() - 1]);
            }
        }
    }
}

/// Ranking adds no candidate.
pub proof fn lemma_rank_from(s: Seq<Candidate>, pw: i32, bw: i32)
    ensures
        forall|j: int| 0 <= j < rank(s, pw, bw).len() ==> s.contains(#[trigger] rank(s, pw, bw)[j]),
    decreases s.len(),
{
    if s.len() > 0 {
        let t = s.drop_last();
        let u = rank(t, pw, bw);
        lemma_rank_from(t, pw, bw);
        lemma_insert_from(u, s.last(), pw, bw);
        let r = rank(s, pw, bw);
        assert forall|j: int| 0 <= j < r.len() implies s.contains(#[trigger] r[j]) by {
            if r[j] == s.last() {
                assert(s[s.len() - 1] == r[j]);
            } else {
                let m = choose|m: int| 0 <= m < u.len() && u[m] == r[j];
                let k = choose|k: int| 0 <= k < t.len() && t[k] == u[m];
                assert(s[k] == t[k]);
            }
        }
    }
}

} // verus!
