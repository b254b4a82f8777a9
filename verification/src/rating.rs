//! Per-token spam probability (the rating) as an exact rational number.
//!
//! A rating is a pair of positive integer weights `(spam_weight,
//! ham_weight)`; its value is `spam_weight / (spam_weight + ham_weight)`.
//! The fixed policy ratings are `(1, 1)` for one half, `(99, 1)` for
//! ninety-nine hundredths and `(1, 99)` for one hundredth.

use vstd::prelude::*;
use crate::classifier::{Classifier, Counter, counter_of, has_token};
use crate::tokenizer::{words_of, load_word_list};

verus! {

/// An exact per-token spam probability: the rational number
/// `spam_weight / (spam_weight + ham_weight)`.
#[derive(Clone, Copy, PartialEq, Eq, Structural, Debug)]
pub struct Rating {
    pub spam_weight: u64,
    pub ham_weight: u64,
}

impl Rating {
    /// Both weights are positive, so the value lies strictly between 0
    /// and 1 and products of weights stay positive.
    pub open spec fn wf(&self) -> bool {
        self.spam_weight >= 1 && self.ham_weight >= 1
    }
}

/// The rating of `tok` against a table with the given totals: one half
/// for an unseen token, ninety-nine hundredths for a token seen only in
/// spam, one hundredth for a token seen only in ham; for a token seen in
/// both (with both totals positive) the relative spam frequency
/// `spam_freq / (ham_freq + spam_freq)`, floored at one hundredth; and
/// the one-half prior again in the defensively handled remaining cases.
pub open spec fn spec_rate(
    t: Seq<(Seq<char>, Counter)>,
    spam_total: u32,
    ham_total: u32,
    tok: Seq<char>,
) -> Rating {
    if !has_token(t, tok) {
        Rating { spam_weight: 1, ham_weight: 1 }
    } else {
        let c = counter_of(t, tok);
        if c.spam > 0 && c.ham == 0 {
            Rating { spam_weight: 99, ham_weight: 1 }
        } else if c.spam == 0 && c.ham > 0 {
            Rating { spam_weight: 1, ham_weight: 99 }
        } else if c.spam > 0 && c.ham > 0 && spam_total > 0 && ham_total > 0 {
            let p = c.spam * ham_total;
            let q = c.ham * spam_total;
            if 99 * p < q {
                Rating { spam_weight: 1, ham_weight: 99 }
            } else {
                Rating { spam_weight: p as u64, ham_weight: q as u64 }
            }
        } else {
            Rating { spam_weight: 1, ham_weight: 1 }
        }
    }
}

/// Every rating the table can produce has positive weights.
pub proof fn lemma_spec_rate_wf(
    t: Seq<(Seq<char>, Counter)>,
    spam_total: u32,
    ham_total: u32,
    tok: Seq<char>,
)
    ensures
        spec_rate(t, spam_total, ham_total, tok).wf(),
{
    if has_token(t, tok) {
        let c = counter_of(t, tok);
        if c.spam > 0 && c.ham > 0 && spam_total > 0 && ham_total > 0 {
            assert(1 <= c.spam * ham_total <= u64::MAX) by (nonlinear_arith)
                requires
                    1 <= c.spam <= u32::MAX && 1 <= ham_total <= u32::MAX,
            ;
            assert(1 <= c.ham * spam_total <= u64::MAX) by (nonlinear_arith)
                requires
                    1 <= c.ham <= u32::MAX && 1 <= spam_total <= u32::MAX,
            ;
        }
    }
}

/// The weight products of a rating stay below 2^64.
proof fn lemma_mul_u32_fits(a: u32, b: u32)
    ensures
        0 <= (a as int) * (b as int) <= u64::MAX,
{
    assert((a as int) * (b as int) <= u64::MAX && (a as int) * (b as int) >= 0)
        by (nonlinear_arith)
        requires
            a <= u32::MAX && b <= u32::MAX,
    ;
}

/// The rating sequence of a word sequence: each word is rated on its
/// own, duplicates contributing once per occurrence.
pub open spec fn spec_ratings(
    t: Seq<(Seq<char>, Counter)>,
    spam_total: u32,
    ham_total: u32,
    ws: Seq<Seq<char>>,
) -> Seq<Rating> {
    ws.map_values(|w: Seq<char>| spec_rate(t, spam_total, ham_total, w))
}

impl Classifier {
    /// Rate one token against the model: the exact probability that a
    /// message containing it is spam, as `spec_rate` states it.
    pub fn rate_token(&self, token: &str) -> (r: Rating)
        requires
            self.wf(),
        ensures
            r == spec_rate(self.entries(), self.spam_total(), self.ham_total(), token@),
            r.wf(),
    {
        proof {
            lemma_spec_rate_wf(self.entries(), self.spam_total(), self.ham_total(), token@);
        }
        match self.lookup_token(token) {
            None => Rating { spam_weight: 1, ham_weight: 1 },
            Some(c) => {
                if c.spam > 0 && c.ham == 0 {
                    Rating { spam_weight: 99, ham_weight: 1 }
                } else if c.spam == 0 && c.ham > 0 {
                    Rating { spam_weight: 1, ham_weight: 99 }
                } else if c.spam > 0 && c.ham > 0 && self.spam_total_count() > 0
                    && self.ham_total_count() > 0 {
                    proof {
                        lemma_mul_u32_fits(c.spam, self.ham_total());
                        lemma_mul_u32_fits(c.ham, self.spam_total());
                    }
                    let p: u64 = (c.spam as u64) * (self.ham_total_count() as u64);
                    let q: u64 = (c.ham as u64) * (self.spam_total_count() as u64);
                    if 99 * (p as u128) < (q as u128) {
                        Rating { spam_weight: 1, ham_weight: 99 }
                    } else {
                        Rating { spam_weight: p, ham_weight: q }
                    }
                } else {
                    Rating { spam_weight: 1, ham_weight: 1 }
                }
            },
        }
    }

    /// Rate every word of `msg`, in the order the tokenizer emits them.
    pub fn rate_words(&self, msg: &str) -> (r: Vec<Rating>)
        requires
            self.wf(),
        ensures
            r@ == spec_ratings(
                self.entries(),
                self.spam_total(),
                self.ham_total(),
                words_of(msg@),
            ),
            forall|i: int| 0 <= i < r@.len() ==> (#[trigger] r@[i]).wf(),
    {
        let ghost ws = words_of(msg@);
        let ghost goal = spec_ratings(self.entries(), self.spam_total(), self.ham_total(), ws);
        let words = load_word_list(msg);
        let mut r: Vec<Rating> = Vec::new();
        let n = words.len();
        let mut k: usize = 0;
        while k < n
            invariant
                self.wf(),
                n == words@.len(),
                words@.map_values(|w: String| w@) == ws,
                goal == spec_ratings(self.entries(), self.spam_total(), self.ham_total(), ws),
                k <= n,
                r@.len() == k,
                forall|i: int| 0 <= i < k ==> r@[i] == goal[i],
            decreases n - k,
        {
            let w = &words[k];
            proof {
                assert(ws[k as int] == words@.map_values(|x: String| x@)[k as int]);
            }
            let rt = self.rate_token(w.as_str());
            r.push(rt);
            k += 1;
        }
        proof {
            assert(r@ =~= goal);
            assert forall|i: int| 0 <= i < r@.len() implies (#[trigger] r@[i]).wf() by {
                lemma_spec_rate_wf(self.entries(), self.spam_total(), self.ham_total(), ws[i]);
            }
        }
        r
    }
}

/// Whether rating `a` is at most rating `b` as a rational value:
/// `a.s / (a.s + a.h) <= b.s / (b.s + b.h)` cross-multiplies (for
/// positive weights) to `a.s * b.h <= b.s * a.h`.
pub open spec fn rating_leq(a: Rating, b: Rating) -> bool {
    a.spam_weight * b.ham_weight <= b.spam_weight * a.ham_weight
}

/// `rating_leq` is total.
pub proof fn lemma_rating_leq_total(a: Rating, b: Rating)
    ensures
        rating_leq(a, b) || rating_leq(b, a),
{
}

/// `rating_leq` is transitive on well-formed ratings.
pub proof fn lemma_rating_leq_trans(a: Rating, b: Rating, c: Rating)
    requires
        a.wf(),
        b.wf(),
        c.wf(),
        rating_leq(a, b),
        rating_leq(b, c),
    ensures
        rating_leq(a, c),
{
    assert(a.spam_weight * c.ham_weight <= c.spam_weight * a.ham_weight) by (nonlinear_arith)
        requires
            a.spam_weight * b.ham_weight <= b.spam_weight * a.ham_weight,
            b.spam_weight * c.ham_weight <= c.spam_weight * b.ham_weight,
            a.spam_weight >= 0,
            c.ham_weight >= 0,
            b.spam_weight >= 1,
            b.ham_weight >= 1,
            a.ham_weight >= 0,
            c.spam_weight >= 0,
    ;
}

/// Compare two ratings exactly, by cross-multiplication.
pub fn rating_le(a: &Rating, b: &Rating) -> (r: bool)
    ensures
        r == rating_leq(*a, *b),
{
    proof {
        lemma_mul_u64_fits(a.spam_weight, b.ham_weight);
        lemma_mul_u64_fits(b.spam_weight, a.ham_weight);
    }
    (a.spam_weight as u128) * (b.ham_weight as u128)
        <= (b.spam_weight as u128) * (a.ham_weight as u128)
}

/// The product of two 64-bit values fits in 128 bits.
proof fn lemma_mul_u64_fits(a: u64, b: u64)
    ensures
        0 <= (a as int) * (b as int) <= u128::MAX,
{
    assert(0 <= (a as int) * (b as int) <= u128::MAX) by (nonlinear_arith)
        requires
            a <= u64::MAX && b <= u64::MAX,
    ;
}

/// A rating sequence in ascending order of value.
pub open spec fn ratings_sorted(s: Seq<Rating>) -> bool {
    forall|i: int, j: int| 0 <= i < j < s.len() ==> rating_leq(s[i], s[j])
}

/// Where `x` belongs in the sorted prefix `r`: the first position whose
/// element is not at most `x`.
fn insertion_point(r: &Vec<Rating>, x: &Rating) -> (pos: usize)
    ensures
        pos <= r@.len(),
        forall|i: int| 0 <= i < pos ==> rating_leq(#[trigger] r@[i], *x),
        pos < r@.len() ==> !rating_leq(r@[pos as int], *x),
{
    let mut pos: usize = 0;
    loop
        invariant
            pos <= r@.len(),
            forall|i: int| 0 <= i < pos ==> rating_leq(#[trigger] r@[i], *x),
        decreases r@.len() - pos,
    {
        if pos == r.len() {
            return pos;
        }
        if !rating_le(&r[pos], x) {
            return pos;
        }
        pos += 1;
    }
}

/// Sort ratings ascending by value (insertion sort). The result is a
/// permutation of the input.
pub fn sort_ratings(v: &Vec<Rating>) -> (r: Vec<Rating>)
    requires
        forall|i: int| 0 <= i < v@.len() ==> (#[trigger] v@[i]).wf(),
    ensures
        ratings_sorted(r@),
        r@.to_multiset() == v@.to_multiset(),
        r@.len() == v@.len(),
        forall|i: int| 0 <= i < r@.len() ==> (#[trigger] r@[i]).wf(),
{
    let mut r: Vec<Rating> = Vec::new();
    let n = v.len();
    let mut k: usize = 0;
    proof {
        assert(v@.take(0) =~= Seq::<Rating>::empty());
        assert(r@.to_multiset() =~= v@.take(0).to_multiset());
    }
    while k < n
        invariant
            n == v@.len(),
            forall|i: int| 0 <= i < v@.len() ==> (#[trigger] v@[i]).wf(),
            k <= n,
            r@.len() == k,
            ratings_sorted(r@),
            r@.to_multiset() == v@.take(k as int).to_multiset(),
            forall|i: int| 0 <= i < r@.len() ==> (#[trigger] r@[i]).wf(),
        decreases n - k,
    {
        let x = v[k];
        let pos = insertion_point(&r, &x);
        let ghost rold = r@;
        r.insert(pos, x);
        proof {
            assert(r@ == rold.insert(pos as int, x));
            if pos < rold.len() {
                lemma_rating_leq_total(rold[pos as int], x);
            }
            assert forall|i: int, j: int| 0 <= i < j < r@.len() implies rating_leq(
                r@[i],
                r@[j],
            ) by {
                let p = pos as int;
                if j < p {
                    assert(r@[i] == rold[i] && r@[j] == rold[j]);
                } else if i > p {
                    assert(r@[i] == rold[i - 1] && r@[j] == rold[j - 1]);
                } else if i < p && j == p {
                    assert(r@[i] == rold[i] && r@[j] == x);
                } else if i == p && j > p {
                    assert(r@[i] == x && r@[j] == rold[j - 1]);
                    assert(rating_leq(x, rold[p]));
                    if j - 1 > p {
                        lemma_rating_leq_trans(x, rold[p], rold[j - 1]);
                    }
                } else if i < p && j > p {
                    assert(r@[i] == rold[i] && r@[j] == rold[j - 1]);
                    assert(rating_leq(rold[i], x));
                    assert(rating_leq(x, rold[p]));
                    if j - 1 > p {
                        lemma_rating_leq_trans(x, rold[p], rold[j - 1]);
                    }
                    lemma_rating_leq_trans(rold[i], x, rold[j - 1]);
                }
            }
            vstd::seq_lib::to_multiset_insert(rold, pos as int, x);
            assert(v@.take(k as int + 1) =~= v@.take(k as int).push(v@[k as int]));
            v@.take(k as int).to_multiset_ensures();
            assert(r@.to_multiset() =~= v@.take(k as int + 1).to_multiset());
        }
        k += 1;
    }
    proof {
        assert(v@.take(n as int) =~= v@);
    }
    r
}

} // verus!
