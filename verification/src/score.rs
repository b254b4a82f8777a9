//! Combining per-token ratings into one spam score.
//!
//! A score is the exact rational `P / (P + Q)`, where `P` is the product
//! of the retained ratings' spam weights and `Q` the product of their ham
//! weights. With every rating `s/(s+h)` this is the standard Bayesian
//! chain combination `prod(rating) / (prod(rating) + prod(1 - rating))`.

use vstd::prelude::*;
use crate::bignum::{BigNum, big_eq, big_lt};
use crate::classifier::{Classifier, Counter};
use crate::rating::{Rating, spec_ratings, ratings_sorted, sort_ratings};
use crate::tokenizer::words_of;

verus! {

/// Product of the spam weights of a rating sequence.
pub open spec fn prod_spam(s: Seq<Rating>) -> nat
    decreases s.len(),
{
    if s.len() == 0 {
        1
    } else {
        (prod_spam(s.drop_last()) * s.last().spam_weight) as nat
    }
}

/// Product of the ham weights of a rating sequence.
pub open spec fn prod_ham(s: Seq<Rating>) -> nat
    decreases s.len(),
{
    if s.len() == 0 {
        1
    } else {
        (prod_ham(s.drop_last()) * s.last().ham_weight) as nat
    }
}

/// Products of well-formed ratings are positive.
pub proof fn lemma_prod_pos(s: Seq<Rating>)
    requires
        forall|i: int| 0 <= i < s.len() ==> (#[trigger] s[i]).wf(),
    ensures
        prod_spam(s) >= 1,
        prod_ham(s) >= 1,
    decreases s.len(),
{
    if s.len() > 0 {
        lemma_prod_pos(s.drop_last());
        assert(s.last() == s[s.len() - 1]);
        assert(prod_spam(s.drop_last()) * s.last().spam_weight >= 1) by (nonlinear_arith)
            requires
                prod_spam(s.drop_last()) >= 1 && s.last().spam_weight >= 1,
        ;
        assert(prod_ham(s.drop_last()) * s.last().ham_weight >= 1) by (nonlinear_arith)
            requires
                prod_ham(s.drop_last()) >= 1 && s.last().ham_weight >= 1,
        ;
    }
}

/// The ratings kept for combination: all of them when there are at most
/// twenty, otherwise — from the sequence in ascending order — the ten
/// lowest and the ten highest, the middle discarded.
pub open spec fn select_extremes(s: Seq<Rating>) -> Seq<Rating> {
    if s.len() <= 20 {
        s
    } else {
        s.take(10) + s.skip(s.len() - 10)
    }
}

/// What the score of `msg` against a model is: with `p` and `q` the
/// products of the retained ratings' spam and ham weights, the score is
/// the rational `p / (p + q)`.
/// - no words: score 0 exactly (`p == 0`, `q == 1`);
/// - at most twenty words: every rating is retained, in order;
/// - more than twenty: the retained ratings are the ten lowest and ten
///   highest of some ascending reordering of the rating sequence.
pub open spec fn score_outcome(
    t: Seq<(Seq<char>, Counter)>,
    spam_total: u32,
    ham_total: u32,
    msg: Seq<char>,
    p: nat,
    q: nat,
) -> bool {
    let ws = words_of(msg);
    let rs = spec_ratings(t, spam_total, ham_total, ws);
    if ws.len() == 0 {
        p == 0 && q == 1
    } else if ws.len() <= 20 {
        p == prod_spam(rs) && q == prod_ham(rs)
    } else {
        exists|srt: Seq<Rating>|
            {
                &&& srt.to_multiset() == rs.to_multiset()
                &&& ratings_sorted(srt)
                &&& p == prod_spam(#[trigger] select_extremes(srt))
                &&& q == prod_ham(select_extremes(srt))
            }
    }
}

/// A message's spam score: the exact rational `P / (P + Q)` with the two
/// weight products held as big integers. `Q` is always positive; `P` is
/// zero exactly for a message without words.
pub struct Score {
    spam_product: BigNum,
    ham_product: BigNum,
}

impl Score {
    pub closed spec fn spam_part(&self) -> nat {
        self.spam_product.val()
    }

    pub closed spec fn ham_part(&self) -> nat {
        self.ham_product.val()
    }

    pub closed spec fn wf(&self) -> bool {
        &&& self.spam_product.wf()
        &&& self.ham_product.wf()
        &&& self.ham_part() >= 1
    }

    /// The limbs of `P`, little endian in base 2^64.
    pub fn spam_product_limbs(&self) -> (r: &Vec<u64>)
        ensures
            crate::bignum::limbs_val(r@) == self.spam_part(),
    {
        &self.spam_product.limbs
    }

    /// The limbs of `Q`, little endian in base 2^64.
    pub fn ham_product_limbs(&self) -> (r: &Vec<u64>)
        ensures
            crate::bignum::limbs_val(r@) == self.ham_part(),
    {
        &self.ham_product.limbs
    }

    /// Whether the score is strictly above `num / den`:
    /// `P / (P + Q) > num / den` cross-multiplies to
    /// `P * den > num * (P + Q)`.
    pub fn exceeds(&self, num: u64, den: u64) -> (r: bool)
        requires
            self.wf(),
            den >= 1,
        ensures
            r == (self.spam_part() * den > num * (self.spam_part() + self.ham_part())),
    {
        let ghost p = self.spam_part();
        let ghost q = self.ham_part();
        if num == 0 {
            let z = self.spam_product.is_zero();
            proof {
                assert((p * den > 0) == (p >= 1)) by (nonlinear_arith)
                    requires
                        den >= 1 && p >= 0,
                ;
            }
            !z
        } else if num >= den {
            proof {
                assert(p * den <= num * (p + q)) by (nonlinear_arith)
                    requires
                        den <= num && p >= 0 && q >= 0,
                ;
            }
            false
        } else {
            let d = den - num;
            let qn = self.ham_product.mul_small(num);
            let pd = self.spam_product.mul_small(d);
            let r = big_lt(&qn, &pd);
            proof {
                assert((q * num < p * d) == (p * den > num * (p + q))) by (nonlinear_arith)
                    requires
                        d == den - num && p >= 0 && q >= 0 && num >= 1 && den > num,
                ;
            }
            r
        }
    }

    /// Whether the score equals `num / den` exactly:
    /// `P / (P + Q) == num / den` cross-multiplies to
    /// `P * den == num * (P + Q)`.
    pub fn equals_ratio(&self, num: u64, den: u64) -> (r: bool)
        requires
            self.wf(),
            den >= 1,
        ensures
            r == (self.spam_part() * den == num * (self.spam_part() + self.ham_part())),
    {
        let ghost p = self.spam_part();
        let ghost q = self.ham_part();
        if num == 0 {
            let z = self.spam_product.is_zero();
            proof {
                assert((p * den == 0) == (p == 0)) by (nonlinear_arith)
                    requires
                        den >= 1 && p >= 0,
                ;
            }
            z
        } else if num >= den {
            proof {
                assert(p * den < num * (p + q)) by (nonlinear_arith)
                    requires
                        num >= den && den >= 1 && p >= 0 && q >= 1,
                ;
            }
            false
        } else {
            let d = den - num;
            let qn = self.ham_product.mul_small(num);
            let pd = self.spam_product.mul_small(d);
            let r = big_eq(&qn, &pd);
            proof {
                assert((q * num == p * d) == (p * den == num * (p + q))) by (nonlinear_arith)
                    requires
                        d == den - num && p >= 0 && q >= 0 && num >= 1 && den > num,
                ;
            }
            r
        }
    }
}

/// Multiply out the spam and ham weights of a rating sequence.
fn combine(ratings: &Vec<Rating>) -> (r: (BigNum, BigNum))
    requires
        forall|i: int| 0 <= i < ratings@.len() ==> (#[trigger] ratings@[i]).wf(),
    ensures
        r.0.wf(),
        r.1.wf(),
        r.0.val() == prod_spam(ratings@),
        r.1.val() == prod_ham(ratings@),
{
    let mut p = BigNum::one();
    let mut q = BigNum::one();
    let n = ratings.len();
    let mut k: usize = 0;
    proof {
        assert(ratings@.take(0) =~= Seq::<Rating>::empty());
    }
    while k < n
        invariant
            n == ratings@.len(),
            forall|i: int| 0 <= i < ratings@.len() ==> (#[trigger] ratings@[i]).wf(),
            k <= n,
            p.wf(),
            q.wf(),
            p.val() == prod_spam(ratings@.take(k as int)),
            q.val() == prod_ham(ratings@.take(k as int)),
        decreases n - k,
    {
        let x = ratings[k];
        p = p.mul_small(x.spam_weight);
        q = q.mul_small(x.ham_weight);
        proof {
            let pre = ratings@.take(k as int);
            let post = ratings@.take(k as int + 1);
            assert(post.drop_last() =~= pre);
            assert(post.last() == ratings@[k as int]);
        }
        k += 1;
    }
    proof {
        assert(ratings@.take(n as int) =~= ratings@);
    }
    (p, q)
}

impl Classifier {
    /// Compute the spam score of `msg` as an exact rational: rate every
    /// word, keep the twenty most extreme ratings when there are more,
    /// and combine the retained ratings' weights into the two products
    /// whose ratio is the score.
    pub fn score(&self, msg: &str) -> (r: Score)
        requires
            self.wf(),
        ensures
            r.wf(),
            score_outcome(
                self.entries(),
                self.spam_total(),
                self.ham_total(),
                msg@,
                r.spam_part(),
                r.ham_part(),
            ),
    {
        let ghost ws = words_of(msg@);
        let ghost rs = spec_ratings(self.entries(), self.spam_total(), self.ham_total(), ws);
        let ratings = self.rate_words(msg);
        let n = ratings.len();
        if n == 0 {
            Score { spam_product: BigNum::zero(), ham_product: BigNum::one() }
        } else if n <= 20 {
            proof {
                lemma_prod_pos(ratings@);
            }
            let (p, q) = combine(&ratings);
            Score { spam_product: p, ham_product: q }
        } else {
            let sorted = sort_ratings(&ratings);
            let mut keep: Vec<Rating> = Vec::new();
            let mut k: usize = 0;
            proof {
                assert(keep@ =~= sorted@.take(0));
            }
            while k < 10
                invariant
                    sorted@.len() == n,
                    n > 20,
                    k <= 10,
                    keep@ == sorted@.take(k as int),
                decreases 10 - k,
            {
                let x = sorted[k];
                keep.push(x);
                proof {
                    assert(keep@ =~= sorted@.take(k as int + 1));
                }
                k += 1;
            }
            let mut j: usize = n - 10;
            proof {
                assert(keep@ =~= sorted@.take(10) + sorted@.skip(n as int - 10).take(0));
            }
            while j < n
                invariant
                    sorted@.len() == n,
                    n > 20,
                    n == ratings@.len(),
                    n - 10 <= j <= n,
                    keep@ == sorted@.take(10) + sorted@.skip(n as int - 10).take(
                        j as int - (n as int - 10),
                    ),
                decreases n - j,
            {
                let x = sorted[j];
                keep.push(x);
                proof {
                    assert(keep@ =~= sorted@.take(10) + sorted@.skip(n as int - 10).take(
                        j as int + 1 - (n as int - 10),
                    ));
                }
                j += 1;
            }
            proof {
                assert(sorted@.skip(n as int - 10).take(10) =~= sorted@.skip(n as int - 10));
                assert(keep@ == sorted@.take(10) + sorted@.skip(n as int - 10));
                assert(keep@ == select_extremes(sorted@));
                assert(forall|i: int| 0 <= i < keep@.len() ==> (#[trigger] keep@[i]).wf());
                lemma_prod_pos(keep@);
            }
            let (p, q) = combine(&keep);
            let r = Score { spam_product: p, ham_product: q };
            proof {
                let srt = sorted@;
                assert(srt.to_multiset() == rs.to_multiset() && ratings_sorted(srt)
                    && r.spam_part() == prod_spam(select_extremes(srt)) && r.ham_part()
                    == prod_ham(select_extremes(srt)));
            }
            r
        }
    }

    /// Identify whether `msg` is spam: its score strictly exceeds the
    /// fixed threshold of four fifths.
    pub fn identify(&self, msg: &str) -> (r: bool)
        requires
            self.wf(),
        ensures
            exists|p: nat, q: nat|
                {
                    &&& #[trigger] score_outcome(
                        self.entries(),
                        self.spam_total(),
                        self.ham_total(),
                        msg@,
                        p,
                        q,
                    )
                    &&& r == (p * 5 > 4 * (p + q))
                },
    {
        let s = self.score(msg);
        let r = s.exceeds(4, 5);
        proof {
            let p = s.spam_part();
            let q = s.ham_part();
            assert(score_outcome(
                self.entries(),
                self.spam_total(),
                self.ham_total(),
                msg@,
                p,
                q,
            ) && r == (p * 5 > 4 * (p + q)));
        }
        r
    }
}

} // verus!
