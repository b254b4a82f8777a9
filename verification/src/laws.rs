//! The library's laws: properties of rating and scoring that hold for
//! every model, stated and proved over the same spec functions the
//! public contracts use.

use vstd::prelude::*;
use crate::classifier::{Counter, counter_of, has_token};
use crate::rating::{Rating, rating_leq, ratings_sorted, spec_rate, spec_ratings};
use crate::score::{prod_ham, prod_spam, score_outcome, select_extremes};
use crate::tokenizer::words_of;
use vstd::seq_lib::group_to_multiset_ensures;

verus! {

/// A token seen only in spam rates exactly ninety-nine hundredths, and a
/// token seen only in ham exactly one hundredth, in every model.
pub proof fn lemma_rate_one_sided(
    t: Seq<(Seq<char>, Counter)>,
    spam_total: u32,
    ham_total: u32,
    tok: Seq<char>,
)
    requires
        has_token(t, tok),
    ensures
        counter_of(t, tok).spam > 0 && counter_of(t, tok).ham == 0 ==> spec_rate(
            t,
            spam_total,
            ham_total,
            tok,
        ) == (Rating { spam_weight: 99, ham_weight: 1 }),
        counter_of(t, tok).spam == 0 && counter_of(t, tok).ham > 0 ==> spec_rate(
            t,
            spam_total,
            ham_total,
            tok,
        ) == (Rating { spam_weight: 1, ham_weight: 99 }),
{
}

/// An unseen token always rates exactly one half, in every model.
pub proof fn lemma_rate_unseen(
    t: Seq<(Seq<char>, Counter)>,
    spam_total: u32,
    ham_total: u32,
    tok: Seq<char>,
)
    requires
        !has_token(t, tok),
    ensures
        spec_rate(t, spam_total, ham_total, tok) == (Rating { spam_weight: 1, ham_weight: 1 }),
{
}

/// Weight products over a run of one-half ratings are both one.
proof fn lemma_prod_all_half(s: Seq<Rating>)
    requires
        forall|i: int| 0 <= i < s.len() ==> s[i] == (Rating { spam_weight: 1, ham_weight: 1 }),
    ensures
        prod_spam(s) == 1,
        prod_ham(s) == 1,
    decreases s.len(),
{
    if s.len() > 0 {
        assert(s.last() == s[s.len() - 1]);
        lemma_prod_all_half(s.drop_last());
    }
}

/// On a model with an empty table, any message with at least one word
/// scores exactly one half: both weight products are one.
pub proof fn lemma_score_empty_table(
    t: Seq<(Seq<char>, Counter)>,
    spam_total: u32,
    ham_total: u32,
    msg: Seq<char>,
    p: nat,
    q: nat,
)
    requires
        t.len() == 0,
        words_of(msg).len() > 0,
        score_outcome(t, spam_total, ham_total, msg, p, q),
    ensures
        p == 1,
        q == 1,
{
    broadcast use group_to_multiset_ensures;

    let ws = words_of(msg);
    let rs = spec_ratings(t, spam_total, ham_total, ws);
    let half = Rating { spam_weight: 1, ham_weight: 1 };
    assert forall|i: int| 0 <= i < rs.len() implies rs[i] == half by {
        assert(!has_token(t, ws[i]));
    }
    if ws.len() <= 20 {
        lemma_prod_all_half(rs);
    } else {
        let srt = choose|srt: Seq<Rating>|
            {
                &&& srt.to_multiset() == rs.to_multiset()
                &&& ratings_sorted(srt)
                &&& p == prod_spam(#[trigger] select_extremes(srt))
                &&& q == prod_ham(select_extremes(srt))
            };
        assert(srt.to_multiset().len() == rs.to_multiset().len());
        assert(srt.len() == rs.len());
        assert forall|i: int| 0 <= i < srt.len() implies srt[i] == half by {
            assert(srt.contains(srt[i]));
            assert(srt.to_multiset().count(srt[i]) > 0);
            assert(rs.to_multiset().count(srt[i]) > 0);
            assert(rs.contains(srt[i]));
            let j = choose|j: int| 0 <= j < rs.len() && rs[j] == srt[i];
            assert(rs[j] == half);
        }
        let sel = select_extremes(srt);
        assert forall|i: int| 0 <= i < sel.len() implies sel[i] == half by {
            assert(sel == srt.take(10) + srt.skip(srt.len() - 10));
        }
        lemma_prod_all_half(sel);
    }
}

/// Monotonicity of the mixed-count rating: if a token's spam count grows
/// while its ham count stays fixed (the spam total growing by the same
/// amount), its rating does not decrease. The hypothesis that the count
/// is bounded by the total is exactly what a well-formed model provides.
pub proof fn lemma_rate_monotone(
    t1: Seq<(Seq<char>, Counter)>,
    spam_total1: u32,
    t2: Seq<(Seq<char>, Counter)>,
    spam_total2: u32,
    ham_total: u32,
    tok: Seq<char>,
)
    requires
        has_token(t1, tok),
        has_token(t2, tok),
        counter_of(t1, tok).ham == counter_of(t2, tok).ham,
        counter_of(t1, tok).spam <= counter_of(t2, tok).spam,
        counter_of(t1, tok).spam > 0,
        counter_of(t1, tok).ham > 0,
        spam_total1 > 0,
        ham_total > 0,
        counter_of(t1, tok).spam <= spam_total1,
        spam_total2 == spam_total1 + counter_of(t2, tok).spam - counter_of(t1, tok).spam,
    ensures
        rating_leq(
            spec_rate(t1, spam_total1, ham_total, tok),
            spec_rate(t2, spam_total2, ham_total, tok),
        ),
{
    let c1 = counter_of(t1, tok);
    let c2 = counter_of(t2, tok);
    let s1 = c1.spam as int;
    let s2 = c2.spam as int;
    let h = c1.ham as int;
    let cap_s1 = spam_total1 as int;
    let cap_s2 = spam_total2 as int;
    let cap_h = ham_total as int;
    let p1 = s1 * cap_h;
    let q1 = h * cap_s1;
    let p2 = s2 * cap_h;
    let q2 = h * cap_s2;
    // the unclamped values are ordered: p1 * q2 <= p2 * q1
    assert(p1 * q2 <= p2 * q1) by (nonlinear_arith)
        requires
            p1 == s1 * cap_h,
            q1 == h * cap_s1,
            p2 == s2 * cap_h,
            q2 == h * cap_s2,
            cap_s2 == cap_s1 + s2 - s1,
            1 <= s1 <= s2,
            1 <= h,
            1 <= cap_h,
            s1 <= cap_s1,
    ;
    assert(p1 >= 1 && q1 >= 1 && p2 >= 1 && q2 >= 1) by (nonlinear_arith)
        requires
            p1 == s1 * cap_h,
            q1 == h * cap_s1,
            p2 == s2 * cap_h,
            q2 == h * cap_s2,
            1 <= s1 <= s2,
            1 <= h,
            1 <= cap_h,
            1 <= cap_s1,
            cap_s2 == cap_s1 + s2 - s1,
    ;
    assert(p1 <= u64::MAX && q1 <= u64::MAX && p2 <= u64::MAX && q2 <= u64::MAX)
        by (nonlinear_arith)
        requires
            p1 == s1 * cap_h,
            q1 == h * cap_s1,
            p2 == s2 * cap_h,
            q2 == h * cap_s2,
            0 <= s1 <= u32::MAX,
            0 <= s2 <= u32::MAX,
            0 <= h <= u32::MAX,
            0 <= cap_h <= u32::MAX,
            0 <= cap_s1 <= u32::MAX,
            0 <= cap_s2 <= u32::MAX,
    ;
    let r1 = spec_rate(t1, spam_total1, ham_total, tok);
    let r2 = spec_rate(t2, spam_total2, ham_total, tok);
    if 99 * p1 < q1 {
        assert(r1 == (Rating { spam_weight: 1, ham_weight: 99 }));
        if 99 * p2 < q2 {
            assert(r2 == (Rating { spam_weight: 1, ham_weight: 99 }));
            assert(rating_leq(r1, r2));
        } else {
            // r1 is the floor, r2 is (p2, q2): 1 * q2 <= p2 * 99
            assert(r2 == (Rating { spam_weight: p2 as u64, ham_weight: q2 as u64 }));
            assert(r2.spam_weight == p2 && r2.ham_weight == q2);
            assert(r1.spam_weight * r2.ham_weight <= r2.spam_weight * r1.ham_weight)
                by (nonlinear_arith)
                requires
                    r1.spam_weight == 1 && r1.ham_weight == 99 && r2.spam_weight == p2
                        && r2.ham_weight == q2 && q2 <= 99 * p2,
            ;
        }
    } else {
        assert(r1 == (Rating { spam_weight: p1 as u64, ham_weight: q1 as u64 }));
        assert(r1.spam_weight == p1 && r1.ham_weight == q1);
        if 99 * p2 < q2 {
            // impossible: the value grew, so it cannot fall below the floor
            assert(false) by (nonlinear_arith)
                requires
                    p1 * q2 <= p2 * q1,
                    99 * p2 < q2,
                    99 * p1 >= q1,
                    p1 >= 1 && q1 >= 1 && p2 >= 1 && q2 >= 1,
            ;
        } else {
            assert(r2 == (Rating { spam_weight: p2 as u64, ham_weight: q2 as u64 }));
            assert(r2.spam_weight == p2 && r2.ham_weight == q2);
            assert(rating_leq(r1, r2));
        }
    }
}

} // verus!
