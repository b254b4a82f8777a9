//! The classifier model: per-token spam/ham counts with cached totals,
//! and the training operations that grow them.

use vstd::prelude::*;
use crate::tokenizer::{words_of, load_word_list};

verus! {

/// Per-token observation counts. Both counts start at zero and only ever
/// grow: training is the sole mutation and it only increments.
#[derive(Clone, Copy, PartialEq, Eq, Structural, Debug)]
pub struct Counter {
    pub ham: u32,
    pub spam: u32,
}

/// A concrete table as its abstract view: each entry's token as a
/// character sequence beside its counts.
pub open spec fn table_view(t: Seq<(String, Counter)>) -> Seq<(Seq<char>, Counter)> {
    t.map_values(|p: (String, Counter)| (p.0@, p.1))
}

/// The model's table, seen abstractly: a sequence of (token, counts)
/// entries with pairwise distinct tokens. Insertion order is irrelevant
/// to scoring but kept deterministic.
pub open spec fn keys_unique(t: Seq<(Seq<char>, Counter)>) -> bool {
    forall|i: int, j: int| 0 <= i < j < t.len() ==> t[i].0 != t[j].0
}

pub open spec fn has_token(t: Seq<(Seq<char>, Counter)>, tok: Seq<char>) -> bool {
    exists|i: int| 0 <= i < t.len() && t[i].0 == tok
}

pub open spec fn token_index(t: Seq<(Seq<char>, Counter)>, tok: Seq<char>) -> int {
    choose|i: int| 0 <= i < t.len() && t[i].0 == tok
}

/// The counts recorded for `tok` (meaningful when `has_token` holds).
pub open spec fn counter_of(t: Seq<(Seq<char>, Counter)>, tok: Seq<char>) -> Counter {
    t[token_index(t, tok)].1
}

/// Sum of the `spam` field over all entries.
pub open spec fn spam_sum(t: Seq<(Seq<char>, Counter)>) -> int
    decreases t.len(),
{
    if t.len() == 0 {
        0
    } else {
        spam_sum(t.drop_last()) + t.last().1.spam
    }
}

/// Sum of the `ham` field over all entries.
pub open spec fn ham_sum(t: Seq<(Seq<char>, Counter)>) -> int
    decreases t.len(),
{
    if t.len() == 0 {
        0
    } else {
        ham_sum(t.drop_last()) + t.last().1.ham
    }
}

/// The table after one spam observation of `tok`: the token's entry has
/// its `spam` count incremented, a fresh entry starting at (ham 0, spam 1)
/// if the token was unseen.
pub open spec fn add_spam_token(
    t: Seq<(Seq<char>, Counter)>,
    tok: Seq<char>,
) -> Seq<(Seq<char>, Counter)> {
    if has_token(t, tok) {
        let i = token_index(t, tok);
        t.update(i, (tok, Counter { ham: t[i].1.ham, spam: (t[i].1.spam + 1) as u32 }))
    } else {
        t.push((tok, Counter { ham: 0, spam: 1 }))
    }
}

/// The table after one ham observation of `tok`.
pub open spec fn add_ham_token(
    t: Seq<(Seq<char>, Counter)>,
    tok: Seq<char>,
) -> Seq<(Seq<char>, Counter)> {
    if has_token(t, tok) {
        let i = token_index(t, tok);
        t.update(i, (tok, Counter { ham: (t[i].1.ham + 1) as u32, spam: t[i].1.spam }))
    } else {
        t.push((tok, Counter { ham: 1, spam: 0 }))
    }
}

/// The table after training on a whole word sequence as spam, word by
/// word in order.
pub open spec fn train_spam_seq(
    t: Seq<(Seq<char>, Counter)>,
    ws: Seq<Seq<char>>,
) -> Seq<(Seq<char>, Counter)>
    decreases ws.len(),
{
    if ws.len() == 0 {
        t
    } else {
        train_spam_seq(add_spam_token(t, ws[0]), ws.drop_first())
    }
}

/// The table after training on a whole word sequence as ham.
pub open spec fn train_ham_seq(
    t: Seq<(Seq<char>, Counter)>,
    ws: Seq<Seq<char>>,
) -> Seq<(Seq<char>, Counter)>
    decreases ws.len(),
{
    if ws.len() == 0 {
        t
    } else {
        train_ham_seq(add_ham_token(t, ws[0]), ws.drop_first())
    }
}

/// A Bayesian spam classifier: a token table and the cached totals of its
/// two count columns.
pub struct Classifier {
    token_table: Vec<(String, Counter)>,
    spam_total_count: u32,
    ham_total_count: u32,
}

impl Classifier {
    /// The token table as a sequence of (token, counts) entries.
    pub closed spec fn entries(&self) -> Seq<(Seq<char>, Counter)> {
        table_view(self.token_table@)
    }

    pub closed spec fn spam_total(&self) -> u32 {
        self.spam_total_count
    }

    pub closed spec fn ham_total(&self) -> u32 {
        self.ham_total_count
    }

    /// Well-formedness: tokens are unique, and the cached totals are
    /// exactly the column sums of the table. Every operation of the
    /// library preserves this.
    pub open spec fn wf(&self) -> bool {
        &&& keys_unique(self.entries())
        &&& self.spam_total() == spam_sum(self.entries())
        &&& self.ham_total() == ham_sum(self.entries())
    }

    /// Build a new classifier with an empty model.
    pub fn new() -> (r: Self)
        ensures
            r.wf(),
            r.entries() == Seq::<(Seq<char>, Counter)>::empty(),
            r.spam_total() == 0,
            r.ham_total() == 0,
    {
        let r = Classifier { token_table: Vec::new(), spam_total_count: 0, ham_total_count: 0 };
        proof {
            assert(r.entries() =~= Seq::<(Seq<char>, Counter)>::empty());
        }
        r
    }

    /// Total number of spam observations over the whole table.
    pub fn spam_total_count(&self) -> (r: u32)
        ensures
            r == self.spam_total(),
    {
        self.spam_total_count
    }

    /// Total number of ham observations over the whole table.
    pub fn ham_total_count(&self) -> (r: u32)
        ensures
            r == self.ham_total(),
    {
        self.ham_total_count
    }

    /// Index of `tok` in the table, if present.
    fn find_token(&self, tok: &String) -> (r: Option<usize>)
        ensures
            match r {
                Some(j) => {
                    &&& j < self.entries().len()
                    &&& self.entries()[j as int].0 == tok@
                    &&& has_token(self.entries(), tok@)
                    &&& keys_unique(self.entries()) ==> j == token_index(self.entries(), tok@)
                },
                None => !has_token(self.entries(), tok@),
            },
    {
        let ghost t = self.entries();
        let n = self.token_table.len();
        let mut i: usize = 0;
        while i < n
            invariant
                n == self.token_table.len(),
                t == self.entries(),
                i <= n,
                forall|k: int| 0 <= k < i ==> t[k].0 != tok@,
            decreases n - i,
        {
            if self.token_table[i].0 == *tok {
                proof {
                    assert(t[i as int].0 == tok@);
                    if keys_unique(t) {
                        let w = token_index(t, tok@);
                        assert(0 <= w < t.len() && t[w].0 == tok@);
                        if w != i as int {
                            assert(t[w].0 != t[i as int].0 || t[i as int].0 != t[w].0);
                        }
                    }
                }
                return Some(i);
            }
            i += 1;
        }
        proof {
            if has_token(t, tok@) {
                let w = token_index(t, tok@);
                assert(t[w].0 != tok@);
            }
        }
        None
    }

    /// Number of distinct tokens in the table.
    pub fn table_len(&self) -> (n: usize)
        ensures
            n == self.entries().len(),
    {
        self.token_table.len()
    }

    /// The table entry at position `i`.
    pub fn table_entry(&self, i: usize) -> (e: &(String, Counter))
        requires
            i < self.entries().len(),
        ensures
            (e.0@, e.1) == self.entries()[i as int],
    {
        &self.token_table[i]
    }

    /// Assemble a classifier from an already checked table and its
    /// column sums.
    pub(crate) fn from_parts(
        token_table: Vec<(String, Counter)>,
        spam_total_count: u32,
        ham_total_count: u32,
    ) -> (r: Classifier)
        requires
            keys_unique(table_view(token_table@)),
            spam_total_count == spam_sum(table_view(token_table@)),
            ham_total_count == ham_sum(table_view(token_table@)),
        ensures
            r.wf(),
            r.entries() == table_view(token_table@),
            r.spam_total() == spam_total_count,
            r.ham_total() == ham_total_count,
    {
        Classifier { token_table, spam_total_count, ham_total_count }
    }

    /// The counts recorded for `token`, if the token has been seen.
    pub fn lookup_token(&self, token: &str) -> (r: Option<Counter>)
        ensures
            match r {
                Some(c) => {
                    &&& has_token(self.entries(), token@)
                    &&& keys_unique(self.entries()) ==> c == counter_of(self.entries(), token@)
                },
                None => !has_token(self.entries(), token@),
            },
    {
        let key = String::from_str(token);
        match self.find_token(&key) {
            Some(j) => Some(self.token_table[j].1),
            None => None,
        }
    }
}

/// Each entry's spam count is at most the spam column sum.
pub proof fn lemma_entry_le_spam_sum(t: Seq<(Seq<char>, Counter)>, i: int)
    requires
        0 <= i < t.len(),
    ensures
        t[i].1.spam <= spam_sum(t),
        spam_sum(t) >= 0,
    decreases t.len(),
{
    if t.len() > 0 {
        if i < t.len() - 1 {
            lemma_entry_le_spam_sum(t.drop_last(), i);
            assert(t.drop_last()[i] == t[i]);
        } else {
            lemma_spam_sum_nonneg(t.drop_last());
        }
    }
}

/// Each entry's ham count is at most the ham column sum.
pub proof fn lemma_entry_le_ham_sum(t: Seq<(Seq<char>, Counter)>, i: int)
    requires
        0 <= i < t.len(),
    ensures
        t[i].1.ham <= ham_sum(t),
        ham_sum(t) >= 0,
    decreases t.len(),
{
    if t.len() > 0 {
        if i < t.len() - 1 {
            lemma_entry_le_ham_sum(t.drop_last(), i);
            assert(t.drop_last()[i] == t[i]);
        } else {
            lemma_ham_sum_nonneg(t.drop_last());
        }
    }
}

pub proof fn lemma_spam_sum_nonneg(t: Seq<(Seq<char>, Counter)>)
    ensures
        spam_sum(t) >= 0,
    decreases t.len(),
{
    if t.len() > 0 {
        lemma_spam_sum_nonneg(t.drop_last());
    }
}

pub proof fn lemma_ham_sum_nonneg(t: Seq<(Seq<char>, Counter)>)
    ensures
        ham_sum(t) >= 0,
    decreases t.len(),
{
    if t.len() > 0 {
        lemma_ham_sum_nonneg(t.drop_last());
    }
}

/// Replacing entry `i` shifts each column sum by the difference at `i`.
proof fn lemma_sums_update(t: Seq<(Seq<char>, Counter)>, i: int, e: (Seq<char>, Counter))
    requires
        0 <= i < t.len(),
    ensures
        spam_sum(t.update(i, e)) == spam_sum(t) - t[i].1.spam + e.1.spam,
        ham_sum(t.update(i, e)) == ham_sum(t) - t[i].1.ham + e.1.ham,
    decreases t.len(),
{
    let u = t.update(i, e);
    if i == t.len() - 1 {
        assert(u.drop_last() =~= t.drop_last());
        assert(u.last() == e);
    } else {
        lemma_sums_update(t.drop_last(), i, e);
        assert(u.drop_last() =~= t.drop_last().update(i, e));
        assert(u.last() == t.last());
    }
}

/// Appending an entry adds its counts to the column sums.
proof fn lemma_sums_push(t: Seq<(Seq<char>, Counter)>, e: (Seq<char>, Counter))
    ensures
        spam_sum(t.push(e)) == spam_sum(t) + e.1.spam,
        ham_sum(t.push(e)) == ham_sum(t) + e.1.ham,
{
    assert(t.push(e).drop_last() =~= t);
    assert(t.push(e).last() == e);
}

/// One spam observation: the spam sum grows by one, the ham sum is kept,
/// and token uniqueness is preserved.
pub proof fn lemma_add_spam_token(t: Seq<(Seq<char>, Counter)>, tok: Seq<char>)
    requires
        keys_unique(t),
        has_token(t, tok) ==> counter_of(t, tok).spam < u32::MAX,
    ensures
        keys_unique(add_spam_token(t, tok)),
        spam_sum(add_spam_token(t, tok)) == spam_sum(t) + 1,
        ham_sum(add_spam_token(t, tok)) == ham_sum(t),
{
    let u = add_spam_token(t, tok);
    if has_token(t, tok) {
        let i = token_index(t, tok);
        assert(0 <= i < t.len() && t[i].0 == tok);
        let e = (tok, Counter { ham: t[i].1.ham, spam: (t[i].1.spam + 1) as u32 });
        lemma_sums_update(t, i, e);
        assert(forall|a: int, b: int| 0 <= a < b < u.len() ==> u[a].0 != u[b].0) by {
            assert(forall|k: int| 0 <= k < u.len() ==> u[k].0 == t[k].0);
        }
    } else {
        lemma_sums_push(t, (tok, Counter { ham: 0, spam: 1 }));
        assert(forall|a: int, b: int| 0 <= a < b < u.len() ==> u[a].0 != u[b].0) by {
            assert(forall|k: int| 0 <= k < t.len() ==> u[k].0 == t[k].0);
            assert(forall|k: int| 0 <= k < t.len() ==> t[k].0 != tok);
        }
    }
}

/// One ham observation, symmetrically.
pub proof fn lemma_add_ham_token(t: Seq<(Seq<char>, Counter)>, tok: Seq<char>)
    requires
        keys_unique(t),
        has_token(t, tok) ==> counter_of(t, tok).ham < u32::MAX,
    ensures
        keys_unique(add_ham_token(t, tok)),
        ham_sum(add_ham_token(t, tok)) == ham_sum(t) + 1,
        spam_sum(add_ham_token(t, tok)) == spam_sum(t),
{
    let u = add_ham_token(t, tok);
    if has_token(t, tok) {
        let i = token_index(t, tok);
        assert(0 <= i < t.len() && t[i].0 == tok);
        let e = (tok, Counter { ham: (t[i].1.ham + 1) as u32, spam: t[i].1.spam });
        lemma_sums_update(t, i, e);
        assert(forall|a: int, b: int| 0 <= a < b < u.len() ==> u[a].0 != u[b].0) by {
            assert(forall|k: int| 0 <= k < u.len() ==> u[k].0 == t[k].0);
        }
    } else {
        lemma_sums_push(t, (tok, Counter { ham: 1, spam: 0 }));
        assert(forall|a: int, b: int| 0 <= a < b < u.len() ==> u[a].0 != u[b].0) by {
            assert(forall|k: int| 0 <= k < t.len() ==> u[k].0 == t[k].0);
            assert(forall|k: int| 0 <= k < t.len() ==> t[k].0 != tok);
        }
    }
}

/// Unrolling a spam training fold at the back.
proof fn lemma_train_spam_seq_push(t: Seq<(Seq<char>, Counter)>, ws: Seq<Seq<char>>, w: Seq<char>)
    ensures
        train_spam_seq(t, ws.push(w)) == add_spam_token(train_spam_seq(t, ws), w),
    decreases ws.len(),
{
    let one = ws.push(w);
    if ws.len() == 0 {
        assert(one[0] == w);
        assert(one.drop_first() =~= Seq::<Seq<char>>::empty());
        assert(train_spam_seq(t, one) == train_spam_seq(add_spam_token(t, w), one.drop_first()));
        assert(train_spam_seq(add_spam_token(t, w), one.drop_first()) == add_spam_token(t, w));
        assert(train_spam_seq(t, ws) == t);
    } else {
        assert(one[0] == ws[0]);
        assert(one.drop_first() =~= ws.drop_first().push(w));
        assert(train_spam_seq(t, one) == train_spam_seq(
            add_spam_token(t, ws[0]),
            ws.drop_first().push(w),
        ));
        lemma_train_spam_seq_push(add_spam_token(t, ws[0]), ws.drop_first(), w);
        assert(train_spam_seq(t, ws) == train_spam_seq(add_spam_token(t, ws[0]), ws.drop_first()));
    }
}

/// Unrolling a ham training fold at the back.
proof fn lemma_train_ham_seq_push(t: Seq<(Seq<char>, Counter)>, ws: Seq<Seq<char>>, w: Seq<char>)
    ensures
        train_ham_seq(t, ws.push(w)) == add_ham_token(train_ham_seq(t, ws), w),
    decreases ws.len(),
{
    let one = ws.push(w);
    if ws.len() == 0 {
        assert(one[0] == w);
        assert(one.drop_first() =~= Seq::<Seq<char>>::empty());
        assert(train_ham_seq(t, one) == train_ham_seq(add_ham_token(t, w), one.drop_first()));
        assert(train_ham_seq(add_ham_token(t, w), one.drop_first()) == add_ham_token(t, w));
        assert(train_ham_seq(t, ws) == t);
    } else {
        assert(one[0] == ws[0]);
        assert(one.drop_first() =~= ws.drop_first().push(w));
        assert(train_ham_seq(t, one) == train_ham_seq(
            add_ham_token(t, ws[0]),
            ws.drop_first().push(w),
        ));
        lemma_train_ham_seq_push(add_ham_token(t, ws[0]), ws.drop_first(), w);
        assert(train_ham_seq(t, ws) == train_ham_seq(add_ham_token(t, ws[0]), ws.drop_first()));
    }
}

impl Classifier {
    /// Train the classifier with a spam `msg`: every word of the message
    /// adds one spam observation for its token. The totals stay the exact
    /// column sums; the word count of a message never exceeds its length
    /// in characters, so the bound below keeps every increment in range.
    pub fn train_spam(&mut self, msg: &str)
        requires
            old(self).wf(),
            old(self).spam_total() + msg@.len() <= u32::MAX,
        ensures
            final(self).wf(),
            final(self).entries() == train_spam_seq(old(self).entries(), words_of(msg@)),
            final(self).spam_total() == old(self).spam_total() + words_of(msg@).len(),
            final(self).ham_total() == old(self).ham_total(),
    {
        let words = load_word_list(msg);
        let ghost ws = words_of(msg@);
        let ghost t0 = self.entries();
        let n = words.len();
        let mut k: usize = 0;
        proof {
            assert(ws.take(0) =~= Seq::<Seq<char>>::empty());
        }
        while k < n
            invariant
                n == words@.len(),
                words@.map_values(|w: String| w@) == ws,
                k <= n,
                self.wf(),
                self.entries() == train_spam_seq(t0, ws.take(k as int)),
                self.spam_total() == old(self).spam_total() + k,
                self.ham_total() == old(self).ham_total(),
                old(self).spam_total() + n <= u32::MAX,
            decreases n - k,
        {
            let w = &words[k];
            proof {
                assert(ws[k as int] == words@.map_values(|x: String| x@)[k as int]);
            }
            let ghost tcur = self.entries();
            match self.find_token(w) {
                Some(j) => {
                    proof {
                        lemma_entry_le_spam_sum(tcur, j as int);
                        assert(j as int == token_index(tcur, w@));
                        lemma_add_spam_token(tcur, w@);
                    }
                    let e = vstd::std_specs::vec::vec_index_mut(&mut self.token_table, j);
                    let c = e.1;
                    e.1 = Counter { ham: c.ham, spam: c.spam + 1 };
                    proof {
                        assert(self.entries() =~= add_spam_token(tcur, w@));
                    }
                },
                None => {
                    proof {
                        lemma_add_spam_token(tcur, w@);
                    }
                    let key = w.clone();
                    self.token_table.push((key, Counter { ham: 0, spam: 1 }));
                    proof {
                        assert(self.entries() =~= add_spam_token(tcur, w@));
                    }
                },
            }
            self.spam_total_count = self.spam_total_count + 1;
            k += 1;
            proof {
                assert(ws.take(k as int) =~= ws.take(k as int - 1).push(ws[k as int - 1]));
                lemma_train_spam_seq_push(t0, ws.take(k as int - 1), ws[k as int - 1]);
            }
        }
        proof {
            assert(ws.take(n as int) =~= ws);
        }
    }

    /// Train the classifier with a ham `msg`, symmetrically.
    pub fn train_ham(&mut self, msg: &str)
        requires
            old(self).wf(),
            old(self).ham_total() + msg@.len() <= u32::MAX,
        ensures
            final(self).wf(),
            final(self).entries() == train_ham_seq(old(self).entries(), words_of(msg@)),
            final(self).ham_total() == old(self).ham_total() + words_of(msg@).len(),
            final(self).spam_total() == old(self).spam_total(),
    {
        let words = load_word_list(msg);
        let ghost ws = words_of(msg@);
        let ghost t0 = self.entries();
        let n = words.len();
        let mut k: usize = 0;
        proof {
            assert(ws.take(0) =~= Seq::<Seq<char>>::empty());
        }
        while k < n
            invariant
                n == words@.len(),
                words@.map_values(|w: String| w@) == ws,
                k <= n,
                self.wf(),
                self.entries() == train_ham_seq(t0, ws.take(k as int)),
                self.ham_total() == old(self).ham_total() + k,
                self.spam_total() == old(self).spam_total(),
                old(self).ham_total() + n <= u32::MAX,
            decreases n - k,
        {
            let w = &words[k];
            proof {
                assert(ws[k as int] == words@.map_values(|x: String| x@)[k as int]);
            }
            let ghost tcur = self.entries();
            match self.find_token(w) {
                Some(j) => {
                    proof {
                        lemma_entry_le_ham_sum(tcur, j as int);
                        assert(j as int == token_index(tcur, w@));
                        lemma_add_ham_token(tcur, w@);
                    }
                    let e = vstd::std_specs::vec::vec_index_mut(&mut self.token_table, j);
                    let c = e.1;
                    e.1 = Counter { ham: c.ham + 1, spam: c.spam };
                    proof {
                        assert(self.entries() =~= add_ham_token(tcur, w@));
                    }
                },
                None => {
                    proof {
                        lemma_add_ham_token(tcur, w@);
                    }
                    let key = w.clone();
                    self.token_table.push((key, Counter { ham: 1, spam: 0 }));
                    proof {
                        assert(self.entries() =~= add_ham_token(tcur, w@));
                    }
                },
            }
            self.ham_total_count = self.ham_total_count + 1;
            k += 1;
            proof {
                assert(ws.take(k as int) =~= ws.take(k as int - 1).push(ws[k as int - 1]));
                lemma_train_ham_seq_push(t0, ws.take(k as int - 1), ws[k as int - 1]);
            }
        }
        proof {
            assert(ws.take(n as int) =~= ws);
        }
    }
}

} // verus!
