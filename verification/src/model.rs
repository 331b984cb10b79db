//! The word-frequency model: a mapping from words to occurrence counts,
//! together with the total number of counted tokens.  Built once by
//! `counter` from a token stream and read-only afterwards.

use vstd::prelude::*;

use crate::text::{seq_has_string, vec_contains_string};

verus! {

/// Number of occurrences of the word `s` among the tokens `ts`.
pub open spec fn occurrences(ts: Seq<Seq<char>>, s: Seq<char>) -> nat
    decreases ts.len(),
{
    if ts.len() == 0 {
        0
    } else {
        occurrences(ts.drop_last(), s) + (if ts.last() == s {
            1nat
        } else {
            0nat
        })
    }
}

/// Sum of a sequence of counts.
pub open spec fn sum64(s: Seq<u64>) -> int
    decreases s.len(),
{
    if s.len() == 0 {
        0
    } else {
        sum64(s.drop_last()) + s.last()
    }
}

proof fn lemma_sum64_update(s: Seq<u64>, i: int, v: u64)
    requires
        0 <= i < s.len(),
    ensures
        sum64(s.update(i, v)) == sum64(s) - s[i] + v,
    decreases s.len(),
{
    let t = s.update(i, v);
    if i == s.len() - 1 {
        assert(t.drop_last() =~= s.drop_last());
        assert(t.last() == v);
    } else {
        assert(t.drop_last() =~= s.drop_last().update(i, v));
        assert(t.last() == s.last());
        lemma_sum64_update(s.drop_last(), i, v);
    }
}

/// A frequency model: parallel vectors of distinct words and their
/// positive counts, plus the cached total.
pub struct FrequencyModel {
    words: Vec<String>,
    counts: Vec<u64>,
    total: u64,
}

impl FrequencyModel {
    /// Well-formedness: one count per word, words distinct, every count
    /// at least one and at most the total, and the total is their sum.
    pub closed spec fn wf(self) -> bool {
        &&& self.counts@.len() == self.words@.len()
        &&& forall|i: int, j: int|
            0 <= i < j < self.words@.len() ==> self.words@[i]@ != self.words@[j]@
        &&& forall|i: int|
            0 <= i < self.counts@.len() ==> 1 <= #[trigger] self.counts@[i] <= self.total
        &&& self.total as int == sum64(self.counts@)
    }

    /// Whether `s` is a key of the model.
    pub closed spec fn spec_contains(self, s: Seq<char>) -> bool {
        seq_has_string(self.words@, s)
    }

    /// The count stored for `s`, or zero when `s` is not a key.
    pub closed spec fn spec_count(self, s: Seq<char>) -> nat {
        if seq_has_string(self.words@, s) {
            let i = choose|i: int| 0 <= i < self.words@.len() && self.words@[i]@ == s;
            self.counts@[i] as nat
        } else {
            0
        }
    }

    /// The total number of tokens counted into the model.
    pub closed spec fn spec_total(self) -> nat {
        self.total as nat
    }

    proof fn count_at(self, j: int)
        requires
            self.wf(),
            0 <= j < self.words@.len(),
        ensures
            self.spec_count(self.words@[j]@) == self.counts@[j],
    {
        let s = self.words@[j]@;
        assert(seq_has_string(self.words@, s));
        let i = choose|i: int| 0 <= i < self.words@.len() && self.words@[i]@ == s;
        assert(i == j);
    }

    /// The number of occurrences of `word` in the corpus the model was
    /// built from, and zero for a word that is absent.
    pub fn count(&self, word: &str) -> (r: u64)
        requires
            self.wf(),
        ensures
            r as nat == self.spec_count(word@),
            (r >= 1) == self.spec_contains(word@),
    {
        let w: String = word.to_owned();
        let mut i: usize = 0;
        while i < self.words.len()
            invariant
                self.wf(),
                w@ == word@,
                0 <= i <= self.words@.len(),
                forall|j: int| 0 <= j < i ==> self.words@[j]@ != w@,
            decreases self.words@.len() - i,
        {
            if self.words[i].eq(&w) {
                proof {
                    self.count_at(i as int);
                }
                return self.counts[i];
            }
            i = i + 1;
        }
        proof {
            assert(!seq_has_string(self.words@, word@));
        }
        0
    }

    /// Whether `word` is in the model's vocabulary.
    pub fn contains(&self, word: &str) -> (r: bool)
        requires
            self.wf(),
        ensures
            r == self.spec_contains(word@),
    {
        let w: String = word.to_owned();
        vec_contains_string(&self.words, &w)
    }

    /// The total number of tokens counted into the model.
    pub fn total_count(&self) -> (r: u64)
        ensures
            r as nat == self.spec_total(),
    {
        self.total
    }
}

/// Looks up `s` among `words`, returning its index if present.
fn find_word_index(words: &Vec<String>, s: &String) -> (r: Option<usize>)
    ensures
        match r {
            Some(i) => 0 <= i < words@.len() && words@[i as int]@ == s@,
            None => !seq_has_string(words@, s@),
        },
{
    let mut i: usize = 0;
    while i < words.len()
        invariant
            0 <= i <= words@.len(),
            forall|j: int| 0 <= j < i ==> words@[j]@ != s@,
        decreases words@.len() - i,
    {
        if words[i].eq(s) {
            return Some(i);
        }
        i = i + 1;
    }
    None
}

/// Builds the frequency model from a token stream: each token's count is
/// the number of times it occurs in `words`, and the total is the number
/// of tokens.
pub fn counter(words: Vec<String>) -> (r: FrequencyModel)
    ensures
        r.wf(),
        r.spec_total() == words@.len(),
        forall|s: Seq<char>|
            #[trigger] r.spec_count(s) == occurrences(words@.map_values(|w: String| w@), s),
        forall|s: Seq<char>| #[trigger] r.spec_contains(s) == seq_has_string(words@, s),
{
    let ghost ts = words@.map_values(|w: String| w@);
    let mut m = FrequencyModel { words: Vec::new(), counts: Vec::new(), total: 0 };
    let n = words.len();
    proof {
        assert(ts.take(0) =~= Seq::<Seq<char>>::empty());
    }
    let mut k: usize = 0;
    while k < n
        invariant
            n == words@.len(),
            ts == words@.map_values(|w: String| w@),
            0 <= k <= n,
            m.wf(),
            m.total as int == k as int,
            forall|s: Seq<char>| #[trigger] m.spec_count(s) == occurrences(ts.take(k as int), s),
            forall|s: Seq<char>|
                #[trigger] m.spec_contains(s) == seq_has_string(words@.take(k as int), s),
        decreases n - k,
    {
        let ghost m0 = m;
        let t = words[k].clone();
        proof {
            assert(ts[k as int] == t@);
            assert(ts.take(k + 1).drop_last() =~= ts.take(k as int));
            assert(ts.take(k + 1).last() == ts[k as int]);
        }
        match find_word_index(&m.words, &t) {
            Some(i) => {
                let c = m.counts[i];
                m.counts[i] = c + 1;
                m.total = m.total + 1;
                proof {
                    lemma_sum64_update(m0.counts@, i as int, (c + 1) as u64);
                    assert(m.words@ == m0.words@);
                    assert(m.counts@ == m0.counts@.update(i as int, (c + 1) as u64));
                    assert(m.wf());
                    assert forall|s: Seq<char>|
                        #[trigger] m.spec_count(s) == occurrences(ts.take(k + 1), s) by {
                        assert(m0.spec_count(s) == occurrences(ts.take(k as int), s));
                        assert(occurrences(ts.take(k + 1), s) == occurrences(
                            ts.take(k as int),
                            s,
                        ) + (if ts[k as int] == s {
                            1nat
                        } else {
                            0nat
                        }));
                        if seq_has_string(m.words@, s) {
                            let j = choose|j: int|
                                0 <= j < m.words@.len() && m.words@[j]@ == s;
                            m.count_at(j);
                            m0.count_at(j);
                            if j == i {
                                assert(s == t@);
                                assert(m.counts@[j] == c + 1);
                            } else {
                                assert(m.counts@[j] == m0.counts@[j]);
                                assert(s != t@);
                            }
                        } else {
                            assert(s != t@);
                            assert(m0.spec_count(s) == 0);
                        }
                    }
                    assert forall|s: Seq<char>|
                        #[trigger] m.spec_contains(s) == seq_has_string(
                            words@.take(k + 1),
                            s,
                        ) by {
                        let v1 = words@.take(k + 1);
                        let v0 = words@.take(k as int);
                        assert(v1.drop_last() =~= v0);
                        assert(m0.spec_contains(s) == seq_has_string(v0, s));
                        assert(m.spec_contains(s) == m0.spec_contains(s));
                        if seq_has_string(v1, s) {
                            let j = choose|j: int| 0 <= j < v1.len() && v1[j]@ == s;
                            if j < k {
                                assert(v0[j]@ == s);
                            } else {
                                assert(s == t@);
                                assert(seq_has_string(m0.words@, s));
                            }
                        }
                        if seq_has_string(v0, s) {
                            let j = choose|j: int| 0 <= j < v0.len() && v0[j]@ == s;
                            assert(v1[j]@ == s);
                        }
                        if s == t@ {
                            assert(v1[k as int]@ == s);
                        }
                    }
                }
            },
            None => {
                m.words.push(t);
                m.counts.push(1);
                m.total = m.total + 1;
                proof {
                    assert(m.counts@.drop_last() =~= m0.counts@);
                    assert(sum64(m.counts@) == sum64(m0.counts@) + 1);
                    assert(m.words@.len() == m0.words@.len() + 1);
                    assert(m.words@[m0.words@.len() as int]@ == t@);
                    assert(forall|j: int|
                        0 <= j < m0.words@.len() ==> #[trigger] m.words@[j]@ == m0.words@[j]@);
                    assert(m.wf()) by {
                        assert forall|i2: int, j2: int|
                            0 <= i2 < j2 < m.words@.len() implies m.words@[i2]@ != m.words@[j2]@ by {
                            if j2 == m0.words@.len() {
                                assert(m.words@[i2]@ == m0.words@[i2]@);
                                assert(!seq_has_string(m0.words@, t@));
                            }
                        }
                    }
                    assert forall|s: Seq<char>|
                        #[trigger] m.spec_count(s) == occurrences(ts.take(k + 1), s) by {
                        assert(m0.spec_count(s) == occurrences(ts.take(k as int), s));
                        assert(occurrences(ts.take(k + 1), s) == occurrences(
                            ts.take(k as int),
                            s,
                        ) + (if ts[k as int] == s {
                            1nat
                        } else {
                            0nat
                        }));
                        if seq_has_string(m.words@, s) {
                            let j = choose|j: int|
                                0 <= j < m.words@.len() && m.words@[j]@ == s;
                            m.count_at(j);
                            if j < m0.words@.len() {
                                m0.count_at(j);
                                assert(s != t@);
                            } else {
                                assert(s == t@);
                                assert(!seq_has_string(m0.words@, s));
                                assert(m0.spec_count(s) == 0);
                                assert(m.counts@[j] == 1);
                            }
                        } else {
                            assert(s != t@);
                            assert forall|j: int|
                                0 <= j < m0.words@.len() implies m0.words@[j]@ != s by {
                                assert(m.words@[j]@ == m0.words@[j]@);
                            }
                            assert(!seq_has_string(m0.words@, s));
                            assert(m0.spec_count(s) == 0);
                        }
                    }
                    assert forall|s: Seq<char>|
                        #[trigger] m.spec_contains(s) == seq_has_string(
                            words@.take(k + 1),
                            s,
                        ) by {
                        let v1 = words@.take(k + 1);
                        let v0 = words@.take(k as int);
                        assert(m0.spec_contains(s) == seq_has_string(v0, s));
                        if seq_has_string(v1, s) {
                            let j = choose|j: int| 0 <= j < v1.len() && v1[j]@ == s;
                            if j < k {
                                assert(v0[j]@ == s);
                                assert(m0.spec_contains(s));
                                let i = choose|i: int|
                                    0 <= i < m0.words@.len() && m0.words@[i]@ == s;
                                assert(m.words@[i]@ == s);
                            } else {
                                assert(s == t@);
                                assert(m.words@[m0.words@.len() as int]@ == s);
                            }
                        }
                        if seq_has_string(m.words@, s) {
                            let j = choose|j: int|
                                0 <= j < m.words@.len() && m.words@[j]@ == s;
                            if j < m0.words@.len() {
                                assert(m0.words@[j]@ == s);
                                assert(seq_has_string(m0.words@, s));
                                assert(m0.spec_contains(s));
                                assert(seq_has_string(v0, s));
                                let j2 = choose|j2: int| 0 <= j2 < v0.len() && v0[j2]@ == s;
                                assert(v1[j2]@ == s);
                            } else {
                                assert(s == t@);
                                assert(v1[k as int]@ == s);
                            }
                        }
                    }
                }
            },
        }
        k = k + 1;
    }
    proof {
        assert(ts.take(n as int) =~= ts);
        assert(words@.take(n as int) =~= words@);
    }
    m
}

/// The probability of `word` under the model, as the integer quotient of
/// its count by the total count.  The quotient truncates: any word rarer
/// than the whole corpus has probability zero, so the corrector ranks
/// candidates by their counts instead, which orders them exactly as the
/// untruncated relative frequencies would.
#[allow(non_snake_case)]
pub fn P(word: &str, word_map: &FrequencyModel) -> (r: u64)
    requires
        word_map.wf(),
        word_map.spec_total() > 0,
    ensures
        r as int == word_map.spec_count(word@) as int / word_map.spec_total() as int,
{
    let c = word_map.count(word);
    let t = word_map.total_count();
    c / t
}

} // verus!
