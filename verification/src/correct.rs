//! The candidate selector and the corrector: filtering generated words
//! against the vocabulary, the tiered fallback policy, and the final
//! pick of the most frequent candidate.

use vstd::prelude::*;

use crate::edits::{edits1, edits2, in_edits1, in_edits2};
use crate::model::FrequencyModel;
use crate::text::{
    distinct_views, lemma_lex_leq_antisymmetric, lemma_lex_leq_total, lemma_lex_leq_transitive,
    lex_leq, seq_has_string, str_lex_leq, vec_contains_string,
};

verus! {

/// The tier of candidates that `correction` ranks, in strict priority
/// order: the word itself if known, else its known single-edit
/// neighbours, else its known double-edit neighbours, else the word
/// itself as a fallback.
pub open spec fn candidate_set(w: Seq<char>, m: FrequencyModel) -> Set<Seq<char>> {
    if m.spec_contains(w) {
        set![w]
    } else if exists|s: Seq<char>| in_edits1(w, s) && m.spec_contains(s) {
        Set::new(|s: Seq<char>| in_edits1(w, s) && m.spec_contains(s))
    } else if exists|s: Seq<char>| in_edits2(w, s) && m.spec_contains(s) {
        Set::new(|s: Seq<char>| in_edits2(w, s) && m.spec_contains(s))
    } else {
        set![w]
    }
}

/// `r` is a member of `cs` with the greatest count under `m`, the
/// lexicographically least such member in case of ties.
pub open spec fn is_best_candidate(cs: Set<Seq<char>>, m: FrequencyModel, r: Seq<char>) -> bool {
    &&& cs.contains(r)
    &&& forall|c: Seq<char>|
        #[trigger] cs.contains(c) ==> m.spec_count(r) > m.spec_count(c) || (m.spec_count(r)
            == m.spec_count(c) && lex_leq(r, c))
}

/// What `correction` returns: the best member of the candidate tier.
pub open spec fn is_correction_of(w: Seq<char>, r: Seq<char>, m: FrequencyModel) -> bool {
    is_best_candidate(candidate_set(w, m), m, r)
}

/// The subset of `words` that are keys of the model, with duplicates
/// collapsed.
pub fn known(words: &[String], map: &FrequencyModel) -> (r: Vec<String>)
    requires
        map.wf(),
    ensures
        distinct_views(r@),
        forall|i: int|
            0 <= i < r@.len() ==> map.spec_contains((#[trigger] r@[i])@) && seq_has_string(
                words@,
                r@[i]@,
            ),
        forall|s: Seq<char>|
            seq_has_string(words@, s) && map.spec_contains(s) ==> seq_has_string(r@, s),
{
    proof {
        assert(words@.take(0) =~= Seq::<String>::empty());
    }
    let mut r: Vec<String> = Vec::new();
    let mut i: usize = 0;
    while i < words.len()
        invariant
            map.wf(),
            0 <= i <= words@.len(),
            distinct_views(r@),
            forall|k: int|
                0 <= k < r@.len() ==> map.spec_contains((#[trigger] r@[k])@) && seq_has_string(
                    words@,
                    r@[k]@,
                ),
            forall|s: Seq<char>|
                seq_has_string(words@.take(i as int), s) && map.spec_contains(s)
                    ==> seq_has_string(r@, s),
        decreases words@.len() - i,
    {
        let ghost t0 = words@.take(i as int);
        let ghost t1 = words@.take(i + 1);
        proof {
            assert(t1.drop_last() =~= t0);
            assert(t1.last() == words@[i as int]);
        }
        if map.contains(words[i].as_str()) && !vec_contains_string(&r, &words[i]) {
            let ghost r0 = r@;
            r.push(words[i].clone());
            proof {
                assert(r@[r0.len() as int]@ == words@[i as int]@);
                assert(forall|k: int| 0 <= k < r0.len() ==> #[trigger] r@[k]@ == r0[k]@);
                assert(seq_has_string(words@, words@[i as int]@));
                assert forall|a: int, b: int| 0 <= a < b < r@.len() implies r@[a]@ != r@[b]@ by {
                    if b == r0.len() {
                        assert(r@[a]@ == r0[a]@);
                        assert(!seq_has_string(r0, words@[i as int]@));
                    }
                }
                assert forall|s: Seq<char>|
                    seq_has_string(t1, s) && map.spec_contains(s) implies seq_has_string(
                    r@,
                    s,
                ) by {
                    let j = choose|j: int| 0 <= j < t1.len() && t1[j]@ == s;
                    if j < i {
                        assert(t0[j]@ == s);
                        assert(seq_has_string(r0, s));
                        let k = choose|k: int| 0 <= k < r0.len() && r0[k]@ == s;
                        assert(r@[k]@ == s);
                    } else {
                        assert(s == words@[i as int]@);
                        assert(r@[r0.len() as int]@ == s);
                    }
                }
            }
        } else {
            proof {
                assert forall|s: Seq<char>|
                    seq_has_string(t1, s) && map.spec_contains(s) implies seq_has_string(
                    r@,
                    s,
                ) by {
                    let j = choose|j: int| 0 <= j < t1.len() && t1[j]@ == s;
                    if j < i {
                        assert(t0[j]@ == s);
                    } else {
                        assert(s == words@[i as int]@);
                        if !map.spec_contains(words@[i as int]@) {
                        } else {
                            assert(seq_has_string(r@, words@[i as int]@));
                        }
                    }
                }
            }
        }
        i = i + 1;
    }
    proof {
        assert(words@.take(words@.len() as int) =~= words@);
    }
    r
}

/// The first non-empty candidate tier for `word`: the word itself if it
/// is known, else its known single-edit neighbours, else its known
/// double-edit neighbours, else the word itself.  Later tiers are not
/// computed when an earlier one succeeds.
pub fn candidates(word: &str, map: &FrequencyModel) -> (r: Vec<String>)
    requires
        map.wf(),
    ensures
        r@.len() >= 1,
        distinct_views(r@),
        forall|i: int|
            0 <= i < r@.len() ==> candidate_set(word@, *map).contains((#[trigger] r@[i])@),
        forall|s: Seq<char>| candidate_set(word@, *map).contains(s) ==> seq_has_string(r@, s),
{
    let ghost w = word@;
    if map.contains(word) {
        let mut r: Vec<String> = Vec::new();
        r.push(word.to_owned());
        proof {
            assert(candidate_set(w, *map) =~= set![w]);
            assert(r@[0]@ == w);
        }
        return r;
    }
    let e1 = edits1(word);
    let k1 = known(e1.as_slice(), map);
    if k1.len() > 0 {
        proof {
            assert(in_edits1(w, k1@[0]@) && map.spec_contains(k1@[0]@)) by {
                let j = choose|j: int| 0 <= j < e1@.len() && e1@[j]@ == k1@[0]@;
            }
            assert(candidate_set(w, *map) =~= Set::new(
                |s: Seq<char>| in_edits1(w, s) && map.spec_contains(s),
            ));
            assert forall|i: int|
                0 <= i < k1@.len() implies candidate_set(w, *map).contains((
            #[trigger] k1@[i])@) by {
                let j = choose|j: int| 0 <= j < e1@.len() && e1@[j]@ == k1@[i]@;
            }
        }
        return k1;
    }
    let e2 = edits2(word);
    let k2 = known(e2.as_slice(), map);
    if k2.len() > 0 {
        proof {
            assert(!(exists|s: Seq<char>| in_edits1(w, s) && map.spec_contains(s))) by {
                if exists|s: Seq<char>| in_edits1(w, s) && map.spec_contains(s) {
                    let s = choose|s: Seq<char>| in_edits1(w, s) && map.spec_contains(s);
                    assert(seq_has_string(e1@, s));
                    assert(seq_has_string(k1@, s));
                }
            }
            assert(in_edits2(w, k2@[0]@) && map.spec_contains(k2@[0]@)) by {
                let j = choose|j: int| 0 <= j < e2@.len() && e2@[j]@ == k2@[0]@;
            }
            assert(candidate_set(w, *map) =~= Set::new(
                |s: Seq<char>| in_edits2(w, s) && map.spec_contains(s),
            ));
            assert forall|i: int|
                0 <= i < k2@.len() implies candidate_set(w, *map).contains((
            #[trigger] k2@[i])@) by {
                let j = choose|j: int| 0 <= j < e2@.len() && e2@[j]@ == k2@[i]@;
            }
        }
        return k2;
    }
    let mut r: Vec<String> = Vec::new();
    r.push(word.to_owned());
    proof {
        assert(!(exists|s: Seq<char>| in_edits1(w, s) && map.spec_contains(s))) by {
            if exists|s: Seq<char>| in_edits1(w, s) && map.spec_contains(s) {
                let s = choose|s: Seq<char>| in_edits1(w, s) && map.spec_contains(s);
                assert(seq_has_string(e1@, s));
                assert(seq_has_string(k1@, s));
            }
        }
        assert(!(exists|s: Seq<char>| in_edits2(w, s) && map.spec_contains(s))) by {
            if exists|s: Seq<char>| in_edits2(w, s) && map.spec_contains(s) {
                let s = choose|s: Seq<char>| in_edits2(w, s) && map.spec_contains(s);
                assert(seq_has_string(e2@, s));
                assert(seq_has_string(k2@, s));
            }
        }
        assert(candidate_set(w, *map) =~= set![w]);
        assert(r@[0]@ == w);
    }
    r
}

/// The proposed correction for `word`: the candidate with the greatest
/// count under the model, ties broken towards the lexicographically
/// least.  Ranking by count orders candidates exactly as their relative
/// frequencies do, since all share the model's total as denominator.  A
/// word already in the vocabulary is returned unchanged.
pub fn correction(word: &str, word_map: &FrequencyModel) -> (r: String)
    requires
        word_map.wf(),
    ensures
        is_correction_of(word@, r@, *word_map),
        word_map.spec_contains(word@) ==> r@ == word@,
{
    let cands = candidates(word, word_map);
    let mut best: String = cands[0].clone();
    let mut best_count: u64 = word_map.count(best.as_str());
    proof {
        lemma_lex_leq_total(best@, best@);
    }
    let mut i: usize = 1;
    while i < cands.len()
        invariant
            word_map.wf(),
            1 <= i <= cands@.len(),
            seq_has_string(cands@, best@),
            best_count as nat == word_map.spec_count(best@),
            forall|j: int|
                0 <= j < i ==> word_map.spec_count(best@) > word_map.spec_count(
                    (#[trigger] cands@[j])@,
                ) || (word_map.spec_count(best@) == word_map.spec_count(cands@[j]@) && lex_leq(
                    best@,
                    cands@[j]@,
                )),
        decreases cands@.len() - i,
    {
        let ghost old_best = best@;
        let c = word_map.count(cands[i].as_str());
        let take_new = c > best_count || (c == best_count && str_lex_leq(&cands[i], &best));
        if take_new {
            best = cands[i].clone();
            best_count = c;
            proof {
                assert(cands@[i as int]@ == best@);
                lemma_lex_leq_total(best@, best@);
                assert forall|j: int|
                    0 <= j < i + 1 implies word_map.spec_count(best@) > word_map.spec_count(
                    (#[trigger] cands@[j])@,
                ) || (word_map.spec_count(best@) == word_map.spec_count(cands@[j]@) && lex_leq(
                    best@,
                    cands@[j]@,
                )) by {
                    if j < i {
                        if word_map.spec_count(old_best) == word_map.spec_count(cands@[j]@)
                            && word_map.spec_count(best@) == word_map.spec_count(old_best) {
                            lemma_lex_leq_transitive(best@, old_best, cands@[j]@);
                        }
                    }
                }
            }
        } else {
            proof {
                if word_map.spec_count(best@) == word_map.spec_count(cands@[i as int]@) {
                    lemma_lex_leq_total(best@, cands@[i as int]@);
                }
            }
        }
        i = i + 1;
    }
    proof {
        let k = choose|k: int| 0 <= k < cands@.len() && cands@[k]@ == best@;
        assert(candidate_set(word@, *word_map).contains(best@));
        assert forall|s: Seq<char>|
            #[trigger] candidate_set(word@, *word_map).contains(s) implies word_map.spec_count(
            best@,
        ) > word_map.spec_count(s) || (word_map.spec_count(best@) == word_map.spec_count(s)
            && lex_leq(best@, s)) by {
            assert(seq_has_string(cands@, s));
            let j = choose|j: int| 0 <= j < cands@.len() && cands@[j]@ == s;
        }
        if word_map.spec_contains(word@) {
            assert(candidate_set(word@, *word_map) =~= set![word@]);
        }
    }
    best
}

/// Two best members of the same tier are the same word: the count order
/// with the lexicographic tie-break picks a unique winner.
pub proof fn lemma_best_unique(cs: Set<Seq<char>>, m: FrequencyModel, a: Seq<char>, b: Seq<char>)
    requires
        is_best_candidate(cs, m, a),
        is_best_candidate(cs, m, b),
    ensures
        a == b,
{
    assert(cs.contains(a));
    assert(cs.contains(b));
    lemma_lex_leq_antisymmetric(a, b);
}

/// A word already in the vocabulary is its own correction: its tier is
/// the singleton holding just the word.
pub proof fn lemma_known_word_corrects_to_itself(
    m: FrequencyModel,
    w: Seq<char>,
    r: Seq<char>,
)
    requires
        m.wf(),
        m.spec_contains(w),
        is_correction_of(w, r, m),
    ensures
        r == w,
{
    assert(candidate_set(w, m) =~= set![w]);
    assert(candidate_set(w, m).contains(r));
}

/// Correcting a word twice changes nothing more than correcting it once:
/// the first correction, if known, is its own singleton tier; if unknown,
/// it is the original word and meets the same tier again.
pub proof fn lemma_correction_idempotent(
    m: FrequencyModel,
    w: Seq<char>,
    r1: Seq<char>,
    r2: Seq<char>,
)
    requires
        m.wf(),
        is_correction_of(w, r1, m),
        is_correction_of(r1, r2, m),
    ensures
        r2 == r1,
{
    if m.spec_contains(r1) {
        lemma_known_word_corrects_to_itself(m, r1, r2);
    } else {
        assert(candidate_set(w, m).contains(r1));
        assert(r1 == w) by {
            if m.spec_contains(w) {
                assert(candidate_set(w, m) =~= set![w]);
            } else if exists|s: Seq<char>| in_edits1(w, s) && m.spec_contains(s) {
                assert(m.spec_contains(r1));
            } else if exists|s: Seq<char>| in_edits2(w, s) && m.spec_contains(s) {
                assert(m.spec_contains(r1));
            } else {
                assert(candidate_set(w, m) =~= set![w]);
            }
        }
        lemma_best_unique(candidate_set(w, m), m, r1, r2);
    }
}

} // verus!
