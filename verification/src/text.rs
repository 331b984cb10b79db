//! Small string utilities shared by the edit generator and the corrector:
//! appending a character to a `String`, membership of a string in a vector,
//! and a lexicographic order on character sequences used as a deterministic
//! tie-break.

use vstd::prelude::*;

verus! {

/// Relies on `String::push`: appends the given character to the end of the
/// string (std documents exactly this and nothing more).
#[verifier::external_body]
pub(crate) fn push_char(s: &mut String, c: char)
    ensures
        final(s)@ == old(s)@.push(c),
{
    s.push(c)
}

/// Whether some element of `v` has the same characters as `s`.
pub open spec fn seq_has_string(v: Seq<String>, s: Seq<char>) -> bool {
    exists|i: int| 0 <= i < v.len() && v[i]@ == s
}

/// Linear search for a string with the same characters as `s`.
pub fn vec_contains_string(v: &Vec<String>, s: &String) -> (r: bool)
    ensures
        r == seq_has_string(v@, s@),
{
    let mut i: usize = 0;
    while i < v.len()
        invariant
            0 <= i <= v@.len(),
            forall|j: int| 0 <= j < i ==> v@[j]@ != s@,
        decreases v@.len() - i,
    {
        if v[i].eq(s) {
            return true;
        }
        i = i + 1;
    }
    false
}

/// No two elements of `v` have the same characters.
pub open spec fn distinct_views(v: Seq<String>) -> bool {
    forall|i: int, j: int| 0 <= i < j < v.len() ==> v[i]@ != v[j]@
}

/// Appends to `out` every string of `src` whose characters are not yet
/// there, so that `out` afterwards holds the union and stays free of
/// duplicates.
pub(crate) fn push_new_all(out: &mut Vec<String>, src: &Vec<String>)
    ensures
        distinct_views(old(out)@) ==> distinct_views(final(out)@),
        forall|s: Seq<char>|
            #[trigger] seq_has_string(final(out)@, s) == (seq_has_string(old(out)@, s)
                || seq_has_string(src@, s)),
{
    proof {
        assert(src@.take(0) =~= Seq::<String>::empty());
    }
    let mut i: usize = 0;
    while i < src.len()
        invariant
            0 <= i <= src@.len(),
            distinct_views(old(out)@) ==> distinct_views(out@),
            forall|s: Seq<char>|
                #[trigger] seq_has_string(out@, s) == (seq_has_string(old(out)@, s)
                    || seq_has_string(src@.take(i as int), s)),
        decreases src@.len() - i,
    {
        let ghost out0 = out@;
        let ghost t0 = src@.take(i as int);
        let ghost t1 = src@.take(i + 1);
        proof {
            assert(t1.drop_last() =~= t0);
            assert(t1.last() == src@[i as int]);
        }
        if !vec_contains_string(out, &src[i]) {
            out.push(src[i].clone());
            proof {
                assert(out@.len() == out0.len() + 1);
                assert(out@[out0.len() as int]@ == src@[i as int]@);
                assert(forall|j: int| 0 <= j < out0.len() ==> #[trigger] out@[j]@ == out0[j]@);
                assert forall|s: Seq<char>|
                    #[trigger] seq_has_string(out@, s) == (seq_has_string(old(out)@, s)
                        || seq_has_string(t1, s)) by {
                    if seq_has_string(out@, s) {
                        let j = choose|j: int| 0 <= j < out@.len() && out@[j]@ == s;
                        if j < out0.len() {
                            assert(out0[j]@ == s);
                            assert(seq_has_string(out0, s));
                        } else {
                            assert(s == src@[i as int]@);
                            assert(t1[i as int]@ == s);
                        }
                    }
                    if seq_has_string(old(out)@, s) || seq_has_string(t0, s) {
                        assert(seq_has_string(out0, s));
                        let j = choose|j: int| 0 <= j < out0.len() && out0[j]@ == s;
                        assert(out@[j]@ == s);
                    }
                    if seq_has_string(t1, s) && !seq_has_string(t0, s) {
                        let j = choose|j: int| 0 <= j < t1.len() && t1[j]@ == s;
                        if j < i {
                            assert(t0[j]@ == s);
                        } else {
                            assert(s == src@[i as int]@);
                            assert(out@[out0.len() as int]@ == s);
                        }
                    }
                }
                assert(!seq_has_string(out0, src@[i as int]@));
                assert forall|a: int, b: int|
                    0 <= a < b < out@.len() && distinct_views(out0) implies out@[a]@
                    != out@[b]@ by {
                    if b == out0.len() {
                        assert(out@[a]@ == out0[a]@);
                    }
                }
            }
        } else {
            proof {
                assert forall|s: Seq<char>|
                    #[trigger] seq_has_string(out@, s) == (seq_has_string(old(out)@, s)
                        || seq_has_string(t1, s)) by {
                    if seq_has_string(t1, s) && !seq_has_string(t0, s) {
                        let j = choose|j: int| 0 <= j < t1.len() && t1[j]@ == s;
                        if j < i {
                            assert(t0[j]@ == s);
                        } else {
                            assert(s == src@[i as int]@);
                            assert(seq_has_string(out@, s));
                        }
                    }
                }
            }
        }
        i = i + 1;
    }
    proof {
        assert(src@.take(src@.len() as int) =~= src@);
    }
}

/// Lexicographic order on character sequences, comparing characters by
/// their Unicode scalar values; a proper prefix comes first.
pub open spec fn lex_leq(a: Seq<char>, b: Seq<char>) -> bool
    decreases a.len(),
{
    if a.len() == 0 {
        true
    } else if b.len() == 0 {
        false
    } else if (a[0] as u32) < (b[0] as u32) {
        true
    } else if (a[0] as u32) > (b[0] as u32) {
        false
    } else {
        lex_leq(a.drop_first(), b.drop_first())
    }
}

/// `lex_leq` is total: any two sequences compare one way or the other.
pub proof fn lemma_lex_leq_total(a: Seq<char>, b: Seq<char>)
    ensures
        lex_leq(a, b) || lex_leq(b, a),
    decreases a.len(),
{
    if a.len() != 0 && b.len() != 0 && a[0] as u32 == b[0] as u32 {
        lemma_lex_leq_total(a.drop_first(), b.drop_first());
    }
}

/// `lex_leq` is antisymmetric: mutually ordered sequences are equal.
pub proof fn lemma_lex_leq_antisymmetric(a: Seq<char>, b: Seq<char>)
    requires
        lex_leq(a, b),
        lex_leq(b, a),
    ensures
        a == b,
    decreases a.len(),
{
    if a.len() == 0 {
        assert(b.len() == 0);
        assert(a =~= b);
    } else {
        assert(b.len() != 0);
        assert(a[0] as u32 == b[0] as u32);
        assert(a[0] == b[0]) by {
            vstd::utf8::char_u32_cast(a[0], a[0] as u32);
            vstd::utf8::char_u32_cast(b[0], b[0] as u32);
        }
        lemma_lex_leq_antisymmetric(a.drop_first(), b.drop_first());
        assert(a =~= seq![a[0]] + a.drop_first());
        assert(b =~= seq![b[0]] + b.drop_first());
    }
}

/// `lex_leq` is transitive.
pub proof fn lemma_lex_leq_transitive(a: Seq<char>, b: Seq<char>, c: Seq<char>)
    requires
        lex_leq(a, b),
        lex_leq(b, c),
    ensures
        lex_leq(a, c),
    decreases a.len(),
{
    if a.len() != 0 {
        assert(b.len() != 0);
        assert(c.len() != 0);
        if a[0] as u32 == b[0] as u32 && b[0] as u32 == c[0] as u32 {
            lemma_lex_leq_transitive(a.drop_first(), b.drop_first(), c.drop_first());
        }
    }
}

/// Decides `lex_leq` on two strings.
pub fn str_lex_leq(a: &String, b: &String) -> (r: bool)
    ensures
        r == lex_leq(a@, b@),
{
    let a_len = a.as_str().unicode_len();
    let b_len = b.as_str().unicode_len();
    proof {
        assert(a@.skip(0) =~= a@);
        assert(b@.skip(0) =~= b@);
    }
    let mut i: usize = 0;
    while i < a_len && i < b_len
        invariant
            a_len == a@.len(),
            b_len == b@.len(),
            0 <= i <= a_len,
            0 <= i <= b_len,
            forall|j: int| 0 <= j < i ==> a@[j] == b@[j],
            lex_leq(a@, b@) == lex_leq(a@.skip(i as int), b@.skip(i as int)),
            lex_leq(b@, a@) == lex_leq(b@.skip(i as int), a@.skip(i as int)),
        decreases a_len - i,
    {
        let ca = a.as_str().get_char(i);
        let cb = b.as_str().get_char(i);
        if (ca as u32) < (cb as u32) {
            proof {
                assert(a@.skip(i as int)[0] == ca);
                assert(b@.skip(i as int)[0] == cb);
            }
            return true;
        }
        if (ca as u32) > (cb as u32) {
            proof {
                assert(a@.skip(i as int)[0] == ca);
                assert(b@.skip(i as int)[0] == cb);
            }
            return false;
        }
        proof {
            assert(a@.skip(i as int)[0] == ca);
            assert(b@.skip(i as int)[0] == cb);
            assert(a@.skip(i as int).drop_first() =~= a@.skip(i + 1));
            assert(b@.skip(i as int).drop_first() =~= b@.skip(i + 1));
        }
        i = i + 1;
    }
    proof {
        if a_len <= b_len {
            assert(a@.skip(i as int).len() == 0);
        } else {
            assert(b@.skip(i as int).len() == 0);
            assert(a@.skip(i as int).len() > 0);
        }
    }
    a_len <= b_len
}

} // verus!
