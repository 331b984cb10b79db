//! The edit generator: all words reachable from a given word by one or two
//! single-character edits (delete, transpose, replace, insert), over the
//! 26-letter lowercase Latin alphabet.

use vstd::prelude::*;

use crate::text::{distinct_views, push_char, push_new_all, seq_has_string};

verus! {

/// The alphabet used for replacements and insertions: exactly the 26
/// lowercase Latin letters.
pub open spec fn alphabet() -> Seq<char> {
    seq![
        'a', 'b', 'c', 'd', 'e', 'f', 'g', 'h', 'i', 'j', 'k', 'l', 'm', 'n', 'o', 'p', 'q',
        'r', 's', 't', 'u', 'v', 'w', 'x', 'y', 'z',
    ]
}

/// `w` with the character at position `i` removed.
pub open spec fn delete_at(w: Seq<char>, i: int) -> Seq<char>
    recommends
        0 <= i < w.len(),
{
    w.take(i) + w.skip(i + 1)
}

/// `w` with the adjacent characters at positions `i` and `i + 1` swapped.
pub open spec fn transpose_at(w: Seq<char>, i: int) -> Seq<char>
    recommends
        0 <= i && i + 1 < w.len(),
{
    w.take(i) + seq![w[i + 1], w[i]] + w.skip(i + 2)
}

/// `w` with the character at position `i` replaced by `c`.
pub open spec fn replace_at(w: Seq<char>, i: int, c: char) -> Seq<char>
    recommends
        0 <= i < w.len(),
{
    w.take(i) + seq![c] + w.skip(i + 1)
}

/// `w` with `c` inserted before position `i`.
pub open spec fn insert_at(w: Seq<char>, i: int, c: char) -> Seq<char>
    recommends
        0 <= i <= w.len(),
{
    w.take(i) + seq![c] + w.skip(i)
}

/// `s` arises from `w` by one deletion.
pub open spec fn is_delete(w: Seq<char>, s: Seq<char>) -> bool {
    exists|i: int| 0 <= i < w.len() && s == delete_at(w, i)
}

/// `s` arises from `w` by one adjacent transposition.
pub open spec fn is_transpose(w: Seq<char>, s: Seq<char>) -> bool {
    exists|i: int| 0 <= i && i + 1 < w.len() && s == transpose_at(w, i)
}

/// `s` arises from `w` by one replacement with a letter drawn from `letters`.
pub open spec fn is_replace_from(letters: Seq<char>, w: Seq<char>, s: Seq<char>) -> bool {
    exists|i: int, c: char| 0 <= i < w.len() && letters.contains(c) && s == replace_at(w, i, c)
}

/// `s` arises from `w` by one insertion of a letter drawn from `letters`.
pub open spec fn is_insert_from(letters: Seq<char>, w: Seq<char>, s: Seq<char>) -> bool {
    exists|i: int, c: char| 0 <= i <= w.len() && letters.contains(c) && s == insert_at(w, i, c)
}

/// `s` arises from `w` by one replacement with an alphabet letter.
pub open spec fn is_replace(w: Seq<char>, s: Seq<char>) -> bool {
    is_replace_from(alphabet(), w, s)
}

/// `s` arises from `w` by one insertion of an alphabet letter.
pub open spec fn is_insert(w: Seq<char>, s: Seq<char>) -> bool {
    is_insert_from(alphabet(), w, s)
}

/// `s` is reachable from `w` by exactly one single-character edit.
pub open spec fn in_edits1(w: Seq<char>, s: Seq<char>) -> bool {
    is_delete(w, s) || is_transpose(w, s) || is_replace(w, s) || is_insert(w, s)
}

/// `s` is reachable from `w` by two single-character edits.
pub open spec fn in_edits2(w: Seq<char>, s: Seq<char>) -> bool {
    exists|e: Seq<char>| in_edits1(w, e) && in_edits1(e, s)
}

/// The word that a sequence of splits was cut from.
pub open spec fn splits_word(sp: Seq<(String, String)>) -> Seq<char> {
    sp[0].1@
}

/// `sp` is the full sequence of cuts of its word: pair `i` is the prefix
/// of length `i` and the rest.
pub open spec fn splits_wf(sp: Seq<(String, String)>) -> bool {
    &&& sp.len() == splits_word(sp).len() + 1
    &&& forall|i: int| 0 <= i < sp.len() ==> (#[trigger] sp[i].0)@ == splits_word(sp).take(i)
    &&& forall|i: int| 0 <= i < sp.len() ==> (#[trigger] sp[i].1)@ == splits_word(sp).skip(i)
}

/// The exec alphabet, as a string of the 26 lowercase Latin letters.
pub fn alphabet_letters() -> (r: String)
    ensures
        r@ == alphabet(),
{
    let r = String::from_str("abcdefghijklmnopqrstuvwxyz");
    proof {
        reveal_strlit("abcdefghijklmnopqrstuvwxyz");
        assert(r@ =~= alphabet());
    }
    r
}

/// All `n + 1` ways to cut `word` into an ordered pair (left, right) with
/// `left + right == word`, including the empty-left and empty-right cuts.
pub fn splits(word: String) -> (r: Vec<(String, String)>)
    ensures
        splits_wf(r@),
        splits_word(r@) == word@,
{
    let n = word.as_str().unicode_len();
    let mut r: Vec<(String, String)> = Vec::new();
    let mut i: usize = 0;
    while i < n
        invariant
            n == word@.len(),
            0 <= i <= n,
            r@.len() == i,
            forall|j: int| 0 <= j < i ==> (#[trigger] r@[j].0)@ == word@.take(j),
            forall|j: int| 0 <= j < i ==> (#[trigger] r@[j].1)@ == word@.skip(j),
        decreases n - i,
    {
        let l = word.as_str().substring_char(0, i).to_owned();
        let rt = word.as_str().substring_char(i, n).to_owned();
        proof {
            assert(l@ =~= word@.take(i as int));
            assert(rt@ =~= word@.skip(i as int));
        }
        r.push((l, rt));
        i = i + 1;
    }
    let whole = word.as_str().substring_char(0, n).to_owned();
    proof {
        assert(whole@ =~= word@.take(n as int));
    }
    r.push((whole, String::new()));
    proof {
        assert(r@[n as int].1@ =~= word@.skip(n as int));
        assert(word@.skip(0) =~= word@);
        assert(splits_word(r@) =~= word@);
    }
    r
}

/// For every split with a non-empty right part, the word with the first
/// character of the right part removed: all single deletions, in order.
pub fn deletes(splits: &Vec<(String, String)>) -> (r: Vec<String>)
    requires
        splits_wf(splits@),
    ensures
        r@.len() == splits_word(splits@).len(),
        forall|i: int|
            0 <= i < r@.len() ==> (#[trigger] r@[i])@ == delete_at(splits_word(splits@), i),
{
    let ghost w = splits_word(splits@);
    let ghost n = w.len() as int;
    let m = splits.len();
    let mut r: Vec<String> = Vec::new();
    let mut i: usize = 0;
    while i < m
        invariant
            splits_wf(splits@),
            w == splits_word(splits@),
            n == w.len() as int,
            m == splits@.len(),
            0 <= i <= m,
            r@.len() == (if i as int <= n {
                i as int
            } else {
                n
            }),
            forall|j: int| 0 <= j < r@.len() ==> (#[trigger] r@[j])@ == delete_at(w, j),
        decreases m - i,
    {
        let right = &splits[i].1;
        proof {
            assert((splits@[i as int].1)@ == w.skip(i as int));
            assert(right@.len() == n - i);
        }
        if !right.as_str().is_empty() {
            let rlen = right.as_str().unicode_len();
            let mut l = splits[i].0.clone();
            l.append(right.as_str().substring_char(1, rlen));
            proof {
                assert(right@ == w.skip(i as int));
                assert(l@ =~= delete_at(w, i as int)) by {
                    assert(w.skip(i as int).subrange(1, n - i) =~= w.skip(i + 1));
                }
            }
            r.push(l);
        }
        i = i + 1;
    }
    r
}

/// For every split whose right part has at least two characters, the word
/// with the first two characters of the right part swapped: all adjacent
/// transpositions, in order.
pub fn transposes(splits: &Vec<(String, String)>) -> (r: Vec<String>)
    requires
        splits_wf(splits@),
    ensures
        r@.len() == (if splits_word(splits@).len() == 0 {
            0int
        } else {
            splits_word(splits@).len() - 1
        }),
        forall|i: int|
            0 <= i < r@.len() ==> (#[trigger] r@[i])@ == transpose_at(splits_word(splits@), i),
{
    let ghost w = splits_word(splits@);
    let ghost n = w.len() as int;
    let m = splits.len();
    let mut r: Vec<String> = Vec::new();
    let mut i: usize = 0;
    while i < m
        invariant
            splits_wf(splits@),
            w == splits_word(splits@),
            n == w.len() as int,
            m == splits@.len(),
            0 <= i <= m,
            r@.len() == (if i as int <= n - 1 {
                i as int
            } else if n >= 1 {
                n - 1
            } else {
                0int
            }),
            forall|j: int| 0 <= j < r@.len() ==> (#[trigger] r@[j])@ == transpose_at(w, j),
        decreases m - i,
    {
        let right = &splits[i].1;
        proof {
            assert((splits@[i as int].1)@ == w.skip(i as int));
            assert(right@.len() == n - i);
        }
        let rlen = right.as_str().unicode_len();
        if rlen > 1 {
            let c0 = right.as_str().get_char(0);
            let c1 = right.as_str().get_char(1);
            let tail = right.as_str().substring_char(2, rlen);
            let mut l = splits[i].0.clone();
            push_char(&mut l, c1);
            push_char(&mut l, c0);
            l.append(tail);
            proof {
                assert(c0 == w[i as int]);
                assert(c1 == w[i as int + 1]);
                assert(l@ =~= transpose_at(w, i as int)) by {
                    assert(tail@ =~= w.skip(i + 2)) by {
                        assert(w.skip(i as int).subrange(2, n - i) =~= w.skip(i + 2));
                    }
                }
            }
            r.push(l);
        }
        i = i + 1;
    }
    r
}

/// For every letter and every split with a non-empty right part, the word
/// with the first character of the right part replaced by that letter,
/// letters outermost.
pub fn replaces(splits: &Vec<(String, String)>, letters: &String) -> (r: Vec<String>)
    requires
        splits_wf(splits@),
    ensures
        r@.len() == letters@.len() * splits_word(splits@).len(),
        forall|ci: int, i: int|
            0 <= ci < letters@.len() && 0 <= i < splits_word(splits@).len()
                ==> r@[ci * splits_word(splits@).len() + i]@ == #[trigger] replace_at(
                splits_word(splits@),
                i,
                letters@[ci],
            ),
        forall|k: int|
            0 <= k < r@.len() ==> is_replace_from(letters@, splits_word(splits@), (
            #[trigger] r@[k])@),
{
    let ghost w = splits_word(splits@);
    let ghost n = w.len() as int;
    let m = splits.len();
    let llen = letters.as_str().unicode_len();
    let mut r: Vec<String> = Vec::new();
    let mut ci: usize = 0;
    while ci < llen
        invariant
            splits_wf(splits@),
            w == splits_word(splits@),
            n == w.len() as int,
            m == splits@.len(),
            llen == letters@.len(),
            0 <= ci <= llen,
            r@.len() == ci as int * n,
            forall|c2: int, i2: int|
                0 <= c2 < ci && 0 <= i2 < n ==> r@[c2 * n + i2]@ == #[trigger] replace_at(
                    w,
                    i2,
                    letters@[c2],
                ),
            forall|k: int|
                0 <= k < r@.len() ==> is_replace_from(letters@, w, (#[trigger] r@[k])@),
        decreases llen - ci,
    {
        let c = letters.as_str().get_char(ci);
        let ghost base = ci as int * n;
        let mut j: usize = 0;
        while j < m
            invariant
                splits_wf(splits@),
                w == splits_word(splits@),
                n == w.len() as int,
                m == splits@.len(),
                llen == letters@.len(),
                0 <= ci < llen,
                c == letters@[ci as int],
                base == ci as int * n,
                0 <= j <= m,
                r@.len() == base + (if j as int <= n {
                    j as int
                } else {
                    n
                }),
                forall|c2: int, i2: int|
                    0 <= c2 < ci && 0 <= i2 < n ==> r@[c2 * n + i2]@ == #[trigger] replace_at(
                        w,
                        i2,
                        letters@[c2],
                    ),
                forall|i2: int|
                    0 <= i2 < r@.len() - base ==> r@[base + i2]@ == #[trigger] replace_at(
                        w,
                        i2,
                        letters@[ci as int],
                    ),
                forall|k: int|
                    0 <= k < r@.len() ==> is_replace_from(letters@, w, (#[trigger] r@[k])@),
            decreases m - j,
        {
            let right = &splits[j].1;
            proof {
                assert((splits@[j as int].1)@ == w.skip(j as int));
                assert(right@.len() == n - j);
            }
            if !right.as_str().is_empty() {
                let rlen = right.as_str().unicode_len();
                let mut l = splits[j].0.clone();
                push_char(&mut l, c);
                l.append(right.as_str().substring_char(1, rlen));
                proof {
                    assert(l@ =~= replace_at(w, j as int, c)) by {
                        assert(w.skip(j as int).subrange(1, n - j) =~= w.skip(j + 1));
                    }
                    assert(letters@.contains(c)) by {
                        assert(letters@[ci as int] == c);
                    }
                    assert(is_replace_from(letters@, w, l@));
                }
                let ghost r0 = r@;
                r.push(l);
                proof {
                    assert forall|c2: int, i2: int|
                        0 <= c2 < ci && 0 <= i2 < n implies r@[c2 * n + i2]@
                        == #[trigger] replace_at(w, i2, letters@[c2]) by {
                        assert(0 <= c2 * n + i2 < base) by (nonlinear_arith)
                            requires
                                0 <= c2,
                                c2 < ci as int,
                                0 <= i2,
                                i2 < n,
                                base == ci as int * n,
                        ;
                        assert(r0[c2 * n + i2]@ == replace_at(w, i2, letters@[c2]));
                        assert(r@[c2 * n + i2] == r0[c2 * n + i2]);
                    }
                }
            }
            j = j + 1;
        }
        ci = ci + 1;
        proof {
            assert(ci as int * n == base + n) by (nonlinear_arith)
                requires
                    base == (ci as int - 1) * n,
            ;
        }
    }
    proof {
        assert(llen as int * n == r@.len());
    }
    r
}

/// For every letter and every split (the empty-right one included), the
/// word with that letter inserted at the cut, letters outermost.
pub fn inserts(splits: &Vec<(String, String)>, letters: &String) -> (r: Vec<String>)
    requires
        splits_wf(splits@),
    ensures
        r@.len() == letters@.len() * (splits_word(splits@).len() + 1),
        forall|ci: int, i: int|
            0 <= ci < letters@.len() && 0 <= i <= splits_word(splits@).len()
                ==> r@[ci * (splits_word(splits@).len() + 1) + i]@ == #[trigger] insert_at(
                splits_word(splits@),
                i,
                letters@[ci],
            ),
        forall|k: int|
            0 <= k < r@.len() ==> is_insert_from(letters@, splits_word(splits@), (
            #[trigger] r@[k])@),
{
    let ghost w = splits_word(splits@);
    let ghost n = w.len() as int;
    let m = splits.len();
    let llen = letters.as_str().unicode_len();
    let mut r: Vec<String> = Vec::new();
    let mut ci: usize = 0;
    while ci < llen
        invariant
            splits_wf(splits@),
            w == splits_word(splits@),
            n == w.len() as int,
            m == splits@.len(),
            llen == letters@.len(),
            0 <= ci <= llen,
            r@.len() == ci as int * (n + 1),
            forall|c2: int, i2: int|
                0 <= c2 < ci && 0 <= i2 <= n ==> r@[c2 * (n + 1) + i2]@ == #[trigger] insert_at(
                    w,
                    i2,
                    letters@[c2],
                ),
            forall|k: int|
                0 <= k < r@.len() ==> is_insert_from(letters@, w, (#[trigger] r@[k])@),
        decreases llen - ci,
    {
        let c = letters.as_str().get_char(ci);
        let ghost base = ci as int * (n + 1);
        let mut j: usize = 0;
        while j < m
            invariant
                splits_wf(splits@),
                w == splits_word(splits@),
                n == w.len() as int,
                m == splits@.len(),
                llen == letters@.len(),
                0 <= ci < llen,
                c == letters@[ci as int],
                base == ci as int * (n + 1),
                0 <= j <= m,
                r@.len() == base + j,
                forall|c2: int, i2: int|
                    0 <= c2 < ci && 0 <= i2 <= n ==> r@[c2 * (n + 1) + i2]@
                        == #[trigger] insert_at(w, i2, letters@[c2]),
                forall|i2: int|
                    0 <= i2 < j ==> r@[base + i2]@ == #[trigger] insert_at(
                        w,
                        i2,
                        letters@[ci as int],
                    ),
                forall|k: int|
                    0 <= k < r@.len() ==> is_insert_from(letters@, w, (#[trigger] r@[k])@),
            decreases m - j,
        {
            let right = &splits[j].1;
            proof {
                assert((splits@[j as int].1)@ == w.skip(j as int));
            }
            let mut l = splits[j].0.clone();
            push_char(&mut l, c);
            l.append(right.as_str());
            proof {
                assert(l@ =~= insert_at(w, j as int, c));
                assert(letters@.contains(c)) by {
                    assert(letters@[ci as int] == c);
                }
                assert(is_insert_from(letters@, w, l@));
            }
            let ghost r0 = r@;
            r.push(l);
            proof {
                assert forall|c2: int, i2: int|
                    0 <= c2 < ci && 0 <= i2 <= n implies r@[c2 * (n + 1) + i2]@
                    == #[trigger] insert_at(w, i2, letters@[c2]) by {
                    assert(0 <= c2 * (n + 1) + i2 < base) by (nonlinear_arith)
                        requires
                            0 <= c2,
                            c2 < ci as int,
                            0 <= i2,
                            i2 <= n,
                            base == ci as int * (n + 1),
                    ;
                    assert(r0[c2 * (n + 1) + i2]@ == insert_at(w, i2, letters@[c2]));
                    assert(r@[c2 * (n + 1) + i2] == r0[c2 * (n + 1) + i2]);
                }
            }
            j = j + 1;
        }
        ci = ci + 1;
        proof {
            assert(ci as int * (n + 1) == base + (n + 1)) by (nonlinear_arith)
                requires
                    base == (ci as int - 1) * (n + 1),
            ;
        }
    }
    r
}

/// The set of all words one edit away from `word`: deletes, transposes,
/// replaces and inserts, merged with duplicates collapsed.  The result
/// holds each such word exactly once.
pub fn edits1(word: &str) -> (r: Vec<String>)
    ensures
        distinct_views(r@),
        forall|i: int| 0 <= i < r@.len() ==> in_edits1(word@, (#[trigger] r@[i])@),
        forall|s: Seq<char>| in_edits1(word@, s) ==> seq_has_string(r@, s),
{
    let ghost w = word@;
    let letters = alphabet_letters();
    let sp = splits(word.to_owned());
    let ghost n = w.len() as int;
    let ds = deletes(&sp);
    let ts = transposes(&sp);
    let rs = replaces(&sp, &letters);
    let ins = inserts(&sp, &letters);
    let mut r: Vec<String> = Vec::new();
    push_new_all(&mut r, &ds);
    push_new_all(&mut r, &ts);
    push_new_all(&mut r, &rs);
    push_new_all(&mut r, &ins);
    proof {
        assert(splits_word(sp@) == w);
        assert(rs@.len() == 26 * n);
        assert(ins@.len() == 26 * (n + 1));
        assert forall|i: int| 0 <= i < r@.len() implies in_edits1(w, (#[trigger] r@[i])@) by {
            let s = r@[i]@;
            assert(seq_has_string(r@, s));
            if seq_has_string(ds@, s) {
                let j = choose|j: int| 0 <= j < ds@.len() && ds@[j]@ == s;
                assert(ds@[j]@ == delete_at(w, j));
                assert(is_delete(w, s));
            } else if seq_has_string(ts@, s) {
                let j = choose|j: int| 0 <= j < ts@.len() && ts@[j]@ == s;
                assert(ts@[j]@ == transpose_at(w, j));
                assert(is_transpose(w, s));
            } else if seq_has_string(rs@, s) {
                let j = choose|j: int| 0 <= j < rs@.len() && rs@[j]@ == s;
                assert(is_replace_from(letters@, w, rs@[j]@));
                assert(is_replace(w, s));
            } else {
                assert(seq_has_string(ins@, s));
                let j = choose|j: int| 0 <= j < ins@.len() && ins@[j]@ == s;
                assert(is_insert_from(letters@, w, ins@[j]@));
                assert(is_insert(w, s));
            }
        }
        assert forall|s: Seq<char>| in_edits1(w, s) implies seq_has_string(r@, s) by {
            if is_delete(w, s) {
                let i = choose|i: int| 0 <= i < w.len() && s == delete_at(w, i);
                assert(ds@[i]@ == s);
                assert(seq_has_string(ds@, s));
            } else if is_transpose(w, s) {
                let i = choose|i: int| 0 <= i && i + 1 < w.len() && s == transpose_at(w, i);
                assert(ts@[i]@ == s);
                assert(seq_has_string(ts@, s));
            } else if is_replace(w, s) {
                let (i, c) = choose|i: int, c: char|
                    0 <= i < w.len() && alphabet().contains(c) && s == replace_at(w, i, c);
                let ci = choose|ci: int| 0 <= ci < alphabet().len() && alphabet()[ci] == c;
                assert(0 <= ci * n + i < rs@.len()) by (nonlinear_arith)
                    requires
                        0 <= ci < 26,
                        0 <= i < n,
                        rs@.len() == 26 * n,
                ;
                assert(s == replace_at(w, i, letters@[ci]));
                assert(rs@[ci * n + i]@ == s);
                assert(seq_has_string(rs@, s));
            } else {
                let (i, c) = choose|i: int, c: char|
                    0 <= i <= w.len() && alphabet().contains(c) && s == insert_at(w, i, c);
                let ci = choose|ci: int| 0 <= ci < alphabet().len() && alphabet()[ci] == c;
                assert(0 <= ci * (n + 1) + i < ins@.len()) by (nonlinear_arith)
                    requires
                        0 <= ci < 26,
                        0 <= i <= n,
                        ins@.len() == 26 * (n + 1),
                ;
                assert(s == insert_at(w, i, letters@[ci]));
                assert(ins@[ci * (n + 1) + i]@ == s);
                assert(seq_has_string(ins@, s));
            }
        }
    }
    r
}

/// All words reachable by an edit applied to an edit of `word`: the
/// concatenation of `edits1` over every member of `edits1(word)`, not
/// deduplicated.
pub fn edits2(word: &str) -> (r: Vec<String>)
    ensures
        forall|i: int| 0 <= i < r@.len() ==> in_edits2(word@, (#[trigger] r@[i])@),
        forall|s: Seq<char>| in_edits2(word@, s) ==> seq_has_string(r@, s),
{
    let e1 = edits1(word);
    let mut r: Vec<String> = Vec::new();
    let mut i: usize = 0;
    while i < e1.len()
        invariant
            0 <= i <= e1@.len(),
            forall|j: int| 0 <= j < e1@.len() ==> in_edits1(word@, (#[trigger] e1@[j])@),
            forall|s: Seq<char>| in_edits1(word@, s) ==> seq_has_string(e1@, s),
            forall|idx: int| 0 <= idx < r@.len() ==> in_edits2(word@, (#[trigger] r@[idx])@),
            forall|s: Seq<char>, j: int|
                0 <= j < i && #[trigger] in_edits1(e1@[j]@, s) ==> seq_has_string(r@, s),
        decreases e1@.len() - i,
    {
        let mut e2 = edits1(e1[i].as_str());
        let ghost e2v = e2@;
        let ghost r0 = r@;
        r.append(&mut e2);
        proof {
            assert(r@ == r0 + e2v);
            assert forall|idx: int| 0 <= idx < r@.len() implies in_edits2(word@, (
            #[trigger] r@[idx])@) by {
                if idx < r0.len() {
                    assert(r@[idx] == r0[idx]);
                } else {
                    assert(r@[idx] == e2v[idx - r0.len()]);
                    assert(in_edits1(e1@[i as int]@, e2v[idx - r0.len()]@));
                    assert(in_edits1(word@, e1@[i as int]@));
                }
            }
            assert forall|s: Seq<char>, j: int|
                0 <= j < i + 1 && #[trigger] in_edits1(e1@[j]@, s) implies seq_has_string(
                r@,
                s,
            ) by {
                if j < i {
                    assert(seq_has_string(r0, s));
                    let k = choose|k: int| 0 <= k < r0.len() && r0[k]@ == s;
                    assert(r@[k]@ == s);
                } else {
                    assert(seq_has_string(e2v, s));
                    let k = choose|k: int| 0 <= k < e2v.len() && e2v[k]@ == s;
                    assert(r@[r0.len() + k]@ == s);
                }
            }
        }
        i = i + 1;
    }
    proof {
        assert forall|s: Seq<char>| in_edits2(word@, s) implies seq_has_string(r@, s) by {
            let e = choose|e: Seq<char>| in_edits1(word@, e) && in_edits1(e, s);
            assert(seq_has_string(e1@, e));
            let j = choose|j: int| 0 <= j < e1@.len() && e1@[j]@ == e;
            assert(in_edits1(e1@[j]@, s));
        }
    }
    r
}

} // verus!
