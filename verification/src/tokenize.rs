//! Turning raw text into the token stream that the frequency model is
//! built from: the maximal runs of word characters, each folded to
//! lowercase.

use vstd::prelude::*;

verus! {

/// The maximal runs of word characters (the regex class `\w`) in `text`,
/// in order of appearance.
pub uninterp spec fn word_runs_of(text: Seq<char>) -> Seq<Seq<char>>;

/// The lowercase folding of `s`, as `str::to_lowercase` defines it.
pub uninterp spec fn lower_of(s: Seq<char>) -> Seq<char>;

/// Relies on `regex::Regex::new` and `Regex::find_iter`: with the pattern
/// `\w+` the iterator yields exactly the maximal runs of word characters
/// of the text, in order, and an empty text has none.  `new` cannot fail
/// on this fixed, well-formed pattern.
#[verifier::external_body]
fn find_word_runs(text: &str) -> (r: Vec<String>)
    ensures
        r@.map_values(|t: String| t@) == word_runs_of(text@),
        text@.len() == 0 ==> r@.len() == 0,
{
    let re = regex::Regex::new(r"\w+").unwrap();
    re.find_iter(text).map(|m| m.as_str().to_string()).collect()
}

/// Relies on `str::to_lowercase`: the result is a function of the
/// characters alone, and an empty string stays empty.
#[verifier::external_body]
fn lowercase(s: &str) -> (r: String)
    ensures
        r@ == lower_of(s@),
        s@.len() == 0 ==> r@.len() == 0,
{
    s.to_lowercase()
}

/// Splits `text` into word tokens and folds each to lowercase: the token
/// stream handed to `counter`.
pub fn tokenize(text: &str) -> (r: Vec<String>)
    ensures
        r@.len() == word_runs_of(text@).len(),
        forall|i: int|
            0 <= i < r@.len() ==> (#[trigger] r@[i])@ == lower_of(word_runs_of(text@)[i]),
{
    let runs = find_word_runs(text);
    let mut r: Vec<String> = Vec::new();
    let mut i: usize = 0;
    while i < runs.len()
        invariant
            runs@.map_values(|t: String| t@) == word_runs_of(text@),
            0 <= i <= runs@.len(),
            r@.len() == i,
            forall|j: int|
                0 <= j < i ==> (#[trigger] r@[j])@ == lower_of(word_runs_of(text@)[j]),
        decreases runs@.len() - i,
    {
        r.push(lowercase(runs[i].as_str()));
        i = i + 1;
    }
    r
}

} // verus!
