//! A statistical spelling corrector.
//!
//! Given a frequency model built from a corpus of words, `correction`
//! proposes the most probable intended word for a possibly misspelled
//! input: it generates all candidates within edit distance one or two,
//! keeps those known to the model, and picks the most frequent one.

pub mod correct;
pub mod edits;
pub mod model;
pub mod text;
pub mod tokenize;

pub use correct::candidates;
pub use correct::correction;
pub use correct::known;

pub use edits::deletes;
pub use edits::edits1;
pub use edits::edits2;
pub use edits::inserts;
pub use edits::replaces;
pub use edits::splits;
pub use edits::transposes;

pub use model::counter;
pub use model::FrequencyModel;
pub use model::P;

pub use tokenize::tokenize;
