//! Unicode-aware word segmentation of a message.

use vstd::prelude::*;
use unicode_segmentation::UnicodeSegmentation;

verus! {

/// The sequence of words that Unicode word segmentation finds in `s`,
/// in order of appearance. Punctuation-only and whitespace segments are
/// not words; duplicates appear once per occurrence.
pub uninterp spec fn words_of(s: Seq<char>) -> Seq<Seq<char>>;

/// Relies on unicode_segmentation's `UnicodeSegmentation::unicode_words`:
/// the words of a string depend on its characters alone and come back in
/// order; each word is a distinct non-overlapping piece of the input, so
/// there are never more words than characters.
#[verifier::external_body]
pub fn load_word_list(msg: &str) -> (words: Vec<String>)
    ensures
        words@.map_values(|w: String| w@) == words_of(msg@),
        words@.len() <= msg@.len(),
{
    msg.unicode_words().map(|w| w.to_string()).collect()
}

} // verus!
