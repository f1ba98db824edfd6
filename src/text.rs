//! From raw text to per-word vectors.
use vstd::prelude::*;
use unicode_segmentation::UnicodeSegmentation;
use crate::store::{is_batch_of, views, Batch, Store};

verus! {

/// The words of a text, in order, as UTF-8 bytes, as Unicode word
/// segmentation finds them.
pub uninterp spec fn unicode_words_of(s: Seq<char>) -> Seq<Seq<u8>>;

/// Relies on `UnicodeSegmentation::unicode_words` of unicode-segmentation:
/// the UAX#29 words of `text` that hold an alphanumeric character, in order.
/// The result depends on the text alone, and an empty text has no words.
#[verifier::external_body]
fn unicode_words(text: &str) -> (r: Vec<Vec<u8>>)
    ensures
        views(r@) == unicode_words_of(text@),
        text@.len() == 0 ==> r@.len() == 0,
{
    text.unicode_words().map(|w| w.as_bytes().to_vec()).collect()
}

/// The words of `text` and, for each, its vector in `store` (zeros when the
/// word is not in the vocabulary).
pub fn embed_text(store: &Store, text: &str) -> (r: (Vec<Vec<u8>>, Batch))
    requires
        store.wf(),
    ensures
        views(r.0@) == unicode_words_of(text@),
        is_batch_of(store@, unicode_words_of(text@), r.1),
        text@.len() == 0 ==> r.0@.len() == 0 && r.1.vectors@.len() == 0,
{
    let words = unicode_words(text);
    let batch = store.batch(&words);
    (words, batch)
}

} // verus!
