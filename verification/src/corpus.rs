//! The corpus: an immutable sequence of Unicode scalar values, addressed by
//! character index throughout. Because a position always names a whole
//! scalar value, no extraction can split a multi-byte encoding; a range is
//! refused only when it is out of bounds or inverted.

use vstd::prelude::*;

use crate::stats::chars_of;

verus! {

/// Why a corpus operation was refused.
#[derive(Debug, PartialEq, Eq, Clone, Copy, Structural)]
pub enum CorpusError {
    /// The requested character range is inverted or out of bounds.
    InvalidRange,
}

/// An immutable corpus of characters.
pub struct Corpus {
    /// The characters, one per Unicode scalar value of the source text.
    pub chars: Vec<char>,
}

impl Corpus {
    /// Reads a corpus from a string.
    pub fn from_text(text: &str) -> (r: Corpus)
        ensures
            r.chars@ == text@,
    {
        Corpus { chars: chars_of(text) }
    }

    /// How many characters the corpus holds.
    pub fn char_count(&self) -> (r: usize)
        ensures
            r == self.chars@.len(),
    {
        self.chars.len()
    }

    /// The character at position `i`, or `InvalidRange` past the end.
    pub fn char_at(&self, i: usize) -> (r: Result<char, CorpusError>)
        ensures
            i < self.chars@.len() ==> r == Ok::<char, CorpusError>(self.chars@[i as int]),
            i >= self.chars@.len() ==> r == Err::<char, CorpusError>(CorpusError::InvalidRange),
    {
        if i < self.chars.len() {
            Ok(self.chars[i])
        } else {
            Err(CorpusError::InvalidRange)
        }
    }

    /// The characters in positions `from..to`: exactly that substring when
    /// `from <= to <= char_count`, and `InvalidRange` otherwise.
    pub fn substring(&self, from: usize, to: usize) -> (r: Result<Vec<char>, CorpusError>)
        ensures
            from <= to <= self.chars@.len() ==> (r matches Ok(v) && v@ == self.chars@.subrange(
                from as int,
                to as int,
            )),
            !(from <= to <= self.chars@.len()) ==> r == Err::<Vec<char>, CorpusError>(
                CorpusError::InvalidRange,
            ),
    {
        if from <= to && to <= self.chars.len() {
            Ok(crate::stats::copy_range(&self.chars, from, to))
        } else {
            Err(CorpusError::InvalidRange)
        }
    }
}

} // verus!
