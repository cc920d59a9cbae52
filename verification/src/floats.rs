//! Decimal texts of the double-precision values that JUCE ValueTrees carry.
//!
//! The library keeps a double as its IEEE-754 bit pattern and never does
//! floating-point arithmetic itself. Where a merge needs a double's decimal
//! text, or needs the double that a text denotes, it looks the answer up in a
//! `FloatTexts` table that the caller filled in beforehand (the application
//! formats with Rust's `Display` and parses with `str::parse`).

use vstd::prelude::*;
use crate::text::{chars_eq, chars_of};

verus! {

/// Looked-up decimal texts of doubles and parsed values of texts.
pub struct FloatTexts {
    /// `(bits, text)`: the text shown for the double with these bits.
    pub shown: Vec<(u64, String)>,
    /// `(text, bits)`: the double that this text parses to; a text that is
    /// absent does not parse.
    pub parsed: Vec<(String, u64)>,
}

/// The plain content of a `FloatTexts` table.
pub struct FloatTextsModel {
    pub shown: Seq<(u64, Seq<char>)>,
    pub parsed: Seq<(Seq<char>, u64)>,
}

impl View for FloatTexts {
    type V = FloatTextsModel;

    open spec fn view(&self) -> FloatTextsModel {
        FloatTextsModel {
            shown: Seq::new(self.shown@.len(), |i: int| (self.shown@[i].0, self.shown@[i].1@)),
            parsed: Seq::new(self.parsed@.len(), |i: int| (self.parsed@[i].0@, self.parsed@[i].1)),
        }
    }
}

/// The text of the first `shown` entry for `bits`, or the empty text.
pub open spec fn shown_from(s: Seq<(u64, Seq<char>)>, bits: u64, i: int) -> Seq<char>
    decreases s.len() - i,
{
    if i < 0 || i >= s.len() {
        Seq::empty()
    } else if s[i].0 == bits {
        s[i].1
    } else {
        shown_from(s, bits, i + 1)
    }
}

/// The value of the first `parsed` entry for `text`, or None.
pub open spec fn parsed_from(s: Seq<(Seq<char>, u64)>, text: Seq<char>, i: int) -> Option<u64>
    decreases s.len() - i,
{
    if i < 0 || i >= s.len() {
        None
    } else if s[i].0 == text {
        Some(s[i].1)
    } else {
        parsed_from(s, text, i + 1)
    }
}

/// The decimal text the table gives a double.
pub open spec fn shown_text(t: FloatTextsModel, bits: u64) -> Seq<char> {
    shown_from(t.shown, bits, 0)
}

/// The double the table gives a text, if any.
pub open spec fn parsed_bits(t: FloatTextsModel, text: Seq<char>) -> Option<u64> {
    parsed_from(t.parsed, text, 0)
}

impl FloatTexts {
    /// An empty table: no double has a text and no text parses.
    pub fn new() -> (t: FloatTexts)
        ensures
            t@.shown.len() == 0,
            t@.parsed.len() == 0,
    {
        FloatTexts { shown: Vec::new(), parsed: Vec::new() }
    }

    /// The text for the double with the given bits.
    pub fn show(&self, bits: u64) -> (r: Vec<char>)
        ensures
            r@ == shown_text(self@, bits),
    {
        let mut i: usize = 0;
        while i < self.shown.len()
            invariant
                i <= self.shown@.len(),
                shown_text(self@, bits) == shown_from(self@.shown, bits, i as int),
            decreases self.shown@.len() - i,
        {
            if self.shown[i].0 == bits {
                return chars_of(self.shown[i].1.as_str());
            }
            i = i + 1;
        }
        Vec::new()
    }

    /// The double that the given text parses to, if any.
    pub fn parse(&self, text: &[char]) -> (r: Option<u64>)
        ensures
            r == parsed_bits(self@, text@),
    {
        let mut i: usize = 0;
        while i < self.parsed.len()
            invariant
                i <= self.parsed@.len(),
                parsed_bits(self@, text@) == parsed_from(self@.parsed, text@, i as int),
            decreases self.parsed@.len() - i,
        {
            let entry = chars_of(self.parsed[i].0.as_str());
            if chars_eq(&entry, text) {
                return Some(self.parsed[i].1);
            }
            i = i + 1;
        }
        None
    }
}

} // verus!
