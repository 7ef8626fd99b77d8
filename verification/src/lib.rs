//! MIME type identification driven by a subclass hierarchy.
//!
//! Known MIME types are organized into a directed graph whose edges run from a
//! general parent type to its more specific child types. Identification walks
//! the graph from a generic root and descends into the first child whose rules
//! match the input, so only plausible types are ever tested, and the deepest
//! match wins.

use vstd::prelude::*;

pub mod checker;
pub mod db;
pub mod graph;
pub mod laws;

verus! {

/// True when every byte of `bytes` is plausible in a plain-text document:
/// printable, or one of tab, line feed, form feed, carriage return.
pub open spec fn is_text_byte(b: u8) -> bool {
    b == 9 || b == 10 || b == 12 || b == 13 || (0x20 <= b && b < 0x7f) || 0x80 <= b
}

/// A byte stream is taken for text when it is non-empty and contains only
/// plausible text bytes. The empty stream is deliberately not text, so that
/// empty input falls back to the generic binary type.
pub open spec fn is_text_spec(bytes: Seq<u8>) -> bool {
    bytes.len() > 0 && forall|i: int| 0 <= i < bytes.len() ==> is_text_byte(bytes[i])
}

/// Decides whether a byte stream looks like plain text.
pub fn is_text(bytes: &[u8]) -> (r: bool)
    ensures
        r == is_text_spec(bytes@),
{
    if bytes.len() == 0 {
        return false;
    }
    for i in 0..bytes.len()
        invariant
            forall|j: int| 0 <= j < i ==> is_text_byte(bytes@[j]),
    {
        let b = bytes[i];
        if !(b == 9 || b == 10 || b == 12 || b == 13 || (0x20 <= b && b < 0x7f) || 0x80 <= b) {
            return false;
        }
    }
    true
}

} // verus!
