//! The value a rich-text repository holds.

use vstd::prelude::*;

verus! {

/// A value a repository can hold for a rich-text record.
pub trait RichTextLike {
    /// The text form of the record.
    fn as_text(&self) -> String;
}

impl RichTextLike for String {
    fn as_text(&self) -> (r: String)
        ensures
            r@ == self@,
    {
        self.clone()
    }
}

} // verus!
