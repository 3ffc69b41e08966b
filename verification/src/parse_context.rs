//! The text a front-end parse runs over. Reading spans out of a parse
//! tree, and error rendering, live with the front-end outside the
//! library.

use vstd::prelude::*;

verus! {

/// The source text of one parse.
pub struct ParseContext {
    text: String,
}

impl View for ParseContext {
    type V = Seq<char>;

    closed spec fn view(&self) -> Seq<char> {
        self.text@
    }
}

impl ParseContext {
    pub fn new(text: String) -> (r: ParseContext)
        ensures
            r@ == text@,
    {
        ParseContext { text }
    }
}

} // verus!
