use vstd::prelude::*;

verus! {

/// A pre-rendered piece of highlighted HTML, carried on a code node in
/// place of its plain-text content and written out verbatim by a renderer.
pub struct SyntectSnippet {
    pub html: String,
}

impl SyntectSnippet {
    /// Wrap already rendered HTML in a snippet.
    pub fn new(html: String) -> (s: Self)
        ensures
            s.html@ == html@,
    {
        SyntectSnippet { html }
    }
}

} // verus!
