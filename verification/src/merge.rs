use vstd::prelude::*;

use crate::scanner::attrs_view;
use crate::scanner::parse_attrs;
use crate::scanner::parse_result;

verus! {

proof fn lemma_attrs_view_concat(a: Seq<(String, String)>, b: Seq<(String, String)>)
    ensures
        attrs_view(a + b) == attrs_view(a) + attrs_view(b),
{
    assert(attrs_view(a + b) =~= attrs_view(a) + attrs_view(b));
}

/// Apply the attribute merge policy to one node's decorated text and
/// attribute collection.
///
/// When `content` carries a well-formed trailing annotation, the annotation
/// is stripped from `content` (with the whitespace before it trimmed) and
/// each extracted pair is appended to `attrs` in source order; pairs already
/// present are never removed, overwritten or deduplicated. Otherwise both
/// `content` and `attrs` are left untouched.
pub fn add(content: &mut String, attrs: &mut Vec<(String, String)>)
    ensures
        match parse_result(old(content)@) {
            Some((rem, found)) => final(content)@ == rem && attrs_view(final(attrs)@)
                == attrs_view(old(attrs)@) + found,
            None => final(content)@ == old(content)@ && final(attrs)@ == old(attrs)@,
        },
{
    let (rem, mut found) = parse_attrs(content.as_str());
    if found.len() == 0 {
        return ;
    }
    proof {
        lemma_attrs_view_concat(attrs@, found@);
    }
    *content = rem;
    attrs.append(&mut found);
}

} // verus!
