//! What is said of a file that is served as it lies on the disk.

use vstd::prelude::*;

verus! {

/// `text` ends with `end`.
pub open spec fn is_suffix(end: Seq<char>, text: Seq<char>) -> bool {
    end.len() <= text.len() && text.skip(text.len() - end.len()) == end
}

/// `str::ends_with` of std tells whether a string slice, taken as the
/// pattern, matches a suffix of the text.
#[verifier::external_body]
fn ends_with(text: &str, end: &str) -> (r: bool)
    ensures
        r == is_suffix(end@, text@),
{
    text.ends_with(end)
}

/// The content type of the file at `path`: that of a script where the
/// name ends in `.js`, and none else.
pub fn content_type(path: &str) -> (r: &'static str)
    ensures
        r@ == if is_suffix(".js"@, path@) {
            "text/javascript"@
        } else {
            ""@
        },
{
    if ends_with(path, ".js") {
        "text/javascript"
    } else {
        ""
    }
}

} // verus!
