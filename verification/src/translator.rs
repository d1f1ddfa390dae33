//! What the translator shows for a message: the translation without the
//! bidirectional isolation marks that the message formatter inserts, or
//! a fallback when there is no translation.
use vstd::prelude::*;

verus! {

/// Whether `c` is one of the marks that isolate a placeable (U+2068 and
/// U+2069).
pub open spec fn is_isolation_mark(c: char) -> bool {
    c == '\u{2068}' || c == '\u{2069}'
}

/// `s` without its isolation marks.
pub open spec fn without_marks(s: Seq<char>) -> Seq<char>
    decreases s.len(),
{
    if s.len() == 0 {
        s
    } else if is_isolation_mark(s.last()) {
        without_marks(s.drop_last())
    } else {
        without_marks(s.drop_last()).push(s.last())
    }
}

/// `str::replace` of the two isolation marks by nothing: the text with every
/// U+2068 and U+2069 taken out and the other characters kept in order.
#[verifier::external_body]
fn strip_isolation_marks(s: &str) -> (res: String)
    ensures
        res@ == without_marks(s@),
{
    s.replace(['\u{2068}', '\u{2069}'], "")
}

/// What is shown for the message `id`: its translation `content` without
/// isolation marks; with no translation, nothing for an attribute of the
/// message and the id itself for the message.
pub fn shown_text(content: Option<&str>, id: &str, is_attribute: bool) -> (res: String)
    ensures
        res@ == match content {
            Some(c) => without_marks(c@),
            None => if is_attribute {
                Seq::empty()
            } else {
                id@
            },
        },
{
    match content {
        Some(c) => strip_isolation_marks(c),
        None => if is_attribute {
            String::new()
        } else {
            id.to_owned()
        },
    }
}

} // verus!
