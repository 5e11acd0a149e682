use vstd::prelude::*;
use vstd::string::{StrSliceExecFns, StringExecFns};

verus! {

/// The uppercase mapping of one character.
pub uninterp spec fn upper_of(c: char) -> Seq<char>;

/// Relies on `char::to_uppercase`, collected into a `String`: the uppercase
/// mapping of `c`, which is one or more characters and depends on `c` alone.
#[verifier::external_body]
fn char_to_uppercase(c: char) -> (r: String)
    ensures
        r@ == upper_of(c),
        r@.len() >= 1,
{
    c.to_uppercase().collect::<String>()
}

/// `s` with its first character replaced by `head`; empty when `s` is empty.
pub fn replace_first(head: &str, s: &str) -> (r: String)
    ensures
        s@.len() == 0 ==> r@.len() == 0,
        s@.len() > 0 ==> r@ == head@ + s@.subrange(1, s@.len() as int),
{
    let n = s.unicode_len();
    if n == 0 {
        return String::new();
    }
    let rest = s.substring_char(1, n);
    let mut r = String::from_str(head);
    r.append(rest);
    r
}

/// `s` with its first character in upper case; empty when `s` is empty.
pub fn capitalise(s: &str) -> (r: String)
    ensures
        s@.len() == 0 ==> r@.len() == 0,
        s@.len() > 0 ==> r@ == upper_of(s@[0]) + s@.subrange(1, s@.len() as int),
{
    let n = s.unicode_len();
    if n == 0 {
        return String::new();
    }
    let head = char_to_uppercase(s.get_char(0));
    replace_first(head.as_str(), s)
}

} // verus!
