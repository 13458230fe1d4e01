//! The remote-control API of a running rclone.

use vstd::prelude::*;

use crate::text::{chars_of, concat, has_prefix, push_str, starts_with_str, string_of_range, trim, trim_chars, trim_end_char, trim_end_char_len};

verus! {

broadcast use vstd::string::group_string_axioms;

/// A remote-control endpoint to look at, with its credentials.
#[derive(Debug, Clone)]
pub struct RcTarget {
    pub addr: String,
    pub user: Option<String>,
    pub pass: Option<String>,
}

/// The URL of API call `path` on the endpoint at `addr`: the address
/// trimmed, without trailing slashes, with `http://` in front unless it
/// names a scheme.
pub open spec fn url_spec(addr: Seq<char>, path: Seq<char>) -> Seq<char> {
    let a = trim_end_char(trim(addr), '/');
    if has_prefix(a, "http://"@) || has_prefix(a, "https://"@) {
        a + path
    } else {
        "http://"@ + a + path
    }
}

/// The URL of API call `path` on the endpoint at `addr`.
pub fn url(addr: &str, path: &str) -> (r: String)
    ensures
        r@ == url_spec(addr@, path@),
{
    let t = trim_chars(chars_of(addr).as_slice());
    let n = trim_end_char_len(t.as_slice(), t.len(), '/');
    assert(t@.take(t@.len() as int) =~= t@);
    let a = string_of_range(t.as_slice(), 0, n);
    assert(a@ == t@.subrange(0, n as int));
    assert(t@.subrange(0, n as int) =~= t@.take(n as int));
    let ac = chars_of(a.as_str());
    if starts_with_str(ac.as_slice(), "http://") || starts_with_str(ac.as_slice(), "https://") {
        let mut r = a;
        push_str(&mut r, path);
        r
    } else {
        let mut r = concat("http://", a.as_str());
        push_str(&mut r, path);
        r
    }
}

} // verus!
