//! The host part of a bookmark's URL.

use vstd::prelude::*;

use crate::error::BookmarkError;
use crate::text::first_index;

verus! {

/// The pattern whose second group is the host: a scheme of characters other
/// than `:`, then `://`, then the host up to the next `/`.
pub const HOSTNAME_PATTERN: &'static str = r"^([^:]*://)([^/]*)/?.*?$";

/// What [`HOSTNAME_PATTERN`] captures as its second group in `url`, or `None`
/// where it does not match. The scheme runs to the first `:`, which must be
/// followed by `//`; the host is what follows, up to the first `/` or the
/// end; what comes after the host may not hold a line break, as `.` does not
/// match one.
pub open spec fn url_host(url: Seq<char>) -> Option<Seq<char>> {
    let k = first_index(url, ':');
    let rest = url.skip(k + 3);
    let h = first_index(rest, '/');
    if k + 3 <= url.len() && url[k + 1] == '/' && url[k + 2] == '/' && !rest.skip(h).contains('\n') {
        Some(rest.take(h))
    } else {
        None
    }
}

/// Relies on regex::Regex::new, which compiles the hostname pattern without
/// error, and on Regex::captures with Captures::get, which give the text of
/// the pattern's second group where the pattern matches `url`, and `None`
/// where it does not.
#[verifier::external_body]
fn capture_host(pattern: &str, url: &str) -> (r: Option<String>)
    requires
        pattern@ == HOSTNAME_PATTERN@,
    ensures
        r is Some == url_host(url@) is Some,
        r matches Some(h) ==> h@ == url_host(url@)->0,
{
    let re = regex::Regex::new(pattern).unwrap();
    re.captures(url).and_then(|c| c.get(2)).map(|m| m.as_str().to_string())
}

/// The host of `url`: what follows `://` up to the next `/`, or the end.
/// Fails with `MalformedUrl` where `url` does not have that form.
pub fn extract_hostname(url: &str) -> (r: Result<String, BookmarkError>)
    ensures
        r is Ok == url_host(url@) is Some,
        r matches Ok(h) ==> h@ == url_host(url@)->0,
        r matches Err(e) ==> e matches BookmarkError::MalformedUrl(u) && u@ == url@,
{
    match capture_host(HOSTNAME_PATTERN, url) {
        Some(h) => Ok(h),
        None => Err(BookmarkError::MalformedUrl(url.to_string())),
    }
}

} // verus!
