//! The line that shows one bookmark.

use vstd::prelude::*;

use crate::collection::{Bookmark, BookmarkView};
use crate::error::BookmarkError;
use crate::hostname::{extract_hostname, url_host};
use crate::text::{join_with, joined};

verus! {

/// What follows the URL when the icon is shown: a tab, a NUL, the text
/// `icon` and a unit separator; the host comes right after it.
pub open spec fn icon_marker() -> Seq<char> {
    seq!['\t', '\0', 'i', 'c', 'o', 'n', '\x1f']
}

/// The line for a bookmark: its name, its tags joined by commas and its URL,
/// separated by tabs, then the icon marker and the host unless the icon is
/// excluded.
pub open spec fn line_of(name: Seq<char>, b: BookmarkView, host: Seq<char>, exclude_icon: bool) -> Seq<char> {
    let base = name + seq!['\t'] + joined(b.tags, seq![',']) + seq!['\t'] + b.url;
    if exclude_icon {
        base
    } else {
        base + icon_marker() + host
    }
}

/// The display line for the bookmark `name`. Fails with `MalformedUrl`
/// where the URL has no host to extract, whether or not the icon is shown.
pub fn format_line(name: &str, bookmark: &Bookmark, exclude_icon: bool) -> (r: Result<String, BookmarkError>)
    ensures
        r is Ok == url_host(bookmark.url@) is Some,
        r matches Ok(l) ==> l@ == line_of(name@, bookmark@, url_host(bookmark.url@)->0, exclude_icon),
        r matches Err(e) ==> e matches BookmarkError::MalformedUrl(u) && u@ == bookmark.url@,
{
    let host = match extract_hostname(bookmark.url.as_str()) {
        Ok(h) => h,
        Err(e) => {
            return Err(e);
        },
    };
    let tags = join_with(&bookmark.tags, ",");
    let mut line = name.to_string();
    line.append("\t");
    line.append(tags.as_str());
    line.append("\t");
    line.append(bookmark.url.as_str());
    if !exclude_icon {
        line.append("\t\0icon\x1f");
        line.append(host.as_str());
    }
    proof {
        reveal_strlit("\t");
        reveal_strlit(",");
        reveal_strlit("\t\0icon\x1f");
        assert(",".view() =~= seq![',']);
        assert("\t".view() =~= seq!['\t']);
        assert("\t\0icon\x1f".view() =~= icon_marker());
    }
    Ok(line)
}

} // verus!
