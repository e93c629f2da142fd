//! The bookmark commands: each takes the collection as loaded and the
//! command's parameters, and changes the collection or reports on it.

use vstd::prelude::*;

use crate::collection::{Bookmark, BookmarkView, Collection};
use crate::editor::{edit_command, edit_command_of};
use crate::error::BookmarkError;
use crate::format::{format_line, line_of};
use crate::hostname::url_host;

verus! {

/// Adds the bookmark `name`. Where a bookmark of that name exists it is
/// replaced whole if `force` is set; otherwise the collection stays as it
/// was and the result is `AlreadyExists`.
pub fn command_add(collection: &mut Collection, name: String, url: String, tags: Vec<String>, force: bool) -> (r:
    Result<(), BookmarkError>)
    ensures
        r is Err == (old(collection)@.contains_key(name@) && !force),
        r is Ok ==> final(collection)@ == old(collection)@.insert(
            name@,
            BookmarkView { url: url@, tags: tags.deep_view() },
        ),
        r matches Err(e) ==> e matches BookmarkError::AlreadyExists(n) && n@ == name@,
        r is Err ==> final(collection)@ == old(collection)@ && final(collection).listing() == old(
            collection,
        ).listing(),
        final(collection).valid(),
{
    if collection.contains(name.as_str()) && !force {
        return Err(BookmarkError::AlreadyExists(name));
    }
    collection.insert(name, Bookmark { url, tags });
    Ok(())
}

/// Deletes the bookmark `name`; every other entry stays as it was, in the
/// same order. Fails with `NotFound` where there is no such bookmark, and
/// the collection then stays as it was.
pub fn command_delete(collection: &mut Collection, name: &str) -> (r: Result<(), BookmarkError>)
    ensures
        r is Ok == old(collection)@.contains_key(name@),
        final(collection)@ == old(collection)@.remove(name@),
        r is Ok ==> exists|i: int|
            0 <= i < old(collection).listing().len() && old(collection).listing()[i].0 == name@
                && final(collection).listing() == old(collection).listing().remove(i),
        r is Err ==> final(collection).listing() == old(collection).listing(),
        r matches Err(e) ==> e matches BookmarkError::NotFound(n) && n@ == name@,
        final(collection).valid(),
{
    if collection.remove(name) {
        Ok(())
    } else {
        Err(BookmarkError::NotFound(name.to_string()))
    }
}

/// The command line that opens the store at `config_path` in an editor at
/// the bookmark `name`, made from `template`. Fails with `NotFound` where
/// there is no such bookmark.
pub fn command_edit(collection: &Collection, name: &str, template: &str, config_path: &str) -> (r: Result<
    String,
    BookmarkError,
>)
    ensures
        r is Ok == collection@.contains_key(name@),
        r matches Ok(line) ==> line@ == edit_command_of(template@, config_path@, name@),
        r matches Err(e) ==> e matches BookmarkError::NotFound(n) && n@ == name@,
{
    if !collection.contains(name) {
        return Err(BookmarkError::NotFound(name.to_string()));
    }
    Ok(edit_command(template, config_path, name))
}

/// The display lines of all bookmarks, in name order. Fails with
/// `MalformedUrl` for the first bookmark, in that order, whose URL has no
/// host; then no line is produced.
pub fn command_view(collection: &Collection, exclude_icon: bool) -> (r: Result<Vec<String>, BookmarkError>)
    ensures
        collection.valid(),
        r is Ok == (forall|i: int|
            0 <= i < collection.listing().len() ==> (#[trigger] url_host(collection.listing()[i].1.url)) is Some),
        r matches Ok(lines) ==> lines@.len() == collection.listing().len() && forall|i: int|
            0 <= i < lines@.len() ==> (#[trigger] lines@[i])@ == line_of(
                collection.listing()[i].0,
                collection.listing()[i].1,
                url_host(collection.listing()[i].1.url)->0,
                exclude_icon,
            ),
        r matches Err(e) ==> exists|i: int|
            0 <= i < collection.listing().len() && url_host(collection.listing()[i].1.url) is None
                && (forall|j: int| 0 <= j < i ==> (#[trigger] url_host(collection.listing()[j].1.url)) is Some)
                && (e matches BookmarkError::MalformedUrl(u) && u@ == collection.listing()[i].1.url),
{
    let entries = collection.entries();
    let ghost l = collection.listing();
    let mut lines: Vec<String> = Vec::new();
    let mut i: usize = 0;
    while i < entries.len()
        invariant
            l == collection.listing(),
            collection.valid(),
            l == entries@.map_values(|e: crate::collection::Entry| e@),
            i <= l.len(),
            lines@.len() == i,
            forall|j: int| 0 <= j < i ==> (#[trigger] url_host(l[j].1.url)) is Some,
            forall|j: int|
                0 <= j < i ==> (#[trigger] lines@[j])@ == line_of(l[j].0, l[j].1, url_host(l[j].1.url)->0, exclude_icon),
        decreases l.len() - i,
    {
        let entry = &entries[i];
        assert(l[i as int] == entry@);
        match format_line(entry.name.as_str(), &entry.bookmark, exclude_icon) {
            Ok(line) => {
                lines.push(line);
            },
            Err(e) => {
                assert(url_host(l[i as int].1.url) is None);
                return Err(e);
            },
        }
        i = i + 1;
    }
    Ok(lines)
}

/// Listing the tags is not offered yet: there is nothing to do.
pub fn command_list_tags() -> (r: Result<(), BookmarkError>)
    ensures
        r is Ok,
{
    Ok(())
}

} // verus!
