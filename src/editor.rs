//! The command line that opens the store in an editor at one bookmark.

use vstd::prelude::*;

use crate::error::BookmarkError;
use crate::text::{replace_all, replaced};

verus! {

/// Stands for the absolute path of the store in an editor command template.
pub const CONFIG_PATH_PLACEHOLDER: &'static str = "$BOOKIT_CONFIG_PATH";

/// Stands for the bookmark's name in an editor command template.
pub const NAME_PLACEHOLDER: &'static str = "$BOOKIT_BOOKMARK_NAME";

/// Stands for the bookmark's name with each `/` escaped as `\/`, as vim's
/// search wants it.
pub const VIM_NAME_PLACEHOLDER: &'static str = "$VIM_BOOKIT_BOOKMARK_NAME";

/// The template used where none is configured: open the store in `$EDITOR`
/// and search for the bookmark's name.
pub const DEFAULT_EDIT_COMMAND: &'static str = "$EDITOR \"$BOOKIT_CONFIG_PATH\" \"+/$VIM_BOOKIT_BOOKMARK_NAME\"";

/// `name` with each `/` written as `\/`.
pub open spec fn slashes_escaped(name: Seq<char>) -> Seq<char> {
    replaced(name, seq!['/'], seq!['\\', '/'])
}

/// The template with its placeholders filled in, one after the other: the
/// store's path, then the name, then the escaped name.
pub open spec fn edit_command_of(template: Seq<char>, config_path: Seq<char>, name: Seq<char>) -> Seq<char> {
    replaced(
        replaced(replaced(template, CONFIG_PATH_PLACEHOLDER@, config_path), NAME_PLACEHOLDER@, name),
        VIM_NAME_PLACEHOLDER@,
        slashes_escaped(name),
    )
}

/// Fills in the placeholders of an editor command template.
pub fn edit_command(template: &str, config_path: &str, name: &str) -> (r: String)
    ensures
        r@ == edit_command_of(template@, config_path@, name@),
{
    proof {
        reveal_strlit("$BOOKIT_CONFIG_PATH");
        reveal_strlit("$BOOKIT_BOOKMARK_NAME");
        reveal_strlit("$VIM_BOOKIT_BOOKMARK_NAME");
        reveal_strlit("/");
        reveal_strlit("\\/");
        assert("/"@ =~= seq!['/']);
        assert("\\/"@ =~= seq!['\\', '/']);
    }
    let with_path = replace_all(template, CONFIG_PATH_PLACEHOLDER, config_path);
    let with_name = replace_all(with_path.as_str(), NAME_PLACEHOLDER, name);
    let escaped = replace_all(name, "/", "\\/");
    replace_all(with_name.as_str(), VIM_NAME_PLACEHOLDER, escaped.as_str())
}

/// The words into which shlex splits a command line, as a POSIX shell
/// would, or `None` where the line cannot be split.
pub uninterp spec fn shell_words(line: Seq<char>) -> Option<Seq<Seq<char>>>;

/// The command line into which shlex joins words, each quoted as a shell
/// needs it and separated by single spaces.
pub uninterp spec fn shell_joined(words: Seq<Seq<char>>) -> Seq<char>;

/// Relies on shlex::split: the words of the line, or `None` where the line
/// is erroneous (an unclosed quote or a trailing backslash).
#[verifier::external_body]
fn split_words(line: &str) -> (r: Option<Vec<String>>)
    ensures
        r is Some == shell_words(line@) is Some,
        r matches Some(w) ==> w.deep_view() == shell_words(line@)->0,
{
    shlex::split(line)
}

/// Relies on shlex::join: the words quoted as needed and separated by
/// spaces; with nul bytes passed through it does not fail.
#[allow(deprecated)]
#[verifier::external_body]
fn join_words(words: &Vec<String>) -> (r: String)
    ensures
        r@ == shell_joined(words.deep_view()),
{
    shlex::join(words.iter().map(|w| w.as_str()))
}

/// The words of an expanded editor command line, re-quoted: the line is
/// split, joined back with each word quoted, and split again. Fails with
/// `InvalidCommand` where a split fails.
pub fn editor_words(line: &str) -> (r: Result<Vec<String>, BookmarkError>)
    ensures
        r is Ok == (shell_words(line@) is Some && shell_words(shell_joined(shell_words(line@)->0)) is Some),
        r matches Ok(w) ==> w.deep_view() == shell_words(shell_joined(shell_words(line@)->0))->0,
        r matches Err(e) ==> e matches BookmarkError::InvalidCommand(l) && l@ == line@,
{
    let words = match split_words(line) {
        Some(w) => w,
        None => {
            return Err(BookmarkError::InvalidCommand(line.to_string()));
        },
    };
    let quoted = join_words(&words);
    match split_words(quoted.as_str()) {
        Some(w) => Ok(w),
        None => Err(BookmarkError::InvalidCommand(line.to_string())),
    }
}

/// The program to run and its arguments: the first word and the rest.
/// Fails with `EmptyCommand` where there are no words.
pub fn program_and_args(words: Vec<String>) -> (r: Result<(String, Vec<String>), BookmarkError>)
    ensures
        r is Ok == (words@.len() > 0),
        r matches Ok((p, a)) ==> p@ == words.deep_view()[0] && a.deep_view() == words.deep_view().drop_first(),
        r matches Err(e) ==> e is EmptyCommand,
{
    let mut words = words;
    if words.len() == 0 {
        return Err(BookmarkError::EmptyCommand);
    }
    let ghost all = words.deep_view();
    let program = words.remove(0);
    assert(words.deep_view() =~= all.drop_first());
    Ok((program, words))
}

} // verus!
