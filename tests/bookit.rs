use bookit::text::{join_with, replace_all};
use bookit::{
    command_add, command_delete, command_edit, command_list_tags, command_view, edit_command, editor_words,
    extract_hostname, format_line, name_less, program_and_args, Bookmark, BookmarkError, Collection, Entry,
    DEFAULT_EDIT_COMMAND,
};

fn strings(words: &[&str]) -> Vec<String> {
    words.iter().map(|w| w.to_string()).collect()
}

fn entry(name: &str, url: &str, tags: &[&str]) -> Entry {
    Entry { name: name.to_string(), bookmark: Bookmark { url: url.to_string(), tags: strings(tags) } }
}

fn bookit_only() -> Collection {
    Collection::from_entries(vec![entry(
        "GitHub (bookit)",
        "https://github.com/Nate-Wilkins/bookit",
        &["internet", "browser", "bookmarks"],
    )])
}

fn bookit_and_mallardscript() -> Collection {
    Collection::from_entries(vec![
        entry("GitHub (bookit)", "https://github.com/Nate-Wilkins/bookit", &["internet", "browser", "bookmarks"]),
        entry(
            "GitHub (mallardscript)",
            "https://github.com/Nate-Wilkins/mallardscript",
            &["duckyscript", "security", "keyboard", "automation"],
        ),
    ])
}

fn names(c: &Collection) -> Vec<String> {
    c.entries().iter().map(|e| e.name.clone()).collect()
}

#[test]
fn test_command_view_bookmarks_empty() {
    let c = Collection::new();
    assert_eq!(command_view(&c, false), Ok(vec![]));
    assert_eq!(command_view(&c, true), Ok(vec![]));
}

#[test]
fn test_command_view_bookmarks_one() {
    let c = bookit_only();
    let lines = command_view(&c, false).unwrap();
    assert_eq!(
        lines,
        vec!["GitHub (bookit)\tinternet,browser,bookmarks\thttps://github.com/Nate-Wilkins/bookit\t\0icon\x1fgithub.com"
            .to_string()]
    );
}

#[test]
fn test_command_view_bookmarks_multiple() {
    let c = bookit_and_mallardscript();
    let lines = command_view(&c, false).unwrap();
    assert_eq!(
        lines.join("\n"),
        "GitHub (bookit)\tinternet,browser,bookmarks\thttps://github.com/Nate-Wilkins/bookit\t\0icon\x1fgithub.com
GitHub (mallardscript)\tduckyscript,security,keyboard,automation\thttps://github.com/Nate-Wilkins/mallardscript\t\0icon\x1fgithub.com"
    );
}

#[test]
fn test_command_view_bookmarks_multiple_exclude_icon() {
    let c = bookit_and_mallardscript();
    let lines = command_view(&c, true).unwrap();
    assert_eq!(
        lines.join("\n"),
        "GitHub (bookit)\tinternet,browser,bookmarks\thttps://github.com/Nate-Wilkins/bookit
GitHub (mallardscript)\tduckyscript,security,keyboard,automation\thttps://github.com/Nate-Wilkins/mallardscript"
    );
}

#[test]
fn view_lists_in_name_order_whatever_the_insertion_order() {
    let c = Collection::from_entries(vec![
        entry("b", "https://b.example/x", &[]),
        entry("a", "https://a.example", &["t"]),
        entry("B", "http://upper.example/", &["x", "y"]),
    ]);
    assert_eq!(
        command_view(&c, true).unwrap(),
        strings(&["B\tx,y\thttp://upper.example/", "a\tt\thttps://a.example", "b\t\thttps://b.example/x"])
    );
}

#[test]
fn view_fails_on_first_malformed_url_and_gives_no_lines() {
    let c = Collection::from_entries(vec![
        entry("a", "https://a.example", &[]),
        entry("b", "no-scheme-here", &[]),
        entry("c", "also bad", &[]),
    ]);
    assert_eq!(command_view(&c, false), Err(BookmarkError::MalformedUrl("no-scheme-here".to_string())));
    assert_eq!(command_view(&c, true), Err(BookmarkError::MalformedUrl("no-scheme-here".to_string())));
}

#[test]
fn test_command_add_bookmark() {
    let mut c = bookit_only();
    let r = command_add(
        &mut c,
        "GitHub (mallardscript)".to_string(),
        "https://github.com/Nate-Wilkins/mallardscript".to_string(),
        strings(&["duckyscript", "security", "keyboard", "automation"]),
        false,
    );
    assert_eq!(r, Ok(()));
    assert_eq!(names(&c), strings(&["GitHub (bookit)", "GitHub (mallardscript)"]));
    assert_eq!(
        c.get("GitHub (mallardscript)"),
        Some(&Bookmark {
            url: "https://github.com/Nate-Wilkins/mallardscript".to_string(),
            tags: strings(&["duckyscript", "security", "keyboard", "automation"]),
        })
    );
}

#[test]
fn test_command_add_bookmark_exists() {
    let mut c = bookit_only();
    let before = c.entries().clone();
    let r = command_add(
        &mut c,
        "GitHub (bookit)".to_string(),
        "https://github.com/Nate-Wilkins/bookit".to_string(),
        strings(&["internet", "browser", "bookmarks"]),
        false,
    );
    assert_eq!(r, Err(BookmarkError::AlreadyExists("GitHub (bookit)".to_string())));
    assert_eq!(c.entries(), &before);
}

#[test]
fn add_existing_name_with_other_values_is_refused_unchanged() {
    let mut c = bookit_and_mallardscript();
    let before = c.entries().clone();
    let r = command_add(&mut c, "GitHub (bookit)".to_string(), "https://x.example".to_string(), strings(&["a", "b"]), false);
    assert!(matches!(r, Err(BookmarkError::AlreadyExists(ref n)) if n == "GitHub (bookit)"));
    assert_eq!(c.entries(), &before);
}

#[test]
fn test_command_add_bookmark_exists_force() {
    let mut c = bookit_only();
    let r = command_add(
        &mut c,
        "GitHub (bookit)".to_string(),
        "https://github.com/Nate-Wilkins/renamed-bookit".to_string(),
        strings(&["internet", "browser", "bookmarks"]),
        true,
    );
    assert_eq!(r, Ok(()));
    assert_eq!(c.len(), 1);
    assert_eq!(
        c.entries()[0],
        entry("GitHub (bookit)", "https://github.com/Nate-Wilkins/renamed-bookit", &["internet", "browser", "bookmarks"])
    );
}

#[test]
fn forced_add_replaces_tags_without_merging() {
    let mut c = bookit_only();
    let r = command_add(&mut c, "GitHub (bookit)".to_string(), "https://g.example".to_string(), strings(&["z", "z"]), true);
    assert_eq!(r, Ok(()));
    assert_eq!(c.get("GitHub (bookit)").unwrap().tags, strings(&["z", "z"]));
}

#[test]
fn add_keeps_names_unique_and_sorted() {
    let mut c = Collection::new();
    for (n, force) in [("m", false), ("a", false), ("z", false), ("m", true), ("a", false)] {
        let _ = command_add(&mut c, n.to_string(), "https://h.example".to_string(), vec![], force);
    }
    assert_eq!(names(&c), strings(&["a", "m", "z"]));
}

#[test]
fn test_command_edit_bookmark_missing() {
    let c = Collection::new();
    let r = command_edit(&c, "GitHub (bookit)", DEFAULT_EDIT_COMMAND, "/tmp/.bookit");
    assert_eq!(r, Err(BookmarkError::NotFound("GitHub (bookit)".to_string())));
}

#[test]
fn test_command_edit_bookmark() {
    let c = Collection::from_entries(vec![entry(
        "GitHub (bookit/issues)",
        "https://github.com/Nate-Wilkins/bookit/issues",
        &["internet", "browser", "bookmarks", "issues"],
    )]);
    let template = "printf \"EDITOR \\\"$BOOKIT_CONFIG_PATH\\\" \\\"+/$BOOKIT_BOOKMARK_NAME\\\"\\n\"";
    let line = command_edit(&c, "GitHub (bookit/issues)", template, "/tmp/store.yml").unwrap();
    assert_eq!(line, "printf \"EDITOR \\\"/tmp/store.yml\\\" \\\"+/GitHub (bookit/issues)\\\"\\n\"");
    let words = editor_words(&line).unwrap();
    let (program, args) = program_and_args(words).unwrap();
    assert_eq!(program, "printf");
    assert_eq!(args, strings(&["EDITOR \"/tmp/store.yml\" \"+/GitHub (bookit/issues)\"\\n"]));
}

#[test]
fn default_edit_command_escapes_slashes_for_vim() {
    let line = edit_command(DEFAULT_EDIT_COMMAND, "/home/u/.bookit", "a/b/c");
    assert_eq!(line, "$EDITOR \"/home/u/.bookit\" \"+/a\\/b\\/c\"");
}

#[test]
fn edit_command_replaces_every_occurrence() {
    let line = edit_command("$BOOKIT_BOOKMARK_NAME-$BOOKIT_BOOKMARK_NAME $BOOKIT_CONFIG_PATH", "p", "n");
    assert_eq!(line, "n-n p");
    assert_eq!(edit_command("no placeholders", "p", "n"), "no placeholders");
}

#[test]
fn editor_words_requotes_and_rejects_unclosed_quotes() {
    assert_eq!(editor_words("vim 'a b' c"), Ok(strings(&["vim", "a b", "c"])));
    assert_eq!(editor_words("vim \"unclosed"), Err(BookmarkError::InvalidCommand("vim \"unclosed".to_string())));
    assert_eq!(editor_words(""), Ok(vec![]));
}

#[test]
fn program_and_args_needs_a_word() {
    assert_eq!(program_and_args(vec![]), Err(BookmarkError::EmptyCommand));
    assert_eq!(program_and_args(strings(&["vi", "x"])), Ok(("vi".to_string(), strings(&["x"]))));
}

#[test]
fn test_command_delete_bookmark() {
    let mut c = bookit_only();
    assert_eq!(command_delete(&mut c, "GitHub (bookit)"), Ok(()));
    assert_eq!(c.len(), 0);
    assert_eq!(command_view(&c, false), Ok(vec![]));
}

#[test]
fn test_command_delete_bookmark_missing() {
    let mut c = bookit_only();
    let before = c.entries().clone();
    assert_eq!(
        command_delete(&mut c, "GitHub (mallardscript)"),
        Err(BookmarkError::NotFound("GitHub (mallardscript)".to_string()))
    );
    assert_eq!(c.entries(), &before);
}

#[test]
fn delete_leaves_other_entries_untouched() {
    let mut c = Collection::from_entries(vec![
        entry("a", "https://a.example", &["1"]),
        entry("b", "https://b.example", &["2", "3"]),
        entry("c", "https://c.example", &[]),
    ]);
    assert_eq!(command_delete(&mut c, "b"), Ok(()));
    assert_eq!(
        c.entries(),
        &vec![entry("a", "https://a.example", &["1"]), entry("c", "https://c.example", &[])]
    );
}

#[test]
fn hostname_extraction() {
    assert_eq!(extract_hostname("https://github.com/a/b"), Ok("github.com".to_string()));
    assert_eq!(extract_hostname("not-a-url"), Err(BookmarkError::MalformedUrl("not-a-url".to_string())));
    assert_eq!(extract_hostname("http://localhost"), Ok("localhost".to_string()));
    assert_eq!(extract_hostname("ftp://host:21/x"), Ok("host:21".to_string()));
    assert_eq!(extract_hostname("file:///etc/hosts"), Ok("".to_string()));
    assert_eq!(extract_hostname("a:b://c"), Err(BookmarkError::MalformedUrl("a:b://c".to_string())));
    assert_eq!(extract_hostname("https://h/x\ny"), Err(BookmarkError::MalformedUrl("https://h/x\ny".to_string())));
}

#[test]
fn format_line_with_and_without_icon() {
    let b = Bookmark { url: "https://docs.rs/regex".to_string(), tags: strings(&["rust", "", "docs"]) };
    assert_eq!(format_line("Docs", &b, false), Ok("Docs\trust,,docs\thttps://docs.rs/regex\t\0icon\x1fdocs.rs".to_string()));
    assert_eq!(format_line("Docs", &b, true), Ok("Docs\trust,,docs\thttps://docs.rs/regex".to_string()));
    let bad = Bookmark { url: "docs".to_string(), tags: vec![] };
    assert_eq!(format_line("Docs", &bad, true), Err(BookmarkError::MalformedUrl("docs".to_string())));
}

#[test]
fn name_order_is_by_code_point() {
    assert!(name_less("B", "a"));
    assert!(name_less("ab", "abc"));
    assert!(!name_less("abc", "abc"));
    assert!(!name_less("b", "abc"));
    assert!(name_less("z", "é"));
}

#[test]
fn rebuilding_from_the_listing_gives_the_same_collection() {
    let c = bookit_and_mallardscript();
    let rebuilt = Collection::from_entries(c.entries().clone());
    assert_eq!(rebuilt.entries(), c.entries());
    let later = Collection::from_entries(vec![entry("x", "https://1.example", &[]), entry("x", "https://2.example", &[])]);
    assert_eq!(later.entries(), &vec![entry("x", "https://2.example", &[])]);
}

#[test]
fn listing_tags_does_nothing_yet() {
    assert_eq!(command_list_tags(), Ok(()));
}

#[test]
fn contains_and_get() {
    let c = bookit_only();
    assert!(c.contains("GitHub (bookit)"));
    assert!(!c.contains("GitHub"));
    assert_eq!(c.get("GitHub"), None);
}


#[test]
fn join_with_puts_separator_between_parts_only() {
    assert_eq!(join_with(&strings(&[]), ","), "");
    assert_eq!(join_with(&strings(&["a"]), ","), "a");
    assert_eq!(join_with(&strings(&["a", "", "c"]), ", "), "a, , c");
}

#[test]
fn replace_all_goes_left_to_right_without_overlap() {
    assert_eq!(replace_all("aaa", "aa", "b"), "ba");
    assert_eq!(replace_all("x/y/z", "/", "\\/"), "x\\/y\\/z");
    assert_eq!(replace_all("", "a", "b"), "");
    assert_eq!(replace_all("héllo", "é", "e"), "hello");
}
