use one_grep::error::Error;
use one_grep::globs::GlobFilter;
use one_grep::rg::{
    fallback_pattern, fallback_search, fallback_terms, finish, lang_extensions, matches_lang,
    normalize_pattern, plan_search, search, unindexed_note, validate_langs, Hit, Options, Plan,
    SourceFile,
};

fn files(list: &[(&str, &str)]) -> Vec<SourceFile> {
    list.iter()
        .map(|(path, text)| SourceFile {
            path: format!("/ws/{path}"),
            bytes: text.as_bytes().to_vec(),
        })
        .collect()
}

fn found(list: &[(&str, &str)], pattern: &str, options: &Options) -> Result<Vec<Hit>, Error> {
    search("/ws", true, false, pattern, options, &files(list))
}

fn one(langs: &[&str]) -> Vec<String> {
    langs.iter().map(|l| (*l).to_owned()).collect()
}

#[test]
fn literal_search_finds_lines_with_locations() {
    let hits = found(
        &[("a.txt", "hello world\nfoo bar\n")],
        "foo",
        &Options::default(),
    )
    .expect("search");
    assert_eq!(hits.len(), 1);
    assert_eq!(hits[0].line, 2);
    assert_eq!(hits[0].text, "foo bar");
    assert_eq!(hits[0].path, "/ws/a.txt");
}

#[test]
fn regex_search_matches_pattern() {
    let options = Options {
        regex: true,
        ..Options::default()
    };
    let hits = found(&[("a.txt", "foo123\nbar\n")], r"foo\d+", &options).expect("search");
    assert_eq!(hits.len(), 1);
    assert_eq!(hits[0].text, "foo123");
}

#[test]
fn literal_search_ignores_regex_meta() {
    let hits = found(
        &[("a.txt", "foo.bar\nfooxbar\n")],
        "foo.bar",
        &Options::default(),
    )
    .expect("search");
    assert_eq!(hits.len(), 1);
    assert_eq!(hits[0].text, "foo.bar");
}

#[test]
fn single_file_root_searches_that_file() {
    let hits = search(
        "/ws/a.txt",
        true,
        true,
        "needle",
        &Options::default(),
        &files(&[("a.txt", "needle here\n")]),
    )
    .expect("search");
    assert_eq!(hits.len(), 1);
    assert_eq!(hits[0].path, "/ws/a.txt");
}

#[test]
fn non_directory_is_invalid_input() {
    let err = search("/no/such/dir", false, false, "x", &Options::default(), &[])
        .expect_err("must fail");
    assert!(matches!(err, Error::InvalidInput(_)));
    assert_eq!(err.message(), "workspace does not exist: /no/such/dir");
}

#[test]
fn bad_regex_is_bad_pattern() {
    let options = Options {
        regex: true,
        ..Options::default()
    };
    let err = found(&[("a.txt", "x\n")], "(", &options).expect_err("must fail");
    assert!(matches!(err, Error::BadPattern(_)));
}

#[test]
fn fallback_terms_drop_stopwords_and_keep_hyphenated() {
    let terms = fallback_terms("where is the one-grep home manager module");
    assert_eq!(terms, vec!["one-grep"]);
}

#[test]
fn fallback_search_finds_hits_without_index() {
    let hits = fallback_search(
        "/ws",
        true,
        false,
        "where is one-grep configured",
        10,
        &files(&[("notes.txt", "one-grep hybrid search\n")]),
    )
    .expect("fallback");
    assert_eq!(hits.len(), 1);
    assert_eq!(hits[0].path, "/ws/notes.txt");
    assert!(unindexed_note("/ws").contains("Indexing is available"));
}

#[test]
fn normalize_strips_one_outer_quote_pair() {
    assert_eq!(normalize_pattern("\"foo bar\""), "foo bar");
    assert_eq!(normalize_pattern("'foo bar'"), "foo bar");
    assert_eq!(normalize_pattern("  \"foo bar\"  "), "foo bar");
    assert_eq!(normalize_pattern("foo bar"), "foo bar");
    // Ambiguous / empty: keep original (trimmed) so we never match-all.
    assert_eq!(normalize_pattern("\"\""), "\"\"");
    assert_eq!(normalize_pattern("\"   \""), "\"   \"");
    assert_eq!(
        normalize_pattern("\"foo\" OR \"bar\""),
        "\"foo\" OR \"bar\""
    );
}

#[test]
fn quoted_literal_finds_same_hits_as_raw() {
    for pattern in ["comment lies", "\"comment lies\"", "'comment lies'"] {
        let hits = found(
            &[("a.txt", "comment lies here\n")],
            pattern,
            &Options::default(),
        )
        .expect("search");
        assert_eq!(hits.len(), 1, "{pattern}");
    }
}

#[test]
fn empty_after_normalize_returns_no_hits() {
    for pattern in ["", "   ", "\"\""] {
        let hits =
            found(&[("a.txt", "anything\n")], pattern, &Options::default()).expect("search");
        assert!(hits.is_empty(), "{pattern}");
    }
}

#[test]
fn normalize_is_idempotent() {
    for pattern in [
        "\"foo bar\"",
        "'foo bar'",
        "  \"foo bar\"  ",
        "foo bar",
        "\"\"",
        "\"   \"",
        "\"foo\" OR \"bar\"",
        "",
    ] {
        let once = normalize_pattern(pattern);
        assert_eq!(normalize_pattern(once), once, "{pattern}");
    }
}

#[test]
fn only_one_layer_of_quotes_is_stripped() {
    assert_eq!(normalize_pattern("\"'foo'\""), "'foo'");
    assert_eq!(normalize_pattern("\" foo \""), " foo ");
    assert_eq!(normalize_pattern("\u{3000}é\u{3000}"), "é");
}

#[test]
fn lang_filter_restricts_to_extensions() {
    let list = [
        ("main.rs", "needle here\n"),
        ("notes.txt", "needle here\n"),
        ("app.py", "needle here\n"),
    ];
    let rust_only = Options {
        langs: one(&["rust"]),
        ..Options::default()
    };
    let hits = found(&list, "needle", &rust_only).expect("search");
    assert_eq!(hits.len(), 1);
    assert_eq!(hits[0].path, "/ws/main.rs");
    // Extension aliases agree with canonical names.
    let alias = Options {
        langs: one(&["rs", "py"]),
        ..Options::default()
    };
    let hits = found(&list, "needle", &alias).expect("search");
    assert_eq!(hits.len(), 2);
}

#[test]
fn unknown_lang_fails_closed() {
    let options = Options {
        langs: one(&["cobol"]),
        ..Options::default()
    };
    let err = found(&[("a.rs", "x\n")], "x", &options).expect_err("must fail");
    assert!(matches!(err, Error::InvalidInput(_)));
    assert!(err.message().contains("rust"));
    assert_eq!(
        err.message(),
        "unknown --lang `cobol` (supported: rust, python, typescript, go, java, nix, markdown)"
    );
}

#[test]
fn parallel_search_is_sorted_and_deterministic() {
    let list = [
        ("b.txt", "same\nsame\n"),
        ("a.txt", "same\n"),
        ("sub/c.txt", "same\n"),
    ];
    let first = found(&list, "same", &Options::default()).expect("search");
    assert_eq!(first.len(), 4);
    let mut sorted = first.clone();
    sorted.sort_by(|a, b| a.path.cmp(&b.path).then_with(|| a.line.cmp(&b.line)));
    assert_eq!(first, sorted);
    let mut turned = list;
    turned.reverse();
    let second = found(&turned, "same", &Options::default()).expect("search");
    assert_eq!(first, second);
}

#[test]
fn matches_lang_accepts_names_and_extensions() {
    for (lang, path, want) in [
        ("rust", "src/main.rs", true),
        ("rs", "src/main.rs", true),
        ("python", "src/main.rs", false),
        ("markdown", "docs/a.md", true),
        ("md", "docs/a.markdown", true),
        ("nix", "hosts/x.nix", true),
        ("rust", "no-extension", false),
    ] {
        assert_eq!(
            matches_lang(path, &[lang.to_owned()]).expect("valid"),
            want,
            "{lang} {path}"
        );
    }
    assert!(matches_lang("a.rs", &[]).expect("empty passes"));
    let err = matches_lang("a.rs", &["cobol".to_owned()]).expect_err("unknown");
    assert!(matches!(err, Error::InvalidInput(_)));
}

#[test]
fn glob_filter_whitelist_and_negation() {
    let root = "/ws";
    let keep_all = GlobFilter::build(root, &[]).expect("empty");
    assert!(keep_all.keep("a.rs"));
    let rs_only = GlobFilter::build(root, &["*.rs".to_owned()]).expect("glob");
    assert!(rs_only.keep("/ws/a.rs"));
    assert!(!rs_only.keep("/ws/a.txt"));
    let not_target = GlobFilter::build(root, &["!target/*".to_owned()]).expect("neg");
    assert!(not_target.keep("/ws/src/a.rs"));
    assert!(!not_target.keep("/ws/target/a.rs"));
}

#[test]
fn malformed_globs_are_walk_errors() {
    let Err(err) = GlobFilter::build("/ws", &["[ab".to_owned()]) else {
        panic!("an unclosed class must fail");
    };
    assert!(matches!(err, Error::Walk(_)));
    let options = Options {
        globs: one(&["[ab"]),
        ..Options::default()
    };
    assert!(matches!(
        plan_search("/ws", true, false, "x", &options),
        Err(Error::Walk(_))
    ));
    // A single file is searched without a walk.
    assert!(matches!(
        plan_search("/ws/a", true, true, "x", &options),
        Ok(Plan::File(_))
    ));
}

#[test]
fn plans_check_in_order() {
    let bad = Options {
        regex: true,
        langs: one(&["cobol"]),
        globs: one(&["[ab"]),
        ..Options::default()
    };
    assert!(matches!(
        plan_search("/ws", true, false, " ", &bad),
        Err(Error::InvalidInput(_))
    ));
    let unfit = Options {
        globs: one(&["[ab"]),
        ..Options::default()
    };
    assert!(matches!(
        plan_search("/ws", true, false, " ", &unfit),
        Ok(Plan::Nothing)
    ));
    assert!(matches!(
        plan_search("/ws", true, false, "(", &bad),
        Err(Error::InvalidInput(_))
    ));
    let pattern = Options {
        regex: true,
        globs: one(&["[ab"]),
        ..Options::default()
    };
    assert!(matches!(
        plan_search("/ws", true, false, "(", &pattern),
        Err(Error::BadPattern(_))
    ));
}

#[test]
fn case_insensitive_and_limits() {
    let list = [("a.txt", "Foo\nfoo\nFOO\n")];
    let exact = found(&list, "foo", &Options::default()).expect("search");
    assert_eq!(exact.len(), 1);
    let any = Options {
        case_insensitive: true,
        limit: 2,
        ..Options::default()
    };
    let hits = found(&list, "foo", &any).expect("search");
    assert_eq!(
        hits.iter().map(|h| h.line).collect::<Vec<_>>(),
        vec![1, 2]
    );
}

#[test]
fn line_ends_and_bad_bytes_are_cleaned() {
    let list = vec![SourceFile {
        path: "/ws/a.txt".to_owned(),
        bytes: b"needle \xff x\r\n".to_vec(),
    }];
    let hits = search("/ws", true, false, "needle", &Options::default(), &list).expect("search");
    assert_eq!(hits[0].text, "needle \u{fffd} x");
}

#[test]
fn search_stops_at_binary_data() {
    let list = vec![SourceFile {
        path: "/ws/a.bin".to_owned(),
        bytes: b"\x00needle\n".to_vec(),
    }];
    let hits = search("/ws", true, false, "needle", &Options::default(), &list).expect("search");
    assert!(hits.is_empty());
}

#[test]
fn hits_sort_by_components_before_bytes() {
    let hit = |path: &str, line: u64| Hit {
        path: path.to_owned(),
        line,
        text: String::new(),
    };
    let sorted = finish(
        vec![hit("/a-b/x", 1), hit("/a/x", 2), hit("/a/x", 1)],
        10,
    );
    assert_eq!(
        sorted.iter().map(|h| (h.path.as_str(), h.line)).collect::<Vec<_>>(),
        vec![("/a/x", 1), ("/a/x", 2), ("/a-b/x", 1)]
    );
}

#[test]
fn fallback_prefers_identifiers_and_escapes_them() {
    assert_eq!(
        fallback_pattern("how does rrf.rs call Apply"),
        ("rrf\\.rs|Apply".to_owned(), true)
    );
    assert_eq!(
        fallback_terms("login credentials for the user"),
        vec!["credentials", "login", "user"]
    );
    // Nothing but stopwords: the query itself, literally.
    assert_eq!(fallback_pattern(" where is it "), ("where is it".to_owned(), false));
    assert!(matches!(
        one_grep::rg::plan_fallback("/ws", true, false, "  ", 5),
        Ok(Plan::Nothing)
    ));
    // Terms are told apart by case only where another one stands between.
    assert_eq!(fallback_terms("alpha ALPHA"), vec!["ALPHA"]);
    let many = fallback_terms("aa bb cc dd ee ff gg hh kk ll");
    assert_eq!(many.len(), 8);
}

#[test]
fn languages_map_to_extensions() {
    assert_eq!(lang_extensions(" Rust "), Some(&["rs"][..]));
    assert_eq!(lang_extensions("md"), Some(&["md", "markdown"][..]));
    assert_eq!(lang_extensions("jsx").map(<[&str]>::len), Some(8));
    assert_eq!(lang_extensions("cobol"), None);
    assert!(validate_langs(&one(&["go", "java"])).is_ok());
    assert!(validate_langs(&one(&["go", "perl"])).is_err());
    assert!(matches_lang("X.RS", &one(&["rust"])).expect("valid"));
}

#[test]
fn unindexed_note_names_the_index() {
    assert_eq!(
        unindexed_note("/ws"),
        "mode: rg-fallback (no index at /ws/.one-grep). Indexing is available for better ranking: one-grep index /ws && one-grep embed /ws"
    );
}

#[test]
fn terms_are_few_and_longest_first() {
    let terms = fallback_terms("bb cc aaaa the dd ee ff gg hh ii jj BB");
    assert_eq!(terms[0], "BB");
    let plain = fallback_terms("bb cc aaaa the dd ee ff gg hh ii jj");
    assert_eq!(plain, ["aaaa", "bb", "cc", "dd", "ee", "ff", "gg", "hh"]);
}

#[test]
fn a_single_file_is_held_to_the_languages() {
    let list = files(&[("/ws/notes.txt", "needle here\n")]);
    let options = |lang: &str| Options { langs: vec![lang.to_owned()], ..Options::default() };
    let found = |path: &str, options: &Options| {
        let list = [SourceFile { path: path.to_owned(), bytes: list[0].bytes.clone() }];
        search(path, true, true, "needle", options, &list).expect("search").len()
    };
    assert_eq!(found("/ws/notes.txt", &options("rust")), 0);
    assert_eq!(found("/ws/main.rs", &options("rust")), 1);
    assert_eq!(found("/ws/notes.txt", &Options::default()), 1);
}

#[test]
fn unknown_languages_fail_whatever_the_pattern() {
    let options = Options { langs: vec!["cobol".to_owned()], ..Options::default() };
    for pattern in ["x", "", "  "] {
        let err = search("/ws", true, false, pattern, &options, &[]).expect_err("must fail");
        assert!(matches!(err, Error::InvalidInput(ref m) if m.contains("rust, python")));
    }
    let known = Options { langs: vec!["rust".to_owned()], ..Options::default() };
    assert!(search("/ws", true, false, " ", &known, &[]).expect("blank").is_empty());
}

#[test]
fn the_order_of_files_makes_no_difference() {
    let list = [
        ("/ws/b.txt", "same\nother\nsame\n"),
        ("/ws/a.txt", "same\n"),
        ("/ws/sub/c.txt", "same\n"),
    ];
    let mut turned = list;
    turned.reverse();
    let found = |list: &[(&str, &str)]| -> Vec<(String, u64)> {
        search("/ws", true, false, "same", &Options::default(), &files(list))
            .expect("search")
            .into_iter()
            .map(|h| (h.path, h.line))
            .collect()
    };
    let hits = found(&list);
    assert_eq!(hits, found(&turned));
    assert_eq!(hits.len(), 4);
    assert!(hits.windows(2).all(|w| w[0] < w[1]));
}
