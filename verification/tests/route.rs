use one_grep::route::{route, Route};

#[test]
fn golden_routing_table() {
    // Literal: quoted anchors and standalone paths.
    for query in [
        "foo::Bar",
        " foo::Bar ",
        "\"x:Name\"",
        "\"{Binding User.Name}\"",
        "'x:Name'",
        "'comment lies'",
    ] {
        assert!(matches!(route(query, &[]), Route::Literal(_)), "{query}");
    }
    // Identifier: single tokens go lexical, never ranked.
    for query in [
        "apply_request",
        "LaneConfig",
        "route_request",
        "src/auth.rs",
        "one-grep",
    ] {
        assert!(matches!(route(query, &[]), Route::Identifier(_)), "{query}");
    }
    // Intent: mixed, multi-word, ambiguous, or fts-anchored.
    for query in [
        "where is authentication handled",
        "find definition of foo::Bar",
        "foo::Bar example",
        "foo::",
        "::Bar",
        "foo:::Bar",
        "https://example.com",
        "\"\"",
        "\"   \"",
        "\"foo\" OR \"bar\"",
        "'foo' OR 'bar'",
        "",
        "   ",
    ] {
        assert!(matches!(route(query, &[]), Route::Intent(_)), "{query}");
    }
    // Explicit anchors beat heuristics.
    for query in ["foo::Bar", "\"x:Name\"", "apply_request"] {
        assert!(
            matches!(route(query, &["extra".into()]), Route::Intent(_)),
            "{query}"
        );
    }
}

#[test]
fn literal_carries_stripped_text() {
    assert_eq!(
        route("\"x:Name\"", &[]),
        Route::Literal("x:Name".to_owned())
    );
    assert_eq!(
        route("foo::Bar", &[]),
        Route::Literal("foo::Bar".to_owned())
    );
}

#[test]
fn intents_are_handed_on_untouched() {
    assert_eq!(
        route("  how does it work ", &[]),
        Route::Intent("  how does it work ".to_owned())
    );
    assert_eq!(route(" a_b ", &[]), Route::Identifier("a_b".to_owned()));
}
