use one_grep::astg::{ast_lang, binary, failure, hits_of, plan_search, AstHit};
use one_grep::error::Error;

fn raw(path: &str, line: u64, text: &str) -> AstHit {
    AstHit {
        path: path.to_owned(),
        line,
        text: text.to_owned(),
    }
}

#[test]
fn parses_json_hits_with_one_based_lines() {
    assert_eq!(plan_search("/ws", true, "typescript").expect("plan"), "typescript");
    let hits = hits_of(vec![raw("x.ts", 4, "hit")], 10);
    assert_eq!(hits.len(), 1);
    assert_eq!(hits[0].line, 5);
    assert_eq!(hits[0].text, "hit");
}

#[test]
fn empty_array_is_no_match_not_error() {
    assert!(hits_of(Vec::new(), 10).is_empty());
}

#[test]
fn unparseable_output_is_caller_error() {
    let err = failure("exit status: 2", "");
    assert!(matches!(err, Error::InvalidInput(_)));
    assert_eq!(
        err.message(),
        "ast-grep failed (status exit status: 2): unparseable output"
    );
}

#[test]
fn unknown_lang_fails_before_spawning() {
    let err = plan_search("/ws", true, "cobol").expect_err("must fail");
    assert!(matches!(err, Error::InvalidInput(_)));
    assert_eq!(
        err.message(),
        "unknown --lang `cobol` for structural search (supported: rust, python, typescript, go, java, nix, markdown)"
    );
    let err = plan_search("/ws/a.rs", false, "rust").expect_err("must fail");
    assert_eq!(err.message(), "workspace is not a directory: /ws/a.rs");
}

#[test]
fn extensions_fold_to_their_language() {
    assert_eq!(ast_lang(" JS "), Some("tsx"));
    assert_eq!(ast_lang("cts"), Some("typescript"));
    assert_eq!(ast_lang("md"), Some("markdown"));
    assert_eq!(ast_lang(""), None);
}

#[test]
fn no_more_matches_than_the_limit_are_taken() {
    let three = || vec![raw("a", 0, ""), raw("b", 1, ""), raw("c", 2, "")];
    assert!(hits_of(three(), 0).is_empty());
    assert_eq!(hits_of(three(), 1)[0].line, 1);
    assert_eq!(hits_of(three(), 2).len(), 2);
}

#[test]
fn the_tail_of_a_long_complaint_is_kept() {
    let long = format!(" {}{}\n", "s".repeat(100), "e".repeat(300));
    assert_eq!(
        failure("1", &long).message(),
        format!("ast-grep failed (status 1): {}", "e".repeat(300))
    );
    // A character that does not fit whole is left out.
    let wide = format!("é{}", "e".repeat(299));
    assert_eq!(
        failure("1", &wide).message(),
        format!("ast-grep failed (status 1): {}", "e".repeat(299))
    );
    assert_eq!(failure("1", "é").message(), "ast-grep failed (status 1): é");
}

#[test]
fn environment_names_the_binary() {
    assert_eq!(binary(None), "ast-grep");
    assert_eq!(binary(Some(" ")), "ast-grep");
    assert_eq!(binary(Some("/opt/sg")), "/opt/sg");
}
