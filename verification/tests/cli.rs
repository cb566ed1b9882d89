use one_grep::cli::{
    backend, plan_query, print_hit, print_line, structural_lang, QueryFlags, QueryPlan,
};
use one_grep::embed::RankKind;

fn flags() -> QueryFlags {
    QueryFlags {
        hybrid: false,
        rank: None,
        ast: false,
        ast_lang: false,
        indexed: true,
        available: true,
    }
}

#[test]
fn bare_queries_are_routed() {
    assert!(matches!(plan_query("\"x y\"", flags()), Ok(QueryPlan::Literal(ref s)) if s == "x y"));
    assert!(matches!(plan_query(" a_b ", flags()), Ok(QueryPlan::Token(ref s)) if s == "a_b"));
    assert!(matches!(plan_query("how so", flags()), Ok(QueryPlan::Lexical)));
    let unindexed = QueryFlags { indexed: false, ..flags() };
    assert!(matches!(plan_query("a_b", unindexed), Ok(QueryPlan::Live { structural: false })));
    assert!(matches!(plan_query("\"x\"", unindexed), Ok(QueryPlan::Literal(_))));
}

#[test]
fn flags_force_intent() {
    let hybrid = QueryFlags { hybrid: true, ..flags() };
    assert!(matches!(plan_query("\"x\"", hybrid), Ok(QueryPlan::Hybrid { rerank: None })));
    let jina = QueryFlags { rank: backend(true, None), ..flags() };
    assert!(matches!(plan_query("a_b", jina), Ok(QueryPlan::Hybrid { rerank: Some(RankKind::Jina) })));
    let llama = QueryFlags { rank: backend(false, Some(RankKind::Llama)), ..flags() };
    assert!(matches!(
        plan_query("a_b", llama),
        Ok(QueryPlan::Hybrid { rerank: Some(RankKind::Llama) })
    ));
    let jev = QueryFlags { rank: Some(RankKind::Jev), indexed: false, ..flags() };
    assert!(matches!(plan_query("a_b", jev), Ok(QueryPlan::Scored { fused: false })));
    let ast = QueryFlags { ast: true, ast_lang: true, indexed: false, ..flags() };
    assert!(matches!(plan_query("a_b", ast), Ok(QueryPlan::Live { structural: true })));
}

#[test]
fn structural_flags_are_checked() {
    let half = QueryFlags { ast: true, ..flags() };
    assert_eq!(plan_query("q", half).unwrap_err().message(), "--ast needs --ast-lang");
    let absent = QueryFlags { ast: true, ast_lang: true, available: false, ..flags() };
    assert!(plan_query("q", absent).unwrap_err().message().contains("not found"));
    let langs = vec!["rust".to_owned()];
    assert_eq!(structural_lang(false, &langs, true).expect("lang"), "rust");
    assert!(structural_lang(true, &langs, true).unwrap_err().message().contains("--regex"));
    assert!(structural_lang(false, &[], true).unwrap_err().message().contains("exactly one"));
    assert!(structural_lang(false, &langs, false).unwrap_err().message().contains("not found"));
}

#[test]
fn hits_print_with_their_citation() {
    assert_eq!(print_hit("/a", 1, 2, "m > f", "0.5000", "t"), "/a:1-2 [m > f] (0.5000)\nt");
    assert_eq!(print_line("/a", 3, "t"), "/a:3:t");
}
