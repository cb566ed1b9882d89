use one_grep::extract::{
    enclosing, extract, extract_file, extract_parsed, extract_with, split_oversized, windows,
    Chunk, ChunkKind, EMBED_WINDOW, HEADER_CAP_LINES,
};
use one_grep::syntax::{parse_nodes, Grammar, Node};

fn names(chunks: &[Chunk]) -> Vec<&str> {
    chunks.iter().map(|c| c.breadcrumb.as_str()).collect()
}

fn numbered(n: usize) -> String {
    (1..=n)
        .map(|i| format!("line {i}"))
        .collect::<Vec<_>>()
        .join("\n")
}

#[test]
fn rust_symbols_carry_breadcrumbs_and_lines() {
    let text = "mod foo {\n    pub struct Bar;\n\n    impl Bar {\n        pub fn baz(&self) {}\n    }\n}\n";
    let chunks = extract("lib.rs", text);
    let names = names(&chunks);
    assert!(names.contains(&"foo"), "{names:?}");
    assert!(names.contains(&"foo > Bar"), "{names:?}");
    assert!(names.contains(&"foo > impl Bar > baz"), "{names:?}");
    let baz = chunks
        .iter()
        .find(|c| c.breadcrumb == "foo > impl Bar > baz")
        .expect("baz chunk");
    assert_eq!((baz.start, baz.end), (5, 5));
    assert!(baz.text.contains("pub fn baz"));
    assert!(chunks.iter().all(|c| c.kind == ChunkKind::Symbol));
}

#[test]
fn python_class_and_method() {
    let text = "class Greeter:\n    def hello(self):\n        return 1\n";
    let chunks = extract("a.py", text);
    let names = names(&chunks);
    assert!(names.contains(&"Greeter"), "{names:?}");
    assert!(names.contains(&"Greeter > hello"), "{names:?}");
}

#[test]
fn typescript_function_and_interface() {
    let text = "export interface LaneConfig {\n  retries: number;\n}\n\nexport function apply_lane_defaults(config: LaneConfig): boolean {\n  return true;\n}\n";
    let chunks = extract("lane.ts", text);
    let names = names(&chunks);
    assert!(names.contains(&"LaneConfig"), "{names:?}");
    assert!(names.contains(&"apply_lane_defaults"), "{names:?}");
    assert!(chunks.iter().all(|c| c.kind == ChunkKind::Symbol));
}

#[test]
fn go_function_and_type() {
    let text = "package lane\n\ntype Config struct {\n\tRetries int\n}\n\nfunc Apply(cfg Config) bool {\n\treturn true\n}\n";
    let chunks = extract("lane.go", text);
    let names = names(&chunks);
    assert!(names.contains(&"Config"), "{names:?}");
    assert!(names.contains(&"Apply"), "{names:?}");
}

#[test]
fn header_comment_becomes_own_chunk() {
    let text = "# Exclusive MLX lane switcher.\n{ pkgs }: {\n  name = \"x\";\n}\n";
    let chunks = extract("lane.nix", text);
    let header = chunks
        .iter()
        .find(|c| c.breadcrumb == "(header)")
        .expect("header chunk");
    assert_eq!((header.start, header.end), (1, 1));
    assert!(header.text.contains("Exclusive"));
    assert_eq!(header.kind, ChunkKind::Section);
}

#[test]
fn header_skips_shebang_and_blank_preamble() {
    let text = "#!/usr/bin/env python3\n\n# Real header.\nimport os\n";
    let chunks = extract("a.py", text);
    let header = chunks
        .iter()
        .find(|c| c.breadcrumb == "(header)")
        .expect("header chunk");
    assert_eq!((header.start, header.end), (3, 3));
    assert!(!header.text.contains("usr/bin"));
}

#[test]
fn header_absent_without_leading_comments() {
    let chunks = extract("a.py", "import os\n");
    assert!(chunks.iter().all(|c| c.breadcrumb != "(header)"));
}

#[test]
fn header_caps_long_boilerplate() {
    let mut text = String::new();
    for i in 0..40 {
        text.push_str(&format!("# license line {i}\n"));
    }
    text.push_str("x = 1\n");
    let chunks = extract("a.nix", &text);
    let header = chunks
        .iter()
        .find(|c| c.breadcrumb == "(header)")
        .expect("header chunk");
    assert_eq!((header.start, header.end), (1, HEADER_CAP_LINES as u64));
}

#[test]
fn oversized_symbol_splits_with_inherited_crumbs() {
    let mut text = String::from("fn big() {\n");
    for i in 0..100 {
        text.push_str(&format!("    let x{i} = {i};\n"));
    }
    text.push_str("}\n");
    let chunks = extract("a.rs", &text);
    let parts: Vec<&Chunk> = chunks
        .iter()
        .filter(|c| c.breadcrumb.contains("big ["))
        .collect();
    assert_eq!(parts.len(), 2);
    assert_eq!(parts[0].breadcrumb, "big [1/2]");
    assert_eq!(parts[1].breadcrumb, "big [2/2]");
    assert!(parts.iter().all(|c| c.kind == ChunkKind::Symbol));
    // Full coverage with overlap, no gaps.
    assert_eq!(parts[0].start, 1);
    assert!(parts[0].end >= parts[1].start - 15);
    assert_eq!(parts[1].end, 102);
    assert!(parts[0].text.contains("let x0"));
    assert!(parts[1].text.contains("let x99"));
}

#[test]
fn small_symbol_stays_whole() {
    let chunks = extract("a.rs", "fn tiny() {}\n");
    assert_eq!(chunks.len(), 1);
    assert_eq!(chunks[0].breadcrumb, "tiny");
}

#[test]
fn markdown_has_no_header_chunk() {
    let chunks = extract("a.md", "# Title\n\nbody\n");
    assert!(chunks.iter().all(|c| c.breadcrumb != "(header)"));
}

#[test]
fn java_class_and_method() {
    let text = "class Lane {\n  boolean apply() {\n    return true;\n  }\n}\n";
    let chunks = extract("Lane.java", text);
    let names = names(&chunks);
    assert!(names.contains(&"Lane"), "{names:?}");
    assert!(names.contains(&"Lane > apply"), "{names:?}");
}

#[test]
fn markdown_sections_nest() {
    let text = "# T\nintro\n## A\na1\n### B\nb1\n## C\nc1\n";
    let chunks = extract("doc.md", text);
    assert_eq!(names(&chunks), vec!["T", "T > A", "T > A > B", "T > C"]);
    let b = &chunks[2];
    assert_eq!((b.start, b.end), (5, 6));
}

#[test]
fn markdown_preamble_kept() {
    let text = "pre\n# T\nbody\n";
    let chunks = extract("doc.md", text);
    assert_eq!(chunks[0].breadcrumb, "(preamble)");
    assert_eq!(chunks[0].text, "pre");
}

#[test]
fn fallback_windows_cover_long_files() {
    let chunks = extract("data.txt", &numbered(400));
    assert_eq!(chunks.len(), 3);
    assert_eq!((chunks[0].start, chunks[0].end), (1, 150));
    assert_eq!((chunks[1].start, chunks[1].end), (136, 285));
    assert_eq!((chunks[2].start, chunks[2].end), (271, 400));
}

#[test]
fn binary_file_yields_no_chunks() {
    assert!(extract_file("bin.dat", &[0x00, 0x01, 0x02]).is_empty());
}

#[test]
fn nix_bindings_nest_and_dot() {
    let text = "{\n  direnv = {\n    # direnv integration\n    enable = true;\n    nix-direnv.enable = true;\n  };\n  zsh.enable = true;\n}\n";
    let chunks = extract("mod.nix", text);
    let names = names(&chunks);
    assert!(names.contains(&"direnv"), "{names:?}");
    // Commented single-line nested bindings are kept (prose context).
    assert!(names.contains(&"direnv > enable"), "{names:?}");
    // Bare single-line nested bindings are covered by the container.
    assert!(!names.contains(&"direnv > nix-direnv.enable"), "{names:?}");
    assert!(names.contains(&"zsh.enable"), "{names:?}");
    let enable = chunks
        .iter()
        .find(|c| c.breadcrumb == "direnv > enable")
        .expect("enable chunk");
    assert_eq!((enable.start, enable.end), (3, 4));
    assert!(enable.text.contains("direnv integration"));
    assert!(chunks.iter().all(|c| c.kind == ChunkKind::Symbol));
}

#[test]
fn nix_lambda_file_parses() {
    let text = "{ pkgs }:\n{\n  foo = pkgs.bar;\n}\n";
    let chunks = extract("mod.nix", text);
    assert!(chunks.iter().any(|c| c.breadcrumb == "foo"), "{chunks:?}");
}

#[test]
fn nix_leading_comments_attach() {
    let text = "{\n# Local secrets here\nsecrets = {\n  token = \"x\";\n};\n}\n";
    let chunks = extract("mod.nix", text);
    let secrets = chunks
        .iter()
        .find(|c| c.breadcrumb == "secrets")
        .expect("secrets chunk");
    assert_eq!(secrets.start, 2);
    assert!(secrets.text.contains("Local secrets here"));
}

#[test]
fn tight_windows_cover_short_files() {
    let chunks = extract_with("data.txt", &numbered(120), EMBED_WINDOW);
    assert_eq!(chunks.len(), 3);
    assert_eq!((chunks[0].start, chunks[0].end), (1, 50));
    assert_eq!((chunks[1].start, chunks[1].end), (41, 90));
    assert_eq!((chunks[2].start, chunks[2].end), (81, 120));
}

#[test]
fn windows_name_their_lines() {
    let lines: Vec<String> = vec!["a".to_owned(), "b".to_owned(), "c".to_owned()];
    let chunks = windows("x.txt", &lines, (2, 1));
    assert_eq!(chunks.len(), 2);
    assert_eq!(chunks[0].breadcrumb, "lines 1-2");
    assert_eq!(chunks[0].text, "a\nb");
    assert_eq!(chunks[1].breadcrumb, "lines 2-3");
    assert_eq!(chunks[1].kind, ChunkKind::Window);
    // A step that jumps over the end leaves nothing more to show.
    assert_eq!(windows("x.txt", &lines, (1, 5)).len(), 1);
    assert!(windows("x.txt", &[], (0, 0)).is_empty());
}

fn symbol(start: u64, end: u64) -> Chunk {
    Chunk {
        path: "a.rs".to_owned(),
        start,
        end,
        kind: ChunkKind::Symbol,
        breadcrumb: "f".to_owned(),
        text: String::new(),
    }
}

#[test]
fn symbols_split_past_eighty_lines() {
    let lines: Vec<String> = (0..400).map(|i| format!("l{i}")).collect();
    let whole = split_oversized("a.rs", &lines, vec![symbol(1, 80)]);
    assert_eq!(whole.len(), 1);
    assert_eq!(whole[0].breadcrumb, "f");
    let two = split_oversized("a.rs", &lines, vec![symbol(1, 81)]);
    assert_eq!(
        two.iter().map(|c| (c.start, c.end)).collect::<Vec<_>>(),
        vec![(1, 80), (66, 81)]
    );
    assert_eq!(two[1].breadcrumb, "f [2/2]");
    assert!(two[1].text.starts_with("l65\n"));
    let five = split_oversized("a.rs", &lines, vec![symbol(10, 309)]);
    assert_eq!(
        five.iter().map(|c| (c.start, c.end)).collect::<Vec<_>>(),
        vec![(10, 89), (75, 154), (140, 219), (205, 284), (270, 309)]
    );
    // Every line of the symbol is in some part.
    for line in 10..=309 {
        assert!(five.iter().any(|c| c.start <= line && line <= c.end));
    }
}

#[test]
fn sections_are_never_split() {
    let mut text = String::from("# Long\n");
    for _ in 0..200 {
        text.push_str("prose\n");
    }
    let chunks = extract("a.md", &text);
    assert_eq!(chunks.len(), 1);
    assert_eq!((chunks[0].start, chunks[0].end), (1, 201));
}

#[test]
fn markdown_headings_need_a_space_and_six_hashes_at_most() {
    let text = "#no\n####### seven\n  ## Indented  \nbody\n";
    let chunks = extract("a.markdown", text);
    assert_eq!(names(&chunks), vec!["(preamble)", "Indented"]);
    assert_eq!((chunks[0].start, chunks[0].end), (1, 2));
    assert_eq!((chunks[1].start, chunks[1].end), (3, 4));
    // A skipped level still nests below what is above it.
    let skipped = extract("a.md", "# A\n### B\n## C\n");
    assert_eq!(names(&skipped), vec!["A", "A > B", "A > C"]);
}

#[test]
fn unparsed_code_falls_back_to_windows() {
    let chunks = extract_parsed("a.rs", "fn f() {}\n", (10, 5), &None);
    assert_eq!(names(&chunks), vec!["lines 1-1"]);
}

#[test]
fn parsed_nodes_decide_the_outline() {
    let node = |depth: u32, kind: &str, rows: (usize, usize), name: Option<(usize, usize)>| Node {
        depth,
        kind: kind.to_owned(),
        named: true,
        error: false,
        start_row: rows.0,
        end_row: rows.1,
        span: (0, 0),
        name,
        typ: None,
    };
    let text = "alpha\nbeta\n";
    let tree = vec![
        node(0, "source_file", (0, 1), None),
        node(1, "mod_item", (0, 1), Some((0, 5))),
        node(2, "function_item", (1, 1), Some((6, 10))),
        node(1, "const_item", (1, 1), None),
    ];
    let chunks = extract_parsed("a.rs", text, (10, 5), &Some(tree));
    assert_eq!(names(&chunks), vec!["alpha", "alpha > beta", "const_item"]);
    assert_eq!(chunks[0].text, "alpha\nbeta");
    assert_eq!(chunks[1].text, "beta");
}

#[test]
fn syntax_errors_make_nix_windows() {
    let chunks = extract("a.nix", "{ a = ; }\n");
    assert_eq!(names(&chunks), vec!["lines 1-1"]);
}

#[test]
fn parsing_lists_parents_before_children() {
    let nodes = parse_nodes(Grammar::Rust, "fn f() {}\n").expect("tree");
    assert_eq!(nodes[0].kind, "source_file");
    assert_eq!(nodes[0].depth, 0);
    assert_eq!(nodes[1].kind, "function_item");
    assert_eq!(nodes[1].name, Some((3, 4)));
    assert_eq!((nodes[1].start_row, nodes[1].end_row), (0, 0));
    assert!(!nodes[0].error);
    let broken = parse_nodes(Grammar::Rust, "fn (\n").expect("tree");
    assert!(broken[0].error);
}

#[test]
fn jsx_and_modules_use_the_tsx_grammar() {
    let text = "function View() {\n  return <div/>;\n}\n";
    assert_eq!(names(&extract("a.jsx", text)), vec!["View"]);
    assert_eq!(names(&extract("a.mjs", "class K {}\n")), vec!["K"]);
}

#[test]
fn huge_lines_mark_generated_files() {
    let long = "x".repeat(8193);
    assert!(extract_file("a.txt", long.as_bytes()).is_empty());
    let fine = "x".repeat(8192);
    assert_eq!(extract_file("a.txt", fine.as_bytes()).len(), 1);
}

#[test]
fn invalid_utf8_is_replaced() {
    let chunks = extract_file("a.txt", &[b'a', 0xff, b'b']);
    assert_eq!(chunks[0].text, "a\u{fffd}b");
}

#[test]
fn smallest_enclosing_chunk_wins() {
    let chunks = extract("a.rs", "mod outer {\n    pub fn deep(&self) {}\n}\n");
    let hit = enclosing(chunks, 2).expect("chunk");
    assert_eq!(hit.breadcrumb, "outer > deep");
    assert_eq!(hit.kind, ChunkKind::Symbol);
    assert!(enclosing(extract("a.rs", "fn f() {}\n"), 99).is_none());
}

#[test]
fn sections_cover_every_line_from_the_first_heading() {
    let text = "intro\n# A\none\n## B\ntwo\n# C\nthree\n";
    let chunks = extract("doc.md", text);
    for line in 2..=7u64 {
        assert!(chunks.iter().any(|c| c.start <= line && line <= c.end), "{line}");
    }
}
