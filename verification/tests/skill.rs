use one_grep::error::Error;
use one_grep::front::{cap_description, collapse_one_line, extract_front_matter, parse_skill_md};
use one_grep::jev::{noul_request, order_nouls, NoulWording, Outcome, Reading};
use one_grep::skill::{
    collect_words, rank_by_overlap, resolve_library_dir, run, scan_library, shared_words,
    skill_docs, tokens, Folder, SkillEntry, SkillFile, SkillResult, SkillScore,
    SKILL_MD_READ_CAP,
};

const PLAIN: &str = "---\nname: plain-api\ndescription: Plain skill for REST API documentation lookup\n---\nSECRET_BODY_MARKER_PLAIN\n";
const QUOTED: &str = "---\nname: winrt-lookup\ndescription: \"Quoted WinRT API reference workflow\"\n---\nSECRET_BODY_MARKER_QUOTED\n";
const FOLDED: &str = "---\nname: folded-deploy\ndescription: >\n  Folded deployment checklist for\n  production releases\n---\nSECRET_BODY_MARKER_FOLDED\n";
const NO_DESC: &str = "---\nname: empty-desc\n---\nSECRET_BODY_MARKER_NODEC\n";

fn folder(name: &str, text: &str) -> Folder {
    Folder {
        name: name.to_owned(),
        skill: Some(SkillFile {
            path: format!("/lib/{name}/SKILL.md"),
            bytes: Ok(text.as_bytes().to_vec()),
        }),
    }
}

fn library() -> Vec<Folder> {
    vec![
        folder("quoted-skill", QUOTED),
        folder("plain-skill", PLAIN),
        folder("folded-skill", FOLDED),
        folder("no-desc-skill", NO_DESC),
    ]
}

fn scan(folders: Vec<Folder>) -> (Vec<SkillEntry>, Vec<String>) {
    scan_library("/lib", true, true, folders).expect("scan")
}

fn without_service(task: &str, limit: usize) -> SkillResult {
    run(
        task,
        limit,
        scan_library("/lib", true, true, library()),
        Outcome::Failed("missing key".to_owned()),
    )
}

fn answered(exists: Option<f64>, scores: &[f32]) -> Outcome {
    Outcome::Answered {
        exists: exists.map(|p| Reading {
            bits: p.to_bits(),
            shown: format!("{p:.2}"),
        }),
        scores: scores.iter().map(|s| Some(f64::from(*s).to_bits())).collect(),
    }
}

fn with_service(task: &str, limit: usize, outcome: Outcome) -> SkillResult {
    run(
        task,
        limit,
        scan_library("/lib", true, true, library()),
        outcome,
    )
}

fn shown(r: &SkillResult) -> Vec<String> {
    r.hits
        .iter()
        .map(|h| match h.score {
            SkillScore::Share { overlap, of } => format!("{:.4}", overlap as f32 / of as f32),
            SkillScore::Noul(bits) => format!("{:.4}", f64::from_bits(bits)),
        })
        .collect()
}

fn names(r: &SkillResult) -> Vec<&str> {
    r.hits.iter().map(|h| h.name.as_str()).collect()
}

#[test]
fn parses_plain_quoted_and_folded_descriptions() {
    let (skills, notes) = scan(library());
    assert_eq!(skills.len(), 3, "{skills:?} {notes:?}");
    assert!(notes.iter().any(|n| n.contains("no-desc-skill")));
    let plain = skills
        .iter()
        .find(|s| s.name == "plain-api")
        .expect("plain");
    assert!(plain.description.contains("REST API"));
    let quoted = skills
        .iter()
        .find(|s| s.name == "winrt-lookup")
        .expect("quoted");
    assert!(quoted.description.contains("WinRT"));
    let folded = skills
        .iter()
        .find(|s| s.name == "folded-deploy")
        .expect("folded");
    assert!(folded.description.contains("deployment checklist"));
}

#[test]
fn fallback_ranking_is_deterministic_and_picks_winrt() {
    let r1 = without_service("WinRT API reference workflow", 2);
    let r2 = without_service("WinRT API reference workflow", 2);
    assert!(r1.rank_note.contains("fallback"));
    assert!(!r1.no_match);
    assert_eq!(r1.hits[0].name, "winrt-lookup");
    assert_eq!(names(&r1), names(&r2));
    assert_eq!(shown(&r1), shown(&r2));
    assert!(r1.hits[0].path.starts_with('/'), "{}", r1.hits[0].path);
    assert!(
        r1.hits[0].path.ends_with("quoted-skill/SKILL.md"),
        "{}",
        r1.hits[0].path
    );
}

#[test]
fn fallback_no_overlap_returns_no_match() {
    let r = without_service("quantum gardening underwater zzz", 3);
    assert!(r.no_match);
    assert!(r.hits.is_empty());
    assert!(r.format_text(&[]).contains("no matching skill"));
}

#[test]
fn limit_bounds_hits() {
    let r = without_service("API documentation", 1);
    assert_eq!(r.hits.len(), 1);
    assert_eq!(without_service("API documentation", 0).hits.len(), 1);
    assert_eq!(without_service("API documentation", 99).hits.len(), 2);
}

#[test]
fn missing_library_is_a_note_not_panic() {
    let r = run(
        "anything",
        2,
        scan_library("/lib/nope", false, false, Vec::new()),
        Outcome::Failed(String::new()),
    );
    assert!(r.notes.iter().any(|n| n.contains("not found")));
    assert!(r.no_match);
}

#[test]
fn jev_floor_drops_low_exists_and_orders_by_score() {
    let order = order_nouls(&[
        Some(0.4f64.to_bits()),
        Some(0.2f64.to_bits()),
        Some(0.95f64.to_bits()),
    ]);
    assert_eq!(order[0].index, 2);
    let low_exists = order_nouls(&[Some(0.9f64.to_bits()), None, None]);
    assert!(!low_exists.is_empty());
    let r = with_service("WinRT", 3, answered(Some(0.2), &[0.9, 0.95, 0.4]));
    assert!(r.rank_note.contains("jev"));
    assert!(r.no_match, "{r:?}");
}

#[test]
fn jev_orders_high_scores_when_exists_passes() {
    let r = with_service("WinRT API", 2, answered(Some(0.9), &[0.4, 0.2, 0.95]));
    assert!(!r.no_match);
    assert_eq!(r.hits[0].name, "winrt-lookup");
    assert!(matches!(r.hits[0].score, SkillScore::Noul(b) if f64::from_bits(b) >= 0.5));
}

#[test]
fn output_never_contains_skill_body() {
    let r = without_service("API", 3);
    let text = r.format_text(&shown(&r));
    assert!(!text.contains("SECRET_BODY_MARKER"));
}

#[test]
fn parses_block_chomping_bom_crlf_and_escapes() {
    assert_eq!(
        parse_skill_md(
            "\u{feff}---\r\nname: bom-skill\r\ndescription: >-\r\n  strip trailing\r\n  fold line\r\n---\r\nbody",
            "folder"
        )
        .expect("parse")
        .expect("some")
        .description,
        "strip trailing fold line"
    );
    let strip = parse_skill_md("---\nname: s\ndescription: >-\n  only line\n---\n", "f")
        .expect("parse")
        .expect("some");
    assert_eq!(strip.description, "only line");
    let keep = parse_skill_md(
        "---\nname: k\ndescription: |+\n  line one\n\n  line two\n---\n",
        "f",
    )
    .expect("parse")
    .expect("some");
    assert!(keep.description.contains("line one"));
    assert!(keep.description.contains("line two"));
    let esc = parse_skill_md(
        "---\nname: e\ndescription: \"say \\\"hi\\\"\\nline\"\n---\n",
        "f",
    )
    .expect("parse")
    .expect("some");
    assert_eq!(esc.description, "say \"hi\" line");
    let sq = parse_skill_md("---\nname: q\ndescription: 'it''s fine'\n---\n", "f")
        .expect("parse")
        .expect("some");
    assert_eq!(sq.description, "it's fine");
}

#[test]
fn block_scalar_with_ideographic_space_does_not_panic() {
    let md = format!(
        "---\nname: ws\ndescription: |\n  ascii line\n  \u{3000}fullwidth lead\n---\nbody\n"
    );
    let parsed = parse_skill_md(&md, "f").expect("parse").expect("some");
    assert!(parsed.description.contains("ascii line"));
    assert!(parsed.description.contains("fullwidth lead"));
}

#[test]
fn dash_line_inside_block_does_not_close_front_matter() {
    let md = "---\nname: inner\ndescription: |\n  ---\n  not a fence\n---\nbody\n";
    let parsed = parse_skill_md(md, "f").expect("parse").expect("some");
    assert!(parsed.description.contains("not a fence"));
}

#[test]
fn unclosed_front_matter_within_cap_is_skipped() {
    let mut content = String::from("---\nname: open\ndescription: never closed\n");
    content.push('x');
    content.push_str(&"y".repeat(SKILL_MD_READ_CAP + 1024));
    let (_, notes) = scan(vec![folder("open-skill", &content)]);
    assert!(notes.iter().any(|n| n.contains("unclosed front matter")));
}

#[test]
fn oversized_file_without_closing_fence_is_skipped() {
    let mut content = String::from("---\nname: big\ndescription: x\n");
    content.push_str(&"z".repeat(SKILL_MD_READ_CAP));
    let (_, notes) = scan(vec![folder("big-skill", &content)]);
    assert!(notes.iter().any(|n| n.contains("unclosed front matter")));
}

#[test]
fn fence_behind_the_read_cap_is_not_seen() {
    let mut content = String::from("---\nname: big\ndescription: x\n");
    content.push_str(&"z".repeat(SKILL_MD_READ_CAP));
    content.push_str("\n---\n");
    let (_, notes) = scan(vec![folder("big-skill", &content)]);
    assert!(notes.iter().any(|n| n.contains("unclosed front matter")));
}

#[test]
fn jev_missing_exists_is_no_match() {
    let r = with_service("WinRT API", 2, answered(None, &[0.9, 0.95, 0.4]));
    assert!(r.no_match, "{r:?}");
}

#[test]
fn jev_drops_candidate_below_score_floor() {
    let r = with_service("WinRT API", 3, answered(Some(0.9), &[0.49, 0.2, 0.95]));
    assert!(!r.no_match);
    assert_eq!(r.hits.len(), 1);
    assert_eq!(r.hits[0].name, "winrt-lookup");
    assert!(r
        .hits
        .iter()
        .all(|h| matches!(h.score, SkillScore::Noul(b) if f64::from_bits(b) >= 0.5)));
}

#[test]
fn jev_state_candidates_are_name_and_description_only() {
    let (entries, _) = scan(library());
    let request = noul_request("WinRT API", &skill_docs(&entries), NoulWording::Skill);
    assert_eq!(request.subject, "task");
    assert_eq!(request.candidates.len(), 3);
    for c in &request.candidates {
        assert!(!c.text.contains("SECRET_BODY_MARKER"), "{}", c.text);
    }
}

#[test]
fn folders_come_in_the_order_of_their_names() {
    let (entries, notes) = scan(vec![
        folder("b", PLAIN),
        folder("a", QUOTED),
        Folder { name: "0".to_owned(), skill: None },
        Folder {
            name: "c".to_owned(),
            skill: Some(SkillFile {
                path: "/lib/c/SKILL.md".to_owned(),
                bytes: Err("could not open: denied".to_owned()),
            }),
        },
        folder("d", "no fence"),
    ]);
    let order: Vec<&str> = entries.iter().map(|e| e.name.as_str()).collect();
    assert_eq!(order, vec!["winrt-lookup", "plain-api"]);
    assert_eq!(
        notes,
        vec![
            "skipped c/SKILL.md: could not open: denied",
            "skipped d/SKILL.md: missing YAML front matter",
        ]
    );
    let err = scan_library("/lib", true, false, Vec::new()).expect_err("file");
    assert!(matches!(err, Error::InvalidInput(ref m) if m == "skill library is not a directory: /lib"));
}

#[test]
fn body_makes_no_difference() {
    let head = "---\nname: a\ndescription: b\n---\n";
    let plain = parse_skill_md(head, "f").expect("parse").expect("some");
    let long = parse_skill_md(&format!("{head}description: other\n---\n"), "f")
        .expect("parse")
        .expect("some");
    assert_eq!((plain.name, plain.description), (long.name, long.description));
}

#[test]
fn fields_default_and_override() {
    let get = |md: &str| parse_skill_md(md, "folder").expect("parse");
    let p = get("---\n# comment\ndescription:  one   two\n---\n").expect("some");
    assert_eq!((p.name.as_str(), p.description.as_str()), ("folder", "one two"));
    let last = get("---\nname: a\nname: b \ndescription: x\n---\n").expect("some");
    assert_eq!(last.name, "b");
    assert!(get("---\nname: a\ndescription:   \n---\n").is_none());
    let deep = get("---\ndescription: |2-\n\n    deep\n      deeper\n\nname: n\n---\n").expect("some");
    assert_eq!((deep.name.as_str(), deep.description.as_str()), ("n", "deep deeper"));
    assert_eq!(
        parse_skill_md("---\nname: a\n", "f").unwrap_err(),
        "unclosed front matter within read cap"
    );
    assert_eq!(
        extract_front_matter("---\n\na: 1\n\nb: 2\n---\n").expect("front"),
        Some("a: 1\n\nb: 2".to_owned())
    );
}

#[test]
fn descriptions_are_one_line_and_capped() {
    assert_eq!(collapse_one_line(" a\n\tb\u{3000}c "), "a b c");
    assert_eq!(cap_description("short"), "short");
    assert_eq!(
        cap_description(&"é".repeat(101)),
        format!("{}…", "é".repeat(100))
    );
}

#[test]
fn words_are_lowercased_and_counted_once() {
    let mut t = tokens("The WinRT winrt API, É and x");
    t.sort();
    assert_eq!(t, vec!["api", "winrt", "é"]);
    let marks: Vec<bool> = "ab cd ab".chars().map(|c| c != ' ').collect();
    assert_eq!(collect_words("ab cd ab", &marks), vec!["ab", "cd"]);
    let a = vec!["x1".to_owned(), "x2".to_owned()];
    let b = vec!["x2".to_owned(), "x3".to_owned(), "x2".to_owned()];
    assert_eq!(shared_words(&a, &b), 1);
}

#[test]
fn a_fifth_of_the_words_is_enough() {
    let entry = |name: &str| SkillEntry {
        name: name.to_owned(),
        description: "d".to_owned(),
        skill_path: format!("/lib/{name}"),
    };
    let entries = vec![entry("b"), entry("a"), entry("c")];
    let pick = |overlaps: &[usize], of: usize| -> Vec<String> {
        rank_by_overlap(&entries, overlaps, of, 3)
            .into_iter()
            .map(|h| h.name)
            .collect()
    };
    assert_eq!(pick(&[1, 1, 2], 5), vec!["c", "a", "b"]);
    assert_eq!(pick(&[1, 1, 2], 6), vec!["c"]);
    assert!(pick(&[0, 0, 0], 0).is_empty());
    assert!(pick(&[0, 0, 0], 1).is_empty());
}

#[test]
fn results_read_line_by_line() {
    let r = without_service("WinRT API reference workflow", 1);
    assert_eq!(
        r.format_text(&shown(&r)),
        "rank: fallback (missing key)\nskipped no-desc-skill/SKILL.md: missing description\nwinrt-lookup  /lib/quoted-skill/SKILL.md  (1.0000)\nQuoted WinRT API reference workflow"
    );
    let empty = run(
        "x",
        2,
        scan_library("/lib", true, true, Vec::new()),
        Outcome::Failed(String::new()),
    );
    assert_eq!(empty.rank_note, "rank: fallback (empty library)");
    let failed = run(
        "x",
        2,
        scan_library("/lib", true, false, Vec::new()),
        Outcome::Failed(String::new()),
    );
    assert_eq!(failed.notes, vec!["skill library is not a directory: /lib"]);
}

#[test]
fn library_directory_is_resolved_in_order() {
    assert_eq!(resolve_library_dir(Some("/d"), Some("/e"), Some("/h")), "/d");
    assert_eq!(resolve_library_dir(None, Some(" /e "), Some("/h")), "/e");
    assert_eq!(
        resolve_library_dir(None, Some(" "), Some("/h")),
        "/h/.local/share/agent-skills"
    );
    assert_eq!(resolve_library_dir(None, None, None), ".local/share/agent-skills");
}
