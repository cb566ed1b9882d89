use one_grep::error::Error;
use one_grep::lsp::{
    char_to_utf16_units, check_position, file_uri, frame, locate, normalize_targets, on_message,
    parse_number, read_header, settle, targets_from, DefinitionResponse, Ending, HeaderStep,
    Location, MessageStep, Options,
};

fn place(uri: &str, start_line: u32, end_line: u32) -> Location {
    Location {
        uri: uri.to_owned(),
        start_line,
        end_line,
    }
}

#[test]
fn utf16_translation_counts_astral_code_units() {
    // 'a' = 1 unit, 'é' = 1 unit, '𐀀' (U+10000) = 2 units, 'z' = 1 unit.
    let line = "aé𐀀z";
    assert_eq!(char_to_utf16_units(line, 1), 0);
    assert_eq!(char_to_utf16_units(line, 2), 1);
    assert_eq!(char_to_utf16_units(line, 3), 2);
    assert_eq!(char_to_utf16_units(line, 4), 4);
    assert_eq!(char_to_utf16_units(line, 5), 5);
    // Past end-of-line clamps instead of erroring.
    assert_eq!(char_to_utf16_units(line, 99), 5);
    assert_eq!(char_to_utf16_units(line, 0), 0);
}

#[test]
fn file_uri_round_trip() {
    let path = "/tmp/one-grep-lsp/main.rs";
    let uri = file_uri(path).expect("uri");
    let targets = normalize_targets(
        "/tmp",
        Some(DefinitionResponse::Scalar(place(&uri, 0, 0))),
    )
    .expect("path");
    assert_eq!(targets[0].path, path);
    assert_eq!(uri, "file:///tmp/one-grep-lsp/main.rs");
    for path in ["/", "/a b/c%2e", "/a:b", "/c:/x", "/x\\y?z#\u{e9}", "/\t/1:"] {
        let uri = file_uri(path).expect("uri");
        let response = DefinitionResponse::Scalar(place(&uri, 0, 0));
        let targets = normalize_targets("/", Some(response)).expect("path");
        assert_eq!(targets[0].path, path);
    }
    let odd = file_uri("/a b/é").expect("uri");
    assert_eq!(odd, "file:///a%20b/%C3%A9");
    let err = file_uri("rel/a.rs").unwrap_err();
    assert!(matches!(err, Error::Lsp(ref m) if m == "not a file path: rel/a.rs"));
}

#[test]
fn location_link_normalizes_to_target_range() {
    let response = Some(DefinitionResponse::Link(vec![place(
        "file:///tmp/one-grep-lsp/main.rs",
        0,
        2,
    )]));
    let targets = normalize_targets("/tmp/one-grep-lsp", response).expect("normalize");
    assert_eq!(targets.len(), 1);
    assert_eq!(targets[0].path, "/tmp/one-grep-lsp/main.rs");
    assert_eq!((targets[0].start_line, targets[0].end_line), (1, 3));
    assert!(!targets[0].outside_root);
}

#[test]
fn targets_outside_root_are_marked() {
    let response = Some(DefinitionResponse::Scalar(place(
        "file:///usr/local/rustlib/src/lib.rs",
        10,
        10,
    )));
    let targets = normalize_targets("/tmp/ws", response).expect("normalize");
    assert!(targets[0].outside_root);
}

#[test]
fn strange_uris_stop_the_list() {
    let list = vec![
        place("file:///ws/a", 1, 1),
        place("https://example.com/x", 1, 1),
        place("not a url", 1, 1),
    ];
    let err = normalize_targets("/ws", Some(DefinitionResponse::Array(list))).unwrap_err();
    assert!(
        matches!(err, Error::Lsp(ref m) if m == "server returned non-file URI: https://example.com/x")
    );
    assert!(normalize_targets("/ws", None).expect("none").is_empty());
    let paths = vec![Some("/ws/a".to_owned()), Some("/ws-other/b".to_owned())];
    let targets = targets_from("/ws", &[place("u", 0, 0), place("v", 4, 5)], &paths).expect("ok");
    assert!(!targets[0].outside_root);
    assert!(targets[1].outside_root);
    assert_eq!((targets[1].start_line, targets[1].end_line), (5, 6));
}

#[test]
fn frames_count_bytes() {
    assert_eq!(frame("aé"), "Content-Length: 3\r\n\r\naé");
}

#[test]
fn headers_lead_to_a_body() {
    let more = |line: &str, length: Option<u64>| match read_header(line, length) {
        Ok(HeaderStep::More(n)) => n,
        other => panic!("{other:?}"),
    };
    assert_eq!(more("Content-Length: 12\r\n", None), Some(12));
    assert_eq!(more("Content-Type: x\r\n", Some(4)), Some(4));
    assert_eq!(more("Content-Length: soon\r\n", Some(4)), None);
    assert!(matches!(read_header("\r\n", Some(12)), Ok(HeaderStep::Body(12))));
    let err = read_header("", None).unwrap_err();
    assert!(matches!(err, Error::Lsp(ref m) if m == "server frame without Content-Length"));
    let err = read_header("", Some((64 << 20) + 1)).unwrap_err();
    assert!(matches!(err, Error::Lsp(ref m) if m == "server frame too large: 67108865 bytes"));
}

#[test]
fn numbers_parse_like_unsigned_integers() {
    for text in ["0", "12", "+7", "007", "18446744073709551615", "18446744073709551616", "", "+", "-1", "1 2", "٣"] {
        let chars: Vec<char> = text.chars().collect();
        assert_eq!(parse_number(&chars), text.parse::<u64>().ok(), "{text}");
    }
}

#[test]
fn messages_are_told_apart() {
    assert!(matches!(on_message("m", true, None, true, false), MessageStep::Done));
    assert!(matches!(
        on_message("m", true, Some("boom"), true, false),
        MessageStep::Fail(Error::LspServer(ref e)) if e == "m: boom"
    ));
    assert!(matches!(on_message("m", false, None, true, true), MessageStep::Answer));
    assert!(matches!(on_message("m", false, None, false, true), MessageStep::Ignore));
    assert!(matches!(on_message("m", false, Some("x"), true, false), MessageStep::Ignore));
}

#[test]
fn positions_are_one_based() {
    assert_eq!(check_position(3, 1).expect("ok"), 2);
    assert_eq!(check_position(0, 0).unwrap_err().message(), "line must be >= 1");
    assert_eq!(check_position(1, 0).unwrap_err().message(), "character must be >= 1");
    assert_eq!(locate("ab\n𐀀c\n", "f", 2, 2).expect("ok"), (1, 2));
    assert_eq!(
        locate("ab\n", "f.rs", 2, 1).unwrap_err().message(),
        "line 2 out of range in f.rs"
    );
}

#[test]
fn only_live_servers_keep_their_place() {
    let (out, r) = settle(Ending::Targets(Vec::new()));
    assert!(!out && r.expect("targets").is_empty());
    let (out, _) = settle(Ending::Failed(Error::LspServer("busy".to_owned())));
    assert!(!out);
    let (out, _) = settle(Ending::Failed(Error::Lsp("pipe".to_owned())));
    assert!(out);
    let (out, r) = settle(Ending::TimedOut("30s".to_owned()));
    assert!(out);
    assert_eq!(r.unwrap_err().message(), "definition request timed out after 30s");
    let o = Options::default();
    assert_eq!((o.command.as_str(), o.init_timeout, o.request_timeout), ("rust-analyzer", 60000, 30000));
}

#[test]
fn frames_read_back_their_length() {
    for body in ["", "{}", "a\u{e9}\u{10000}"] {
        let framed = frame(body);
        let header = framed.split_inclusive('\n').next().expect("header");
        match read_header(header, None) {
            Ok(HeaderStep::More(n)) => assert_eq!(n, Some(body.len() as u64)),
            other => panic!("{other:?}"),
        }
    }
}
