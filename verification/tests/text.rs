use std::path::Path;

use one_grep::bytes::{find_byte, fit, slice_bytes, width, within};
use one_grep::order::{path_before, same_path, score_above, text_before};
use one_grep::paths::{components_of, extension, file_name, join_path, strip_dir};
use one_grep::text::{
    chomp, decimal_of, find_text, join, lines, lower, split_runs, split_text, trim, white,
};

fn chars(s: &str) -> Vec<char> {
    s.chars().collect()
}

#[test]
fn white_space_is_that_of_unicode() {
    for code in 0..=0x10ffff {
        if let Some(c) = char::from_u32(code) {
            assert_eq!(white(c), c.is_whitespace(), "{code:x}");
            assert_eq!(width(c), c.len_utf8(), "{code:x}");
        }
    }
}

#[test]
fn strings_behave_like_std() {
    for s in ["", "a", "a\n", "a\r\nb\r", "\n\n", "a\n\nb", "é\r\r\nz", "\r", "x\ny\n"] {
        assert_eq!(lines(s), s.lines().collect::<Vec<_>>(), "{s:?}");
        assert_eq!(chomp(s), s.trim_end_matches(['\r', '\n']), "{s:?}");
        let cs = chars(s);
        assert_eq!(trim(&cs).iter().collect::<String>(), s.trim(), "{s:?}");
        assert_eq!(lower(s), s.to_ascii_lowercase());
    }
    for (s, p) in [("a::b::c", "::"), (":::", "::"), ("", "x"), ("abab", "ab"), ("xx", "y")] {
        assert_eq!(split_text(s, p), s.split(p).collect::<Vec<_>>(), "{s} {p}");
        assert_eq!(find_text(&chars(s), p), s.find(p), "{s} {p}");
    }
    for n in [0, 7, 10, 99, 100, 12345, u64::MAX] {
        assert_eq!(decimal_of(n), n.to_string());
    }
    let parts = vec!["a".to_owned(), "b".to_owned()];
    assert_eq!(join(&parts, ", "), "a, b");
    assert_eq!(join(&[], ", "), "");
    let marks: Vec<bool> = "ab  c".chars().map(|c| c != ' ').collect();
    assert_eq!(split_runs(&chars("ab  c"), &marks), vec!["ab", "c"]);
}

#[test]
fn bytes_are_counted_in_utf8() {
    let s = chars("aé€𐀀");
    assert_eq!(fit(&s, 0), 0);
    assert_eq!(fit(&s, 2), 1);
    assert_eq!(fit(&s, 6), 3);
    assert_eq!(fit(&s, 10), 4);
    assert!(within(&s, 10) && !within(&s, 9));
    assert_eq!(find_byte(&s, 3), Some(2));
    assert_eq!(find_byte(&s, 4), None);
    assert_eq!(find_byte(&s, 10), Some(4));
    assert_eq!(slice_bytes(&s, 1, 6).iter().collect::<String>(), "é€");
    assert!(slice_bytes(&s, 2, 6).is_empty());
    assert!(slice_bytes(&s, 6, 1).is_empty());
}

#[test]
fn paths_behave_like_std() {
    let list = [
        "", "/", ".", "..", "a", "a/", "/a//b/./c", "./a", "a/..", "a.rs", ".rs", "a.", "..rs",
        "x/.hidden", "x/a.tar.gz", "a/./", "a/.", "//a", "/..",
    ];
    for p in list {
        let path = Path::new(p);
        let want: Vec<String> = path
            .components()
            .map(|c| c.as_os_str().to_string_lossy().into_owned())
            .collect();
        assert_eq!(components_of(p), want, "{p}");
        assert_eq!(
            extension(p),
            path.extension().map(|e| e.to_string_lossy().into_owned()),
            "{p}"
        );
        assert_eq!(
            file_name(p),
            path.file_name().map(|e| e.to_string_lossy().into_owned()),
            "{p}"
        );
        for q in list {
            let other = Path::new(q);
            assert_eq!(join_path(p, q), path.join(other).to_string_lossy(), "{p} {q}");
            assert_eq!(path_before(p, q), path < other, "{p} {q}");
            assert_eq!(same_path(p, q), path == other, "{p} {q}");
            assert_eq!(
                strip_dir(p, q),
                path.strip_prefix(other).ok().map(|r| r.to_string_lossy().into_owned()),
                "{p} {q}"
            );
            assert_eq!(text_before(p, q), p < q, "{p} {q}");
        }
    }
}

#[test]
fn scores_order_like_doubles() {
    let list = [
        f64::NEG_INFINITY, -2.5, -0.0, 0.0, 1e-300, 0.5, 2.0, f64::INFINITY, f64::NAN, -f64::NAN,
    ];
    for a in list {
        for b in list {
            assert_eq!(
                score_above(a.to_bits(), b.to_bits()),
                a.total_cmp(&b).is_gt(),
                "{a} {b}"
            );
        }
    }
}
