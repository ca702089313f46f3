use blurman::text::{
    chars_of, comes_before, decimal, eq_ignore_ascii_case, fold_text, is_blank, is_white_space,
    joined, padded_end, padded_start, same_text, text_len, trouble,
};

#[test]
fn white_space_is_what_unicode_says() {
    for c in '\0'..=char::MAX {
        assert_eq!(is_white_space(c), c.is_whitespace(), "{c:?}");
    }
}

#[test]
fn case_matters_only_outside_ascii() {
    assert!(eq_ignore_ascii_case("Chrome.EXE", "chrome.exe"));
    assert!(!eq_ignore_ascii_case("chrome", "chrom"));
    assert!(!eq_ignore_ascii_case("Ä.exe", "ä.exe"));
    for (a, b) in [("[", "{"), ("@", "`"), ("Z", "z"), ("A", "a"), ("é", "é")] {
        assert_eq!(eq_ignore_ascii_case(a, b), a.eq_ignore_ascii_case(b), "{a} {b}");
    }
}

#[test]
fn names_are_ordered_as_lower_case() {
    let names = ["Zed", "alpha", "Beta", "beta2", "", "Äpfel", "zeD2"];
    for a in names {
        for b in names {
            assert_eq!(
                comes_before(&fold_text(a), &fold_text(b)),
                a.to_ascii_lowercase() < b.to_ascii_lowercase(),
                "{a} {b}"
            );
        }
    }
}

#[test]
fn numbers_and_columns_are_printed() {
    for n in [0u64, 7, 10, 99, 100, 12345, u32::MAX as u64, u64::MAX] {
        assert_eq!(decimal(n), format!("{n}"));
    }
    assert_eq!(padded_end("ab", 5), "ab   ");
    assert_eq!(padded_end("äöü", 4), "äöü ");
    assert_eq!(padded_end("abcdef", 3), "abcdef");
    assert_eq!(padded_start("7", 2), " 7");
    assert_eq!(padded_start("123", 2), "123");
    assert_eq!(joined("a", "b"), "ab");
    assert_eq!(trouble("Could not save rules", "disk full"), "Could not save rules: disk full");
}

#[test]
fn texts_are_taken_apart() {
    assert_eq!(chars_of("aé"), vec!['a', 'é']);
    assert!(same_text("x", "x"));
    assert!(!same_text("x", "X"));
    assert!(is_blank(" \t\u{2003}"));
    assert!(is_blank(""));
    assert!(!is_blank(" . "));
    assert_eq!(text_len(&[104, 105, 0, 7]), 2);
    assert_eq!(text_len(&[104, 105]), 2);
    assert_eq!(text_len(&[]), 0);
}
