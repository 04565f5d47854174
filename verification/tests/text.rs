use pdf_wm_remover::text::{clip, contains_keyword, lowercase_keywords, split_keywords};
use pdf_wm_remover::{block_matches_keywords, collapse_ws};

fn strings(items: &[&str]) -> Vec<String> {
    items.iter().map(|item| item.to_string()).collect()
}

#[test]
fn collapse_trims_and_joins() {
    assert_eq!(collapse_ws("  C2 -\t\n Confidential \r\n"), "C2 - Confidential");
    assert_eq!(collapse_ws("plain"), "plain");
    assert_eq!(collapse_ws("a b"), "a b");
}

#[test]
fn collapse_of_blank_text_is_empty() {
    assert_eq!(collapse_ws(""), "");
    assert_eq!(collapse_ws(" \t \n "), "");
}

#[test]
fn collapse_knows_unicode_white_space() {
    assert_eq!(collapse_ws("\u{3000}水\u{a0}\u{2003}印\u{85}"), "水 印");
    assert_eq!(collapse_ws("a\u{200b}b"), "a\u{200b}b");
    let all = "\u{9}\u{a}\u{b}\u{c}\u{d}\u{20}\u{85}\u{a0}\u{1680}\u{2000}\u{2001}\
        \u{200a}\u{2028}\u{2029}\u{202f}\u{205f}\u{3000}";
    assert_eq!(collapse_ws(&format!("x{all}y")), "x y");
    for c in ['\u{8}', '\u{e}', '\u{1f}', '\u{84}', '\u{86}', '\u{180e}', '\u{1fff}', '\u{200b}', '\u{feff}'] {
        assert_eq!(collapse_ws(&format!("x{c}y")), format!("x{c}y"));
    }
}

#[test]
fn collapse_twice_is_collapse_once() {
    let text = " one  two\t\tthree ";
    let once = collapse_ws(text);
    assert_eq!(once, "one two three");
    assert_eq!(collapse_ws(&once), once);
}

#[test]
fn block_matching_ignores_case_and_spacing() {
    let keywords = strings(&["c2 - confidential"]);
    assert!(block_matches_keywords("  C2  -  CONFIDENTIAL  draft", &keywords));
    assert!(block_matches_keywords("for C2 - Confidential use", &keywords));
    assert!(!block_matches_keywords("C2-Confidential", &keywords));
}

#[test]
fn block_matching_takes_any_keyword() {
    let keywords = strings(&["draft", "sichuan"]);
    assert!(block_matches_keywords("exclusive use of Sichuan", &keywords));
    assert!(!block_matches_keywords("exclusive use", &keywords));
}

#[test]
fn empty_keywords_never_match() {
    assert!(!block_matches_keywords("anything", &strings(&["", ""])));
    assert!(!block_matches_keywords("anything", &[]));
    assert!(block_matches_keywords("anything", &strings(&["", "any"])));
}

#[test]
fn keywords_in_upper_case_do_not_match_lowered_text() {
    assert!(!block_matches_keywords("DRAFT", &strings(&["DRAFT"])));
}

#[test]
fn contains_keyword_compares_as_written() {
    assert!(contains_keyword("the Draft", &strings(&["Draft"])));
    assert!(!contains_keyword("the Draft", &strings(&["draft"])));
    assert!(!contains_keyword("dra", &strings(&["draft"])));
    assert!(contains_keyword("draft", &strings(&["draft"])));
}

#[test]
fn lowering_keywords_keeps_their_order() {
    assert_eq!(lowercase_keywords(&strings(&["ABC", "ÄÖÜ", "İ"])), strings(&["abc", "äöü", "i\u{307}"]));
    assert!(lowercase_keywords(&[]).is_empty());
}

#[test]
fn split_trims_and_drops_empty_parts() {
    assert_eq!(
        split_keywords(" Confidential, Downloaded by ,,SLS  Terms , "),
        strings(&["Confidential", "Downloaded by", "SLS  Terms"])
    );
    assert!(split_keywords("").is_empty());
    assert!(split_keywords(" , ,").is_empty());
    assert_eq!(split_keywords("one"), strings(&["one"]));
}

#[test]
fn clip_counts_characters() {
    assert_eq!(clip("水印水印", 2), "水印");
    assert_eq!(clip("abc", 3), "abc");
    assert_eq!(clip("abc", 10), "abc");
    assert_eq!(clip("abc", 0), "");
    assert_eq!(clip("", 5), "");
}

#[test]
fn these_characters_are_white_space() {
    let found: Vec<char> = ('\0'..=char::MAX).filter(|c| collapse_ws(&format!("x{c}y")) == "x y").collect();
    let mut expected: Vec<char> = ('\u{9}'..='\u{d}').collect();
    expected.extend([' ', '\u{85}', '\u{a0}', '\u{1680}']);
    expected.extend('\u{2000}'..='\u{200a}');
    expected.extend(['\u{2028}', '\u{2029}', '\u{202f}', '\u{205f}', '\u{3000}']);
    assert_eq!(found, expected);
}

#[test]
fn more_keywords_match_no_less() {
    let text = "Downloaded by SLS";
    assert!(block_matches_keywords(text, &strings(&["sls"])));
    assert!(block_matches_keywords(text, &strings(&["draft", "sls", "terms"])));
}
