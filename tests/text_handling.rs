use lexis::candidates::is_likely_proper_noun;
use lexis::library::assemble_text;
use lexis::progress::decimal;
use lexis::resources::resource_dir_in;
use lexis::text::{clean_context, collapse_whitespace, split_sentences, split_words};

fn chars(s: &str) -> Vec<char> {
    s.chars().collect()
}

fn text(v: &[char]) -> String {
    v.iter().collect()
}

#[test]
fn sentences_are_split_trimmed_and_non_empty() {
    let s = split_sentences(&chars("  One two.  Three!?\u{a0}Four  "));
    let got: Vec<String> = s.iter().map(|v| text(v)).collect();
    assert_eq!(got, vec!["One two".to_string(), "Three".to_string(), "Four".to_string()]);
    assert!(split_sentences(&chars("")).is_empty());
    assert!(split_sentences(&chars(" ... ")).is_empty());
}

#[test]
fn whitespace_is_collapsed() {
    assert_eq!(text(&collapse_whitespace(&chars("  a \t\n b\u{2003}c  "))), "a b c");
    assert_eq!(text(&collapse_whitespace(&chars("   "))), "");
    let words = split_words(&chars(" x  yz "));
    assert_eq!(words.len(), 2);
    assert_eq!(text(&words[1]), "yz");
}

#[test]
fn contexts_lose_nbsp_entities() {
    assert_eq!(text(&clean_context(&chars("a&nbsp;&nbsp;b\u{a0} c &nbsp"))), "a b c &nbsp");
}

#[test]
fn proper_noun_heuristic() {
    assert!(is_likely_proper_noun(&chars("Darcy"), 2));
    assert!(is_likely_proper_noun(&chars("Eli"), 2));
    assert!(!is_likely_proper_noun(&chars("Darcy"), 0));
    assert!(!is_likely_proper_noun(&chars("darcy"), 2));
    assert!(!is_likely_proper_noun(&chars(""), 1));
}

#[test]
fn chapters_are_joined_with_blank_lines() {
    let chapters = vec!["  Title \n Hello   world ! ".to_string(), " \t ".to_string(), "Second\tchapter".to_string()];
    let t = assemble_text(&chapters);
    assert_eq!(t.full_text, "Title Hello world !\n\nSecond chapter");
    assert_eq!(t.chapter_count, 2);
    let none = assemble_text(&Vec::new());
    assert_eq!(none.full_text, "");
    assert_eq!(none.chapter_count, 0);
}

#[test]
fn resource_dir_is_under_the_data_dir() {
    let d = resource_dir_in(Some("/data".to_string()));
    assert_eq!(d, "/data/lexis/resources");
    let here = resource_dir_in(None);
    assert_eq!(here, "./lexis/resources");
}

#[test]
fn numbers_are_written_in_decimal() {
    assert_eq!(text(&decimal(0)), "0");
    assert_eq!(text(&decimal(7)), "7");
    assert_eq!(text(&decimal(1024)), "1024");
    assert_eq!(text(&decimal(u64::MAX)), "18446744073709551615");
}

