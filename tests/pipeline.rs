use seq_words::expand::{contains_phrase, expand_from, get_all_repeated_sentences};
use seq_words::mining::{get_repeated_min_words, section_min_phrases, Value, WORD};
use seq_words::reduce::{find_repeated_sentences, remove_subset};
use seq_words::soap::{parse_soap, SoapError};

const SPACE: u32 = 1;

/// Splits `text` into word tokens and separator tokens (runs of anything else).
fn tokens(text: &str) -> Vec<(String, u32)> {
    let mut out: Vec<(String, u32)> = Vec::new();
    for c in text.chars() {
        let kind = if c.is_alphanumeric() { WORD } else { SPACE };
        match out.last_mut() {
            Some((t, k)) if *k == kind => t.push(c),
            _ => out.push((c.to_string(), kind)),
        }
    }
    out
}

fn doc(id: &str, sections: &[&str]) -> Value {
    Value {
        encounter_id: id.to_string(),
        soap: sections.iter().map(|s| tokens(s)).collect(),
    }
}

fn sorted(mut v: Vec<String>) -> Vec<String> {
    v.sort();
    v
}

fn row(phrase: &str, ids: &[&str]) -> (String, Vec<String>) {
    (phrase.to_string(), ids.iter().map(|s| s.to_string()).collect())
}

#[test]
fn section_min_phrases_lists_every_window() {
    let phrases = section_min_phrases(&tokens("a b c d"), 2);
    assert_eq!(phrases, vec!["a b", "b c", "c d"]);
}

#[test]
fn repeated_min_words_counts_multiplicity() {
    let values = vec![
        doc("1", &["red fox jumps", "lazy dog"]),
        doc("2", &["red fox sleeps"]),
        doc("3", &["lazy cat", "lazy dog"]),
    ];
    let repeated = sorted(get_repeated_min_words(&values, 2));
    assert_eq!(repeated, vec!["lazy dog", "red fox"]);
}

#[test]
fn repeated_min_words_within_one_section() {
    let values = vec![doc("1", &["go on go on"])];
    let repeated = sorted(get_repeated_min_words(&values, 2));
    assert_eq!(repeated, vec!["go on"]);
}

#[test]
fn repeated_min_words_never_bridges_sections() {
    let values = vec![doc("1", &["x y", "z"]), doc("2", &["x", "y z"])];
    assert!(get_repeated_min_words(&values, 2).is_empty());
}

#[test]
fn expansion_records_only_supported_phrases() {
    let values = vec![doc("1", &["a b c d"]), doc("2", &["a b c e"])];
    let repeated = get_repeated_min_words(&values, 2);
    assert_eq!(sorted(repeated.clone()), vec!["a b", "b c"]);
    let mut all = get_all_repeated_sentences(&repeated, &values, 2);
    all.sort();
    assert_eq!(
        all,
        vec![
            row(" b c", &["1", "2"]),
            row("a b", &["1", "2"]),
            row("a b c", &["1", "2"]),
            row("b c", &["1", "2"]),
        ]
    );
    // Every candidate ends in a repeated window of two words.
    for (phrase, _) in &all {
        let words: Vec<&str> = phrase.split(' ').collect();
        let tail = words[words.len() - 2..].join(" ");
        assert!(repeated.contains(&tail));
    }
}

#[test]
fn expansion_keeps_candidates_recorded_twice_only() {
    let values = vec![doc("1", &["p q r"]), doc("2", &["p q"]), doc("3", &["q r"])];
    let repeated = get_repeated_min_words(&values, 2);
    let mut all = get_all_repeated_sentences(&repeated, &values, 2);
    all.sort();
    assert_eq!(all, vec![row("p q", &["1", "2"]), row("q r", &["1", "3"])]);
}

#[test]
fn remove_subset_drops_substring_with_no_more_ids() {
    let input = vec![
        row("acute distress", &["1", "2"]),
        row("no acute distress", &["1", "2"]),
        row("chest pain", &["1", "2", "3"]),
        row("chest pain today", &["1", "2"]),
    ];
    let out = remove_subset(input);
    assert_eq!(
        out,
        vec![
            row("no acute distress", &["1", "2"]),
            row("chest pain", &["1", "2", "3"]),
            row("chest pain today", &["1", "2"]),
        ]
    );
}

#[test]
fn remove_subset_ignores_which_encounters() {
    // A longer phrase with as many ids subsumes a shorter one even where
    // their encounters differ.
    let input = vec![row("b c", &["1", "1"]), row("a b c", &["2", "3"])];
    assert_eq!(remove_subset(input), vec![row("a b c", &["2", "3"])]);
}

#[test]
fn remove_subset_drops_rows_with_one_id() {
    let input = vec![row("a b", &["1"]), row("c d", &["1", "2"]), row("a b c d", &["3"])];
    assert_eq!(remove_subset(input), vec![row("c d", &["1", "2"])]);
}

#[test]
fn expansion_starts_on_separators_too() {
    let values = vec![doc("1", &[" a"]), doc("2", &[" a"])];
    let repeated = get_repeated_min_words(&values, 1);
    let mut all = get_all_repeated_sentences(&repeated, &values, 1);
    all.sort();
    assert_eq!(all, vec![row(" a", &["1", "2"]), row("a", &["1", "2"])]);
}

#[test]
fn remove_subset_of_nothing_is_nothing() {
    assert!(remove_subset(Vec::new()).is_empty());
}

#[test]
fn remove_subset_twice_changes_nothing() {
    let input = vec![
        row("x y", &["1", "2", "3"]),
        row("w x y", &["1", "2"]),
        row("x y z", &["1", "2", "3"]),
        row("v w x y", &["1", "2"]),
        row("q r", &["4", "5"]),
    ];
    let once = remove_subset(input);
    assert_eq!(once, vec![row("x y z", &["1", "2", "3"]), row("v w x y", &["1", "2"]), row("q r", &["4", "5"])]);
    let twice = remove_subset(once.clone());
    assert_eq!(twice, once);
}

#[test]
fn group_whole_sentence_repeated_in_two_documents() {
    let values = vec![
        doc("e1", &["the patient reports mild pain today"]),
        doc("e2", &["the patient reports mild pain today"]),
    ];
    let rows = find_repeated_sentences(&values, 4);
    assert_eq!(rows.len(), 1);
    assert_eq!(rows[0].0, "the patient reports mild pain today");
    assert_eq!(rows[0].1.len(), 2);
    assert_eq!(sorted(rows[0].1.clone()), vec!["e1", "e2"]);
}

#[test]
fn group_repeat_within_one_document() {
    let values = vec![doc("e7", &["patient denies chest pain and denies chest pain again"])];
    let rows = find_repeated_sentences(&values, 3);
    // Growing also starts on the separator before each "denies", and that
    // longer phrase is recorded as often, so it is the one that stays.
    assert_eq!(rows, vec![row(" denies chest pain", &["e7", "e7"])]);
}

#[test]
fn group_longer_phrase_subsumes_its_tail() {
    let values = vec![
        doc("1", &["no acute distress noted"]),
        doc("2", &["no acute distress noted"]),
    ];
    let all = get_all_repeated_sentences(&get_repeated_min_words(&values, 3), &values, 3);
    assert!(all.contains(&row("acute distress noted", &["1", "2"])));
    let rows = find_repeated_sentences(&values, 3);
    assert_eq!(rows, vec![row("no acute distress noted", &["1", "2"])]);
}

#[test]
fn group_quota_above_section_length() {
    let values = vec![doc("1", &["one two three four"]), doc("2", &["one two three four"])];
    assert!(get_repeated_min_words(&values, 5).is_empty());
    assert!(find_repeated_sentences(&values, 5).is_empty());
}

#[test]
fn phrases_keep_their_separators() {
    let values = vec![doc("1", &["bp, stable; ok"]), doc("2", &["bp, stable; ok"])];
    let rows = find_repeated_sentences(&values, 2);
    assert_eq!(rows, vec![row("bp, stable; ok", &["1", "2"])]);
}

#[test]
fn parse_soap_reads_sections() {
    let sections = parse_soap(r#"[[["no",2],[" ",1],["pain",2]],[["ok",2]]]"#).unwrap();
    assert_eq!(
        sections,
        vec![
            vec![("no".to_string(), 2), (" ".to_string(), 1), ("pain".to_string(), 2)],
            vec![("ok".to_string(), 2)],
        ]
    );
}

#[test]
fn parse_soap_rejects_malformed_text() {
    assert_eq!(parse_soap("[[1, 2]"), Err(SoapError::InvalidJson));
    assert_eq!(parse_soap(r#"{"a": 1}"#), Err(SoapError::InvalidJson));
}

#[test]
fn expand_from_stops_at_first_unrepeated_window() {
    let section = tokens("a b c d");
    let repeated = vec!["a b".to_string(), "c d".to_string()];
    // "b c" is not repeated, so growing from "a" ends after "a b".
    assert_eq!(expand_from(&section, 0, &repeated, 2), vec!["a b"]);
    assert_eq!(expand_from(&section, 4, &repeated, 2), vec!["c d"]);
    assert!(expand_from(&section, 7, &repeated, 2).is_empty());
}

#[test]
fn contains_phrase_matches_whole_entries() {
    let repeated = vec!["a b".to_string(), "c d".to_string()];
    assert!(contains_phrase(&repeated, &"c d".to_string()));
    assert!(!contains_phrase(&repeated, &"a".to_string()));
}
