use seq_words::SentenceRingBuffer;

fn feed(buffer: &mut SentenceRingBuffer, tokens: &[(&str, bool)]) -> Vec<Option<String>> {
    tokens
        .iter()
        .map(|(text, is_word)| buffer.add(text.to_string(), *is_word))
        .collect()
}

#[test]
fn window_emits_once_quota_words_are_seen() {
    let mut buffer = SentenceRingBuffer::new(2);
    let out = feed(
        &mut buffer,
        &[("a", true), (" ", false), ("b", true), (" ", false), ("c", true)],
    );
    assert_eq!(
        out,
        vec![None, None, Some("a b".to_string()), None, Some("b c".to_string())]
    );
}

#[test]
fn window_never_emits_on_separator() {
    let mut buffer = SentenceRingBuffer::new(1);
    assert_eq!(buffer.add("x".to_string(), true), Some("x".to_string()));
    assert_eq!(buffer.add(",".to_string(), false), None);
    assert_eq!(buffer.add(" ".to_string(), false), None);
    assert_eq!(buffer.add("y".to_string(), true), Some("y".to_string()));
}

#[test]
fn window_drops_leading_separators() {
    let mut buffer = SentenceRingBuffer::new(2);
    let out = feed(
        &mut buffer,
        &[(" ", false), ("-", false), ("a", true), (" ", false), ("b", true)],
    );
    assert_eq!(out, vec![None, None, None, None, Some("a b".to_string())]);
}

#[test]
fn window_coalesces_separator_runs() {
    let mut buffer = SentenceRingBuffer::new(2);
    let out = feed(
        &mut buffer,
        &[
            ("a", true),
            (",", false),
            (" ", false),
            ("b", true),
            (",", false),
            (" ", false),
            ("c", true),
        ],
    );
    assert_eq!(out[3], Some("a, b".to_string()));
    assert_eq!(out[6], Some("b, c".to_string()));
}

#[test]
fn window_full_ring_still_coalesces() {
    // Two words and two separator entries fill all four slots.
    let mut buffer = SentenceRingBuffer::new(2);
    let out = feed(
        &mut buffer,
        &[
            ("a", true),
            (" ", false),
            ("b", true),
            (";", false),
            (" ", false),
            ("c", true),
        ],
    );
    assert_eq!(out[2], Some("a b".to_string()));
    assert_eq!(out[5], Some("b; c".to_string()));
}

#[test]
fn window_phrase_starts_and_ends_with_word() {
    let mut buffer = SentenceRingBuffer::new(3);
    let tokens = [
        ("one", true),
        (" ", false),
        ("two", true),
        (". ", false),
        ("three", true),
        (" ", false),
        ("four", true),
        ("!", false),
    ];
    let out = feed(&mut buffer, &tokens);
    assert_eq!(out[4], Some("one two. three".to_string()));
    assert_eq!(out[6], Some("two. three four".to_string()));
    assert_eq!(out[7], None);
}

#[test]
fn window_completeness_on_every_word_after_quota() {
    let mut buffer = SentenceRingBuffer::new(3);
    let mut words_seen = 0;
    for k in 0..20 {
        let is_word = k % 3 != 2;
        let out = buffer.add(format!("t{}", k), is_word);
        if is_word {
            words_seen += 1;
        }
        assert_eq!(out.is_some(), is_word && words_seen >= 3);
    }
}

#[test]
fn window_quota_larger_than_section() {
    let mut buffer = SentenceRingBuffer::new(5);
    let out = feed(
        &mut buffer,
        &[("a", true), (" ", false), ("b", true), (" ", false), ("c", true), (" ", false), ("d", true)],
    );
    assert!(out.iter().all(|o| o.is_none()));
}

#[test]
fn window_empty_separator_is_harmless() {
    let mut buffer = SentenceRingBuffer::new(2);
    let out = feed(&mut buffer, &[("a", true), ("", false), ("", false), ("b", true)]);
    assert_eq!(out[3], Some("ab".to_string()));
}
