use caption_core::parakeet_grouping::{group_by_sentences, group_by_words, push_word_unless_repeat, TimedToken};

fn t(text: &str, start: i64, end: i64) -> TimedToken {
    TimedToken { text: text.to_string(), start, end }
}

fn texts(v: &[TimedToken]) -> Vec<String> {
    v.iter().map(|x| x.text.clone()).collect()
}

#[test]
fn words_from_marked_tokens() {
    let toks = vec![t("▁My", 0, 10), t("▁na", 10, 20), t("me", 20, 30), t("▁is", 30, 40), t("▁Tim", 40, 50), t(".", 50, 90)];
    let w = group_by_words(&toks);
    assert_eq!(texts(&w), vec!["My", "name", "is", "Tim."]);
    // trailing punctuation does not stretch the word's end
    assert_eq!((w[3].start, w[3].end), (40, 50));
    assert_eq!((w[1].start, w[1].end), (10, 30));
}

#[test]
fn words_keep_contractions_and_hyphens() {
    let toks = vec![t("▁don", 0, 10), t("▁'t", 10, 20), t("▁well", 20, 30), t("▁-known", 30, 40)];
    assert_eq!(texts(&group_by_words(&toks)), vec!["don't", "well-known"]);
}

#[test]
fn words_drop_case_insensitive_repeats() {
    let toks = vec![t("▁The", 0, 10), t("▁the", 10, 20), t("▁cat", 20, 30)];
    let w = group_by_words(&toks);
    assert_eq!(texts(&w), vec!["The", "cat"]);
}

#[test]
fn words_drop_leading_punctuation_and_whitespace_tokens() {
    let toks = vec![t(".", 0, 5), t("▁Hi", 5, 10), t(" ", 10, 12), t("there", 12, 20)];
    let w = group_by_words(&toks);
    assert_eq!(texts(&w), vec!["Hi", "there"]);
    assert_eq!((w[1].start, w[1].end), (12, 20));
    assert!(group_by_words(&vec![]).is_empty());
}

#[test]
fn marked_punctuation_token_starts_a_word() {
    // the marker makes the token more than punctuation, so it opens the word
    let toks = vec![t("▁Ok", 0, 10), t("▁\"", 10, 15), t("quote", 15, 25)];
    let w = group_by_words(&toks);
    assert_eq!(texts(&w), vec!["Ok", "\"quote"]);
    assert_eq!((w[1].start, w[1].end), (10, 25));
}

#[test]
fn sentences_end_at_last_spoken_word() {
    let toks = vec![
        t("▁Hello", 0, 10), t("▁world", 10, 20), t(".", 20, 40),
        t("▁How", 50, 60), t("▁are", 60, 70), t("▁you", 70, 80), t("?", 80, 95),
        t("▁Fine", 100, 110),
    ];
    let s = group_by_sentences(&toks);
    assert_eq!(texts(&s), vec!["Hello world.", "How are you?", "Fine"]);
    assert_eq!((s[0].start, s[0].end), (0, 20));
    assert_eq!((s[1].start, s[1].end), (50, 80));
    assert_eq!((s[2].start, s[2].end), (100, 110));
    assert!(group_by_sentences(&vec![]).is_empty());
}

#[test]
fn sentences_read_as_the_words() {
    let toks = vec![
        t("▁Hello", 0, 10),
        t(",", 10, 12),
        t("▁world", 12, 20),
        t(".", 20, 22),
        t("▁How", 30, 40),
        t("▁are", 40, 50),
        t("▁you", 50, 60),
        t("?", 60, 62),
        t("▁Fine", 70, 80),
    ];
    let words = group_by_words(&toks);
    let sentences = group_by_sentences(&toks);
    assert_eq!(texts(&sentences), vec!["Hello, world.", "How are you?", "Fine"]);
    assert_eq!(texts(&sentences).join(" "), texts(&words).join(" "));
    assert!(sentences.iter().all(|s| !s.text.is_empty()));
}

#[test]
fn repeat_test_uses_the_lowercased_text() {
    let mut words = Vec::new();
    let mut last = String::new();
    assert!(push_word_unless_repeat(&mut words, &mut last, t("The", 0, 10), "the".to_string()));
    assert_eq!(last, "the");
    // a repeat ignoring case is dropped
    assert!(!push_word_unless_repeat(&mut words, &mut last, t("THE", 10, 20), "the".to_string()));
    assert!(push_word_unless_repeat(&mut words, &mut last, t("cat", 20, 30), "cat".to_string()));
    assert_eq!(texts(&words), vec!["The", "cat"]);
    assert_eq!(last, "cat");
}
