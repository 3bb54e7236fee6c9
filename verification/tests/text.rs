use voxtype::text::{count_words, join_range, sentence_chunks, trim, two_digits};

fn samples() -> Vec<&'static str> {
    vec![
        "",
        " ",
        "\t\n ",
        "a",
        " a ",
        "Hello world.",
        "First speaker says hello. Second speaker answers back.",
        "What?! Really... yes",
        "...",
        " . ",
        "no end",
        "\u{a0}non-breaking\u{2003}spaces\u{3000}",
        "a\u{200b}b",
        "\u{85}next line\u{1680}",
        "ünïcödé wörds. zweiter Satz! 第三",
    ]
}

#[test]
fn trimming_agrees_with_std() {
    for s in samples() {
        assert_eq!(trim(s), s.trim(), "{:?}", s);
    }
}

#[test]
fn all_white_space_is_known() {
    for c in (0..=0x10ffffu32).filter_map(char::from_u32) {
        assert_eq!(voxtype::text::is_white(c), c.is_whitespace(), "{:?}", c);
    }
}

#[test]
fn counting_words_agrees_with_std() {
    for s in samples() {
        assert_eq!(count_words(s), s.split_whitespace().count(), "{:?}", s);
    }
}

#[test]
fn sentences_end_with_their_marks() {
    assert_eq!(
        sentence_chunks("First speaker says hello. Second speaker answers back."),
        vec!["First speaker says hello.", "Second speaker answers back."]
    );
    assert_eq!(sentence_chunks("What?! Really... yes"), vec!["What?", "!", "Really.", ".", ".", "yes"]);
    assert_eq!(sentence_chunks("no end"), vec!["no end"]);
    assert!(sentence_chunks(" \n").is_empty());
}

#[test]
fn sentences_are_joined_with_spaces() {
    let parts: Vec<String> = vec!["a.".to_string(), "b!".to_string(), "c".to_string()];
    assert_eq!(join_range(&parts, 0, 3), "a. b! c");
    assert_eq!(join_range(&parts, 1, 2), "b!");
    assert_eq!(join_range(&parts, 1, 1), "");
}

#[test]
fn numbers_have_two_digits() {
    for n in [0u32, 1, 9, 10, 42, 99, 100, 4_294_967_295] {
        assert_eq!(two_digits(n), format!("{:02}", n));
    }
}

#[test]
fn sentences_lose_nothing_but_white_space() {
    let solid = |s: &str| -> String { s.chars().filter(|c| !c.is_whitespace()).collect() };
    for s in samples() {
        let parts = sentence_chunks(s);
        assert_eq!(solid(&join_range(&parts, 0, parts.len())), solid(s), "{:?}", s);
        for part in &parts {
            assert_eq!(part, part.trim());
            assert!(!part.is_empty());
        }
    }
}
