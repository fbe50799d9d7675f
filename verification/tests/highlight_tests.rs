use minigrep::highlight::{highlight_line, highlight_matches, highlight_word, split_words};
use minigrep::search::Config;

#[test]
fn words_split_on_runs_of_whitespace() {
    assert_eq!(
        vec!["a".to_string(), "b".to_string()],
        split_words("  a \t b ")
    );
    assert_eq!(vec!["Car".to_string(), "kawasaki".to_string()], split_words("Car kawasaki"));
    assert_eq!(Vec::<String>::new(), split_words("   "));
    assert_eq!(Vec::<String>::new(), split_words(""));
}

#[test]
fn a_matching_word_is_cut_into_three_segments() {
    let hw = highlight_word("Car-kawasaki?", "kawasaki");
    assert_eq!("Car-", hw.before);
    assert_eq!("kawasaki", hw.matched);
    assert_eq!("?", hw.after);
}

#[test]
fn the_cut_is_at_the_first_occurrence() {
    let hw = highlight_word("aXbXc", "X");
    assert_eq!("a", hw.before);
    assert_eq!("X", hw.matched);
    assert_eq!("bXc", hw.after);
}

#[test]
fn a_word_without_the_query_stays_whole() {
    let hw = highlight_word("Car", "kawasaki");
    assert_eq!("Car", hw.before);
    assert_eq!("", hw.matched);
    assert_eq!("", hw.after);
}

#[test]
fn segments_concatenate_back_to_the_word() {
    for (word, query) in [
        ("Car-kawasaki?", "kawasaki"),
        ("kawasaki", "kawasaki"),
        ("Car", "kawasaki"),
        ("kaWasAki", "kawasaki"),
        ("na\u{ef}ve", "\u{ef}v"),
    ] {
        let hw = highlight_word(word, query);
        assert_eq!(word, format!("{}{}{}", hw.before, hw.matched, hw.after));
    }
}

#[test]
fn a_line_is_highlighted_word_by_word() {
    let segments = highlight_line("Car kawasaki", "kawasaki");
    assert_eq!(2, segments.len());
    assert_eq!("Car", segments[0].before);
    assert_eq!("", segments[0].matched);
    assert_eq!("kawasaki", segments[1].matched);
    assert_eq!("", segments[1].before);
    assert_eq!("", segments[1].after);
}

#[test]
fn case_insensitive_matches_may_stay_unstyled() {
    let segments = highlight_line("Car KAWASAKI", "kawasaki");
    assert_eq!(2, segments.len());
    assert_eq!("KAWASAKI", segments[1].before);
    assert_eq!("", segments[1].matched);
}

#[test]
fn the_pipeline_highlights_each_matching_line() {
    let config = Config {
        query: "kawasaki".to_string(),
        filename: None,
        sensitive: false,
    };
    let lines = highlight_matches(&config, "Car KAWASAKI\nskip me\nMotorcycle kawasaki\n");
    assert_eq!(2, lines.len());
    assert_eq!(2, lines[0].len());
    assert_eq!("KAWASAKI", lines[0][1].before);
    assert_eq!("kawasaki", lines[1][1].matched);
}
