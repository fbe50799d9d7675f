use minigrep::search::{matched_lines, search_insensitive, search_sensitive, Config};

#[test]
fn case_sensitive() {
    let query = "kawasaki";
    let contents = "Car kawasaki\nMotorcycle kawasaki\n";
    assert_eq!(
        vec!["Car kawasaki".to_string(), "Motorcycle kawasaki".to_string()],
        search_sensitive(query, contents)
    );
}

#[test]
fn case_insensitive() {
    let query = "kaWasAki";
    let contents = "Car kawasaki\nMotorcycle kawasaki\n";
    assert_eq!(
        vec!["Car kawasaki".to_string(), "Motorcycle kawasaki".to_string()],
        search_insensitive(query, contents)
    );
}

#[test]
fn mixed_case_query_finds_nothing_sensitively() {
    let query = "kaWasAki";
    let contents = "Car kawasaki\nMotorcycle kawasaki\n";
    assert_eq!(Vec::<String>::new(), search_sensitive(query, contents));
}

#[test]
fn exact_query_matches_in_both_modes() {
    let query = "kawasaki";
    let contents = "Car kawasaki\nMotorcycle kawasaki\n";
    let expected = vec!["Car kawasaki".to_string(), "Motorcycle kawasaki".to_string()];
    assert_eq!(expected, search_sensitive(query, contents));
    assert_eq!(expected, search_insensitive(query, contents));
}

#[test]
fn empty_query_matches_every_line() {
    let contents = "a\nb\n";
    let expected = vec!["a".to_string(), "b".to_string()];
    assert_eq!(expected, search_sensitive("", contents));
    assert_eq!(expected, search_insensitive("", contents));
}

#[test]
fn empty_content_has_no_matches() {
    assert_eq!(Vec::<String>::new(), search_sensitive("x", ""));
    assert_eq!(Vec::<String>::new(), search_insensitive("x", ""));
}

#[test]
fn interior_empty_lines_are_kept() {
    let contents = "a\n\nab";
    assert_eq!(
        vec!["a".to_string(), "".to_string(), "ab".to_string()],
        search_sensitive("", contents)
    );
    assert_eq!(vec!["a".to_string(), "ab".to_string()], search_sensitive("a", contents));
}

#[test]
fn duplicate_lines_appear_once_per_occurrence() {
    let contents = "dog\ncat\ndog\n";
    assert_eq!(vec!["dog".to_string(), "dog".to_string()], search_sensitive("dog", contents));
}

#[test]
fn filtering_twice_returns_the_same_lines() {
    let query = "ka";
    let contents = "Car kawasaki\nskip me\nMotorcycle kawasaki";
    let once = search_insensitive(query, contents);
    let rejoined = once.join("\n");
    let twice = search_insensitive(query, &rejoined);
    assert_eq!(once, twice);

    let once_s = search_sensitive(query, contents);
    let twice_s = search_sensitive(query, &once_s.join("\n"));
    assert_eq!(once_s, twice_s);
}

#[test]
fn sensitive_matches_are_a_subset_of_insensitive() {
    let query = "Kawa";
    let contents = "KaWasaki\nKawasaki\nkawasaki\nnothing";
    let sensitive = search_sensitive(query, contents);
    let insensitive = search_insensitive(query, contents);
    assert_eq!(vec!["Kawasaki".to_string()], sensitive);
    assert_eq!(
        vec!["KaWasaki".to_string(), "Kawasaki".to_string(), "kawasaki".to_string()],
        insensitive
    );
    let mut it = insensitive.iter();
    for line in &sensitive {
        assert!(it.any(|l| l == line));
    }
}

#[test]
fn matched_lines_follows_the_config_mode() {
    let contents = "Car kawasaki\nMotorcycle kawasaki\n";
    let sensitive = Config {
        query: "kaWasAki".to_string(),
        filename: None,
        sensitive: true,
    };
    assert_eq!(Vec::<String>::new(), matched_lines(&sensitive, contents));
    let insensitive = Config {
        query: "kaWasAki".to_string(),
        filename: Some("notes.txt".to_string()),
        sensitive: false,
    };
    assert_eq!(
        vec!["Car kawasaki".to_string(), "Motorcycle kawasaki".to_string()],
        matched_lines(&insensitive, contents)
    );
}
