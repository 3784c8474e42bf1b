use simple_wiki_search::linguist::Linguist;

fn strings(v: &[&str]) -> Vec<String> {
    v.iter().map(|s| s.to_string()).collect()
}

#[test]
fn test_processing() {
    let mut linguist = Linguist::new();
    // Mock lemmatization data
    linguist.insert_lemma("running".to_string(), "run".to_string());
    linguist.insert_lemma("cats".to_string(), "cat".to_string());

    // Mock stopwords
    linguist.insert_stopword("the".to_string());
    linguist.insert_stopword("are".to_string());

    let text = "The cats are running fast!";
    let tokens = linguist.process(text);

    // "the", "are" are stopwords.
    // "cats" -> "cat"
    // "running" -> "run"
    // "fast" -> "fast"
    assert_eq!(tokens, vec!["cat", "run", "fast"]);
}

#[test]
fn process_splits_on_runs_of_other_characters() {
    let linguist = Linguist::new();
    assert_eq!(linguist.process(",,Hello--World  42x!"), vec!["hello", "world", "42x"]);
    assert_eq!(linguist.process(""), Vec::<String>::new());
    assert_eq!(linguist.process("!!!"), Vec::<String>::new());
    // Characters outside a-z and 0-9 (after lowercasing) separate tokens.
    assert_eq!(linguist.process("Café_au-lait"), vec!["caf", "au", "lait"]);
}

#[test]
fn process_lowercase_does_not_fold_case() {
    let linguist = Linguist::new();
    assert_eq!(linguist.process_lowercase("ab CD ef"), vec!["ab", "ef"]);
}

#[test]
fn stopwords_are_checked_before_lemmatization() {
    let mut linguist = Linguist::new();
    linguist.insert_lemma("was".to_string(), "be".to_string());
    linguist.insert_stopword("be".to_string());
    assert_eq!(linguist.process("be was"), vec!["be"]);
}

#[test]
fn later_lemma_replaces_earlier() {
    let mut linguist = Linguist::new();
    linguist.insert_lemma("mice".to_string(), "mouse".to_string());
    linguist.insert_lemma("mice".to_string(), "rodent".to_string());
    assert_eq!(linguist.lookup_lemma(&"mice".to_string()), Some("rodent".to_string()));
    assert_eq!(linguist.lookup_lemma(&"cats".to_string()), None);
}

#[test]
fn load_stopwords_trims_and_skips_empty_lines() {
    let mut linguist = Linguist::new();
    linguist.load_stopwords(&strings(&["  the ", "", "   ", "\tand"]));
    assert!(linguist.is_stopword(&"the".to_string()));
    assert!(linguist.is_stopword(&"and".to_string()));
    assert!(!linguist.is_stopword(&"".to_string()));
    assert!(!linguist.is_stopword(&" the ".to_string()));
}

#[test]
fn load_lemmatization_maps_second_field_to_first() {
    let mut linguist = Linguist::new();
    linguist.load_lemmatization_file(&strings(&["go\twent", "single", "be is extra", "  "]));
    assert_eq!(linguist.lookup_lemma(&"went".to_string()), Some("go".to_string()));
    assert_eq!(linguist.lookup_lemma(&"is".to_string()), Some("be".to_string()));
    assert_eq!(linguist.lookup_lemma(&"single".to_string()), None);
    assert_eq!(linguist.process("Went IS"), vec!["go", "be"]);
}

#[test]
fn select_tokens_filters_pieces() {
    let mut linguist = Linguist::new();
    linguist.insert_stopword("a".to_string());
    linguist.insert_lemma("dogs".to_string(), "dog".to_string());
    let pieces = strings(&["", "a", "dogs", "run", ""]);
    assert_eq!(linguist.select_tokens(&pieces), vec!["dog", "run"]);
}

#[test]
fn unicode_white_space_counts_as_white_space() {
    let mut linguist = Linguist::new();
    linguist.load_stopwords(&strings(&["\u{3000}the\u{a0}", "\u{85}\u{2028}"]));
    assert!(linguist.is_stopword(&"the".to_string()));
    assert!(!linguist.is_stopword(&"".to_string()));
    linguist.load_lemmatization_file(&strings(&["go\u{2002}went", "be\u{200b}is"]));
    assert_eq!(linguist.lookup_lemma(&"went".to_string()), Some("go".to_string()));
    // U+200B (zero width space) is not White_Space: the line has one field.
    assert_eq!(linguist.lookup_lemma(&"is".to_string()), None);
}

#[test]
fn a_space_ends_a_token() {
    let mut linguist = Linguist::new();
    linguist.insert_stopword("the".to_string());
    let a = "The quick-Brown";
    let b = "fox!! jumps";
    let mut joined = linguist.process(a);
    joined.extend(linguist.process(b));
    assert_eq!(linguist.process(&format!("{} {}", a, b)), joined);
    assert_eq!(joined, vec!["quick", "brown", "fox", "jumps"]);
}
