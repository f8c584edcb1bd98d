use quiksearch::{FuzzPriority, SearchKind, WordDict, WordListNode};

#[test]
fn it_saves_strings_strict() {
    let mut dict = WordDict::new();

    dict.learn(String::from("hello"));

    // Expect to find "hello"
    assert!(dict.find_terms("hello", SearchKind::Strict).len() > 0);
    // Expect to find only "hello"
    assert!(dict.find_terms("hello", SearchKind::Strict).len() == 1);
    // Expect to find "hello" by prefix
    assert!(dict.find_terms("hell", SearchKind::Prefix(10)).len() > 0);
    // Expect to not find "hell" as a word
    assert!(dict.find_terms("hell", SearchKind::Strict).len() == 0);

    dict.learn(String::from("hell"));
    // Expect to find "hell" as a word and not hello
    assert!(dict.find_terms("hell", SearchKind::Strict).len() > 0);
    assert!(dict.find_terms("hell", SearchKind::Strict).len() == 1);
    // Expect to find "hell" and "hello" by prefix
    assert!(dict.find_terms("hell", SearchKind::Prefix(10)).len() == 2);
    assert!(dict.find_terms("he", SearchKind::Prefix(10)).len() == 2);

    // But if depth is too shallow, find nothing
    assert!(dict.find_terms("he", SearchKind::Prefix(1)).len() == 0);

    // Expect to not find what we didn't save
    assert!(dict.find_terms("hejkjk", SearchKind::Prefix(10)).len() == 0);
    assert!(dict.find_terms("obama", SearchKind::Prefix(10)).len() == 0);
    assert!(dict.find_terms("ajdklajhf", SearchKind::Prefix(10)).len() == 0);
}

#[test]
fn it_searches_by_words() {
    let mut dict = WordDict::new();

    dict.learn(String::from("Hello World"));
    dict.learn(String::from("World Is Mine"));
    dict.learn(String::from("miku miku ni shite ageru"));

    let rslt = dict.find_terms("world", SearchKind::Strict);
    println!("{}: {:#?}", "world", rslt);
    assert!(rslt.len() > 0);

    let rslt = dict.find_terms("mi", SearchKind::Prefix(10));
    println!("{}: {:#?}", "mi", rslt);
    assert!(rslt.len() > 0);

    let rslt = dict.find_terms("hello", SearchKind::Strict);
    println!("{}: {:#?}", "hello", rslt);
    assert!(rslt.len() > 0);
}

#[test]
fn it_searches_fuzzy() {
    let fuzz: usize = 5;

    let mut dict = WordDict::new();

    dict.learn(String::from("Hello World"));
    dict.learn(String::from("World Is Mine"));
    dict.learn(String::from("miku miku ni shite ageru"));

    let rslt = dict.find_terms("helwor", SearchKind::Fuzzy(fuzz, FuzzPriority::TypoCorrection));
    println!("{}: {:#?}", "helwor", rslt);
    assert!(rslt.len() > 0);
    assert!(rslt.iter().any(|v| v.as_str() == "Hello World"));

    let rslt = dict.find_terms(
        "miminishiage",
        SearchKind::Fuzzy(fuzz, FuzzPriority::TypoCorrection),
    );
    println!("{}: {:#?}", "miminishiage", rslt);
    assert!(rslt.len() > 0);
    assert!(rslt.iter().any(|v| v.as_str() == "miku miku ni shite ageru"));

    let rslt = dict.find_terms("woismi", SearchKind::Fuzzy(fuzz, FuzzPriority::TypoCorrection));
    println!("{}: {:#?}", "woismi", rslt);
    assert!(rslt.len() > 0);
    assert!(rslt.iter().any(|v| v.as_str() == "World Is Mine"));
}

#[test]
fn single_term_strict_and_prefix() {
    let mut dict = WordDict::new();
    dict.learn(String::from("hello"));

    let rslt = dict.find_terms("hello", SearchKind::Strict);
    assert_eq!(rslt, vec![String::from("hello")]);

    assert_eq!(dict.find_terms("hell", SearchKind::Strict).len(), 0);

    let rslt = dict.find_terms("hell", SearchKind::Prefix(10));
    assert_eq!(rslt, vec![String::from("hello")]);
}

#[test]
fn prefix_depth_limits() {
    let mut dict = WordDict::new();
    dict.learn(String::from("hello"));
    dict.learn(String::from("hell"));

    let rslt = dict.find_terms("hell", SearchKind::Strict);
    assert_eq!(rslt, vec![String::from("hell")]);

    let mut rslt = dict.find_terms("he", SearchKind::Prefix(10));
    rslt.sort();
    assert_eq!(rslt, vec![String::from("hell"), String::from("hello")]);

    assert_eq!(dict.find_terms("he", SearchKind::Prefix(1)).len(), 0);
}

#[test]
fn word_search_matches_every_term_with_the_word() {
    let mut dict = WordDict::new();
    dict.learn(String::from("Hello World"));
    dict.learn(String::from("World Is Mine"));
    dict.learn(String::from("miku miku ni shite ageru"));

    let mut rslt = dict.find_terms("world", SearchKind::Strict);
    rslt.sort();
    assert_eq!(
        rslt,
        vec![String::from("Hello World"), String::from("World Is Mine")]
    );

    let rslt = dict.find_terms("helwor", SearchKind::Fuzzy(5, FuzzPriority::TypoCorrection));
    assert!(rslt.iter().any(|v| v.as_str() == "Hello World"));
}

#[test]
fn case_and_punctuation_are_ignored_for_matching() {
    let mut dict = WordDict::new();
    dict.learn(String::from("Hello"));

    assert_eq!(
        dict.find_terms("HELLO", SearchKind::Strict),
        vec![String::from("Hello")]
    );
    assert_eq!(
        dict.find_terms("hello", SearchKind::Strict),
        vec![String::from("Hello")]
    );
    // Punctuation in the query is stripped before matching; the returned
    // value keeps its original spelling.
    assert_eq!(
        dict.find_terms("h-e.l l,o!", SearchKind::Strict),
        vec![String::from("Hello")]
    );
}

#[test]
fn unknown_queries_find_nothing() {
    let mut dict = WordDict::new();
    dict.learn(String::from("Hello World"));
    dict.learn(String::from("World Is Mine"));

    assert_eq!(dict.find_terms("zzzqqq", SearchKind::Prefix(10)).len(), 0);
    assert_eq!(dict.find_terms("", SearchKind::Strict).len(), 0);
    assert_eq!(dict.find_terms("!!!", SearchKind::Prefix(3)).len(), 0);
    assert_eq!(
        dict.find_terms("", SearchKind::Fuzzy(5, FuzzPriority::TypoCorrection))
            .len(),
        0
    );
}

#[test]
fn learning_twice_changes_nothing() {
    let mut dict = WordDict::new();
    dict.learn(String::from("hello"));
    dict.learn(String::from("hello"));

    assert_eq!(
        dict.find_terms("hello", SearchKind::Strict),
        vec![String::from("hello")]
    );
    assert_eq!(
        dict.find_terms("hel", SearchKind::Prefix(5)),
        vec![String::from("hello")]
    );
}

#[test]
fn repeated_word_is_reported_once() {
    let mut dict = WordDict::new();
    dict.learn(String::from("ab ab"));

    // The term is reachable both through the word path and the compact path,
    // yet appears once.
    assert_eq!(
        dict.find_terms("ab", SearchKind::Prefix(10)),
        vec![String::from("ab ab")]
    );
}

#[test]
fn compact_form_spans_word_boundaries() {
    let mut dict = WordDict::new();
    dict.learn(String::from("Hello World"));

    assert_eq!(
        dict.find_terms("helloworld", SearchKind::Strict),
        vec![String::from("Hello World")]
    );
}

#[test]
fn prefix_zero_behaves_like_strict() {
    let mut dict = WordDict::new();
    dict.learn(String::from("hello"));
    dict.learn(String::from("hell"));

    for query in ["hello", "hell", "he", "x"] {
        let strict = dict.find_terms(query, SearchKind::Strict);
        let prefix0 = dict.find_terms(query, SearchKind::Prefix(0));
        assert_eq!(strict, prefix0);
    }
}

#[test]
fn deeper_prefix_searches_find_more() {
    let mut dict = WordDict::new();
    dict.learn(String::from("hello"));
    dict.learn(String::from("hell"));
    dict.learn(String::from("he"));

    for pair in [(0usize, 1usize), (1, 2), (2, 3), (3, 10)] {
        let shallow = dict.find_terms("he", SearchKind::Prefix(pair.0));
        let deep = dict.find_terms("he", SearchKind::Prefix(pair.1));
        for term in &shallow {
            assert!(deep.contains(term));
        }
    }
}

#[test]
fn abbreviations_resolve_to_full_terms() {
    let mut dict = WordDict::new();
    dict.learn(String::from("Photos"));
    dict.learn(String::from("Photo Booth"));
    dict.learn(String::from("Adobe Photoshop"));
    dict.learn(String::from("Photo Magic"));

    let rslt = dict.find_terms("phosh", SearchKind::Fuzzy(5, FuzzPriority::TypoCorrection));
    assert!(rslt.iter().any(|v| v.as_str() == "Adobe Photoshop"));

    let rslt = dict.find_terms("phobo", SearchKind::Fuzzy(5, FuzzPriority::TypoCorrection));
    assert!(rslt.iter().any(|v| v.as_str() == "Photo Booth"));
}

#[test]
fn fuzzy_absorbs_noise_characters() {
    let mut dict = WordDict::new();
    dict.learn(String::from("Hello World"));

    // The stray character finds no recovery and is treated as noise.
    let rslt = dict.find_terms("hexllo", SearchKind::Fuzzy(2, FuzzPriority::TypoCorrection));
    assert_eq!(rslt, vec![String::from("Hello World")]);
}

#[test]
fn last_character_mismatch_is_forgiven() {
    let mut dict = WordDict::new();
    dict.learn(String::from("hello"));
    dict.learn(String::from("hell"));

    // Only a mismatch before the last character fails the traversal; one at
    // the last character leaves the cursor in place.
    assert_eq!(
        dict.find_terms("hellx", SearchKind::Strict),
        vec![String::from("hell")]
    );
    assert_eq!(dict.find_terms("helxx", SearchKind::Strict).len(), 0);
}

#[test]
fn node_level_identifiers() {
    let mut node = WordListNode::new();
    node.learn_term("Hello World", 0);
    node.learn_term("World Is Mine", 1);

    let mut ids = node.find_terms("world", SearchKind::Strict);
    ids.sort();
    assert_eq!(ids, vec![0, 1]);
    assert_eq!(node.find_terms("hello", SearchKind::Strict), vec![0]);
    assert_eq!(node.find_terms("worldismine", SearchKind::Strict), vec![1]);
}

#[test]
fn fuzzy_word_boundary_priority_finds_cross_word_matches() {
    let mut dict = WordDict::new();
    dict.learn(String::from("Hello World"));
    dict.learn(String::from("World Is Mine"));

    let rslt = dict.find_terms("helwor", SearchKind::Fuzzy(5, FuzzPriority::WordBoundary));
    assert!(rslt.iter().any(|v| v.as_str() == "Hello World"));
}
