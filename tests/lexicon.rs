use letter_boxed::lexicon::{Lexicon, LexiconError};

fn lexicon_of(words: &[&str]) -> Vec<Vec<String>> {
    let mut data: Vec<Vec<String>> = vec![Vec::new(); 26];
    for w in words {
        let b = (w.as_bytes()[0] - b'a') as usize;
        data[b].push(w.to_string());
    }
    data
}

#[test]
fn english_words() {
    let words = Lexicon::from_data(lexicon_of(&["apple", "ant", "bee", "zoo"])).unwrap();
    let words_starting_with_a = words.words_starting_with('a');
    assert!(!words_starting_with_a.is_empty());
}

#[test]
fn buckets_keep_their_order() {
    let lex = Lexicon::from_data(lexicon_of(&["apple", "ant", "bee", "zoo"])).unwrap();
    assert_eq!(*lex.words_starting_with('a'), vec!["apple".to_string(), "ant".to_string()]);
    assert_eq!(*lex.words_starting_with('z'), vec!["zoo".to_string()]);
    assert!(lex.words_starting_with('q').is_empty());
    assert_eq!(lex.all(), vec!["apple", "ant", "bee", "zoo"]);
}

#[test]
fn wrong_bucket_count_is_malformed() {
    let mut data = lexicon_of(&["apple"]);
    data.pop();
    assert_eq!(Lexicon::from_data(data).unwrap_err(), LexiconError::Malformed);
}

#[test]
fn misplaced_or_bad_words_are_malformed() {
    let mut data = lexicon_of(&["apple"]);
    data[1].push("apple".to_string());
    assert_eq!(Lexicon::from_data(data).unwrap_err(), LexiconError::Malformed);

    let mut data = lexicon_of(&["apple"]);
    data[2].push("cAt".to_string());
    assert_eq!(Lexicon::from_data(data).unwrap_err(), LexiconError::Malformed);

    let mut data = lexicon_of(&["apple"]);
    data[3].push(String::new());
    assert_eq!(Lexicon::from_data(data).unwrap_err(), LexiconError::Malformed);
}
