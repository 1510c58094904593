use spellings::segment::{segment, Token};

fn joined(tokens: &[Token]) -> String {
    let mut out = String::new();
    for t in tokens {
        match t {
            Token::Word(s) => out.push_str(s),
            Token::Separator(s) => out.push_str(s),
        }
    }
    out
}

#[test]
fn segmentation_is_lossless() {
    for text in ["I love color!", "a1b2c3", "  spaced\tout\n", "Übergröße, c'est ça."] {
        assert_eq!(joined(&segment(text)), text);
    }
}

#[test]
fn empty_text_has_no_tokens() {
    assert!(segment("").is_empty());
}

#[test]
fn all_separator_text_is_one_token() {
    let toks = segment("12 3...");
    assert_eq!(toks, vec![Token::Separator("12 3...".to_string())]);
}

#[test]
fn all_alphabetic_text_is_one_token() {
    let toks = segment("Hello");
    assert_eq!(toks, vec![Token::Word("Hello".to_string())]);
}

#[test]
fn apostrophes_split_words() {
    let toks = segment("don't");
    assert_eq!(
        toks,
        vec![
            Token::Word("don".to_string()),
            Token::Separator("'".to_string()),
            Token::Word("t".to_string()),
        ]
    );
}

#[test]
fn digits_and_underscores_are_separators() {
    let toks = segment("ab_cd1ef");
    assert_eq!(
        toks,
        vec![
            Token::Word("ab".to_string()),
            Token::Separator("_".to_string()),
            Token::Word("cd".to_string()),
            Token::Separator("1".to_string()),
            Token::Word("ef".to_string()),
        ]
    );
}

#[test]
fn words_and_separators_alternate() {
    let toks = segment("one, two; three");
    for pair in toks.windows(2) {
        let word = |t: &Token| matches!(t, Token::Word(_));
        assert_ne!(word(&pair[0]), word(&pair[1]));
    }
    assert_eq!(toks.len(), 5);
}
