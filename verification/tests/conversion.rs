use spellings::convert::{apply_case_to_replacement, convert_text, substitute_word};
use spellings::dict::Dictionary;
use spellings::segment::{segment, Token};

fn dict(entries: &[(&str, &str)]) -> Dictionary {
    let mut d = Dictionary::new();
    for (k, v) in entries {
        d.insert((*k).to_string(), (*v).to_string());
    }
    d
}

#[test]
fn empty_dictionary_is_identity() {
    let d = Dictionary::new();
    assert_eq!(convert_text("The colour of money!", &d), "The colour of money!");
    assert_eq!(convert_text("a-b c;d 42", &d), "a-b c;d 42");
    assert_eq!(convert_text("", &d), "");
}

#[test]
fn lowercase_word_takes_replacement_as_stored() {
    let d = dict(&[("color", "colour")]);
    assert_eq!(convert_text("color", &d), "colour");
}

#[test]
fn capitalized_word_capitalizes_replacement() {
    let d = dict(&[("color", "colour")]);
    assert_eq!(convert_text("Color", &d), "Colour");
}

#[test]
fn all_caps_word_uppercases_replacement() {
    let d = dict(&[("color", "colour")]);
    assert_eq!(convert_text("COLOR", &d), "COLOUR");
}

#[test]
fn mixed_case_word_takes_replacement_as_stored() {
    let d = dict(&[("color", "colour")]);
    assert_eq!(convert_text("cOLOR", &d), "colour");
}

#[test]
fn separators_and_unmatched_words_survive() {
    let d = dict(&[("color", "colour")]);
    assert_eq!(convert_text("I love color!", &d), "I love colour!");
}

#[test]
fn single_uppercase_letter_counts_as_all_caps() {
    let d = dict(&[("a", "eh")]);
    assert_eq!(convert_text("A", &d), "EH");
}

#[test]
fn unmatched_word_is_unchanged() {
    let d = dict(&[("color", "colour")]);
    assert_eq!(convert_text("xylophone", &d), "xylophone");
}

#[test]
fn empty_input_gives_empty_output() {
    let d = dict(&[("color", "colour")]);
    assert_eq!(convert_text("", &d), "");
}

#[test]
fn words_split_at_apostrophes_are_looked_up_separately() {
    let d = dict(&[("don", "do"), ("t", "not")]);
    assert_eq!(convert_text("don't", &d), "do'not");
}

#[test]
fn every_occurrence_is_converted() {
    let d = dict(&[("color", "colour"), ("flavor", "flavour")]);
    assert_eq!(
        convert_text("color, Color, COLOR; flavor.", &d),
        "colour, Colour, COLOUR; flavour."
    );
}

#[test]
fn non_ascii_words_convert_with_case_preserved() {
    let d = dict(&[("élan", "zeal")]);
    assert_eq!(convert_text("élan Élan ÉLAN", &d), "zeal Zeal ZEAL");
}

#[test]
fn substitute_word_recases_a_hit() {
    let d = dict(&[("color", "colour")]);
    assert_eq!(substitute_word("Color", &d), "Colour");
    assert_eq!(substitute_word("corn", &d), "corn");
}

#[test]
fn tokenwise_substitution_matches_whole_text_conversion() {
    let d = dict(&[("color", "colour"), ("a", "eh")]);
    let text = "My COLOR, your Color, isn't a color!";
    let mut out = String::new();
    for t in segment(text) {
        match t {
            Token::Word(w) => out.push_str(&substitute_word(&w, &d)),
            Token::Separator(s) => out.push_str(&s),
        }
    }
    assert_eq!(out, convert_text(text, &d));
    assert_eq!(out, "My COLOUR, your Colour, isn't eh colour!");
}

#[test]
fn apply_case_keeps_stored_casing_after_the_first_letter() {
    assert_eq!(apply_case_to_replacement("Apple", "mcIntosh"), "McIntosh");
    assert_eq!(apply_case_to_replacement("apple", "mcIntosh"), "mcIntosh");
}

#[test]
fn apply_case_covers_each_pattern() {
    assert_eq!(apply_case_to_replacement("COLOR", "colour"), "COLOUR");
    assert_eq!(apply_case_to_replacement("Color", "colour"), "Colour");
    assert_eq!(apply_case_to_replacement("color", "colour"), "colour");
    assert_eq!(apply_case_to_replacement("cOLOR", "colour"), "colour");
    assert_eq!(apply_case_to_replacement("A", "eh"), "EH");
}

#[test]
fn apply_case_treats_the_empty_word_as_all_uppercase() {
    // Vacuously every character of "" is uppercase, so the whole replacement
    // is uppercased, and an empty replacement stays empty.
    assert_eq!(apply_case_to_replacement("", "eh"), "EH");
    assert_eq!(apply_case_to_replacement("Color", ""), "");
}
