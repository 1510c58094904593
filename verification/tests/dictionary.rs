use spellings::convert::convert_text;
use spellings::dict::{parse_dictionary, Dictionary};

#[test]
fn get_finds_an_inserted_entry() {
    let mut d = Dictionary::new();
    d.insert("color".to_string(), "colour".to_string());
    assert_eq!(d.get(&"color".to_string()), Some(&"colour".to_string()));
}

#[test]
fn get_misses_an_absent_key() {
    let mut d = Dictionary::new();
    d.insert("color".to_string(), "colour".to_string());
    assert_eq!(d.get(&"flavor".to_string()), None);
    // The lookup key is exact: the dictionary itself does no case folding.
    assert_eq!(d.get(&"Color".to_string()), None);
}

#[test]
fn a_later_insert_supersedes_an_earlier_one() {
    let mut d = Dictionary::new();
    d.insert("color".to_string(), "colour".to_string());
    d.insert("color".to_string(), "couleur".to_string());
    assert_eq!(d.get(&"color".to_string()), Some(&"couleur".to_string()));
}

#[test]
fn parse_dictionary_reads_a_json_object() {
    let d = parse_dictionary("{\"color\": \"colour\", \"flavor\": \"flavour\"}").unwrap();
    assert_eq!(d.get(&"color".to_string()), Some(&"colour".to_string()));
    assert_eq!(d.get(&"flavor".to_string()), Some(&"flavour".to_string()));
    assert_eq!(convert_text("Color and FLAVOR", &d), "Colour and FLAVOUR");
}

#[test]
fn parse_dictionary_reads_the_empty_object() {
    let d = parse_dictionary("{}").unwrap();
    assert_eq!(d.get(&"color".to_string()), None);
    assert_eq!(convert_text("color", &d), "color");
}

#[test]
fn parse_dictionary_rejects_malformed_text() {
    for text in ["", "{", "[1, 2]", "{\"color\": 3}", "not json at all"] {
        let e = parse_dictionary(text).unwrap_err();
        assert!(!e.message.is_empty());
    }
}
