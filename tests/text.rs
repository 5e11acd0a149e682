use immutable_tree::{capitalise, replace_first};

#[test]
fn capitalise_first_letter() {
    assert_eq!(capitalise("hello"), "Hello");
    assert_eq!(capitalise("sites"), "Sites");
    assert_eq!(capitalise("x"), "X");
}

#[test]
fn capitalise_keeps_the_rest() {
    assert_eq!(capitalise("hELLO world"), "HELLO world");
    assert_eq!(capitalise("Already"), "Already");
    assert_eq!(capitalise("1abc"), "1abc");
}

#[test]
fn capitalise_empty() {
    assert_eq!(capitalise(""), "");
}

#[test]
fn capitalise_multi_char_mapping() {
    assert_eq!(capitalise("ßa"), "SSa");
    assert_eq!(capitalise("élan"), "Élan");
}

#[test]
fn replace_first_character() {
    assert_eq!(replace_first("SS", "ßa"), "SSa");
    assert_eq!(replace_first("", "abc"), "bc");
    assert_eq!(replace_first("Q", ""), "");
    assert_eq!(replace_first("É", "élan"), "Élan");
}
