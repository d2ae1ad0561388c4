use line_relay::wordutils::{initials, words};

#[test]
fn test_words() {
    let input = "this is the way\n the world ends";
    let expect = vec!["this", "is", "the", "way", "the", "world", "ends"];
    let out = words(input);
    let refs: Vec<&str> = out.iter().map(|w| w.as_str()).collect();
    assert_eq!(refs, expect)
}

#[test]
fn test_initials() {
    let input = "not with a bang   but a whimper";
    assert_eq!(initials(input), "NWABBAW");
}

#[test]
fn empty_words() {
    let input = "";
    let expect: Vec<&str> = Vec::new();
    let out = words(input);
    let refs: Vec<&str> = out.iter().map(|w| w.as_str()).collect();
    assert_eq!(refs, expect);
}

#[test]
fn empty_initials() {
    let input = "";
    assert_eq!(initials(input), "");
}

#[test]
fn doc_example_initials() {
    let out = initials("hello beautiful world");
    assert_eq!(out, "HBW");
}

#[test]
fn whitespace_only_phrase() {
    assert_eq!(words(" \t\r\n "), Vec::<String>::new());
    assert_eq!(initials("  \n  "), "");
}

#[test]
fn mixed_case_and_digits() {
    assert_eq!(initials("alpha Bravo 9lives"), "AB9");
}
