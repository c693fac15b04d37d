use cdiff::tokenizer::{is_same_word, split_into_words, Words};
use cdiff::wordseq::words_eq;

fn collect_words(input: &str) -> Vec<String> {
    let mut words = Words::new(input);
    let mut out = Vec::new();
    while let Some(w) = words.next() {
        out.push(w);
    }
    out
}

#[test]
fn test_split_words() {
    assert_eq!(split_into_words("Hello World"), vec!["Hello", " ", "World"]);
    assert_eq!(
        split_into_words("Hello   World!!!"),
        vec!["Hello", "   ", "World", "!", "!", "!"]
    );
    assert_eq!(
        split_into_words("assert!(is_id(c))"),
        vec!["assert", "!", "(", "is_id", "(", "c", ")", ")"]
    );
    assert_eq!(
        split_into_words("if true {\n\treturn true;\n}"),
        vec!["if", " ", "true", " ", "{", "\n\t", "return", " ", "true", ";", "\n", "}"]
    );
}

#[test]
fn test_words() {
    let empty: Vec<&str> = vec![];
    assert_eq!(collect_words(""), empty);
    assert_eq!(collect_words("Hello"), vec!["Hello"]);
    assert_eq!(collect_words("Hello World"), vec!["Hello", " ", "World"]);
    assert_eq!(collect_words("Hello   World"), vec!["Hello", "   ", "World"]);
    assert_eq!(collect_words("Hello&World"), vec!["Hello", "&", "World"]);
    assert_eq!(collect_words("Hello&!World"), vec!["Hello", "&", "!", "World"]);
}

#[test]
fn test_diff_words() {
    assert!(words_eq(
        &split_into_words("Hello World"),
        &split_into_words("Hello World")
    ));
    assert!(words_eq(&split_into_words(""), &split_into_words("")));
    assert!(!words_eq(
        &split_into_words("Hello World"),
        &split_into_words("Hello World!")
    ));
    assert!(!words_eq(
        &split_into_words("Hello Wind"),
        &split_into_words("Hello World")
    ));
}

#[test]
fn tokenizer_boundaries() {
    let empty: Vec<&str> = vec![];
    assert_eq!(split_into_words(""), empty);
    assert_eq!(split_into_words("a-b_c"), vec!["a-b_c"]);
    assert_eq!(split_into_words("x"), vec!["x"]);
    assert_eq!(split_into_words("!()"), vec!["!", "(", ")"]);
}

#[test]
fn same_word_rule() {
    assert!(is_same_word("", 'x'));
    assert!(is_same_word("Hel", 'l'));
    assert!(is_same_word("  ", '\t'));
    assert!(!is_same_word("Hel", ' '));
    assert!(!is_same_word("!", '!'));
    assert!(!is_same_word("!", 'a'));
}

#[test]
fn tokenization_is_lossless() {
    let samples = [
        "Hello World",
        "Hello   World!!!",
        "if true {\n\treturn true;\n}",
        "a-b_c",
        "",
        "!()&",
    ];
    for text in samples {
        let mut rebuilt = String::new();
        for w in split_into_words(text) {
            rebuilt.push_str(&w);
        }
        assert_eq!(rebuilt, text);
    }
}
