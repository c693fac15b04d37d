use cdiff::chunk::DiffChunk;
use cdiff::diff::{contains, diff, diff_sequences};
use cdiff::notation::build_test_diff;
use cdiff::tokenizer::split_into_words;

fn sv(words: Vec<&str>) -> Vec<String> {
    words.iter().map(|w| w.to_string()).collect()
}

fn old_side_text(chunks: &Vec<DiffChunk>) -> String {
    let mut s = String::new();
    for c in chunks {
        for w in &c.old_words {
            s.push_str(w);
        }
    }
    s
}

fn new_side_text(chunks: &Vec<DiffChunk>) -> String {
    let mut s = String::new();
    for c in chunks {
        for w in &c.new_words {
            s.push_str(w);
        }
    }
    s
}

#[test]
fn test_contains() {
    assert_eq!(
        contains(&sv(vec!["2"]), &sv(vec!["1", "2", "3"])),
        Some((sv(vec!["1"]), sv(vec!["2"]), sv(vec!["3"])))
    );
    assert_eq!(
        contains(&sv(vec!["1"]), &sv(vec!["1", "2", "3"])),
        Some((sv(vec![]), sv(vec!["1"]), sv(vec!["2", "3"])))
    );
    assert_eq!(
        contains(&sv(vec!["3"]), &sv(vec!["1", "2", "3"])),
        Some((sv(vec!["1", "2"]), sv(vec!["3"]), sv(vec![])))
    );
    assert_eq!(contains(&sv(vec!["4"]), &sv(vec!["1", "2", "3"])), None);
}

#[test]
fn test_diff_chuncks() {
    assert!(DiffChunk { old_words: sv(vec!["Hello"]), new_words: sv(vec!["Hello"]) }.is_same());
    assert!(DiffChunk { old_words: sv(vec!["Hello"]), new_words: sv(vec!["World"]) }.is_diff());
    assert!(DiffChunk { old_words: sv(vec!["Hello"]), new_words: sv(vec![]) }.is_del());
    assert!(DiffChunk { old_words: sv(vec![]), new_words: sv(vec!["World"]) }.is_add());

    assert_eq!(
        build_test_diff("Hello"),
        vec![DiffChunk { old_words: sv(vec!["Hello"]), new_words: sv(vec!["Hello"]) }]
    );
    assert_eq!(
        build_test_diff("Hello>World"),
        vec![DiffChunk { old_words: sv(vec!["Hello"]), new_words: sv(vec!["World"]) }]
    );
    assert_eq!(
        build_test_diff("Hello>"),
        vec![DiffChunk { old_words: sv(vec!["Hello"]), new_words: sv(vec![]) }]
    );
    assert_eq!(
        build_test_diff(">Hello"),
        vec![DiffChunk { old_words: sv(vec![]), new_words: sv(vec!["Hello"]) }]
    );
    assert_eq!(
        build_test_diff("Hello>World|!"),
        vec![
            DiffChunk { old_words: sv(vec!["Hello"]), new_words: sv(vec!["World"]) },
            DiffChunk { old_words: sv(vec!["!"]), new_words: sv(vec!["!"]) },
        ]
    );
    assert_eq!(
        build_test_diff("Hello>World|!>"),
        vec![
            DiffChunk { old_words: sv(vec!["Hello"]), new_words: sv(vec!["World"]) },
            DiffChunk { old_words: sv(vec!["!"]), new_words: sv(vec![]) },
        ]
    );
}

#[test]
fn diff_same_then_insert() {
    let chunks = diff("Hello World", "Hello World!");
    assert_eq!(chunks.len(), 2);
    assert!(chunks[0].is_same());
    assert_eq!(chunks[0].old_words, vec!["Hello", " ", "World"]);
    assert!(chunks[1].is_add());
    assert_eq!(chunks[1].new_words, vec!["!"]);
}

#[test]
fn diff_word_replaced() {
    let chunks = diff("Hello Wind", "Hello World");
    assert_eq!(chunks.len(), 3);
    assert!(chunks[0].is_same());
    assert_eq!(chunks[0].old_words, vec!["Hello", " "]);
    assert!(chunks[1].is_del());
    assert_eq!(chunks[1].old_words, vec!["Wind"]);
    assert!(chunks[2].is_add());
    assert_eq!(chunks[2].new_words, vec!["World"]);
}

#[test]
fn diff_identity_is_one_same_chunk() {
    let words = split_into_words("Hello World");
    let chunks = diff_sequences(&words, &words);
    assert_eq!(chunks.len(), 1);
    assert!(chunks[0].is_same());
    assert_eq!(chunks[0].old_words, words);
    assert_eq!(chunks[0].new_words, words);
}

#[test]
fn diff_of_nothing_is_empty() {
    let chunks = diff("", "");
    assert_eq!(chunks.len(), 0);
}

#[test]
fn diff_against_empty() {
    let deleted = diff("Hello World", "");
    assert_eq!(deleted.len(), 1);
    assert!(deleted[0].is_del());
    assert_eq!(deleted[0].old_words, vec!["Hello", " ", "World"]);

    let inserted = diff("", "Hello World");
    assert_eq!(inserted.len(), 1);
    assert!(inserted[0].is_add());
    assert_eq!(inserted[0].new_words, vec!["Hello", " ", "World"]);
}

#[test]
fn diff_reconstructs_both_sides() {
    let pairs = [
        ("Hello World", "Hello World!"),
        ("Hello Wind", "Hello World"),
        ("if true {\n\treturn true;\n}", "if false {\n\treturn true;\n}"),
        ("", "brand new text"),
        ("all gone", ""),
        ("nothing shared", "!!!"),
        ("a b c d", "b c d a"),
    ];
    for (old_text, new_text) in pairs {
        let chunks = diff(old_text, new_text);
        assert_eq!(old_side_text(&chunks), old_text);
        assert_eq!(new_side_text(&chunks), new_text);
    }
}

#[test]
fn diff_without_common_words() {
    let chunks = diff("alpha", "beta");
    assert_eq!(chunks.len(), 2);
    assert!(chunks[0].is_del());
    assert_eq!(chunks[0].old_words, vec!["alpha"]);
    assert!(chunks[1].is_add());
    assert_eq!(chunks[1].new_words, vec!["beta"]);
}

#[test]
fn no_chunk_is_empty_on_both_sides() {
    let pairs = [
        ("Hello World", "Hello World!"),
        ("Hello Wind", "Hello World"),
        ("", ""),
        ("x", "y"),
        ("a b", "b a"),
    ];
    for (old_text, new_text) in pairs {
        for c in diff(old_text, new_text) {
            assert!(!c.old_words.is_empty() || !c.new_words.is_empty());
        }
    }
}
