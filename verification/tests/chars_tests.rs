use cdiff::chars::{get_char_type, is_id, is_sep, CharType};
use cdiff::hello;

#[test]
fn test_is_id() {
    for c in "aA0-_".to_string().chars() {
        assert!(is_id(c));
    }
    for c in " \t!()&".to_string().chars() {
        assert!(!is_id(c));
    }
}

#[test]
fn test_get_char_type() {
    for c in "aA0-_".to_string().chars() {
        assert_eq!(get_char_type(c), CharType::Id);
    }
    for c in " \t".to_string().chars() {
        assert_eq!(get_char_type(c), CharType::Space);
    }
    for c in "!()&".to_string().chars() {
        assert_eq!(get_char_type(c), CharType::Other);
    }
}

#[test]
fn separator_is_whitespace() {
    assert!(is_sep(' '));
    assert!(is_sep('\t'));
    assert!(is_sep('\n'));
    assert!(!is_sep('a'));
    assert!(!is_sep('!'));
    assert!(!is_sep('-'));
}

#[test]
fn greeting() {
    assert_eq!(hello(), "Hello World!");
}
