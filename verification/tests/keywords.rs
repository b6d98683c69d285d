use java_dataset_converter_llm::keywords::{bytes_equal, is_reserved_word};
use java_dataset_converter_llm::names::{decimal_string, make_local_name, make_method_name};

#[test]
fn every_reserved_word_is_reserved() {
    let words = [
        "abstract", "continue", "for", "new", "switch", "assert", "default", "if", "package",
        "synchronized", "boolean", "do", "goto", "private", "this", "break", "double",
        "implements", "protected", "throw", "byte", "else", "import", "public", "throws", "case",
        "enum", "instanceof", "return", "transient", "catch", "extends", "int", "short", "try",
        "char", "final", "interface", "static", "void", "class", "finally", "long", "strictfp",
        "volatile", "const", "float", "native", "super", "while", "_",
    ];
    assert_eq!(words.len(), 51);
    for w in words {
        assert!(is_reserved_word(w.as_bytes()), "{}", w);
    }
}

#[test]
fn the_three_literals_are_reserved() {
    assert!(is_reserved_word(b"true"));
    assert!(is_reserved_word(b"false"));
    assert!(is_reserved_word(b"null"));
}

#[test]
fn other_names_are_not_reserved() {
    for w in ["x", "param1", "myFunction", "Int", "INT", "int_", "in", "integer", "", "var", "record", "yield", "__", "True"] {
        assert!(!is_reserved_word(w.as_bytes()), "{}", w);
    }
}

#[test]
fn synthetic_names_are_not_reserved() {
    for n in [1usize, 2, 9, 10, 99, 100, 12345] {
        assert!(!is_reserved_word(make_method_name(n).as_bytes()));
        assert!(!is_reserved_word(make_local_name(n).as_bytes()));
    }
}

#[test]
fn byte_strings_are_compared_byte_by_byte() {
    assert!(bytes_equal(b"", b""));
    assert!(bytes_equal(b"abc", b"abc"));
    assert!(!bytes_equal(b"abc", b"abd"));
    assert!(!bytes_equal(b"abc", b"ab"));
    assert!(!bytes_equal(b"ab", b"abc"));
}

#[test]
fn numbers_are_written_in_decimal() {
    assert_eq!(decimal_string(0), "0");
    assert_eq!(decimal_string(7), "7");
    assert_eq!(decimal_string(10), "10");
    assert_eq!(decimal_string(109), "109");
    assert_eq!(decimal_string(12345), "12345");
    assert_eq!(decimal_string(usize::MAX), usize::MAX.to_string());
}

#[test]
fn synthetic_names_are_prefix_and_number() {
    assert_eq!(make_method_name(1), "func_1");
    assert_eq!(make_method_name(42), "func_42");
    assert_eq!(make_local_name(1), "var_1");
    assert_eq!(make_local_name(120), "var_120");
}
