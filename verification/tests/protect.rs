use java_dataset_converter_llm::protect::protected_ranges;

fn ranges(src: &str) -> Vec<(usize, usize)> {
    protected_ranges(src.as_bytes()).iter().map(|r| (r.start, r.end)).collect()
}

#[test]
fn code_without_literals_has_no_protected_range() {
    assert_eq!(ranges("int x = a / b * c;"), vec![]);
    assert_eq!(ranges(""), vec![]);
}

#[test]
fn string_literal_is_protected_with_its_quotes() {
    assert_eq!(ranges("s = \"ab\";"), vec![(4, 8)]);
}

#[test]
fn escaped_quote_does_not_end_the_string() {
    let src = "s = \"a\\\"b\"; x";
    assert_eq!(ranges(src), vec![(4, 10)]);
    let src = "s = \"a\\\\\"; x";
    assert_eq!(ranges(src), vec![(4, 9)]);
}

#[test]
fn character_literal_is_protected() {
    assert_eq!(ranges("c = 'x';"), vec![(4, 7)]);
    assert_eq!(ranges("c = '\"'; d"), vec![(4, 7)]);
    assert_eq!(ranges("c = '\\''; d"), vec![(4, 8)]);
}

#[test]
fn line_comment_runs_to_the_end_of_the_line() {
    assert_eq!(ranges("a; // x \"y\nb;"), vec![(3, 10)]);
    assert_eq!(ranges("a; // x"), vec![(3, 7)]);
}

#[test]
fn block_comment_runs_to_its_end() {
    assert_eq!(ranges("a /* x\n // y */ b"), vec![(2, 15)]);
    assert_eq!(ranges("a /* x"), vec![(2, 6)]);
    assert_eq!(ranges("a /*/ b */ c"), vec![(2, 10)]);
}

#[test]
fn text_block_is_protected_as_a_whole() {
    let src = "s = \"\"\"\n a \"b\" c\n\"\"\"; x";
    assert_eq!(ranges(src), vec![(4, 20)]);
}

#[test]
fn comment_signs_inside_a_string_do_not_count() {
    assert_eq!(ranges("s = \"// no\"; /* yes */"), vec![(4, 11), (13, 22)]);
}

#[test]
fn open_string_is_protected_up_to_the_end() {
    assert_eq!(ranges("s = \"abc"), vec![(4, 8)]);
    assert_eq!(ranges("s = \"abc\\"), vec![(4, 9)]);
}
