use java_dataset_converter_llm::patch::{apply_replacements, patch_bytes, Replacement};

fn edit(start: usize, end: usize, text: &str) -> Replacement {
    Replacement::new(start, end, text.to_string())
}

#[test]
fn one_replacement_is_applied() {
    let out = apply_replacements("hello world", &[edit(6, 11, "there")]);
    assert_eq!(out, "hello there");
}

#[test]
fn no_replacement_gives_the_source() {
    assert_eq!(apply_replacements("abc", &[]), "abc");
    assert_eq!(apply_replacements("", &[]), "");
}

#[test]
fn replacements_are_applied_whatever_their_order() {
    let ascending = [edit(0, 1, "xx"), edit(2, 3, "yyy"), edit(4, 5, "")];
    let descending = [edit(4, 5, ""), edit(2, 3, "yyy"), edit(0, 1, "xx")];
    let mixed = [edit(2, 3, "yyy"), edit(4, 5, ""), edit(0, 1, "xx")];
    assert_eq!(apply_replacements("a-b-c", &ascending), "xx-yyy-");
    assert_eq!(apply_replacements("a-b-c", &descending), "xx-yyy-");
    assert_eq!(apply_replacements("a-b-c", &mixed), "xx-yyy-");
}

#[test]
fn reversed_span_is_skipped() {
    let out = apply_replacements("abcdef", &[edit(4, 2, "X"), edit(0, 1, "Z")]);
    assert_eq!(out, "Zbcdef");
}

#[test]
fn span_past_the_end_is_skipped() {
    let out = apply_replacements("abcdef", &[edit(3, 7, "X"), edit(9, 12, "Y"), edit(5, 6, "!")]);
    assert_eq!(out, "abcde!");
}

#[test]
fn span_up_to_the_end_is_applied() {
    assert_eq!(apply_replacements("abcdef", &[edit(3, 6, "X")]), "abcX");
    assert_eq!(apply_replacements("abcdef", &[edit(6, 6, "X")]), "abcdefX");
    assert_eq!(apply_replacements("abcdef", &[edit(0, 0, "X")]), "Xabcdef");
}

#[test]
fn overlapping_replacements_are_applied_one_after_the_other() {
    let out = apply_replacements("abcdef", &[edit(2, 4, "X"), edit(3, 5, "YY")]);
    assert_eq!(out, "abXYf");
}

#[test]
fn equal_starts_keep_their_order() {
    let out = apply_replacements("xyz", &[edit(1, 2, "A"), edit(1, 2, "B")]);
    assert_eq!(out, "xBz");
    let out = apply_replacements("xyz", &[edit(1, 2, "B"), edit(1, 2, "A")]);
    assert_eq!(out, "xAz");
}

#[test]
fn a_span_that_fits_only_before_the_others_is_skipped() {
    // the later edit shortens the buffer, so the earlier one no longer fits
    let out = apply_replacements("abcdef", &[edit(1, 6, "Q"), edit(2, 6, "")]);
    assert_eq!(out, "ab");
}

#[test]
fn output_length_is_input_length_plus_growth() {
    let source = "int alpha = beta + gamma;";
    let edits = [edit(4, 9, "var_1"), edit(12, 16, "var_22"), edit(19, 24, "v")];
    let out = apply_replacements(source, &edits);
    assert_eq!(out, "int var_1 = var_22 + v;");
    let growth: isize = (5 - 5) + (6 - 4) + (1 - 5);
    assert_eq!(out.len() as isize, source.len() as isize + growth);
}

#[test]
fn a_split_character_is_reconstructed_lossily() {
    let out = apply_replacements("é", &[edit(0, 1, "a")]);
    assert_eq!(out, "a\u{FFFD}");
    let out = apply_replacements("xéy", &[edit(2, 3, "")]);
    assert_eq!(out, "x\u{FFFD}y");
}

#[test]
fn characters_of_several_bytes_are_kept() {
    let out = apply_replacements("größe = 1", &[edit(0, 7, "var_1")]);
    assert_eq!(out, "var_1 = 1");
    let out = apply_replacements("a = \"日本語\"", &[edit(0, 1, "var_1")]);
    assert_eq!(out, "var_1 = \"日本語\"");
}

#[test]
fn bytes_are_patched_as_the_text_is() {
    let out = patch_bytes(b"abcdef", &[edit(1, 2, "XY"), edit(4, 6, "")]);
    assert_eq!(out, b"aXYcd".to_vec());
    let out = patch_bytes(&[0xff, 0x00, 0xfe], &[edit(1, 2, "-")]);
    assert_eq!(out, vec![0xff, b'-', 0xfe]);
}

#[test]
fn replacement_holds_what_it_was_made_of() {
    let r = Replacement::new(3, 8, "func_1".to_string());
    assert_eq!(r.start, 3);
    assert_eq!(r.end, 8);
    assert_eq!(r.text, "func_1");
}

#[test]
fn span_past_the_end_of_the_source_is_dropped_whatever_the_others_do() {
    // the first edit makes the buffer long enough for the second, which
    // still reaches past the end of the source
    let out = apply_replacements("abc", &[edit(2, 3, "xyz"), edit(0, 5, "Q")]);
    assert_eq!(out, "abxyz");
    let out = apply_replacements("abc", &[edit(0, 5, "Q"), edit(2, 3, "xyz")]);
    assert_eq!(out, "abxyz");
    let out = apply_replacements("ab", &[edit(0, 1, "xxxx"), edit(3, 4, "Q")]);
    assert_eq!(out, "xxxxb");
    let out = patch_bytes(b"abc", &[edit(2, 3, "xyz"), edit(0, 5, "Q")]);
    assert_eq!(out, b"abxyz".to_vec());
}

#[test]
fn dropped_replacements_have_no_effect() {
    let source = "int alpha = beta;";
    let valid = [edit(4, 9, "var_1"), edit(12, 16, "var_2")];
    let mixed = [
        edit(20, 22, "A"),
        edit(4, 9, "var_1"),
        edit(9, 4, "B"),
        edit(12, 16, "var_2"),
        edit(0, 18, "C"),
        edit(17, 18, "D"),
    ];
    assert_eq!(apply_replacements(source, &mixed), apply_replacements(source, &valid));
    assert_eq!(apply_replacements(source, &mixed), "int var_1 = var_2;");
}

#[test]
fn insertions_between_replacements_are_applied() {
    let source = "ab cd ef";
    let edits = [edit(3, 3, "<"), edit(0, 2, "xyz"), edit(5, 5, ">"), edit(8, 8, "!"), edit(6, 8, "")];
    let out = apply_replacements(source, &edits);
    assert_eq!(out, "xyz <cd> !");
    let growth: isize = 1 + (3 - 2) + 1 + 1 + (0 - 2);
    assert_eq!(out.len() as isize, source.len() as isize + growth);
}
