use java_dataset_converter_llm::batch::{error_log_line, is_processed, jsonl_file_name};
use java_dataset_converter_llm::cli::Args;
use java_dataset_converter_llm::helper::{eq_ignore_ascii_case, get_files, matches_extension};
use java_dataset_converter_llm::record::jsonl_record;

#[test]
fn a_file_without_its_copy_is_not_processed() {
    assert!(!is_processed(false, false, false));
    assert!(!is_processed(false, true, false));
    assert!(!is_processed(false, false, true));
    assert!(!is_processed(false, true, true));
}

#[test]
fn a_copy_is_enough_where_no_records_are_written() {
    assert!(is_processed(true, false, false));
    assert!(is_processed(true, true, false));
}

#[test]
fn a_record_is_asked_for_where_records_are_written() {
    assert!(!is_processed(true, false, true));
    assert!(is_processed(true, true, true));
}

#[test]
fn record_name_is_file_name_and_suffix() {
    assert_eq!(jsonl_file_name("Test.java"), "Test.java.jsonl");
    assert_eq!(jsonl_file_name(""), ".jsonl");
}

#[test]
fn error_line_names_stage_file_and_error() {
    assert_eq!(
        error_log_line("obfuscate", "in/Test.java", "No such file or directory"),
        "[stage=obfuscate] file=in/Test.java error=No such file or directory"
    );
    assert_eq!(error_log_line("", "", ""), "[stage=] file= error=");
}

#[test]
fn records_go_to_their_directory_or_to_the_output() {
    let with = Args {
        input: "in".to_string(),
        output: "out".to_string(),
        jsonl_output: Some("records".to_string()),
    };
    assert!(with.jsonl_enabled());
    assert_eq!(with.jsonl_dir(), "records");
    let without = Args {
        input: "in".to_string(),
        output: "out".to_string(),
        jsonl_output: None,
    };
    assert!(!without.jsonl_enabled());
    assert_eq!(without.jsonl_dir(), "out");
}

#[test]
fn extension_is_what_follows_the_last_dot() {
    assert!(matches_extension(b"Test.java", b"java"));
    assert!(matches_extension(b"a.b.java", b"java"));
    assert!(!matches_extension(b"Test.java.bak", b"java"));
    assert!(!matches_extension(b"Test.jav", b"java"));
    assert!(!matches_extension(b"Testjava", b"java"));
    assert!(!matches_extension(b"java", b"java"));
    assert!(matches_extension(b"a.", b""));
    assert!(!matches_extension(b"a", b""));
}

#[test]
fn a_leading_dot_starts_no_extension() {
    assert!(!matches_extension(b".java", b"java"));
    assert!(matches_extension(b".hidden.java", b"java"));
    assert!(!matches_extension(b"..", b""));
    assert!(matches_extension(b"..java", b"java"));
    assert!(!matches_extension(b"", b""));
}

#[test]
fn extension_is_matched_whatever_the_case() {
    assert!(matches_extension(b"Test.JAVA", b"java"));
    assert!(matches_extension(b"Test.Java", b"JAVA"));
    assert!(eq_ignore_ascii_case(b"aZ09_", b"Az09_"));
    assert!(!eq_ignore_ascii_case(b"a", b"b"));
    assert!(!eq_ignore_ascii_case(b"@", b"`"));
    assert!(!eq_ignore_ascii_case(b"[", b"{"));
    assert!(!eq_ignore_ascii_case(b"ab", b"a"));
}

#[test]
fn matching_files_are_given_by_their_place() {
    let names: Vec<Vec<u8>> = ["A.java", "notes.txt", "B.JAVA", ".java", "C.java.orig", "d.java"]
        .iter()
        .map(|n| n.as_bytes().to_vec())
        .collect();
    assert_eq!(get_files(&names, "java"), vec![0, 2, 5]);
    assert_eq!(get_files(&names, "txt"), vec![1]);
    assert_eq!(get_files(&names, "rs"), Vec::<usize>::new());
    assert_eq!(get_files(&Vec::new(), "java"), Vec::<usize>::new());
}

#[test]
fn record_holds_prompt_and_response() {
    assert_eq!(
        jsonl_record("class A {}", "class B {}"),
        "{\"prompt\":\"class A {}\",\"response\":\"class B {}\"}"
    );
    assert_eq!(jsonl_record("", ""), "{\"prompt\":\"\",\"response\":\"\"}");
}

#[test]
fn record_escapes_what_json_asks() {
    let record = jsonl_record("a \"b\" \\ c\n\td\r", "\u{8}\u{c}\u{1}\u{1f} é \u{7f}");
    assert_eq!(
        record,
        "{\"prompt\":\"a \\\"b\\\" \\\\ c\\n\\td\\r\",\"response\":\"\\b\\f\\u0001\\u001f é \u{7f}\"}"
    );
    assert!(!record.contains('\n'));
}

#[test]
fn record_is_read_back_by_a_json_parser() {
    let prompt = "class T {\n\tString s = \"a\\\"b\"; // ü\n}\u{0}";
    let response = "class T {\r\n  char c = '\\\\';\n}";
    let record = jsonl_record(prompt, response);
    let value: serde_json::Value = serde_json::from_str(&record).unwrap();
    let object = value.as_object().unwrap();
    assert_eq!(object.len(), 2);
    assert_eq!(object.get("prompt").and_then(|v| v.as_str()), Some(prompt));
    assert_eq!(object.get("response").and_then(|v| v.as_str()), Some(response));
}

#[test]
fn record_escapes_as_serde_json_does() {
    let prompt = "a\"b\\c\n\r\t\u{8}\u{c}\u{0}\u{1b}\u{1f} \u{7f} é 日本 /";
    let response = "class T { String s = \"\\u0041\"; }";
    let expected = format!(
        "{{\"prompt\":{},\"response\":{}}}",
        serde_json::to_string(prompt).unwrap(),
        serde_json::to_string(response).unwrap()
    );
    assert_eq!(jsonl_record(prompt, response), expected);
}
