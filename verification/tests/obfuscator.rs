use java_dataset_converter_llm::obfuscator::{
    local_renaming, method_renaming, obfuscate, obfuscate_code, obfuscate_function_names, Outcome,
};

#[test]
fn test_obfuscate_function_names() {
    let input = "public class Test { public void myFunction() {} }";
    let expected = "public class Test { public void func_1() {} }";
    let result = obfuscate_function_names(input);
    println!("Result: {}", result);
    assert_eq!(result, expected);
}

#[test]
fn test_obfuscate_code() {
    let input = "public class Test { public void myFunction(int param1) { int x = 0; x = x + param1; } }";
    let func_name_obfuscated = obfuscate_function_names(input);
    let expected = "public class Test { public void func_1(int var_1) { int var_2 = 0; var_2 = var_2 + var_1; } }";
    let result = obfuscate_code(&func_name_obfuscated);
    println!("Result: {}", result);
    assert_eq!(result, expected);
}

#[test]
fn methods_are_numbered_in_declaration_order() {
    let input = "public class T { void a(){} void b(){} }";
    let expected = "public class T { void func_1(){} void func_2(){} }";
    assert_eq!(obfuscate_function_names(input), expected);
}

#[test]
fn both_passes_in_one_call() {
    let input = "public class Test { public void myFunction(int param1) { int x = 0; x = x + param1; } }";
    let expected = "public class Test { public void func_1(int var_1) { int var_2 = 0; var_2 = var_2 + var_1; } }";
    assert_eq!(obfuscate(input), expected);
}

#[test]
fn numbering_of_locals_starts_again_with_each_method() {
    let input = "class T { void a(int p) { int x = p; } void b() { int x = 1; int y = x; } }";
    let expected = "class T { void a(int var_1) { int var_2 = var_1; } void b() { int var_1 = 1; int var_2 = var_1; } }";
    assert_eq!(obfuscate_code(input), expected);
}

#[test]
fn strings_and_comments_are_left_alone() {
    let input = "class T { void a() { int x = 0; String s = \"x = x\"; /* x */ x++; // x\n char c = 'x'; } }";
    let expected = "class T { void a() { int var_1 = 0; String var_2 = \"x = x\"; /* x */ var_1++; // x\n char var_3 = 'x'; } }";
    assert_eq!(obfuscate_code(input), expected);
}

#[test]
fn unbalanced_braces_do_not_stop_the_engine() {
    let input = "public class Test { public void myFunction( { int x = 0; ";
    let result = obfuscate(input);
    assert!(result.contains("public class Test"));
    assert!(std::str::from_utf8(result.as_bytes()).is_ok());
    let unparsable = "}}}} ((( \"";
    assert_eq!(obfuscate(unparsable), unparsable);
}

#[test]
fn constructors_keep_their_name() {
    let input = "class T { T() {} void m() {} }";
    let expected = "class T { T() {} void func_1() {} }";
    assert_eq!(obfuscate_function_names(input), expected);
}

#[test]
fn variadic_parameter_is_renamed() {
    let input = "class T { void m(String... args) { int n = args.length; } }";
    let expected = "class T { void m(String... var_1) { int var_2 = var_1.length; } }";
    assert_eq!(obfuscate_code(input), expected);
}

#[test]
fn first_declaration_wins_in_nested_blocks() {
    let input = "class T { void m() { int a = 1; { int b = a; } int c = a; } }";
    let expected = "class T { void m() { int var_1 = 1; { int var_2 = var_1; } int var_3 = var_1; } }";
    assert_eq!(obfuscate_code(input), expected);
}

#[test]
fn non_ascii_text_stays_valid() {
    let input = "class T { void m() { String grüße = \"héllo\"; int z = grüße.length(); } }";
    let expected = "class T { void m() { String var_1 = \"héllo\"; int var_2 = var_1.length(); } }";
    assert_eq!(obfuscate_code(input), expected);
}

#[test]
fn outcome_of_a_parsed_source_is_renamed() {
    let source = "class T { void a(int p) { int x = p; } }";
    let methods = method_renaming(source);
    assert!(methods.is_renamed());
    assert_eq!(methods.into_text(), "class T { void func_1(int p) { int x = p; } }");
    let locals = local_renaming(source);
    assert!(locals.is_renamed());
    assert_eq!(locals.into_text(), "class T { void a(int var_1) { int var_2 = var_1; } }");
}

#[test]
fn outcome_with_nothing_to_rename_holds_the_source() {
    let source = "class T { int f = 1; }";
    match method_renaming(source) {
        Outcome::Renamed(text) => assert_eq!(text, source),
        Outcome::Unchanged(text) => assert_eq!(text, source),
    }
    assert_eq!(local_renaming(source).into_text(), source);
    assert!(!Outcome::Unchanged(source.to_string()).is_renamed());
    assert_eq!(Outcome::Unchanged(source.to_string()).into_text(), source);
}

#[test]
fn nested_method_is_renamed_with_the_method_around_it() {
    let input = "class T { void m() { Runnable r = new Runnable() { public void run() { int y = 0; } }; int x = 1; for (int i = 0; i < x; i++) { foo(i); } this.x = x; } void foo(int a) {} }";
    let expected = "class T { void m() { Runnable var_1 = new Runnable() { public void run() { int var_2 = 0; } }; int var_3 = 1; for (int var_4 = 0; var_4 < var_3; var_4++) { foo(var_4); } this.var_3 = var_3; } void foo(int var_1) {} }";
    assert_eq!(obfuscate_code(input), expected);
}

#[test]
fn reserved_words_and_literals_stay_in_renamed_code() {
    let input = "class T { boolean m(int a) { final int b = a; if (b > 0) { return true; } return this == null; } }";
    let expected = "class T { boolean func_1(int var_1) { final int var_2 = var_1; if (var_2 > 0) { return true; } return this == null; } }";
    assert_eq!(obfuscate(input), expected);
}

#[test]
fn strings_and_comments_are_kept_through_both_passes() {
    let input = "class T { /* x y */ int run(int x) { String s = \"x + y // run\"; char c = 'x'; int y = x; // x, y\n return y; } }";
    let expected = "class T { /* x y */ int func_1(int var_1) { String var_2 = \"x + y // run\"; char var_3 = 'x'; int var_4 = var_1; // x, y\n return var_4; } }";
    assert_eq!(obfuscate(input), expected);
}
