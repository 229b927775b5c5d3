use swiftscan::scanner::{accept_token, extract_type_names, line_is_skipped, render_output, token_is_type_name};

fn lines(xs: &[&str]) -> Vec<String> {
    let mut v: Vec<String> = Vec::new();
    for x in xs {
        v.push(String::from(*x));
    }
    v
}

fn names(xs: &[&str]) -> Vec<String> {
    lines(xs)
}

#[test]
fn test_extract_types_returns_empty_for_file_with_no_capitalized_words() {
    let input = lines(&["import foundation", "let x = 5"]);
    let result = extract_type_names(&input);
    assert!(result.is_empty());
    assert_eq!(render_output(&result), "");
}

#[test]
fn test_extract_types_extracts_capitalized_words() {
    let input = lines(&[
        "import Foundation",
        "class MyClass {}",
        "struct MyStruct {}",
        "enum MyEnum {}",
    ]);
    let result = extract_type_names(&input);
    assert_eq!(result, names(&["MyClass", "MyEnum", "MyStruct"]));
    assert_eq!(render_output(&result), "MyClass\nMyEnum\nMyStruct\n");
}

#[test]
fn test_extract_types_extracts_type_names_from_bracket_notation() {
    let input = lines(&["import UIKit", "let array: [CustomType] = []"]);
    let result = extract_type_names(&input);
    assert_eq!(result, names(&["CustomType"]));
}

#[test]
fn scanner_output_is_empty_without_uppercase_tokens() {
    let input = lines(&["let a = b + c;", "(((:::)))", "", "   ", "x1 y2 z3"]);
    let result = extract_type_names(&input);
    assert!(result.is_empty());
}

#[test]
fn scanner_is_idempotent_and_deduplicates() {
    let input = lines(&["let a: Foo = Foo()", "let b: Foo = make(Foo)", "var c: Bar"]);
    let first = extract_type_names(&input);
    let second = extract_type_names(&input);
    assert_eq!(first, second);
    assert_eq!(render_output(&first), render_output(&second));
    assert_eq!(first, names(&["Bar", "Foo"]));
}

#[test]
fn scanner_sorts_names_ascending() {
    let input = lines(&["Zeta Alpha Mid9 Alpha"]);
    let result = extract_type_names(&input);
    assert_eq!(result, names(&["Alpha", "Mid9", "Zeta"]));
}

#[test]
fn import_lines_are_skipped_entirely() {
    assert!(line_is_skipped("import Foundation"));
    assert!(line_is_skipped("  import UIKit  "));
    // A bare `import` carries no prefix space, so the line survives (and
    // yields nothing, being lowercase).
    assert!(!line_is_skipped("import"));
    assert!(!line_is_skipped("let Importer = Importer()"));
    let input = lines(&["import Foundation", "import"]);
    assert!(extract_type_names(&input).is_empty());
}

#[test]
fn comment_lines_survive_normalization() {
    // Normalization turns the slashes into spaces before the prefix test,
    // so a commented-out type still reaches the output.
    assert!(!line_is_skipped("// MyType"));
    let input = lines(&["// MyType"]);
    assert_eq!(extract_type_names(&input), names(&["MyType"]));
}

#[test]
fn blank_lines_are_skipped() {
    assert!(line_is_skipped(""));
    assert!(line_is_skipped("   \t "));
    assert!(line_is_skipped("--- !!! ---"));
}

#[test]
fn type_name_pattern_needs_uppercase_head_and_length_two() {
    assert!(token_is_type_name("Ab"));
    assert!(token_is_type_name("X1"));
    assert!(token_is_type_name("MyClass"));
    assert!(!token_is_type_name("A"));
    assert!(!token_is_type_name(""));
    assert!(!token_is_type_name("abc"));
    assert!(!token_is_type_name("aBC"));
    assert!(!token_is_type_name("9Ab"));
    assert!(!token_is_type_name("My_Class"));
}

#[test]
fn bracket_tokens_yield_their_inner_name() {
    assert_eq!(accept_token("[CustomType]"), Some(String::from("CustomType")));
    assert_eq!(accept_token("MyClass"), Some(String::from("MyClass")));
    assert_eq!(accept_token("[x]"), None);
    assert_eq!(accept_token("[A]"), None);
    assert_eq!(accept_token("lower"), None);
    assert_eq!(accept_token("[Unclosed"), None);
}

#[test]
fn punctuation_becomes_token_boundaries() {
    let input = lines(&["func f(a:TypeA,b:TypeB)->TypeC{TypeA()}"]);
    let result = extract_type_names(&input);
    assert_eq!(result, names(&["TypeA", "TypeB", "TypeC"]));
}
