use clipedia::content_analyzer::{ContentAnalyzer, Language, Signals};

fn has(tags: &[String], tag: &str) -> bool {
    tags.contains(&tag.to_string())
}

fn texts(tags: &[&str]) -> Vec<String> {
    tags.iter().map(|t| t.to_string()).collect()
}

#[test]
fn test_url_detection() {
    assert!(ContentAnalyzer::analyze("https://github.com").contains(&"url".to_string()));
    assert!(ContentAnalyzer::analyze("http://example.com/path").contains(&"url".to_string()));
    assert!(!ContentAnalyzer::analyze("not a url").contains(&"url".to_string()));
}

#[test]
fn test_email_detection() {
    assert!(ContentAnalyzer::analyze("test@example.com").contains(&"email".to_string()));
    assert!(!ContentAnalyzer::analyze("not an email").contains(&"email".to_string()));
}

// Of the four classes of code patterns this text shows one, structural
// punctuation: it holds no declaration keyword, no control-flow keyword and
// no access modifier. One class is below the threshold of two.
#[test]
fn test_code_detection() {
    let rust_code = "fn main() {\n    println!(\"Hello\");\n}";
    let tags = ContentAnalyzer::analyze(rust_code);
    assert!(!tags.contains(&"code".to_string()));
    assert!(!tags.contains(&"code:rust".to_string()));
}

#[test]
fn rust_snippet_is_code_in_rust() {
    let tags = ContentAnalyzer::analyze("fn main() { let mut x = 1; }");
    assert!(has(&tags, "code"));
    assert!(has(&tags, "code:rust"));
    assert_eq!(tags, texts(&["code", "code:rust"]));
}

#[test]
fn url_is_judged_on_trimmed_text() {
    assert_eq!(ContentAnalyzer::analyze("  https://example.com/a?b=c \n"), texts(&["url"]));
    assert!(ContentAnalyzer::is_url("\thttp://localhost:8080\t"));
}

#[test]
fn url_needs_text_after_the_scheme_and_no_inner_whitespace() {
    assert!(!ContentAnalyzer::is_url("http://"));
    assert!(!ContentAnalyzer::is_url("https://"));
    assert!(!ContentAnalyzer::is_url("https://example.com/a b"));
    assert!(!ContentAnalyzer::is_url("ftp://example.com"));
    assert!(!ContentAnalyzer::is_url("see https://example.com"));
}

#[test]
fn email_shapes() {
    assert!(ContentAnalyzer::is_email(" first.last+tag@mail.example.org "));
    assert!(!ContentAnalyzer::is_email("user@host"));
    assert!(!ContentAnalyzer::is_email("user@host.c"));
    assert!(!ContentAnalyzer::is_email("a b@example.com"));
}

#[test]
fn phone_needs_seven_digits() {
    assert_eq!(ContentAnalyzer::analyze("555-1234"), texts(&["phone"]));
    assert!(ContentAnalyzer::is_phone("+1 (555) 123-4567"));
    assert!(ContentAnalyzer::is_phone("  0123456  "));
    assert!(!ContentAnalyzer::is_phone("555-123"));
    assert!(!ContentAnalyzer::is_phone("(12) 34-56"));
    assert!(!ContentAnalyzer::is_phone("123456"));
    assert!(!ContentAnalyzer::is_phone("call 5551234"));
    assert!(!ContentAnalyzer::is_phone("555 1234 ext"));
}

#[test]
fn phone_counts_digits_of_any_script() {
    assert!(ContentAnalyzer::is_phone("\u{661}\u{662}\u{663}\u{664}\u{665}\u{666}\u{667}"));
    assert!(!ContentAnalyzer::is_phone("\u{661}\u{662}\u{663}\u{664}\u{665}\u{666}"));
}

#[test]
fn path_starts() {
    assert!(has(&ContentAnalyzer::analyze("/usr/local/bin"), "path"));
    assert!(ContentAnalyzer::is_file_path("C:\\Users\\me\\notes.txt"));
    assert!(ContentAnalyzer::is_file_path("d:/data"));
    assert!(ContentAnalyzer::is_file_path("  ~/notes.txt"));
    assert!(!ContentAnalyzer::is_file_path("relative/path"));
    assert!(!ContentAnalyzer::is_file_path("C:notes"));
    assert!(!ContentAnalyzer::is_file_path("1:/x"));
}

#[test]
fn json_is_judged_by_first_and_last_character() {
    assert!(ContentAnalyzer::is_json("{\"a\": 1}"));
    assert!(ContentAnalyzer::is_json(" [1, 2, 3]\n"));
    assert!(ContentAnalyzer::is_json("{}"));
    assert!(ContentAnalyzer::is_json("{ not json at all }"));
    assert!(!ContentAnalyzer::is_json("{\"a\": 1]"));
    assert!(!ContentAnalyzer::is_json("[1, 2}"));
    assert!(!ContentAnalyzer::is_json("{"));
    assert!(!ContentAnalyzer::is_json("]"));
    assert!(!ContentAnalyzer::is_json(""));
    assert!(!ContentAnalyzer::is_json("   "));
    assert!(has(&ContentAnalyzer::analyze("{\"a\": 1}"), "json"));
}

#[test]
fn markdown_markup() {
    assert!(ContentAnalyzer::is_markdown("# Title"));
    assert!(ContentAnalyzer::is_markdown("###### Deep"));
    assert!(ContentAnalyzer::is_markdown("some **bold** words"));
    assert!(ContentAnalyzer::is_markdown("some *slanted* words"));
    assert!(ContentAnalyzer::is_markdown("a [link](https://example.com) here"));
    assert!(ContentAnalyzer::is_markdown("- item"));
    assert!(ContentAnalyzer::is_markdown("* item"));
    assert!(ContentAnalyzer::is_markdown("```\ntext\n```"));
    assert!(!ContentAnalyzer::is_markdown("#Title"));
    assert!(!ContentAnalyzer::is_markdown("####### seven"));
    assert!(!ContentAnalyzer::is_markdown("plain text"));
    assert!(!ContentAnalyzer::is_markdown("-item"));
    assert_eq!(ContentAnalyzer::analyze("# Title"), texts(&["markdown"]));
}

#[test]
fn headings_and_list_items_start_a_line() {
    assert!(ContentAnalyzer::is_markdown("text\n# Title"));
    assert!(ContentAnalyzer::is_markdown("text\n### Title\nmore"));
    assert!(ContentAnalyzer::is_markdown("text\n- item"));
    assert!(ContentAnalyzer::is_markdown("text\n* item\n* other"));
    assert!(ContentAnalyzer::is_markdown("text\r\n- item"));
    assert!(ContentAnalyzer::is_markdown("\n# Title"));
    assert!(!ContentAnalyzer::is_markdown("text # Title"));
    assert!(!ContentAnalyzer::is_markdown("text - item"));
    assert!(!ContentAnalyzer::is_markdown("text\n#Title"));
    assert!(!ContentAnalyzer::is_markdown("text\n-item"));
    assert!(!ContentAnalyzer::is_markdown("text\n ####### seven"));
    assert_eq!(ContentAnalyzer::analyze("text\n# Title"), texts(&["markdown"]));
    assert_eq!(ContentAnalyzer::analyze("notes\n- item"), texts(&["markdown"]));
}

#[test]
fn code_needs_two_classes_of_patterns() {
    assert!(!ContentAnalyzer::is_code("let it be"));
    assert!(!ContentAnalyzer::is_code("(a, b)"));
    assert!(!ContentAnalyzer::is_code("hello world"));
    assert!(ContentAnalyzer::is_code("let x = (1);"));
    assert!(!ContentAnalyzer::is_code("public static"));
    assert!(ContentAnalyzer::is_code("public class"));
    assert_eq!(ContentAnalyzer::analyze("if (x) { return; }"), texts(&["code"]));
}

#[test]
fn language_needs_code_and_two_idioms() {
    assert_eq!(ContentAnalyzer::detect_language("fn main"), None);
    assert_eq!(ContentAnalyzer::detect_language("fn main() { let mut x = 1; }"), Some(Language::Rust));
    // Two idioms of Rust, and no second class of code patterns.
    let tags = ContentAnalyzer::analyze("fn a impl b");
    assert!(!has(&tags, "code"));
    assert!(!has(&tags, "code:rust"));
}

#[test]
fn first_language_in_priority_order_wins() {
    let both = "fn main() { let mut x = 1; const y = 2; function f() {} }";
    assert_eq!(ContentAnalyzer::detect_language(both), Some(Language::Rust));
    let tags = ContentAnalyzer::analyze(both);
    assert!(has(&tags, "code:rust"));
    assert!(!has(&tags, "code:javascript"));
    assert_eq!(tags.iter().filter(|t| t.starts_with("code:")).count(), 1);
}

#[test]
fn other_languages() {
    assert_eq!(
        ContentAnalyzer::detect_language("const a = 1; promise.then(() => {})"),
        Some(Language::JavaScript)
    );
    assert_eq!(
        ContentAnalyzer::detect_language("interface Point { x: number }"),
        Some(Language::TypeScript)
    );
    assert_eq!(
        ContentAnalyzer::detect_language("import os\ndef run(x):"),
        Some(Language::Python)
    );
    assert_eq!(
        ContentAnalyzer::detect_language("public class A { private int x; }"),
        Some(Language::Java)
    );
    assert_eq!(
        ContentAnalyzer::detect_language("package main\nfunc run() { x := 1 }"),
        Some(Language::Go)
    );
    assert_eq!(
        ContentAnalyzer::detect_language("#include <vector>\nstd::vector<int> v;"),
        Some(Language::Cpp)
    );
    assert_eq!(
        ContentAnalyzer::detect_language("using System;\nnamespace App { }"),
        Some(Language::CSharp)
    );
    assert_eq!(
        ContentAnalyzer::analyze("import os\ndef run(x):"),
        texts(&["code", "code:python"])
    );
}

#[test]
fn language_from_hits_takes_the_first_that_reaches_two() {
    assert_eq!(
        ContentAnalyzer::language_from_hits(&vec![0, 2, 3, 0, 0, 0, 0, 0]),
        Some(Language::JavaScript)
    );
    assert_eq!(
        ContentAnalyzer::language_from_hits(&vec![4, 4, 3, 4, 4, 4, 4, 3]),
        Some(Language::Rust)
    );
    assert_eq!(
        ContentAnalyzer::language_from_hits(&vec![0, 0, 0, 0, 0, 0, 0, 2]),
        Some(Language::CSharp)
    );
    assert_eq!(ContentAnalyzer::language_from_hits(&vec![1, 1, 1, 1, 1, 1, 1, 1]), None);
    assert_eq!(ContentAnalyzer::language_from_hits(&vec![]), None);
    assert_eq!(ContentAnalyzer::language_from_hits(&vec![1, 0, 2]), Some(Language::TypeScript));
    assert_eq!(
        ContentAnalyzer::language_from_hits(&vec![0, 0, 0, 0, 0, 0, 0, 0, 9]),
        None
    );
}

#[test]
fn tags_come_in_the_order_of_the_rules() {
    let all = Signals {
        url: true,
        email: true,
        phone: true,
        path: true,
        json: true,
        markdown: true,
        code: true,
        language: Some(Language::Go),
    };
    assert_eq!(
        ContentAnalyzer::tags_from(&all),
        texts(&["url", "email", "phone", "path", "json", "markdown", "code", "code:go"])
    );
    let none = Signals {
        url: false,
        email: false,
        phone: false,
        path: false,
        json: false,
        markdown: false,
        code: false,
        language: Some(Language::Go),
    };
    assert_eq!(ContentAnalyzer::tags_from(&none), Vec::<String>::new());
    let some = Signals { path: true, json: true, code: true, language: None, ..none };
    assert_eq!(ContentAnalyzer::tags_from(&some), texts(&["path", "json", "code"]));
}

#[test]
fn several_rules_can_fire() {
    let tags = ContentAnalyzer::analyze("/* let x = 1; */");
    assert_eq!(tags, texts(&["path", "markdown", "code"]));
}

#[test]
fn nothing_fires_on_plain_or_empty_text() {
    assert_eq!(ContentAnalyzer::analyze("hello world"), Vec::<String>::new());
    assert_eq!(ContentAnalyzer::analyze(""), Vec::<String>::new());
    assert_eq!(ContentAnalyzer::analyze(" \n\t"), Vec::<String>::new());
}

#[test]
fn classification_is_repeatable() {
    let text = "fn main() { let mut x = 1; } // see https://example.com";
    assert_eq!(ContentAnalyzer::analyze(text), ContentAnalyzer::analyze(text));
    let signals = ContentAnalyzer::signals(text);
    assert_eq!(ContentAnalyzer::tags_from(&signals), ContentAnalyzer::analyze(text));
}

#[test]
fn language_names_and_priority() {
    let names: Vec<&str> = Language::by_priority().into_iter().map(|l| l.name()).collect();
    assert_eq!(
        names,
        vec!["rust", "javascript", "typescript", "python", "java", "go", "cpp", "csharp"]
    );
    assert_eq!(Language::Rust.idiom_patterns().len(), 4);
    assert_eq!(Language::TypeScript.idiom_patterns().len(), 3);
    assert_eq!(Language::CSharp.idiom_patterns().len(), 3);
}
