use mnemosyne_core::errors::CoreError;
use mnemosyne_core::mapper::{
    class_from_leak_id, class_hint, class_path, extract_snippet, fallback_location, find_symbol,
    parse_git_log, split_lines, unmapped_file_name, MapToCodeRequest,
};
use mnemosyne_core::prompts::{render_template_instructions, render_value, ProviderPromptContext};

const SOURCE: &str = "package com.example;\n\nimport java.util.Map;\n\npublic class LeakyCache {\n    private Map<String, byte[]> entries;\n    void put(String k) {}\n}\n";

#[test]
fn lines_follow_str_lines() {
    for text in ["a\nb", "a\r\nb\n", "", "\n", "x\r", "a\n\nb\r\n\r\n"] {
        let chars: Vec<char> = text.chars().collect();
        let got: Vec<String> = split_lines(&chars).into_iter().map(|l| l.into_iter().collect()).collect();
        let want: Vec<String> = text.lines().map(|l| l.to_string()).collect();
        assert_eq!(got, want, "lines of {:?}", text);
    }
}

#[test]
fn leak_ids_and_class_paths() {
    assert_eq!(class_from_leak_id("com.example.Cache::0x1f"), Some("com.example.Cache".to_string()));
    assert_eq!(class_from_leak_id("plain"), Some("plain".to_string()));
    assert_eq!(class_from_leak_id("::x"), None);
    assert_eq!(class_path(Some("com.example.LeakyCache")), "com/example/LeakyCache");
    assert_eq!(class_path(None), "com/example/LeakHotspot");
    let request = MapToCodeRequest {
        leak_id: "com.example.Cache::1".into(),
        class_name: None,
        project_root: String::new(),
        include_git_info: false,
    };
    assert_eq!(class_hint(&request), Some("com.example.Cache".to_string()));
}

#[test]
fn symbol_by_hint_then_declaration() {
    assert_eq!(find_symbol(SOURCE, Some("com.example.LeakyCache")), (5, "public class LeakyCache {".to_string()));
    assert_eq!(find_symbol(SOURCE, Some("entries")), (6, "private Map<String, byte[]> entries;".to_string()));
    assert_eq!(find_symbol(SOURCE, Some("Missing")), (5, "public class LeakyCache {".to_string()));
    assert_eq!(find_symbol(SOURCE, None), (5, "public class LeakyCache {".to_string()));
    assert_eq!(find_symbol("  just text  \nmore", None), (1, "just text".to_string()));
    assert_eq!(find_symbol("", None), (1, String::new()));
}

#[test]
fn snippets_around_a_line() {
    assert_eq!(extract_snippet(SOURCE, 5), "\npublic class LeakyCache {\n    private Map<String, byte[]> entries;");
    assert_eq!(extract_snippet(SOURCE, 1), "package com.example;\n");
    assert_eq!(extract_snippet(SOURCE, 0), "package com.example;\n");
    assert_eq!(extract_snippet(SOURCE, 99), "    void put(String k) {}\n}");
    assert_eq!(extract_snippet("", 3), "");
}

#[test]
fn git_log_fields() {
    let g = parse_git_log("Ada|abc123|2024-01-02 10:00:00 +0000|fix: a | b\n").unwrap();
    assert_eq!(g.author, "Ada");
    assert_eq!(g.commit, "abc123");
    assert_eq!(g.date, "2024-01-02 10:00:00 +0000");
    assert_eq!(g.message, "fix: a | b");
    assert!(parse_git_log("Ada|abc|date").is_none());
}

#[test]
fn fallback_names_the_leak() {
    assert_eq!(unmapped_file_name("a::b:c"), "a__b_c.txt");
    let loc = fallback_location("x/y.txt".into(), None, "leak-1");
    assert_eq!(loc.symbol, "leak-1");
    assert_eq!(loc.line, 1);
    assert_eq!(loc.code_snippet, "No matching source file found. Provide --class to improve results.");
    let loc = fallback_location("x/y.txt".into(), Some("com.Foo"), "leak-1");
    assert_eq!(loc.symbol, "com.Foo");
}

#[test]
fn prompt_values_fill_placeholders() {
    let ctx = ProviderPromptContext {
        model: "gpt-x",
        provider: "openai",
        heap_path: "/tmp/h.hprof",
        total_bytes: 2048,
        total_objects: 17,
        leak_sampled: 3,
    };
    assert_eq!(
        render_value("{{model}} via {{provider}} on {{heap_path}}: {{total_bytes}}B, {{total_objects}} objs, {{leak_sampled}} leaks, {{model}}", &ctx),
        "gpt-x via openai on /tmp/h.hprof: 2048B, 17 objs, 3 leaks, gpt-x"
    );
    assert_eq!(render_value("{{unknown}} {model}", &ctx), "{{unknown}} {model}");
    let out = render_template_instructions(1, vec![("system".into(), "use {{model}}".into())], &ctx).unwrap();
    assert_eq!(out, vec![("system".to_string(), "use gpt-x".to_string())]);
    let err = render_template_instructions(2, Vec::new(), &ctx).unwrap_err();
    assert_eq!(
        err,
        CoreError::ConfigError {
            detail: "unsupported provider prompt template version '2'".into(),
            suggestion: Some("Use a version 1 provider-insights.yaml template.".into()),
        }
    );
}
