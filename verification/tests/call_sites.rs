use coderlm::index::call_site_cache::{
    call_site_kind, call_site_receiver, extract_call_site_facts, CachedCallSites,
    CallSiteCacheFreshness, CallSiteCacheMissReason, CallSiteFact, CallSiteKind,
};
use coderlm::index::file_entry::{FileEntry, Language, Timestamp};
use coderlm::symbols::queries::{
    cached_query_count_for_tests, LanguageConfig, LanguageConfigs, QueryCache, QueryKind,
    TestPattern,
};
use coderlm::symbols::syntax::{Parent, SyntaxNode};

const RUST_CALLERS: &str = r#"
(call_expression function: (identifier) @callee)
(call_expression function: (field_expression field: (field_identifier) @callee))
(call_expression function: (scoped_identifier name: (identifier) @callee))
(macro_invocation macro: (identifier) @callee)
"#;

fn entry(rel_path: &str, size: u64, timestamp: i64) -> FileEntry {
    FileEntry::new(
        rel_path.to_string(),
        size,
        Timestamp { secs: timestamp, nanos: 0 },
    )
}

fn with_rust(callers: &'static str) -> LanguageConfigs {
    let mut configs = LanguageConfigs::builtin();
    configs.register(
        Language::Rust,
        LanguageConfig {
            language: tree_sitter_rust::LANGUAGE.into(),
            symbols_query: "(function_item name: (identifier) @function.name) @function.def",
            callers_query: callers,
            variables_query: "(let_declaration pattern: (identifier) @var.name)",
            test_patterns: vec![TestPattern::Attribute("test")],
        },
    );
    configs
}

#[test]
fn identity_is_fresh_for_matching_file_metadata() {
    let current = entry("src/lib.rs", 10, 1);
    let cached = CachedCallSites::new(&current, Vec::new());

    assert_eq!(
        cached.freshness_against(&current, 100),
        CallSiteCacheFreshness::Fresh
    );
}

#[test]
fn metadata_differences_make_cache_stale() {
    let original = entry("src/lib.rs", 10, 1);
    let cached = CachedCallSites::new(&original, Vec::new());

    let timestamp_changed = entry("src/lib.rs", 10, 2);
    let size_changed = entry("src/lib.rs", 11, 1);
    let path_changed = entry("other/lib.rs", 10, 1);
    let mut language_changed = entry("src/lib.rs", 10, 1);
    language_changed.language = Language::Python;

    for current in [
        timestamp_changed,
        size_changed,
        path_changed,
        language_changed,
    ] {
        assert_eq!(
            cached.freshness_against(&current, 100),
            CallSiteCacheFreshness::Miss(CallSiteCacheMissReason::Stale)
        );
    }
}

#[test]
fn unsupported_and_oversized_files_are_not_fresh() {
    let markdown = entry("README.md", 10, 1);
    let cached = CachedCallSites::new(&markdown, Vec::new());
    assert_eq!(
        cached.freshness_against(&markdown, 100),
        CallSiteCacheFreshness::Miss(CallSiteCacheMissReason::Unsupported)
    );

    let oversized = entry("src/lib.rs", 101, 1);
    let cached = CachedCallSites::new(&oversized, Vec::new());
    assert_eq!(
        cached.freshness_against(&oversized, 100),
        CallSiteCacheFreshness::Miss(CallSiteCacheMissReason::Oversized)
    );
}

#[test]
fn rust_call_sites_have_receivers_and_kinds() {
    let configs = with_rust(RUST_CALLERS);
    let source = "fn main() {\n    run();\n    self.pool.take();\n    crate::io::open();\n    log!();\n}\n";
    let facts = extract_call_site_facts(&configs, &mut QueryCache::new(), source, Language::Rust).unwrap();

    let mut seen: Vec<(String, Option<String>, Option<CallSiteKind>, usize, String)> = facts
        .iter()
        .map(|f| {
            (
                f.callee.clone(),
                f.receiver.clone(),
                f.call_kind,
                f.line,
                f.text.clone(),
            )
        })
        .collect();
    seen.sort_by(|a, b| a.3.cmp(&b.3));
    assert_eq!(
        seen,
        vec![
            ("run".to_string(), None, Some(CallSiteKind::Bare), 2, "run();".to_string()),
            (
                "take".to_string(),
                Some("self.pool".to_string()),
                Some(CallSiteKind::Method),
                3,
                "self.pool.take();".to_string()
            ),
            (
                "open".to_string(),
                Some("crate::io".to_string()),
                Some(CallSiteKind::Qualified),
                4,
                "crate::io::open();".to_string()
            ),
            ("log".to_string(), None, Some(CallSiteKind::Macro), 5, "log!();".to_string()),
        ]
    );
    assert_eq!(facts[0].start_byte, 16);
    assert_eq!(facts[0].end_byte, 19);
}

#[test]
fn elixir_call_sites_have_receivers_but_no_kinds() {
    let configs = LanguageConfigs::builtin();
    let source = "Fixture.Remote.touch(item)\n";
    let facts = extract_call_site_facts(&configs, &mut QueryCache::new(), source, Language::Elixir).unwrap();
    let touch: Vec<&CallSiteFact> = facts.iter().filter(|f| f.callee == "touch").collect();
    assert_eq!(touch.len(), 1);
    assert_eq!(touch[0].receiver.as_deref(), Some("Fixture.Remote"));
    assert_eq!(touch[0].call_kind, None);
}

#[test]
fn call_sites_need_a_language_a_query_and_a_capture() {
    let configs = LanguageConfigs::builtin();
    assert!(extract_call_site_facts(&configs, &mut QueryCache::new(), "x = 1", Language::Python).is_none());
    assert!(extract_call_site_facts(&configs, &mut QueryCache::new(), "x", Language::Markdown).is_none());
    let broken = with_rust("(no_such_node) @callee");
    assert!(extract_call_site_facts(&broken, &mut QueryCache::new(), "fn f() {}", Language::Rust).is_none());
    let nameless = with_rust("(call_expression) @something");
    assert!(extract_call_site_facts(&nameless, &mut QueryCache::new(), "fn f() { g(); }", Language::Rust).is_none());
    let empty = extract_call_site_facts(&with_rust(RUST_CALLERS), &mut QueryCache::new(), "", Language::Rust);
    assert_eq!(empty, Some(Vec::new()));
}

fn node(text: &str, start: usize, end: usize) -> SyntaxNode {
    SyntaxNode {
        start_byte: start,
        end_byte: end,
        start_row: 0,
        end_row: 0,
        text: Some(text.to_string()),
    }
}

#[test]
fn receivers_follow_the_fields_of_each_language() {
    let callee = node("run", 4, 7);
    let member = Some(Parent {
        kind: "member_expression".to_string(),
        fields: vec![None, Some(node(" app ", 0, 3)), None, Some(node("run", 4, 7)), None],
    });
    assert_eq!(
        call_site_receiver(Language::TypeScript, &callee, &member).as_deref(),
        Some("app")
    );
    assert_eq!(
        call_site_receiver(Language::JavaScript, &callee, &member).as_deref(),
        Some("app")
    );
    assert_eq!(call_site_receiver(Language::Rust, &callee, &member), None);
    let elsewhere = Some(Parent {
        kind: "member_expression".to_string(),
        fields: vec![None, Some(node("app", 0, 3)), None, Some(node("run", 8, 11)), None],
    });
    assert_eq!(call_site_receiver(Language::TypeScript, &callee, &elsewhere), None);
    let blank = Some(Parent {
        kind: "dot".to_string(),
        fields: vec![Some(node("  ", 0, 2)), None, None, None, None],
    });
    assert_eq!(call_site_receiver(Language::Elixir, &callee, &blank), None);
    assert_eq!(call_site_receiver(Language::Go, &callee, &blank), None);
    assert_eq!(call_site_kind(Language::Elixir, &blank), None);
    assert_eq!(call_site_kind(Language::Rust, &blank), None);
    assert_eq!(call_site_kind(Language::Rust, &None), None);
}

#[test]
fn call_sites_are_bytes_of_the_text() {
    let configs = with_rust(RUST_CALLERS);
    let mut cache = QueryCache::new();
    let source = "fn f() { größe(); x.go(); }\n";
    let facts = extract_call_site_facts(&configs, &mut cache, source, Language::Rust).unwrap();
    let callees: Vec<&str> = facts.iter().map(|f| f.callee.as_str()).collect();
    assert_eq!(callees, vec!["größe", "go"]);
    for fact in &facts {
        assert_eq!(fact.callee, source[fact.start_byte..fact.end_byte]);
    }
    assert_eq!(cached_query_count_for_tests(&cache, Language::Rust, QueryKind::Callers), 1);
}
