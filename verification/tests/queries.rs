use std::sync::Arc;

use coderlm::index::file_entry::Language;
use coderlm::symbols::queries::{
    cached_query_count_for_tests, get_cached_query, get_language_config, CachedQuery,
    LanguageConfig, LanguageConfigs, QueryCache, QueryKind, TestPattern,
};

fn assert_send_sync<T: Send + Sync>() {}

fn configs() -> LanguageConfigs {
    let mut configs = LanguageConfigs::builtin();
    configs.register(
        Language::Rust,
        LanguageConfig {
            language: tree_sitter_rust::LANGUAGE.into(),
            symbols_query: "(function_item name: (identifier) @function.name) @function.def",
            callers_query: "(call_expression function: (identifier) @callee)",
            variables_query: "(let_declaration pattern: (identifier) @var.name)",
            test_patterns: vec![TestPattern::Attribute("test")],
        },
    );
    configs.register(
        Language::Python,
        LanguageConfig {
            language: tree_sitter_python::LANGUAGE.into(),
            symbols_query: "(function_definition name: (identifier) @function.name) @function.def",
            callers_query: "(call function: (identifier) @callee)",
            variables_query: "(assignment left: (identifier) @var.name)",
            test_patterns: vec![TestPattern::FunctionPrefix("test_")],
        },
    );
    configs
}

#[test]
fn cached_query_is_send_and_sync() {
    assert_send_sync::<CachedQuery>();
}

#[test]
fn cached_query_reuses_same_language_and_kind() {
    let configs = configs();
    let mut cache = QueryCache::new();
    let config = get_language_config(&configs, Language::Rust).unwrap();

    let first = get_cached_query(
        &mut cache,
        Language::Rust,
        QueryKind::Symbols,
        &config.language,
        config.symbols_query,
    )
    .unwrap();
    let second = get_cached_query(
        &mut cache,
        Language::Rust,
        QueryKind::Symbols,
        &config.language,
        config.symbols_query,
    )
    .unwrap();

    assert!(Arc::ptr_eq(&first, &second));
    assert_eq!(
        cached_query_count_for_tests(&cache, Language::Rust, QueryKind::Symbols),
        1
    );
}

#[test]
fn cached_query_keeps_languages_separate() {
    let configs = configs();
    let mut cache = QueryCache::new();
    let rust = get_language_config(&configs, Language::Rust).unwrap();
    let python = get_language_config(&configs, Language::Python).unwrap();

    let rust_query = get_cached_query(
        &mut cache,
        Language::Rust,
        QueryKind::Symbols,
        &rust.language,
        rust.symbols_query,
    )
    .unwrap();
    let python_query = get_cached_query(
        &mut cache,
        Language::Python,
        QueryKind::Symbols,
        &python.language,
        python.symbols_query,
    )
    .unwrap();

    assert!(!Arc::ptr_eq(&rust_query, &python_query));
    assert_eq!(
        cached_query_count_for_tests(&cache, Language::Rust, QueryKind::Symbols),
        1
    );
    assert_eq!(
        cached_query_count_for_tests(&cache, Language::Python, QueryKind::Symbols),
        1
    );
}

#[test]
fn cached_query_keeps_the_text_it_was_made_from() {
    let configs = configs();
    let mut cache = QueryCache::new();
    let config = get_language_config(&configs, Language::Rust).unwrap();
    let first = get_cached_query(
        &mut cache,
        Language::Rust,
        QueryKind::Callers,
        &config.language,
        config.callers_query,
    )
    .unwrap();
    assert_eq!(first.capture_names(), &vec!["callee".to_string()]);
    assert_eq!(first.query().capture_names(), ["callee"]);
    let later = get_cached_query(
        &mut cache,
        Language::Rust,
        QueryKind::Callers,
        &config.language,
        config.symbols_query,
    )
    .unwrap();
    assert!(Arc::ptr_eq(&first, &later));
    assert_eq!(
        cached_query_count_for_tests(&cache, Language::Rust, QueryKind::Symbols),
        0
    );
}

#[test]
fn a_query_that_does_not_compile_is_not_kept() {
    let configs = configs();
    let mut cache = QueryCache::new();
    let config = get_language_config(&configs, Language::Rust).unwrap();
    let refused = get_cached_query(
        &mut cache,
        Language::Rust,
        QueryKind::NonCode,
        &config.language,
        "(no_such_node) @x",
    );
    assert!(refused.is_err());
    assert_eq!(
        cached_query_count_for_tests(&cache, Language::Rust, QueryKind::NonCode),
        0
    );
}

#[test]
fn languages_without_a_configuration_have_none() {
    let builtin = LanguageConfigs::builtin();
    assert!(get_language_config(&builtin, Language::Elixir).is_some());
    assert!(get_language_config(&builtin, Language::Rust).is_none());
    assert!(get_language_config(&configs(), Language::Markdown).is_none());
    let mut replaced = configs();
    let python = configs();
    let query = get_language_config(&python, Language::Python).unwrap().symbols_query;
    replaced.register(
        Language::Rust,
        LanguageConfig {
            language: tree_sitter_python::LANGUAGE.into(),
            symbols_query: query,
            callers_query: "",
            variables_query: "",
            test_patterns: Vec::new(),
        },
    );
    assert_eq!(
        get_language_config(&replaced, Language::Rust).unwrap().symbols_query,
        query
    );
}
