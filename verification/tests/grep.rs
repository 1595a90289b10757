use coderlm::index::file_entry::{FileEntry, Language, Timestamp};
use coderlm::index::file_tree::FileTree;
use coderlm::ops::content::{
    chunk_bytes, chunk_indices, compute_non_code_ranges, grep, grep_with_scope, peek, takes_line,
    ChunkInfo, FileMatchMode, GrepScope,
};
use coderlm::ops::ranges::{is_in_excluded_range, merge_ranges};
use coderlm::sources::Sources;
use coderlm::symbols::queries::{
    cached_query_count_for_tests, LanguageConfig, LanguageConfigs, QueryCache, QueryKind,
    TestPattern,
};

fn add_file(sources: &mut Sources, file_tree: &mut FileTree, rel_path: &str, source: &str) {
    sources.add(rel_path.to_string(), Ok(source.to_string()));
    file_tree.insert(FileEntry::new(
        rel_path.to_string(),
        source.len() as u64,
        Timestamp { secs: 1, nanos: 0 },
    ));
}

fn fixture() -> (LanguageConfigs, Sources, FileTree) {
    let mut sources = Sources::new();
    let mut file_tree = FileTree::new();
    add_file(&mut sources, &mut file_tree, "src/lib.rs", "needle_exact\n");
    add_file(
        &mut sources,
        &mut file_tree,
        "tests/src/lib.rs",
        "needle_tests\n",
    );
    add_file(&mut sources, &mut file_tree, "lib.rs", "needle_root\n");
    add_file(&mut sources, &mut file_tree, "src/main.rs", "needle_main\n");
    add_file(&mut sources, &mut file_tree, "docs/feature.md", "needle_docs\n");
    (LanguageConfigs::builtin(), sources, file_tree)
}

fn with_rust() -> LanguageConfigs {
    let mut configs = LanguageConfigs::builtin();
    configs.register(
        Language::Rust,
        LanguageConfig {
            language: tree_sitter_rust::LANGUAGE.into(),
            symbols_query: "(function_item name: (identifier) @function.name) @function.def",
            callers_query: "(call_expression function: (identifier) @callee)",
            variables_query: "(let_declaration pattern: (identifier) @var.name)",
            test_patterns: vec![TestPattern::Attribute("test")],
        },
    );
    configs
}

#[test]
fn exact_file_match_only_searches_the_project_relative_path() {
    let (configs, sources, mut file_tree) = fixture();

    let response = grep_with_scope(
        &configs,
        &mut QueryCache::new(),
        &sources,
        &mut file_tree,
        "needle_",
        10,
        0,
        GrepScope::All,
        Some("src/lib.rs"),
        Some(FileMatchMode::Exact),
    )
    .unwrap();

    assert_eq!(response.total_matches, 1);
    assert_eq!(response.matches[0].file, "src/lib.rs");
}

#[test]
fn suffix_file_match_searches_the_unique_matching_suffix() {
    let (configs, sources, mut file_tree) = fixture();

    let response = grep_with_scope(
        &configs,
        &mut QueryCache::new(),
        &sources,
        &mut file_tree,
        "needle_",
        10,
        0,
        GrepScope::All,
        Some("main.rs"),
        Some(FileMatchMode::Suffix),
    )
    .unwrap();

    assert_eq!(response.total_matches, 1);
    assert_eq!(response.matches[0].file, "src/main.rs");
}

#[test]
fn contains_file_match_searches_the_unique_containing_path() {
    let (configs, sources, mut file_tree) = fixture();

    let response = grep_with_scope(
        &configs,
        &mut QueryCache::new(),
        &sources,
        &mut file_tree,
        "needle_",
        10,
        0,
        GrepScope::All,
        Some("feature"),
        Some(FileMatchMode::Contains),
    )
    .unwrap();

    assert_eq!(response.total_matches, 1);
    assert_eq!(response.matches[0].file, "docs/feature.md");
}

#[test]
fn explicit_suffix_file_match_reports_ambiguous_paths() {
    let (configs, sources, mut file_tree) = fixture();

    let err = grep_with_scope(
        &configs,
        &mut QueryCache::new(),
        &sources,
        &mut file_tree,
        "needle_",
        10,
        0,
        GrepScope::All,
        Some("src/lib.rs"),
        Some(FileMatchMode::Suffix),
    )
    .unwrap_err();

    assert!(err.contains("Ambiguous file filter"));
    assert!(err.contains("src/lib.rs"));
    assert!(err.contains("tests/src/lib.rs"));
}

#[test]
fn explicit_contains_file_match_reports_ambiguous_paths() {
    let (configs, sources, mut file_tree) = fixture();

    let err = grep_with_scope(
        &configs,
        &mut QueryCache::new(),
        &sources,
        &mut file_tree,
        "needle_",
        10,
        0,
        GrepScope::All,
        Some("lib.rs"),
        Some(FileMatchMode::Contains),
    )
    .unwrap_err();

    assert!(err.contains("Ambiguous file filter"));
    assert!(err.contains("lib.rs"));
}

#[test]
fn explicit_file_match_reports_no_matching_path() {
    let (configs, sources, mut file_tree) = fixture();

    let err = grep_with_scope(
        &configs,
        &mut QueryCache::new(),
        &sources,
        &mut file_tree,
        "needle_",
        10,
        0,
        GrepScope::All,
        Some("missing.rs"),
        Some(FileMatchMode::Exact),
    )
    .unwrap_err();

    assert!(err.contains("No file matched"));
}

#[test]
fn default_file_filter_preserves_broad_compatibility_matching() {
    let (configs, sources, mut file_tree) = fixture();

    let response = grep_with_scope(
        &configs,
        &mut QueryCache::new(),
        &sources,
        &mut file_tree,
        "needle_",
        10,
        0,
        GrepScope::All,
        Some("lib.rs"),
        None,
    )
    .unwrap();

    let files: Vec<&str> = response
        .matches
        .iter()
        .map(|grep_match| grep_match.file.as_str())
        .collect();
    assert_eq!(files, vec!["lib.rs", "src/lib.rs", "tests/src/lib.rs"]);
}

#[test]
fn file_match_rejects_unsupported_values() {
    assert_eq!(FileMatchMode::from_str("glob"), None);
}

#[test]
fn names_of_modes_and_scopes_are_read_in_any_case() {
    assert_eq!(FileMatchMode::from_str("EXACT"), Some(FileMatchMode::Exact));
    assert_eq!(FileMatchMode::from_str("Suffix"), Some(FileMatchMode::Suffix));
    assert_eq!(FileMatchMode::from_str("contains"), Some(FileMatchMode::Contains));
    assert_eq!(GrepScope::from_str("CODE"), Some(GrepScope::Code));
    assert_eq!(GrepScope::from_str("all"), Some(GrepScope::All));
    assert_eq!(GrepScope::from_str("some"), None);
    assert_eq!(FileMatchMode::Contains.as_str(), "contains");
}

#[test]
fn messages_of_refused_searches_are_exact() {
    let (configs, sources, mut file_tree) = fixture();
    let mut ask = |pattern: &str, filter: Option<&str>, mode: Option<FileMatchMode>| {
        grep_with_scope(
            &configs,
            &mut QueryCache::new(),
            &sources,
            &mut file_tree,
            pattern,
            10,
            0,
            GrepScope::All,
            filter,
            mode,
        )
        .unwrap_err()
    };
    assert_eq!(
        ask("x", None, Some(FileMatchMode::Exact)),
        "file_match requires the file parameter"
    );
    assert_eq!(
        ask("x", Some("missing.rs"), Some(FileMatchMode::Exact)),
        "No file matched 'missing.rs' with file_match=exact"
    );
    assert_eq!(
        ask("x", Some("src/lib.rs"), Some(FileMatchMode::Suffix)),
        "Ambiguous file filter 'src/lib.rs' with file_match=suffix matched 2 files: src/lib.rs, tests/src/lib.rs"
    );
    assert!(ask("(", None, None).starts_with("Invalid regex: regex parse error"));
}

#[test]
fn matches_carry_context_and_are_cut_off() {
    let configs = LanguageConfigs::builtin();
    let mut sources = Sources::new();
    let mut tree = FileTree::new();
    add_file(&mut sources, &mut tree, "a.txt", "one\ntwo\nhit 1\nfour\nfive\n");
    add_file(&mut sources, &mut tree, "b.txt", "hit 2\nhit 3");
    tree.insert(FileEntry::new("gone.txt".to_string(), 1, Timestamp { secs: 0, nanos: 0 }));

    let all = grep(&configs, &mut QueryCache::new(), &sources, &mut tree, "hit \\d", 10, 1).unwrap();
    assert_eq!(all.pattern, "hit \\d");
    assert_eq!(all.total_matches, 3);
    assert!(!all.truncated);
    assert_eq!(all.matches[0].file, "a.txt");
    assert_eq!(all.matches[0].line, 3);
    assert_eq!(all.matches[0].text, "hit 1");
    assert_eq!(all.matches[0].context_before, vec!["two"]);
    assert_eq!(all.matches[0].context_after, vec!["four"]);
    assert!(all.matches[1].context_before.is_empty());
    assert_eq!(all.matches[1].context_after, vec!["hit 3"]);
    assert!(all.matches[2].context_after.is_empty());

    let some = grep(&configs, &mut QueryCache::new(), &sources, &mut tree, "hit \\d", 2, 0).unwrap();
    assert_eq!(some.total_matches, 3);
    assert!(some.truncated);
    assert_eq!(some.matches.len(), 2);
    let none = grep(&configs, &mut QueryCache::new(), &sources, &mut tree, "hit \\d", 0, usize::MAX).unwrap();
    assert_eq!(none.matches.len(), 0);
    assert!(none.truncated);
}

#[test]
fn code_scope_skips_comments_and_strings() {
    let configs = with_rust();
    let mut sources = Sources::new();
    let mut tree = FileTree::new();
    let text = "// target\r\nfn target() {}\r\nconst S: &str = \"target\";\r\n";
    add_file(&mut sources, &mut tree, "src/a.rs", text);
    let entry = tree.get("src/a.rs").unwrap();
    assert_eq!(tree.cached_non_code_ranges("src/a.rs", &entry), None);

    let code = grep_with_scope(
        &configs,
        &mut QueryCache::new(),
        &sources,
        &mut tree,
        "target",
        10,
        0,
        GrepScope::Code,
        None,
        None,
    )
    .unwrap();
    let lines: Vec<usize> = code.matches.iter().map(|m| m.line).collect();
    assert_eq!(lines, vec![2]);
    let cached = tree.cached_non_code_ranges("src/a.rs", &entry).unwrap();
    assert_eq!(cached, compute_non_code_ranges(&configs, &mut QueryCache::new(), text, Language::Rust));
    assert_eq!(cached.len(), 2);

    let all = grep(&configs, &mut QueryCache::new(), &sources, &mut tree, "target", 10, 0).unwrap();
    assert_eq!(all.total_matches, 3);
}

#[test]
fn cached_ranges_decide_what_code_is() {
    let configs = with_rust();
    let mut sources = Sources::new();
    let mut tree = FileTree::new();
    add_file(&mut sources, &mut tree, "a.rs", "target\ntarget\n");
    let entry = tree.get("a.rs").unwrap();
    tree.store_non_code_ranges("a.rs", &entry, vec![(9, 12), (0, 3), (2, 8)]);
    let found = grep_with_scope(
        &configs,
        &mut QueryCache::new(),
        &sources,
        &mut tree,
        "target",
        10,
        0,
        GrepScope::Code,
        None,
        None,
    )
    .unwrap();
    assert_eq!(found.total_matches, 0);
}

#[test]
fn elixir_strings_are_not_code() {
    let configs = LanguageConfigs::builtin();
    let text = "x = \"target\"\ntarget()\n# target\n";
    let ranges = compute_non_code_ranges(&configs, &mut QueryCache::new(), text, Language::Elixir);
    assert_eq!(ranges, vec![(4, 12), (22, 30)]);
    assert!(compute_non_code_ranges(&configs, &mut QueryCache::new(), text, Language::Markdown).is_empty());
    assert!(compute_non_code_ranges(&configs, &mut QueryCache::new(), text, Language::Python).is_empty());
}

#[test]
fn ranges_are_merged_and_searched() {
    assert_eq!(
        merge_ranges(vec![(5, 7), (1, 3), (2, 4), (4, 5), (9, 9), (12, 10)]),
        vec![(1, 4), (4, 5), (5, 7), (9, 9)]
    );
    assert_eq!(merge_ranges(vec![(0, 5), (5, 8)]), vec![(0, 5), (5, 8)]);
    let merged = merge_ranges(vec![(10, 20), (1, 3)]);
    assert_eq!(merged, vec![(1, 3), (10, 20)]);
    assert_eq!(merge_ranges(merged.clone()), merged);
    for (byte, inside) in [(0, false), (1, true), (2, true), (3, false), (10, true), (19, true), (20, false)] {
        assert_eq!(is_in_excluded_range(byte, &merged), inside);
    }
}

#[test]
fn bytes_of_ranges_are_excluded() {
    let ranges = vec![(1, 4), (6, 8)];
    for byte in [1, 3, 6, 7] {
        assert!(is_in_excluded_range(byte, &ranges));
    }
    for byte in [0, 4, 5, 8] {
        assert!(!is_in_excluded_range(byte, &ranges));
    }
    assert!(!is_in_excluded_range(0, &vec![]));
    let touching = vec![(1, 4), (4, 4), (4, 6)];
    for (byte, inside) in [(0, false), (3, true), (4, true), (5, true), (6, false)] {
        assert_eq!(is_in_excluded_range(byte, &touching), inside);
    }
}

#[test]
fn a_line_is_taken_for_any_of_its_matches() {
    let excluded = vec![(10, 20)];
    assert!(takes_line(&vec![(0, 3)], 5, GrepScope::Code, &excluded));
    assert!(!takes_line(&vec![(6, 9)], 5, GrepScope::Code, &excluded));
    assert!(!takes_line(&vec![(6, 9), (10, 13)], 5, GrepScope::Code, &excluded));
    assert!(takes_line(&vec![(6, 9), (15, 18)], 5, GrepScope::Code, &excluded));
    assert!(takes_line(&vec![(6, 9)], 5, GrepScope::All, &excluded));
    assert!(takes_line(&vec![(usize::MAX, usize::MAX)], 5, GrepScope::Code, &excluded));
    assert!(!takes_line(&vec![], 5, GrepScope::All, &excluded));
    assert!(!takes_line(&vec![], 5, GrepScope::Code, &excluded));
}

#[test]
fn a_match_in_code_counts_behind_one_in_a_string() {
    let mut sources = Sources::new();
    let mut tree = FileTree::new();
    add_file(&mut sources, &mut tree, "a.rs", "fn f() { g(\"foo\"); foo(); }\n");
    add_file(&mut sources, &mut tree, "b.rs", "fn f() { g(\"foo\"); bar(); } // foo\n");
    let mut cache = QueryCache::new();
    let found = grep_with_scope(
        &with_rust(),
        &mut cache,
        &sources,
        &mut tree,
        "foo",
        10,
        0,
        GrepScope::Code,
        None,
        None,
    )
    .unwrap();
    assert_eq!(found.total_matches, 1);
    assert_eq!(found.matches[0].file, "a.rs");
    assert_eq!(found.matches[0].line, 1);
    assert_eq!(cached_query_count_for_tests(&cache, Language::Rust, QueryKind::NonCode), 1);
}

#[test]
fn asking_for_more_shows_more_of_the_same() {
    let configs = LanguageConfigs::builtin();
    let mut sources = Sources::new();
    let mut tree = FileTree::new();
    add_file(&mut sources, &mut tree, "b.txt", "hit\nmiss\nhit\n");
    add_file(&mut sources, &mut tree, "a.txt", "miss\nhit hit\n");
    add_file(&mut sources, &mut tree, "a/b.txt", "hit\n");
    let mut ask = |max: usize| {
        grep(&configs, &mut QueryCache::new(), &sources, &mut tree, "hit", max, 0).unwrap()
    };
    let whole = ask(usize::MAX);
    let places: Vec<(&str, usize)> =
        whole.matches.iter().map(|m| (m.file.as_str(), m.line)).collect();
    assert_eq!(places, vec![("a.txt", 2), ("a/b.txt", 1), ("b.txt", 1), ("b.txt", 3)]);
    for max in 0..6 {
        let part = ask(max);
        assert_eq!(part.total_matches, 4);
        assert_eq!(part.matches.len(), max.min(4));
        assert_eq!(part.truncated, max < 4);
        assert_eq!(part.matches[..], whole.matches[..part.matches.len()]);
    }
}

#[test]
fn peek_numbers_the_lines() {
    let mut sources = Sources::new();
    let mut tree = FileTree::new();
    add_file(&mut sources, &mut tree, "a.txt", "one\r\ntwo\nthree");
    let shown = peek(&sources, &tree, "a.txt", 1, 9).unwrap();
    assert_eq!(shown.file, "a.txt");
    assert_eq!((shown.start_line, shown.end_line, shown.total_lines), (2, 3, 3));
    assert_eq!(shown.content, "     2 │ two\n     3 │ three");
    let first = peek(&sources, &tree, "a.txt", 0, 1).unwrap();
    assert_eq!(first.content, "     1 │ one");
    let past = peek(&sources, &tree, "a.txt", 7, 9).unwrap();
    assert_eq!((past.start_line, past.end_line), (4, 3));
    assert_eq!(past.content, "");
}

#[test]
fn reading_fails_with_the_file_in_the_message() {
    let mut sources = Sources::new();
    let mut tree = FileTree::new();
    tree.insert(FileEntry::new("gone.txt".to_string(), 1, Timestamp { secs: 0, nanos: 0 }));
    sources.add("gone.txt".to_string(), Err("No such file".to_string()));
    assert_eq!(
        peek(&sources, &tree, "other.txt", 0, 1).unwrap_err(),
        "File 'other.txt' not found in index"
    );
    assert_eq!(
        peek(&sources, &tree, "gone.txt", 0, 1).unwrap_err(),
        "Failed to read 'gone.txt': No such file"
    );
    assert_eq!(
        chunk_indices(&sources, &tree, "gone.txt", 4, 1).unwrap_err(),
        "Failed to read 'gone.txt': No such file"
    );
    assert_eq!(
        chunk_indices(&sources, &tree, "other.txt", 4, 1).unwrap_err(),
        "File 'other.txt' not found in index"
    );
    assert_eq!(
        chunk_indices(&sources, &tree, "gone.txt", 0, 1).unwrap_err(),
        "Chunk size must be > 0"
    );
    assert_eq!(
        chunk_indices(&sources, &tree, "gone.txt", 2, 2).unwrap_err(),
        "Overlap must be < chunk size"
    );
}

#[test]
fn chunks_overlap_and_cover_the_file() {
    let mut sources = Sources::new();
    let mut tree = FileTree::new();
    add_file(&mut sources, &mut tree, "a.txt", "0123456789");
    let made = chunk_indices(&sources, &tree, "a.txt", 4, 1).unwrap();
    assert_eq!((made.total_bytes, made.chunk_size, made.overlap), (10, 4, 1));
    assert_eq!(
        made.chunks,
        vec![
            ChunkInfo { index: 0, start: 0, end: 4 },
            ChunkInfo { index: 1, start: 3, end: 7 },
            ChunkInfo { index: 2, start: 6, end: 10 },
        ]
    );
    for pair in made.chunks.windows(2) {
        assert_eq!(pair[0].end - pair[1].start, 1);
    }
    assert!(chunk_bytes(0, 4, 1).is_empty());
    assert_eq!(
        chunk_bytes(3, usize::MAX, 0),
        vec![ChunkInfo { index: 0, start: 0, end: 3 }]
    );
    assert_eq!(chunk_bytes(5, 2, 0).len(), 3);
}

#[test]
fn non_code_ranges_are_apart_and_within_the_text() {
    let text = "# a\nx = \"b #{\"c\"} d\"\n# e";
    let ranges =
        compute_non_code_ranges(&LanguageConfigs::builtin(), &mut QueryCache::new(), text, Language::Elixir);
    assert!(!ranges.is_empty());
    assert!(ranges.iter().all(|r| r.0 <= r.1 && r.1 <= text.len()));
    assert!(ranges.windows(2).all(|pair| pair[0].1 <= pair[1].0));
    assert_eq!(ranges[0], (0, 3));
}
