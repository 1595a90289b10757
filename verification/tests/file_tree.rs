use coderlm::index::call_site_cache::{CallSiteCacheLookup, CallSiteCacheMissReason, CallSiteFact};
use coderlm::index::file_entry::{FileEntry, Language, Timestamp};
use coderlm::index::file_tree::{FileTree, LanguageBreakdown};

fn entry(rel_path: &str, size: u64, timestamp: i64) -> FileEntry {
    FileEntry::new(
        rel_path.to_string(),
        size,
        Timestamp { secs: timestamp, nanos: 0 },
    )
}

fn fact(callee: &str) -> CallSiteFact {
    CallSiteFact {
        callee: callee.to_string(),
        start_byte: 0,
        end_byte: callee.len(),
        line: 1,
        text: format!("{callee}();"),
        receiver: None,
        call_kind: None,
    }
}

#[test]
fn non_code_range_cache_is_tied_to_file_metadata() {
    let mut tree = FileTree::new();
    let original = entry("src/lib.rs", 10, 1);
    tree.insert(original.clone());
    tree.store_non_code_ranges("src/lib.rs", &original, vec![(1, 4)]);

    assert_eq!(
        tree.cached_non_code_ranges("src/lib.rs", &original),
        Some(vec![(1, 4)])
    );

    let changed = entry("src/lib.rs", 11, 2);
    assert_eq!(tree.cached_non_code_ranges("src/lib.rs", &changed), None);
}

#[test]
fn inserting_or_removing_file_invalidates_non_code_range_cache() {
    let mut tree = FileTree::new();
    let original = entry("src/lib.rs", 10, 1);
    tree.insert(original.clone());
    tree.store_non_code_ranges("src/lib.rs", &original, vec![(1, 4)]);

    let changed = entry("src/lib.rs", 12, 3);
    tree.insert(changed.clone());
    assert_eq!(tree.cached_non_code_ranges("src/lib.rs", &changed), None);

    tree.store_non_code_ranges("src/lib.rs", &changed, vec![(2, 5)]);
    tree.remove("src/lib.rs");
    assert_eq!(tree.cached_non_code_ranges("src/lib.rs", &changed), None);
}

#[test]
fn call_site_cache_uses_exact_project_relative_paths() {
    let mut tree = FileTree::new();
    let first = entry("crates/a/lib.rs", 10, 1);
    let second = entry("crates/b/lib.rs", 10, 1);
    tree.insert(first.clone());
    tree.insert(second.clone());

    tree.store_call_sites(&first, vec![fact("from_a")]).unwrap();
    tree.store_call_sites(&second, vec![fact("from_b")])
        .unwrap();

    assert_eq!(
        tree.call_site_cache_lookup("crates/a/lib.rs", 100),
        CallSiteCacheLookup::Hit(vec![fact("from_a")])
    );
    assert_eq!(
        tree.call_site_cache_lookup("crates/b/lib.rs", 100),
        CallSiteCacheLookup::Hit(vec![fact("from_b")])
    );
}

#[test]
fn call_site_cache_reports_missing_absent_unsupported_stale_and_oversized() {
    let mut tree = FileTree::new();

    assert_eq!(
        tree.call_site_cache_lookup("src/missing.rs", 100),
        CallSiteCacheLookup::Miss(CallSiteCacheMissReason::Missing)
    );

    let absent = entry("src/absent.rs", 10, 1);
    tree.insert(absent);
    assert_eq!(
        tree.call_site_cache_lookup("src/absent.rs", 100),
        CallSiteCacheLookup::Miss(CallSiteCacheMissReason::Absent)
    );

    let unsupported = entry("docs/readme.md", 10, 1);
    tree.insert(unsupported.clone());
    assert_eq!(
        tree.store_call_sites(&unsupported, Vec::new()),
        Err(CallSiteCacheMissReason::Unsupported)
    );
    assert_eq!(
        tree.call_site_cache_lookup("docs/readme.md", 100),
        CallSiteCacheLookup::Miss(CallSiteCacheMissReason::Unsupported)
    );

    let original = entry("src/stale.rs", 10, 1);
    tree.insert(original.clone());
    tree.store_call_sites(&original, vec![fact("cached")])
        .unwrap();
    let changed = entry("src/stale.rs", 11, 1);
    tree.insert(changed);
    assert_eq!(
        tree.call_site_cache_lookup("src/stale.rs", 100),
        CallSiteCacheLookup::Miss(CallSiteCacheMissReason::Absent)
    );

    let oversized = entry("src/oversized.rs", 101, 1);
    tree.insert(oversized);
    assert_eq!(
        tree.call_site_cache_lookup("src/oversized.rs", 100),
        CallSiteCacheLookup::Miss(CallSiteCacheMissReason::Oversized)
    );
}

#[test]
fn insert_invalidates_call_site_cache_for_metadata_and_language_changes() {
    let mut tree = FileTree::new();
    let original = entry("src/lib.rs", 10, 1);
    tree.insert(original.clone());
    tree.store_call_sites(&original, vec![fact("stale")])
        .unwrap();

    let metadata_changed = entry("src/lib.rs", 10, 2);
    tree.insert(metadata_changed);
    assert_eq!(
        tree.call_site_cache_lookup("src/lib.rs", 100),
        CallSiteCacheLookup::Miss(CallSiteCacheMissReason::Absent)
    );

    let python = entry("src/lib.py", 10, 1);
    tree.insert(python.clone());
    tree.store_call_sites(&python, vec![fact("python_stale")])
        .unwrap();
    let mut unsupported = entry("src/lib.py", 10, 2);
    unsupported.language = Language::Markdown;
    tree.insert(unsupported);
    assert_eq!(
        tree.call_site_cache_lookup("src/lib.py", 100),
        CallSiteCacheLookup::Miss(CallSiteCacheMissReason::Unsupported)
    );
}

#[test]
fn stored_call_sites_go_stale_with_the_file() {
    let mut tree = FileTree::new();
    let older = entry("src/lib.rs", 9, 1);
    tree.insert(entry("src/lib.rs", 10, 1));
    tree.store_call_sites(&older, vec![fact("older")]).unwrap();
    assert_eq!(
        tree.call_site_cache_lookup("src/lib.rs", 100),
        CallSiteCacheLookup::Miss(CallSiteCacheMissReason::Stale)
    );
    tree.purge_call_sites("src/lib.rs");
    assert_eq!(
        tree.call_site_cache_lookup("src/lib.rs", 100),
        CallSiteCacheLookup::Miss(CallSiteCacheMissReason::Absent)
    );
}

#[test]
fn files_are_counted_listed_and_taken_out() {
    let mut tree = FileTree::new();
    assert_eq!(tree.len(), 0);
    tree.insert(entry("b.rs", 1, 1));
    tree.insert(entry("a.rs", 2, 1));
    tree.insert(entry("a.rs", 3, 1));
    assert_eq!(tree.len(), 2);
    let mut paths = tree.all_paths();
    paths.sort();
    assert_eq!(paths, vec!["a.rs", "b.rs"]);
    assert_eq!(tree.sorted_paths(), vec!["a.rs", "b.rs"]);
    assert_eq!(tree.get("a.rs").unwrap().size, 3);
    assert_eq!(tree.remove("a.rs").unwrap().size, 3);
    assert!(tree.remove("a.rs").is_none());
    assert!(tree.get("a.rs").is_none());
    assert_eq!(tree.len(), 1);
}

#[test]
fn extraction_is_noted_without_dropping_caches() {
    let mut tree = FileTree::new();
    let file = entry("a.rs", 2, 1);
    tree.insert(file.clone());
    tree.store_call_sites(&file, vec![fact("kept")]).unwrap();
    tree.mark_extracted("a.rs");
    tree.mark_extracted("missing.rs");
    assert!(tree.get("a.rs").unwrap().symbols_extracted);
    assert!(tree.get("missing.rs").is_none());
    assert_eq!(
        tree.call_site_cache_lookup("a.rs", 100),
        CallSiteCacheLookup::Hit(vec![fact("kept")])
    );
}

#[test]
fn parsed_files_come_in_order_with_their_languages() {
    let mut tree = FileTree::new();
    for path in ["z.py", "notes.md", "lib/a.ex", "m.sql", "b.rs"] {
        tree.insert(entry(path, 1, 1));
    }
    assert_eq!(
        tree.parsed_files(),
        vec![
            ("b.rs".to_string(), Language::Rust),
            ("lib/a.ex".to_string(), Language::Elixir),
            ("z.py".to_string(), Language::Python),
        ]
    );
}

#[test]
fn breakdown_counts_languages_the_most_frequent_first() {
    let mut tree = FileTree::new();
    for path in ["a.rs", "b.py", "c.rs", "d.md", "e.rs", "f.py"] {
        tree.insert(entry(path, 1, 1));
    }
    assert_eq!(
        tree.language_breakdown(),
        vec![
            LanguageBreakdown { language: Language::Rust, count: 3 },
            LanguageBreakdown { language: Language::Python, count: 2 },
            LanguageBreakdown { language: Language::Markdown, count: 1 },
        ]
    );
    assert!(FileTree::new().language_breakdown().is_empty());
}

fn drawn(paths: &[&str], depth: usize) -> String {
    let mut tree = FileTree::new();
    for path in paths {
        tree.insert(entry(path, 1, 1));
    }
    tree.render_tree(depth)
}

#[test]
fn tree_is_drawn_with_connectors() {
    let paths = ["src/lib.rs", "README.md", "src/index/mod.rs", "src/index/tree.rs"];
    assert_eq!(
        drawn(&paths, 0),
        "├── README.md\n└── src/\n    ├── index/\n    │   ├── mod.rs\n    │   └── tree.rs\n    └── lib.rs\n"
    );
    assert_eq!(drawn(&paths, 1), "├── README.md\n└── src/\n");
    assert_eq!(
        drawn(&paths, 2),
        "├── README.md\n└── src/\n    ├── index/\n    └── lib.rs\n"
    );
    assert_eq!(drawn(&paths, 3), drawn(&paths, 0));
    assert_eq!(drawn(&[], 0), "");
}

#[test]
fn a_bound_keeps_the_lines_of_shallow_entries() {
    let paths = ["a/b/c/d.rs", "a/b/x.rs", "a/y.rs", "e/f/g.rs", "z.rs"];
    let parents = |line: &str| line.chars().take_while(|c| " │├└".contains(*c)).count() / 4;
    let whole = drawn(&paths, 0);
    for depth in 1..6 {
        let kept: String = whole
            .split_inclusive('\n')
            .filter(|line| parents(line) < depth)
            .collect();
        assert_eq!(drawn(&paths, depth), kept);
    }
    assert_eq!(drawn(&paths, 4), whole);
    assert_ne!(drawn(&paths, 3), whole);
}

#[test]
fn a_file_hides_what_claims_to_be_below_it() {
    assert_eq!(drawn(&["a", "a/b", "c"], 0), "├── a\n└── c\n");
}

#[test]
fn languages_follow_extensions() {
    assert_eq!(Language::from_path("a/b.rs"), Language::Rust);
    assert_eq!(Language::from_path("a.b/c"), Language::Other);
    assert_eq!(Language::from_path(".rs"), Language::Other);
    assert_eq!(Language::from_path("x.test.tsx"), Language::TypeScript);
    assert_eq!(Language::from_extension("exs"), Language::Elixir);
    assert!(!Language::Sql.has_tree_sitter_support());
    assert!(Language::Zig.has_tree_sitter_support());
}
