use coderlm::config::IgnoreRules;
use coderlm::index::call_site_cache::{CallSiteCacheLookup, CallSiteCacheMissReason};
use coderlm::index::file_entry::{Language, Timestamp};
use coderlm::index::file_tree::FileTree;
use coderlm::index::watch_filter::{
    has_hidden_component, read_patterns, should_process_event_kind, should_skip,
    should_watch_entry, AccessKind, AccessMode, DataChange, EventKind, MetadataKind, ModifyKind,
    WatchPathFilter,
};
use coderlm::index::watcher::{
    handle_events, relevant_paths, ChangedPath, DebounceStep, Debouncer, DiskState, FileMeta,
    Received, Wait, WatchEvent, WatcherEventStats, DEBOUNCE_MILLIS,
};
use coderlm::ops::symbol_ops::callers::find_callers;
use coderlm::sources::Sources;
use coderlm::symbols::queries::{LanguageConfig, LanguageConfigs, QueryCache, TestPattern};
use coderlm::symbols::SymbolTable;

const ROOT: &str = "/project";

fn with_rust() -> LanguageConfigs {
    let mut configs = LanguageConfigs::builtin();
    configs.register(
        Language::Rust,
        LanguageConfig {
            language: tree_sitter_rust::LANGUAGE.into(),
            symbols_query: "(function_item name: (identifier) @function.name) @function.def",
            callers_query: "(call_expression function: (identifier) @callee)",
            variables_query: "(let_declaration pattern: (identifier) @var.name)",
            test_patterns: vec![TestPattern::Attribute("test")],
        },
    );
    configs
}

struct Project {
    configs: LanguageConfigs,
    cache: QueryCache,
    sources: Sources,
    sizes: Vec<(String, u64)>,
    clock: i64,
    filter: WatchPathFilter,
    file_tree: FileTree,
    symbol_table: SymbolTable,
}

impl Project {
    fn new(gitignore: &str) -> Self {
        Project {
            configs: with_rust(),
            cache: QueryCache::new(),
            sources: Sources::new(),
            sizes: Vec::new(),
            clock: 0,
            filter: WatchPathFilter::new(ROOT, IgnoreRules::builtin(), &read_patterns(gitignore)),
            file_tree: FileTree::new(),
            symbol_table: SymbolTable::new(),
        }
    }

    fn write(&mut self, path: &str, text: &str) {
        self.sources.add(path.to_string(), Ok(text.to_string()));
        self.sizes.retain(|(p, _)| p != path);
        self.sizes.push((path.to_string(), text.len() as u64));
        self.clock += 1;
    }

    fn remove(&mut self, path: &str) {
        self.sources.add(path.to_string(), Err("No such file".to_string()));
        self.sizes.retain(|(p, _)| p != path);
    }

    fn event(&self, path: &str) -> WatchEvent {
        let disk = match self.sizes.iter().find(|(p, _)| p == path) {
            Some((_, size)) => DiskState::File(Some(FileMeta {
                size: *size,
                modified: Timestamp { secs: self.clock, nanos: 0 },
            })),
            None => DiskState::Missing,
        };
        WatchEvent::new(Some(path.to_string()), false, disk)
    }

    fn handle(&mut self, max_file_size: u64, events: Vec<WatchEvent>) -> WatcherEventStats {
        handle_events(
            &self.configs,
            &mut self.cache,
            &self.sources,
            &mut self.file_tree,
            &mut self.symbol_table,
            max_file_size,
            &events,
            &self.filter,
        )
    }

    fn cached_callees(&self, rel_path: &str) -> Vec<String> {
        match self.file_tree.call_site_cache_lookup(rel_path, 1_000_000) {
            CallSiteCacheLookup::Hit(facts) => facts.into_iter().map(|fact| fact.callee).collect(),
            other => panic!("expected cached call sites for {rel_path}, got {other:?}"),
        }
    }
}

#[test]
fn path_filter_skips_gitignored_and_hidden_paths_before_indexing() {
    let mut project = Project::new(".runtime/\ngenerated/\n");
    project.write("src/main.rs", "pub fn indexed() {}\n");
    project.write(".runtime/state.json", "{}\n");
    project.write("generated/out.rs", "pub fn ignored() {}\n");

    assert!(!project.filter.should_process(&Some(String::new()), true));

    let events = vec![
        WatchEvent::new(Some(String::new()), true, DiskState::Other),
        project.event("src/main.rs"),
        project.event(".runtime/state.json"),
        project.event("generated/out.rs"),
    ];
    let stats = project.handle(1_000_000, events);

    assert_eq!(stats.raw_events, 4);
    assert_eq!(stats.changed_files, 1);
    assert_eq!(stats.skipped_events, 3);
    assert!(project.file_tree.get("src/main.rs").is_some());
    assert!(project.file_tree.get(".runtime/state.json").is_none());
    assert!(project.file_tree.get("generated/out.rs").is_none());
}

#[test]
fn event_kind_filter_ignores_read_access_noise() {
    assert!(!should_process_event_kind(&EventKind::Access(
        AccessKind::Open(AccessMode::Read)
    )));
    assert!(!should_process_event_kind(&EventKind::Access(
        AccessKind::Close(AccessMode::Read)
    )));
    assert!(!should_process_event_kind(&EventKind::Modify(
        ModifyKind::Metadata(MetadataKind::AccessTime)
    )));
    assert!(should_process_event_kind(&EventKind::Access(
        AccessKind::Close(AccessMode::Write)
    )));
    assert!(should_process_event_kind(&EventKind::Modify(
        ModifyKind::Data(DataChange::Content)
    )));
}

#[test]
fn other_event_kinds_are_told_apart() {
    assert!(should_process_event_kind(&EventKind::Any));
    assert!(should_process_event_kind(&EventKind::Create));
    assert!(should_process_event_kind(&EventKind::Remove));
    assert!(should_process_event_kind(&EventKind::Modify(ModifyKind::Name)));
    assert!(should_process_event_kind(&EventKind::Modify(
        ModifyKind::Metadata(MetadataKind::WriteTime)
    )));
    assert!(!should_process_event_kind(&EventKind::Other));
    assert!(!should_process_event_kind(&EventKind::Access(AccessKind::Any)));
}

#[test]
fn duplicate_events_reparse_supported_file_once() {
    let mut project = Project::new("");
    project.write("src/main.rs", "pub fn first() -> usize { 1 }\n");

    let events = vec![
        project.event("src/main.rs"),
        project.event("src/main.rs"),
        project.event("src/main.rs"),
    ];
    let stats = project.handle(1_000_000, events);

    assert_eq!(stats.raw_events, 3);
    assert_eq!(stats.changed_files, 1);
    assert_eq!(stats.reparsed_files, 1);
    assert_eq!(project.file_tree.len(), 1);
    assert_eq!(project.symbol_table.len(), 1);
    assert!(project.symbol_table.get("src/main.rs", "first").is_some());
}

#[test]
fn oversize_edit_removes_file_and_stale_symbols() {
    let mut project = Project::new("");
    project.write("src/main.rs", "pub fn stale() -> usize { 1 }\n");

    let events = vec![project.event("src/main.rs")];
    let initial = project.handle(1_000_000, events);
    assert_eq!(initial.reparsed_files, 1);
    assert!(project.symbol_table.get("src/main.rs", "stale").is_some());
    assert_eq!(project.cached_callees("src/main.rs"), Vec::<String>::new());

    project.write("src/main.rs", &"pub fn too_large() {}\n".repeat(20));
    let events = vec![project.event("src/main.rs")];
    let stats = project.handle(10, events);

    assert_eq!(stats.changed_files, 0);
    assert_eq!(stats.reparsed_files, 0);
    assert_eq!(stats.removed_oversize_files, 1);
    assert!(project.file_tree.get("src/main.rs").is_none());
    assert_eq!(
        project.file_tree.call_site_cache_lookup("src/main.rs", 1_000_000),
        CallSiteCacheLookup::Miss(CallSiteCacheMissReason::Missing)
    );
    assert_eq!(project.symbol_table.len(), 0);
}

#[test]
fn changed_file_refreshes_call_site_cache_and_drops_stale_callers() {
    let mut project = Project::new("");
    project.write(
        "src/main.rs",
        "\
fn target() {}
fn old_call() { target(); }
",
    );

    let events = vec![project.event("src/main.rs")];
    let initial = project.handle(1_000_000, events);
    assert_eq!(initial.reparsed_files, 1);
    assert_eq!(project.cached_callees("src/main.rs"), vec!["target"]);

    project.write(
        "src/main.rs",
        "\
fn target() {}
fn marker() { let _text = \"fn old_call() { target(); }\"; }
fn fresh_call() { target(); }
",
    );

    let events = vec![project.event("src/main.rs")];
    let stats = project.handle(1_000_000, events);

    assert_eq!(stats.changed_files, 1);
    assert_eq!(stats.reparsed_files, 1);
    assert_eq!(project.cached_callees("src/main.rs"), vec!["target"]);

    let callers = find_callers(
        &project.configs,
        &mut project.cache,
        &project.sources,
        &project.file_tree,
        &project.symbol_table,
        "target",
        "src/main.rs",
        10,
    )
    .unwrap();
    assert_eq!(callers.len(), 1);
    assert_eq!(callers[0].line, 3);
    assert_eq!(callers[0].text, "fn fresh_call() { target(); }");
}

#[test]
fn delete_then_recreate_with_unsupported_extension_matches_disk() {
    let mut project = Project::new("");
    project.write("src/main.rs", "pub fn removed() -> usize { 1 }\n");
    let events = vec![project.event("src/main.rs")];
    project.handle(1_000_000, events);
    assert!(project.symbol_table.get("src/main.rs", "removed").is_some());
    assert_eq!(project.cached_callees("src/main.rs"), Vec::<String>::new());

    project.remove("src/main.rs");
    project.write("src/main.txt", "notes only\n");

    let events = vec![
        project.event("src/main.rs"),
        project.event("src/main.txt"),
        project.event("src/main.txt"),
    ];
    let stats = project.handle(1_000_000, events);

    assert_eq!(stats.deleted_files, 1);
    assert_eq!(stats.changed_files, 1);
    assert_eq!(stats.reparsed_files, 0);
    assert!(project.file_tree.get("src/main.rs").is_none());
    assert_eq!(
        project.file_tree.call_site_cache_lookup("src/main.rs", 1_000_000),
        CallSiteCacheLookup::Miss(CallSiteCacheMissReason::Missing)
    );
    assert!(project.file_tree.get("src/main.txt").is_some());
    assert_eq!(project.symbol_table.len(), 0);
}

#[test]
fn every_event_is_accounted_for() {
    let mut project = Project::new("");
    project.write("a.rs", "fn a() {}\n");
    let events = vec![
        project.event("a.rs"),
        project.event("gone.rs"),
        WatchEvent::new(None, false, DiskState::Missing),
        WatchEvent::new(Some("odd.rs".to_string()), false, DiskState::File(None)),
        WatchEvent::new(Some("dir.rs".to_string()), false, DiskState::Other),
        project.event("target/debug/x.rs"),
    ];
    let stats = project.handle(1_000_000, events);
    assert_eq!(
        stats,
        WatcherEventStats {
            raw_events: 6,
            changed_files: 1,
            reparsed_files: 1,
            deleted_files: 1,
            removed_oversize_files: 0,
            skipped_events: 4,
        }
    );
    assert_eq!(stats.unique_paths(), 6);
    assert!(stats.index_changed());
    assert!(!WatcherEventStats::default().index_changed());
    assert_eq!(WatcherEventStats::default().unique_paths(), 0);
}

#[test]
fn a_file_that_cannot_be_read_stays_in_the_index_without_symbols() {
    let mut project = Project::new("");
    project.write("a.rs", "fn a() {}\n");
    let events = vec![project.event("a.rs")];
    project.handle(1_000_000, events);
    assert_eq!(project.symbol_table.len(), 1);
    project.sources.add("a.rs".to_string(), Err("denied".to_string()));
    let events = vec![project.event("a.rs")];
    let stats = project.handle(1_000_000, events);
    assert_eq!(stats.changed_files, 1);
    assert_eq!(stats.reparsed_files, 0);
    assert!(!project.file_tree.get("a.rs").unwrap().symbols_extracted);
    assert_eq!(project.symbol_table.len(), 0);
}

#[test]
fn ignored_extensions_are_not_followed() {
    let mut rules = IgnoreRules::builtin();
    rules.extensions.push("png".to_string());
    assert!(rules.should_ignore_extension("img/logo.png"));
    assert!(!rules.should_ignore_extension("img/png"));
    let filter = WatchPathFilter::new(ROOT, rules, &Vec::new());
    assert!(!filter.should_process(&Some("img/logo.png".to_string()), false));
    assert!(filter.should_process(&Some("img/logo.svg".to_string()), false));
    assert!(!filter.should_process(&Some("img".to_string()), true));
    assert!(!filter.should_process(&None, false));
    assert!(filter.rules().should_ignore_dir("node_modules"));
}

#[test]
fn patterns_are_negated_anchored_and_marked() {
    let patterns = read_patterns("\u{feff}*.log\r\n!keep.log\n/only\n");
    assert_eq!(patterns, vec!["*.log", "!keep.log", "/only"]);
    let filter = WatchPathFilter::new(ROOT, IgnoreRules::builtin(), &patterns);
    let follows = |path: &str| filter.should_process(&Some(path.to_string()), false);
    assert!(!follows("a/b.log"));
    assert!(follows("a/keep.log"));
    assert!(!follows("only/x.rs"));
    assert!(follows("sub/only/x.rs"));
}

#[test]
fn skipped_and_hidden_components_are_found_anywhere() {
    let rules = IgnoreRules::builtin();
    assert!(should_skip(&rules, "web/node_modules/x.js"));
    assert!(should_skip(&rules, "a/target"));
    assert!(should_skip(&rules, "coverage/lcov.info"));
    assert!(!should_skip(&rules, "src/coverage.rs"));
    assert!(!should_skip(&rules, "a/targets"));
    assert!(has_hidden_component("a/.b/c"));
    assert!(has_hidden_component("./a"));
    assert!(!has_hidden_component("a/./b"));
    assert!(!has_hidden_component("a.b/c"));
    assert!(should_watch_entry(&rules, Some("")));
    assert!(should_watch_entry(&rules, Some("src/.hidden")));
    assert!(!should_watch_entry(&rules, Some("vendor")));
    assert!(!should_watch_entry(&rules, None));
}

fn changed(path: &str) -> ChangedPath {
    ChangedPath { rel_path: Some(path.to_string()), is_dir: false }
}

#[test]
fn changes_are_collected_and_flushed_once_in_order() {
    let filter = WatchPathFilter::new(ROOT, IgnoreRules::builtin(), &Vec::new());
    let mut debouncer = Debouncer::new();
    assert_eq!(debouncer.wait(), Wait::Forever);
    let first = Received::Event(vec![changed("b.rs"), changed(".git/x"), changed("a.rs")]);
    assert_eq!(debouncer.step(&filter, first), DebounceStep::Continue);
    assert_eq!(debouncer.wait(), Wait::Millis(DEBOUNCE_MILLIS));
    assert_eq!(DEBOUNCE_MILLIS, 500);
    let second = Received::Event(vec![changed("b.rs"), ChangedPath { rel_path: None, is_dir: false }]);
    assert_eq!(debouncer.step(&filter, second), DebounceStep::Continue);
    assert_eq!(debouncer.step(&filter, Received::Failed), DebounceStep::Report);
    assert_eq!(
        debouncer.step(&filter, Received::TimedOut),
        DebounceStep::Flush(vec!["a.rs".to_string(), "b.rs".to_string()])
    );
    assert_eq!(debouncer.wait(), Wait::Forever);
    assert_eq!(debouncer.step(&filter, Received::TimedOut), DebounceStep::Continue);
    assert_eq!(debouncer.step(&filter, Received::Disconnected), DebounceStep::Stop);
    assert_eq!(debouncer.step(&filter, Received::Shutdown), DebounceStep::Stop);
}

#[test]
fn only_relevant_paths_are_passed_on() {
    let filter = WatchPathFilter::new(ROOT, IgnoreRules::builtin(), &Vec::new());
    let paths = vec![
        changed("b.rs"),
        changed("vendor/x.rs"),
        ChangedPath { rel_path: Some("d".to_string()), is_dir: true },
        changed("a.rs"),
    ];
    assert_eq!(relevant_paths(&filter, &EventKind::Create, &paths), vec!["b.rs", "a.rs"]);
    assert!(relevant_paths(&filter, &EventKind::Other, &paths).is_empty());
}

#[test]
fn changes_of_one_file_leave_the_others_as_they_are() {
    let mut project = Project::new("");
    project.write("a.rs", "fn a() { b(); }\n");
    project.write("b.rs", "fn b() {}\n");
    let events = vec![project.event("a.rs"), project.event("b.rs")];
    project.handle(1_000_000, events);
    let before = project.file_tree.get("a.rs");
    project.remove("b.rs");
    let events = vec![project.event("b.rs")];
    project.handle(1_000_000, events);
    assert_eq!(project.file_tree.get("a.rs"), before);
    assert_eq!(project.cached_callees("a.rs"), vec!["b"]);
    assert!(project.symbol_table.get("a.rs", "a").is_some());
    assert!(project.symbol_table.get("b.rs", "b").is_none());
    assert!(project.file_tree.get("b.rs").is_none());
}

#[test]
fn of_several_events_for_a_path_the_last_one_holds() {
    let mut project = Project::new("");
    project.write("a.rs", "fn a() {}\n");
    let present = project.event("a.rs");
    let gone = WatchEvent::new(Some("a.rs".to_string()), false, DiskState::Missing);
    let stats = project.handle(1_000_000, vec![present, gone]);
    assert_eq!((stats.changed_files, stats.deleted_files), (0, 1));
    assert!(project.file_tree.get("a.rs").is_none());
    let present = project.event("a.rs");
    let gone = WatchEvent::new(Some("a.rs".to_string()), false, DiskState::Missing);
    project.handle(1_000_000, vec![gone, present]);
    assert!(project.file_tree.get("a.rs").unwrap().symbols_extracted);
}

#[test]
fn events_leave_the_symbols_of_other_files() {
    let mut project = Project::new("");
    project.write("src/a.rs", "fn a() {}\n");
    project.write("src/b.rs", "fn b() { a(); }\n");
    project.write("src/c.rs", "fn c() {}\n");
    let events = vec![
        project.event("src/a.rs"),
        project.event("src/b.rs"),
        project.event("src/c.rs"),
    ];
    let stats = project.handle(1_000_000, events);
    assert_eq!((stats.raw_events, stats.changed_files), (3, 3));
    let kept = project.symbol_table.get("src/b.rs", "b");
    let sites = project.cached_callees("src/b.rs");
    assert_eq!(sites, vec!["a"]);

    project.write("src/a.rs", "fn renamed() {}\n");
    project.write("src/b.rs", "fn unseen() {}\n");
    project.remove("src/c.rs");
    let events = vec![
        project.event("src/c.rs"),
        project.event("src/a.rs"),
        project.event("src/a.rs"),
    ];
    let stats = project.handle(1_000_000, events);

    assert_eq!(stats.raw_events, 3);
    assert_eq!((stats.changed_files, stats.deleted_files, stats.skipped_events), (1, 1, 0));
    assert_eq!(project.symbol_table.get("src/b.rs", "b"), kept);
    assert!(project.symbol_table.get("src/b.rs", "unseen").is_none());
    assert_eq!(project.cached_callees("src/b.rs"), sites);
    assert!(project.symbol_table.get("src/a.rs", "a").is_none());
    assert!(project.symbol_table.get("src/a.rs", "renamed").is_some());
    assert_eq!(project.symbol_table.len(), 2);
}
