use coderlm::index::file_entry::{FileEntry, Language, Timestamp};
use coderlm::index::file_tree::FileTree;
use coderlm::ops::symbol_ops::callers::{
    find_callers, find_callers_ast, find_callers_regex, is_definition_line,
};
use coderlm::ops::symbol_ops::lookup::{
    callable_name_for_symbol, elixir_bare_symbol_name, find_symbol_for_lookup,
    symbol_matches_query,
};
use coderlm::ops::symbol_ops::tests_of::{
    clean_elixir_test_name, find_tests, is_elixir_test_file, is_test_symbol, name_test,
    try_find_tests, ExUnitBlock,
};
use coderlm::ops::symbol_ops::variables::{list_variables, list_variables_regex, try_list_variables};
use coderlm::ops::symbol_ops::{
    define_symbol, get_implementation, list_symbols, redefine_symbol, search_symbols,
};
use coderlm::sources::Sources;
use coderlm::symbols::identity::{
    apply_elixir_function_identities, count_elixir_arguments, elixir_arity_from_signature,
    find_matching_paren,
};
use coderlm::symbols::parser::{
    associate_methods, deduplicate, extract_all_symbols, extract_symbols_from_file, ExtractError,
};
use coderlm::symbols::queries::{LanguageConfig, LanguageConfigs, QueryCache, TestPattern};
use coderlm::symbols::symbol::{Symbol, SymbolKind};
use coderlm::symbols::SymbolTable;

fn symbol(file: &str, name: &str, kind: SymbolKind, bytes: (usize, usize), line: usize) -> Symbol {
    Symbol {
        name: name.to_string(),
        kind,
        file: file.to_string(),
        byte_range: bytes,
        line_range: (line, line),
        language: Language::from_path(file),
        signature: format!("fn {name}()"),
        definition: None,
        parent: None,
    }
}

fn function(file: &str, name: &str, line: usize) -> Symbol {
    symbol(file, name, SymbolKind::Function, (0, 10), line)
}

fn names(symbols: &[Symbol]) -> Vec<&str> {
    symbols.iter().map(|s| s.name.as_str()).collect()
}

fn configs() -> LanguageConfigs {
    let mut configs = LanguageConfigs::builtin();
    configs.register(
        Language::Rust,
        LanguageConfig {
            language: tree_sitter_rust::LANGUAGE.into(),
            symbols_query: r#"
(source_file (function_item name: (identifier) @function.name) @function.def)
(struct_item name: (type_identifier) @struct.name) @struct.def
(impl_item
  type: (type_identifier) @impl.type
  body: (declaration_list
    (function_item name: (identifier) @method.name) @method.def))
"#,
            callers_query: "(call_expression function: (identifier) @callee)",
            variables_query: "(let_declaration pattern: (identifier) @var.name)",
            test_patterns: vec![TestPattern::Attribute("test")],
        },
    );
    configs.register(
        Language::Python,
        LanguageConfig {
            language: tree_sitter_python::LANGUAGE.into(),
            symbols_query: r#"
(class_definition name: (identifier) @class.name) @class.def
(function_definition name: (identifier) @function.name) @function.def
"#,
            callers_query: "(not_a_node) @callee",
            variables_query: "(not_a_node) @var.name",
            test_patterns: vec![TestPattern::FunctionPrefix("test_")],
        },
    );
    configs.register(
        Language::Go,
        LanguageConfig {
            language: tree_sitter_python::LANGUAGE.into(),
            symbols_query: "(not_a_node) @function.name",
            callers_query: "",
            variables_query: "",
            test_patterns: Vec::new(),
        },
    );
    configs
}

fn entry(path: &str, size: usize) -> FileEntry {
    FileEntry::new(path.to_string(), size as u64, Timestamp { secs: 1, nanos: 0 })
}

#[test]
fn rust_symbols_have_kinds_ranges_signatures_and_parents() {
    let configs = configs();
    let mut cache = QueryCache::new();
    let mut sources = Sources::new();
    let text = "struct Pool {\n    size: usize,\n}\n\nimpl Pool {\n    fn take(&self) -> usize {\n        1\n    }\n}\n\nfn run() {}\n";
    sources.add("src/pool.rs".to_string(), Ok(text.to_string()));
    let found =
        extract_symbols_from_file(&configs, &mut cache, &sources, "src/pool.rs", Language::Rust)
            .unwrap();
    assert_eq!(names(&found), vec!["Pool", "take", "run"]);
    assert_eq!(found[0].kind, SymbolKind::Struct);
    assert_eq!(found[0].byte_range, (0, 32));
    assert_eq!(found[0].line_range, (1, 3));
    assert_eq!(found[0].signature, "struct Pool {");
    assert_eq!(found[1].kind, SymbolKind::Method);
    assert_eq!(found[1].parent.as_deref(), Some("Pool"));
    assert_eq!(found[1].line_range, (6, 8));
    assert_eq!(found[2].kind, SymbolKind::Function);
    assert_eq!(found[2].parent, None);
    assert!(found.iter().all(|s| s.file == "src/pool.rs" && s.definition.is_none()));
}

#[test]
fn python_functions_in_a_class_become_its_methods() {
    let configs = configs();
    let mut cache = QueryCache::new();
    let mut sources = Sources::new();
    let text = "class A:\n    def m(self):\n        pass\n\ndef f():\n    pass\n";
    sources.add("a.py".to_string(), Ok(text.to_string()));
    let found =
        extract_symbols_from_file(&configs, &mut cache, &sources, "a.py", Language::Python).unwrap();
    assert_eq!(names(&found), vec!["A", "m", "f"]);
    assert_eq!(found[1].kind, SymbolKind::Method);
    assert_eq!(found[1].parent.as_deref(), Some("A"));
    assert_eq!(found[2].kind, SymbolKind::Function);
    assert_eq!(found[2].parent, None);
}

#[test]
fn extraction_fails_where_a_file_or_a_query_does() {
    let configs = configs();
    let mut cache = QueryCache::new();
    let mut sources = Sources::new();
    sources.add("a.go".to_string(), Ok("package a".to_string()));
    let mut extract = |path: &str, language: Language| {
        extract_symbols_from_file(&configs, &mut cache, &sources, path, language)
    };
    assert_eq!(
        extract("missing.rs", Language::Rust),
        Err(ExtractError::Read("not loaded".to_string()))
    );
    match extract("a.go", Language::Go) {
        Err(ExtractError::Query(message)) => assert!(message.contains("not_a_node"), "{message}"),
        other => panic!("{other:?}"),
    }
    assert_eq!(extract("missing.md", Language::Markdown), Ok(Vec::new()));
    assert_eq!(extract("missing.java", Language::Java), Ok(Vec::new()));
}

#[test]
fn all_files_are_extracted_and_marked() {
    let configs = configs();
    let mut cache = QueryCache::new();
    let mut sources = Sources::new();
    let mut tree = FileTree::new();
    let mut table = SymbolTable::new();
    for (path, text) in [("a.rs", "fn a() {}\nfn b() {}\n"), ("b.py", "def c():\n    pass\n"), ("n.md", "# n\n")] {
        sources.add(path.to_string(), Ok(text.to_string()));
        tree.insert(entry(path, text.len()));
    }
    tree.insert(entry("gone.rs", 1));
    assert_eq!(
        extract_all_symbols(&configs, &mut cache, &sources, &mut tree, &mut table),
        3
    );
    assert_eq!(table.len(), 3);
    assert!(table.get("a.rs", "b").is_some());
    assert!(tree.get("a.rs").unwrap().symbols_extracted);
    assert!(tree.get("b.py").unwrap().symbols_extracted);
    assert!(!tree.get("gone.rs").unwrap().symbols_extracted);
    assert!(!tree.get("n.md").unwrap().symbols_extracted);
    let again = extract_all_symbols(&configs, &mut cache, &sources, &mut tree, &mut table);
    assert_eq!((again, table.len()), (3, 3));
}

#[test]
fn of_equal_names_the_larger_or_more_specific_symbol_stays() {
    let small = symbol("a.zig", "X", SymbolKind::Struct, (5, 9), 1);
    let large = symbol("a.zig", "X", SymbolKind::Constant, (0, 20), 2);
    let kept = deduplicate(&vec![small, large]);
    assert_eq!(kept.len(), 1);
    assert_eq!(kept[0].kind, SymbolKind::Constant);

    let constant = symbol("a.zig", "X", SymbolKind::Constant, (0, 20), 1);
    let precise = symbol("a.zig", "X", SymbolKind::Struct, (0, 20), 1);
    let later = symbol("a.zig", "X", SymbolKind::Enum, (30, 50), 3);
    let kept = deduplicate(&vec![constant, precise, later, symbol("b.zig", "X", SymbolKind::Enum, (0, 1), 1)]);
    assert_eq!(kept.len(), 2);
    assert_eq!(kept[0].kind, SymbolKind::Struct);
    assert_eq!(kept[1].file, "b.zig");
}

#[test]
fn methods_belong_to_the_first_class_around_them() {
    let outer = symbol("a.py", "Outer", SymbolKind::Class, (0, 100), 1);
    let inner = symbol("a.py", "Inner", SymbolKind::Class, (10, 50), 2);
    let method = symbol("a.py", "m", SymbolKind::Function, (20, 30), 3);
    let other = symbol("a.py", "f", SymbolKind::Function, (90, 120), 9);
    let done = associate_methods(&vec![outer, inner, method, other]);
    assert_eq!(done[2].kind, SymbolKind::Method);
    assert_eq!(done[2].parent.as_deref(), Some("Outer"));
    assert_eq!(done[3].kind, SymbolKind::Function);
    assert_eq!(done[3].parent, None);
}

#[test]
fn arguments_are_counted_outside_of_brackets_and_strings() {
    assert_eq!(count_elixir_arguments("  "), 0);
    assert_eq!(count_elixir_arguments("a"), 1);
    assert_eq!(count_elixir_arguments("{a, b}, [c, d], f(e, g), \"x, y\""), 4);
    assert_eq!(count_elixir_arguments("'a\\', b', c"), 2);
    assert_eq!(count_elixir_arguments("), a"), 2);
    assert_eq!(elixir_arity_from_signature("def f(a, b) do", "f"), 2);
    assert_eq!(elixir_arity_from_signature("def run do", "run"), 0);
    assert_eq!(elixir_arity_from_signature("def run(a", "run"), 0);
    assert_eq!(elixir_arity_from_signature("def other(a)", "run"), 0);
    let text: Vec<char> = "f(a(\")\"), b)c".chars().collect();
    assert_eq!(find_matching_paren(&text, 1), Some(11));
    assert_eq!(find_matching_paren(&text, 3), Some(7));
    assert_eq!(find_matching_paren(&text, 12), None);
}

#[test]
fn clauses_are_numbered_and_names_stay_distinct() {
    let mut symbols: Vec<Symbol> = ["def f(a)", "def f(b)", "def f(a, b)", "def f(c)"]
        .iter()
        .enumerate()
        .map(|(i, signature)| {
            let mut s = function("a.ex", "f", i + 1);
            s.signature = signature.to_string();
            s
        })
        .collect();
    symbols.push(symbol("a.ex", "A", SymbolKind::Module, (0, 1), 9));
    apply_elixir_function_identities(&mut symbols);
    assert_eq!(names(&symbols), vec!["f/1", "f/1#clause2", "f/2", "f/1#clause3", "A"]);
    for s in &symbols[..4] {
        assert_eq!(elixir_bare_symbol_name(&s.name), "f");
    }
}

#[test]
fn bare_names_and_queries_ignore_letter_case_only_where_asked() {
    assert_eq!(elixir_bare_symbol_name("a/2#clause3"), "a");
    assert_eq!(elixir_bare_symbol_name("a#clause2/1"), "a");
    assert_eq!(elixir_bare_symbol_name("plain"), "plain");
    let elixir = function("a.ex", "Run/1", 1);
    let rust = function("a.rs", "Run/1", 1);
    assert!(symbol_matches_query(&elixir, "RUN"));
    assert!(symbol_matches_query(&elixir, "run/1"));
    assert!(!symbol_matches_query(&rust, "run"));
    assert!(symbol_matches_query(&rust, "rUN/1"));
    assert_eq!(callable_name_for_symbol(&elixir), "Run");
    assert_eq!(callable_name_for_symbol(&rust), "Run/1");
    let umlaut = function("a.rs", "\u{c4}rger", 1);
    assert!(symbol_matches_query(&umlaut, "\u{e4}rger"));
}

#[test]
fn lookup_prefers_the_exact_name_then_the_first_line() {
    let mut table = SymbolTable::new();
    table.insert(function("a.ex", "f/2", 9));
    table.insert(function("a.ex", "f/1", 3));
    assert_eq!(find_symbol_for_lookup(&table, "a.ex", "f/2").unwrap().name, "f/2");
    assert_eq!(find_symbol_for_lookup(&table, "a.ex", "f").unwrap().name, "f/1");
    assert!(find_symbol_for_lookup(&table, "b.ex", "f").is_none());
}

#[test]
fn the_table_keeps_one_symbol_for_a_file_and_name() {
    let mut table = SymbolTable::new();
    table.insert(function("a.rs", "x", 1));
    table.insert(function("a.rs", "x", 7));
    table.insert(function("b.rs", "x", 2));
    assert_eq!(table.len(), 2);
    assert_eq!(table.get("a.rs", "x").unwrap().line_range.0, 7);
    assert_eq!(SymbolTable::make_key("a.rs", "x"), "a.rs::x");
    assert_eq!(table.all_symbols().len(), 2);
    assert_eq!(table.list_by_file("b.rs").len(), 1);
    table.remove_file("a.rs");
    assert!(table.get("a.rs", "x").is_none());
    assert!(table.list_by_file("a.rs").is_empty());
    assert!(table.get("b.rs", "x").is_some());
}

#[test]
fn listings_are_filtered_ordered_and_cut_off() {
    let mut table = SymbolTable::new();
    table.insert(function("b.rs", "later", 1));
    table.insert(function("a.rs", "second", 5));
    table.insert(function("a.rs", "zero", 2));
    table.insert(symbol("a.rs", "S", SymbolKind::Struct, (0, 1), 1));
    assert_eq!(names(&list_symbols(&table, None, None, 10)), vec!["S", "zero", "second", "later"]);
    assert_eq!(
        names(&list_symbols(&table, Some(SymbolKind::Function), None, 2)),
        vec!["zero", "second"]
    );
    assert_eq!(names(&list_symbols(&table, None, Some("b.rs"), 10)), vec!["later"]);
    assert!(list_symbols(&table, None, Some("c.rs"), 10).is_empty());
}

#[test]
fn searches_go_by_name_then_by_signature() {
    let mut table = SymbolTable::new();
    table.insert(function("src/a.rs", "Load", 1));
    let mut by_signature = function("src/b.rs", "other", 1);
    by_signature.signature = "fn other(x: LOADER)".to_string();
    table.insert(by_signature);
    table.insert(function("src/c.rs", "reload", 1));
    assert_eq!(names(&search_symbols(&table, "load", 10, None)), vec!["Load", "reload", "other"]);
    assert_eq!(names(&search_symbols(&table, "load", 2, None)), vec!["Load", "reload"]);
    assert_eq!(names(&search_symbols(&table, "load", 10, Some("b.rs"))), vec!["other"]);
    assert!(search_symbols(&table, "load", 0, None).is_empty());
    assert!(search_symbols(&table, "absent", 10, None).is_empty());
}

#[test]
fn definitions_are_set_once_and_then_replaced() {
    let mut table = SymbolTable::new();
    table.insert(function("a.rs", "x", 1));
    assert_eq!(define_symbol(&mut table, "x", "a.rs", "first"), Ok(()));
    assert_eq!(table.get("a.rs", "x").unwrap().definition.as_deref(), Some("first"));
    assert_eq!(
        define_symbol(&mut table, "x", "a.rs", "second"),
        Err("Symbol 'x' in 'a.rs' already has a definition. Use redefine.".to_string())
    );
    assert_eq!(redefine_symbol(&mut table, "x", "a.rs", "second"), Ok(()));
    assert_eq!(table.get("a.rs", "x").unwrap().definition.as_deref(), Some("second"));
    assert_eq!(
        define_symbol(&mut table, "y", "a.rs", "z"),
        Err("Symbol 'y' not found in 'a.rs'".to_string())
    );
    assert_eq!(
        redefine_symbol(&mut table, "y", "a.rs", "z"),
        Err("Symbol 'y' not found in 'a.rs'".to_string())
    );
}

#[test]
fn implementations_are_cut_off_at_the_end_of_the_file() {
    let mut table = SymbolTable::new();
    let mut sources = Sources::new();
    sources.add("a.rs".to_string(), Ok("xx fn \u{e4}()".to_string()));
    table.insert(symbol("a.rs", "f", SymbolKind::Function, (3, 90), 1));
    assert_eq!(get_implementation(&sources, &table, "F", "a.rs"), Ok("fn \u{e4}()".to_string()));
}

#[test]
fn definition_lines_follow_the_language() {
    let cases = [
        ("pub fn go() {", "go", Language::Rust, true),
        ("go();", "go", Language::Rust, false),
        ("  def go(self):", "go", Language::Python, true),
        ("const go = () => 1", "go", Language::TypeScript, true),
        ("function go() {}", "go", Language::JavaScript, true),
        ("func go() {", "go", Language::Go, true),
        ("private void go() {", "go", Language::Java, true),
        ("x.go();", "go", Language::Java, false),
        ("object go {", "go", Language::Scala, true),
        ("  defmacrop go(x) do", "go", Language::Elixir, true),
        ("  attr_reader :go", "go", Language::Ruby, true),
        ("  def self.go", "go", Language::Ruby, true),
        ("  case go;", "go", Language::Php, true),
        ("test \"go\" {", "go", Language::Zig, true),
        ("  test \"go\" {", "go", Language::Zig, false),
        ("Create TABLE Go (", "gO", Language::Sql, true),
        ("fn go", "go", Language::Markdown, false),
    ];
    for (line, name, language, expected) in cases {
        assert_eq!(is_definition_line(line, name, language), expected, "{line}");
    }
}

#[test]
fn text_callers_are_literal_and_skip_definitions_at_home() {
    let source = "class a.b\n  a.b()\naxb()\n";
    let home = find_callers_regex(source, "x.sql", "a.b", "x.sql");
    assert_eq!(home.len(), 1);
    assert_eq!((home[0].line, home[0].text.as_str(), home[0].file.as_str()), (2, "a.b()", "x.sql"));
    let away = find_callers_regex(source, "x.sql", "a.b", "y.sql");
    assert_eq!(away.iter().map(|c| c.line).collect::<Vec<_>>(), vec![1, 2]);
}

#[test]
fn callers_fall_back_to_the_text_without_a_tree() {
    let configs = configs();
    let mut cache = QueryCache::new();
    let source = "def go():\n    pass\ngo()\n";
    let python = find_callers_ast(&configs, &mut cache, source, "a.py", Language::Python, "go", "a.py");
    assert_eq!(python.iter().map(|c| c.line).collect::<Vec<_>>(), vec![3]);
    let java = find_callers_ast(&configs, &mut cache, "go();", "A.java", Language::Java, "go", "B.java");
    assert_eq!(java.len(), 1);
    let rust = find_callers_ast(&configs, &mut cache, "fn f() { go(); } // go()", "b.rs", Language::Rust, "go", "a.rs");
    assert_eq!(rust.len(), 1);
}

#[test]
fn callers_come_by_file_and_stop_at_the_limit() {
    let configs = configs();
    let mut sources = Sources::new();
    let mut tree = FileTree::new();
    let mut table = SymbolTable::new();
    for (path, text) in [
        ("a.rs", "fn go() {}\nfn f() { go(); }\n"),
        ("b.rs", "fn g() { go();\n go(); }\n"),
        ("c.md", "call go\n"),
        ("d.rs", "fn none() {}\n"),
    ] {
        sources.add(path.to_string(), Ok(text.to_string()));
        tree.insert(entry(path, text.len()));
    }
    tree.insert(entry("e.rs", 1));
    table.insert(function("a.rs", "go", 1));
    let mut cache = QueryCache::new();
    let mut places = |limit: usize| {
        find_callers(&configs, &mut cache, &sources, &tree, &table, "go", "a.rs", limit)
            .unwrap()
            .into_iter()
            .map(|c| (c.file, c.line))
            .collect::<Vec<_>>()
    };
    assert_eq!(
        places(10),
        vec![
            ("a.rs".to_string(), 2),
            ("b.rs".to_string(), 1),
            ("b.rs".to_string(), 2),
            ("c.md".to_string(), 1),
        ]
    );
    assert_eq!(places(2).len(), 2);
    assert_eq!(places(0).len(), 1);
}

#[test]
fn tests_of_a_symbol_are_test_functions_that_name_it() {
    let mut sources = Sources::new();
    let mut table = SymbolTable::new();
    let tree = FileTree::new();
    let mut cache = QueryCache::new();
    let text = "fn go() {}\nfn test_go() { go(); }\nfn test_no() {}\n";
    sources.add("a.rs".to_string(), Ok(text.to_string()));
    table.insert(symbol("a.rs", "go", SymbolKind::Function, (0, 10), 1));
    table.insert(symbol("a.rs", "test_go", SymbolKind::Function, (11, 33), 2));
    table.insert(symbol("a.rs", "test_no", SymbolKind::Function, (34, 49), 3));
    table.insert(symbol("gone.rs", "test_x", SymbolKind::Function, (0, 9), 1));
    let found = find_tests(&mut cache, &sources, &tree, &table, "go", "a.rs", 10).unwrap();
    assert_eq!(found.len(), 1);
    assert_eq!((found[0].name.as_str(), found[0].line), ("test_go", 2));
    assert_eq!(found[0].signature, "fn test_go()");
    table.insert(symbol("a.rs", "test_far", SymbolKind::Function, (500, 600), 9));
    assert_eq!(try_find_tests(&mut cache, &sources, &tree, &table, "go", "a.rs", 10), None);
}

#[test]
fn test_symbols_follow_names_and_files() {
    let is_test = |file: &str, name: &str| is_test_symbol(&function(file, name, 1));
    assert!(is_test("a.rs", "test_x"));
    assert!(is_test("x/tests/a.rs", "helper"));
    assert!(!is_test("tests/a.rs", "helper"));
    assert!(is_test("a_test.py", "helper"));
    assert!(is_test("a.spec.ts", "helper"));
    assert!(is_test("a.go", "TestX"));
    assert!(is_test("src/FooTest.java", "x"));
    assert!(is_test("FooSpec.scala", "x"));
    assert!(is_test("a_test.exs", "x"));
    assert!(is_test("a_spec.rb", "x"));
    assert!(is_test("FooTest.php", "x"));
    assert!(!is_test("a.zig", "test"));
    assert!(is_test_symbol(&symbol("a.zig", "x", SymbolKind::Test, (0, 1), 1)));
    assert!(!is_test("a.sql", "test"));
}

#[test]
fn exunit_names_are_cleaned_and_nested() {
    assert!(is_elixir_test_file("test/a_test.exs"));
    assert!(is_elixir_test_file("apps/x/test/support.ex"));
    assert!(!is_elixir_test_file("test/support.ex"));
    assert_eq!(clean_elixir_test_name(" \"a b\" "), "a b");
    assert_eq!(clean_elixir_test_name("'x'"), "x");
    let block = |kind: &str, label: &str, start: usize, end: usize| ExUnitBlock {
        kind: kind.to_string(),
        label: label.to_string(),
        start,
        end,
        line: 1,
        signature: String::new(),
    };
    let blocks = vec![
        block("describe", "outer", 0, 50),
        block("describe", "inner", 5, 40),
        block("test", "works", 10, 20),
        block("describe", "elsewhere", 60, 90),
    ];
    assert_eq!(name_test(&blocks, &blocks[2]), "test outer > inner > works");
}

fn variables(body: &str, language: Language) -> Vec<String> {
    list_variables_regex(body, language, "f").into_iter().map(|v| v.name).collect()
}

#[test]
fn variables_in_a_text_are_sorted_and_listed_once() {
    assert_eq!(variables("let mut b = 1; let a = 2; let a = 3;", Language::Rust), vec!["a", "b"]);
    assert_eq!(variables("  x = 1", Language::Python), vec!["x"]);
    assert!(variables("  _x = 1", Language::Python).is_empty());
    assert!(variables("  self = 1", Language::Python).is_empty());
    assert_eq!(variables("const b; var a", Language::JavaScript), vec!["a", "b"]);
    assert_eq!(variables("b := 1; var a int", Language::Go), vec!["a", "b"]);
    assert_eq!(variables("int x = 1; String s;", Language::Java), vec!["s", "x"]);
    assert_eq!(variables("val v = 1", Language::Scala), vec!["v"]);
    assert_eq!(
        variables("def go(b, {a, c}) do\n x = 1\n y <- z", Language::Elixir),
        vec!["a", "b", "c", "x", "y"]
    );
    assert_eq!(variables("  lower = 1", Language::Ruby), vec!["lower"]);
    assert!(variables("  Upper = 1", Language::Ruby).is_empty());
    assert_eq!(variables("$this->x = $y", Language::Php), vec!["y"]);
    assert_eq!(variables("const c = 1; var d = 2;", Language::Zig), vec!["c", "d"]);
    assert_eq!(variables("declare @n INT; m INT := 1", Language::Sql), vec!["m", "n"]);
    assert!(variables("let x = 1", Language::Markdown).is_empty());
}

#[test]
fn variables_of_a_function_come_from_its_tree_or_its_text() {
    let configs = configs();
    let mut sources = Sources::new();
    let mut table = SymbolTable::new();
    let text = "fn f() { let b = 1; let a = 2; let b = 3; }\nfn g() { let c = 1; }\n";
    sources.add("a.rs".to_string(), Ok(text.to_string()));
    sources.add("a.py".to_string(), Ok("  z = 1\n".to_string()));
    table.insert(symbol("a.rs", "f", SymbolKind::Function, (0, 43), 1));
    table.insert(symbol("a.py", "p", SymbolKind::Function, (0, 90), 1));
    table.insert(symbol("a.py", "late", SymbolKind::Function, (50, 90), 1));
    let mut cache = QueryCache::new();
    let found = list_variables(&configs, &mut cache, &sources, &table, "f", "a.rs").unwrap();
    let found: Vec<(String, String)> = found.into_iter().map(|v| (v.name, v.function)).collect();
    assert_eq!(
        found,
        vec![("b".to_string(), "f".to_string()), ("a".to_string(), "f".to_string())]
    );
    let python = list_variables(&configs, &mut cache, &sources, &table, "p", "a.py").unwrap();
    assert_eq!(python[0].name, "z");
    assert_eq!(try_list_variables(&configs, &mut cache, &sources, &table, "late", "a.py"), None);
}

#[test]
fn argument_counts_add_up() {
    assert_eq!(count_elixir_arguments(" \t\n"), 0);
    assert_eq!(count_elixir_arguments(""), 0);
    assert_eq!(count_elixir_arguments(" a "), 1);
    let parts = ["a", "{b, c}", "f(x, y)", "[1, 2]", "\"s, (\"", "k: 1, l: 2"];
    for a in parts {
        for b in parts {
            let both = format!("{a},{b}");
            assert_eq!(
                count_elixir_arguments(&both),
                count_elixir_arguments(a) + count_elixir_arguments(b)
            );
        }
    }
    assert_eq!(count_elixir_arguments("(a,b"), 1);
}

#[test]
fn signatures_and_variables_stand_in_the_text() {
    let configs = configs();
    let mut cache = QueryCache::new();
    let mut sources = Sources::new();
    let text = "fn größe() {\n    let maß = 1;\n}\n";
    sources.add("a.rs".to_string(), Ok(text.to_string()));
    let found =
        extract_symbols_from_file(&configs, &mut cache, &sources, "a.rs", Language::Rust).unwrap();
    assert_eq!(found.len(), 1);
    let (start, end) = found[0].byte_range;
    assert_eq!(found[0].signature, text[start..end].lines().next().unwrap());
    let mut table = SymbolTable::new();
    table.insert(found[0].clone());
    let variables = list_variables(&configs, &mut cache, &sources, &table, "größe", "a.rs").unwrap();
    assert_eq!(variables.len(), 1);
    assert_eq!(variables[0].name, "maß");
    assert!(text[start..end].contains(variables[0].name.as_str()));
}

#[test]
fn enclosed_commas_separate_nothing() {
    assert_eq!(count_elixir_arguments("{l, r}, [h | t], %{f: f}"), 3);
    assert_eq!(count_elixir_arguments("\"a,b\", c"), 2);
    for inner in ["a, b", "f(x, y), z", "\"),\", 1", ""] {
        assert_eq!(count_elixir_arguments(&format!("({inner})")), 1);
        assert_eq!(count_elixir_arguments(&format!("[{inner}]")), 1);
        assert_eq!(count_elixir_arguments(&format!("{{{inner}}}")), 1);
        assert_eq!(count_elixir_arguments(&format!("'{inner}'")), 1);
    }
    assert_eq!(elixir_arity_from_signature("def f({l, r}, [h | t], %{f: f}) when f do", "f"), 3);
}

#[test]
fn letter_case_is_set_aside_in_ascii_and_beyond() {
    assert!(is_definition_line("CREATE TABLE Orders (", "ORDERS", Language::Sql));
    assert!(!is_definition_line("CREATE TABLE Orders (", "ORDERZ", Language::Sql));
    assert!(is_definition_line("create function Gr\u{d6}sse()", "gr\u{f6}sse", Language::Sql));
    assert!(symbol_matches_query(&function("a.rs", "GetItem", 1), "getITEM"));
    assert!(!symbol_matches_query(&function("a.rs", "GetItem", 1), "getITEMS"));
}
