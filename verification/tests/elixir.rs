use coderlm::index::file_entry::{FileEntry, Language, Timestamp};
use coderlm::index::file_tree::FileTree;
use coderlm::ops::symbol_ops::callers::find_callers;
use coderlm::ops::symbol_ops::tests_of::{find_tests, try_find_tests};
use coderlm::ops::symbol_ops::variables::{list_variables, try_list_variables};
use coderlm::ops::symbol_ops::{
    get_implementation, list_symbols, search_symbols, try_get_implementation,
};
use coderlm::sources::Sources;
use coderlm::symbols::parser::extract_symbols_from_file;
use coderlm::symbols::queries::{
    cached_query_count_for_tests, LanguageConfigs, QueryCache, QueryKind,
};
use coderlm::symbols::symbol::SymbolKind;
use coderlm::symbols::SymbolTable;

const SAMPLE_FILE: &str = "lib/sample.ex";
const TEST_FILE: &str = "test/sample_test.exs";

const SAMPLE: &str = r#"defmodule Fixture.Sample do
  alias Fixture.Accounts.User
  alias Fixture.Accounts.UserProfile, as: AccountUserProfile
  import Ecto.Query
  require Logger
  use GenServer

  # alias Fixture.Commented.Out
  # normalize(user) is only mentioned here
  @noise "alias Fixture.StringNoise and normalize(user)"

  def public_fun(user, opts) do
    normalized = normalize(user)
    dynamic_module = Keyword.get(opts, :module, User)

    for item <- [normalized] do
      remote = Fixture.Remote.touch(item)
      dynamic_module.run(remote)
    end
  end

  def guarded(value) when is_integer(value) do
    value
  end

  defp normalize(user) do
    user
  end

  def add(value), do: value + 1
  def add(left, right), do: left + right

  def multi_clause(:ok), do: :ok
  def multi_clause(:error), do: :error

  def pattern_count({left, right}, [head | _tail], %{flag: flag}) when flag do
    {left, right, head}
  end

  def with_default(value, opts \\ []), do: {value, opts}

  defdelegate delegated(value), to: Fixture.Remote, as: :touch

  def noise do
    Logger.info(@noise)
    AccountUserProfile
  end
end
"#;

const TESTS: &str = r#"defmodule Fixture.SampleTest do
  use ExUnit.Case
  alias Fixture.Sample

  setup do
    {:ok, value: Sample.guarded(1)}
  end

  describe "public_fun behavior" do
    describe "nested context" do
      test "calls normalize directly" do
        assert Sample.public_fun(:user, [])
      end
    end

    test "public_fun is only named here" do
      assert true
    end
  end

  describe "guarded context without matching test body" do
    test "uses a different helper" do
      assert helper_for_public_fun()
    end
  end

  test "guarded can be referenced separately" do
    assert Sample.guarded(1) == 1
  end

  defp helper_for_public_fun do
    :ok
  end
end
"#;

struct Fixture {
    configs: LanguageConfigs,
    sources: Sources,
    file_tree: FileTree,
    symbol_table: SymbolTable,
}

fn index_elixir_fixture() -> Fixture {
    let configs = LanguageConfigs::builtin();
    let mut cache = QueryCache::new();
    let mut sources = Sources::new();
    let mut file_tree = FileTree::new();
    let mut symbol_table = SymbolTable::new();

    for (rel_path, text) in [(SAMPLE_FILE, SAMPLE), (TEST_FILE, TESTS)] {
        sources.add(rel_path.to_string(), Ok(text.to_string()));
        file_tree.insert(FileEntry::new(
            rel_path.to_string(),
            text.len() as u64,
            Timestamp { secs: 1, nanos: 0 },
        ));
        let language = file_tree.get(rel_path).unwrap().language;
        for symbol in
            extract_symbols_from_file(&configs, &mut cache, &sources, rel_path, language).unwrap()
        {
            symbol_table.insert(symbol);
        }
    }

    Fixture { configs, sources, file_tree, symbol_table }
}

#[test]
fn elixir_fixture_extracts_modules_public_private_and_guarded_functions() {
    let Fixture { symbol_table, .. } = index_elixir_fixture();

    let sample = symbol_table.get(SAMPLE_FILE, "Fixture.Sample").unwrap();
    assert_eq!(sample.kind, SymbolKind::Module);
    assert_eq!(sample.line_range, (1, 48));
    assert_eq!(sample.signature, "defmodule Fixture.Sample do");

    let public_fun = symbol_table.get(SAMPLE_FILE, "public_fun/2").unwrap();
    assert_eq!(public_fun.kind, SymbolKind::Function);
    assert_eq!(public_fun.line_range, (12, 20));
    assert_eq!(public_fun.signature, "def public_fun(user, opts) do");

    let guarded = symbol_table.get(SAMPLE_FILE, "guarded/1").unwrap();
    assert_eq!(guarded.kind, SymbolKind::Function);
    assert_eq!(guarded.line_range, (22, 24));
    assert_eq!(
        guarded.signature,
        "def guarded(value) when is_integer(value) do"
    );

    let private = symbol_table.get(SAMPLE_FILE, "normalize/1").unwrap();
    assert_eq!(private.kind, SymbolKind::Function);
    assert_eq!(private.line_range, (26, 28));
    assert_eq!(private.signature, "defp normalize(user) do");
}

#[test]
fn elixir_fixture_extracts_static_alias_import_require_and_use_relationships() {
    let Fixture { symbol_table, .. } = index_elixir_fixture();

    let user_alias = symbol_table
        .get(SAMPLE_FILE, "Fixture.Accounts.User")
        .unwrap();
    assert_eq!(user_alias.kind, SymbolKind::Import);
    assert_eq!(user_alias.signature, "alias Fixture.Accounts.User");

    let aliased_as = symbol_table
        .get(SAMPLE_FILE, "Fixture.Accounts.UserProfile")
        .unwrap();
    assert_eq!(aliased_as.kind, SymbolKind::Import);
    assert_eq!(
        aliased_as.signature,
        "alias Fixture.Accounts.UserProfile, as: AccountUserProfile"
    );

    let imported = symbol_table.get(SAMPLE_FILE, "Ecto.Query").unwrap();
    assert_eq!(imported.kind, SymbolKind::Import);
    assert_eq!(imported.signature, "import Ecto.Query");

    let required = symbol_table.get(SAMPLE_FILE, "Logger").unwrap();
    assert_eq!(required.kind, SymbolKind::Import);
    assert_eq!(required.signature, "require Logger");

    let used = symbol_table.get(SAMPLE_FILE, "GenServer").unwrap();
    assert_eq!(used.kind, SymbolKind::Import);
    assert_eq!(used.signature, "use GenServer");

    let imports = list_symbols(
        &symbol_table,
        Some(SymbolKind::Import),
        Some(SAMPLE_FILE),
        10,
    );
    let import_names: Vec<_> = imports.iter().map(|symbol| symbol.name.as_str()).collect();
    assert_eq!(
        import_names,
        [
            "Fixture.Accounts.User",
            "Fixture.Accounts.UserProfile",
            "Ecto.Query",
            "Logger",
            "GenServer"
        ]
    );
}

#[test]
fn elixir_fixture_ignores_relationships_in_comments_strings_and_dynamic_calls() {
    let Fixture { symbol_table, .. } = index_elixir_fixture();

    assert!(symbol_table
        .get(SAMPLE_FILE, "Fixture.Commented.Out")
        .is_none());
    assert!(symbol_table
        .get(SAMPLE_FILE, "Fixture.StringNoise")
        .is_none());
    assert!(symbol_table.get(SAMPLE_FILE, "dynamic_module").is_none());
}

#[test]
fn elixir_fixture_distinguishes_arities_and_multi_clauses() {
    let Fixture { symbol_table, .. } = index_elixir_fixture();

    assert_eq!(
        symbol_table.get(SAMPLE_FILE, "add/1").unwrap().signature,
        "def add(value), do: value + 1"
    );
    assert_eq!(
        symbol_table.get(SAMPLE_FILE, "add/2").unwrap().signature,
        "def add(left, right), do: left + right"
    );
    assert_eq!(
        symbol_table
            .get(SAMPLE_FILE, "multi_clause/1")
            .unwrap()
            .signature,
        "def multi_clause(:ok), do: :ok"
    );
    assert_eq!(
        symbol_table
            .get(SAMPLE_FILE, "multi_clause/1#clause2")
            .unwrap()
            .signature,
        "def multi_clause(:error), do: :error"
    );
    assert_eq!(
        symbol_table
            .get(SAMPLE_FILE, "pattern_count/3")
            .unwrap()
            .signature,
        "def pattern_count({left, right}, [head | _tail], %{flag: flag}) when flag do"
    );
    assert_eq!(
        symbol_table
            .get(SAMPLE_FILE, "with_default/2")
            .unwrap()
            .signature,
        "def with_default(value, opts \\\\ []), do: {value, opts}"
    );
    assert!(symbol_table.get(SAMPLE_FILE, "with_default/1").is_none());
    assert_eq!(
        symbol_table
            .get(SAMPLE_FILE, "delegated/1")
            .unwrap()
            .signature,
        "defdelegate delegated(value), to: Fixture.Remote, as: :touch"
    );
}

#[test]
fn elixir_fixture_bare_name_search_remains_useful() {
    let Fixture { symbol_table, .. } = index_elixir_fixture();

    let mut names: Vec<_> = search_symbols(&symbol_table, "add", 10, Some(SAMPLE_FILE))
        .into_iter()
        .map(|symbol| symbol.name)
        .collect();
    names.sort();

    assert_eq!(names, ["add/1", "add/2"]);
}

#[test]
fn elixir_fixture_returns_implementation_by_stable_byte_range() {
    let Fixture { sources, symbol_table, .. } = index_elixir_fixture();

    let implementation =
        get_implementation(&sources, &symbol_table, "public_fun", SAMPLE_FILE).unwrap();

    assert!(implementation.starts_with("def public_fun(user, opts) do"));
    assert!(implementation.contains("normalized = normalize(user)"));
    assert!(implementation.contains("remote = Fixture.Remote.touch(item)"));
    assert!(implementation.ends_with("  end"));
    assert!(!implementation.contains("def guarded"));
    assert_eq!(
        try_get_implementation(&sources, &symbol_table, "public_fun", SAMPLE_FILE),
        Some(Ok(implementation))
    );
}

#[test]
fn elixir_fixture_finds_code_callers_without_comment_or_string_hits() {
    let Fixture { configs, sources, file_tree, symbol_table } = index_elixir_fixture();

    let callers = find_callers(
        &configs,
        &mut QueryCache::new(),
        &sources,
        &file_tree,
        &symbol_table,
        "normalize/1",
        SAMPLE_FILE,
        10,
    )
    .unwrap();

    assert_eq!(callers.len(), 1);
    assert_eq!(callers[0].file, SAMPLE_FILE);
    assert_eq!(callers[0].line, 13);
    assert_eq!(callers[0].text, "normalized = normalize(user)");
}

#[test]
fn elixir_fixture_extracts_params_assignments_and_generator_bindings_once() {
    let Fixture { configs, sources, symbol_table, .. } = index_elixir_fixture();
    let mut cache = QueryCache::new();

    let variables =
        list_variables(&configs, &mut cache, &sources, &symbol_table, "public_fun", SAMPLE_FILE).unwrap();
    let mut names: Vec<_> = variables.iter().map(|var| var.name.as_str()).collect();
    names.sort_unstable();

    assert_eq!(
        names,
        [
            "dynamic_module",
            "item",
            "normalized",
            "opts",
            "remote",
            "user"
        ]
    );
    assert_eq!(
        try_list_variables(&configs, &mut cache, &sources, &symbol_table, "public_fun", SAMPLE_FILE),
        Some(Ok(variables))
    );
}

#[test]
fn elixir_fixture_finds_exunit_test_block_referencing_symbol() {
    let Fixture { sources, file_tree, symbol_table, .. } = index_elixir_fixture();
    let mut cache = QueryCache::new();

    let tests = find_tests(
        &mut cache,
        &sources,
        &file_tree,
        &symbol_table,
        "public_fun/2",
        SAMPLE_FILE,
        10,
    )
    .unwrap();

    assert_eq!(tests.len(), 1);
    assert_eq!(
        tests[0].name,
        "test public_fun behavior > nested context > calls normalize directly"
    );
    assert_eq!(tests[0].file, TEST_FILE);
    assert_eq!(tests[0].line, 11);
    assert_eq!(tests[0].signature, "test \"calls normalize directly\" do");
    assert_eq!(
        try_find_tests(&mut cache, &sources, &file_tree, &symbol_table, "public_fun/2", SAMPLE_FILE, 10),
        Some(Ok(tests))
    );
}

#[test]
fn elixir_fixture_ignores_setup_describe_and_description_only_mentions() {
    let Fixture { sources, file_tree, symbol_table, .. } = index_elixir_fixture();
    let mut cache = QueryCache::new();

    let tests =
        find_tests(&mut cache, &sources, &file_tree, &symbol_table, "guarded", SAMPLE_FILE, 10).unwrap();

    assert_eq!(tests.len(), 1);
    assert_eq!(tests[0].name, "test guarded can be referenced separately");
    assert_eq!(tests[0].file, TEST_FILE);
    assert_eq!(tests[0].line, 27);
    assert_eq!(
        tests[0].signature,
        "test \"guarded can be referenced separately\" do"
    );
}

#[test]
fn elixir_fixture_keeps_helper_tests_source_line_grounded_and_bounded() {
    let Fixture { sources, file_tree, symbol_table, .. } = index_elixir_fixture();
    let mut cache = QueryCache::new();

    let tests = find_tests(
        &mut cache,
        &sources,
        &file_tree,
        &symbol_table,
        "helper_for_public_fun",
        TEST_FILE,
        1,
    )
    .unwrap();

    assert_eq!(tests.len(), 1);
    assert_eq!(
        tests[0].name,
        "test guarded context without matching test body > uses a different helper"
    );
    assert_eq!(tests[0].file, TEST_FILE);
    assert_eq!(tests[0].line, 22);
    assert_eq!(tests[0].signature, "test \"uses a different helper\" do");
}

#[test]
fn missing_symbols_and_files_are_reported() {
    let Fixture { configs, mut sources, file_tree, symbol_table } = index_elixir_fixture();
    let mut cache = QueryCache::new();
    assert_eq!(
        find_callers(&configs, &mut cache, &sources, &file_tree, &symbol_table, "nothing", SAMPLE_FILE, 5)
            .unwrap_err(),
        "Symbol 'nothing' not found in 'lib/sample.ex'"
    );
    assert!(find_tests(&mut cache, &sources, &file_tree, &symbol_table, "nothing", SAMPLE_FILE, 5).is_err());
    assert!(get_implementation(&sources, &symbol_table, "nothing", SAMPLE_FILE).is_err());
    assert!(list_variables(&configs, &mut cache, &sources, &symbol_table, "nothing", SAMPLE_FILE).is_err());
    sources.add(SAMPLE_FILE.to_string(), Err("gone".to_string()));
    assert_eq!(
        get_implementation(&sources, &symbol_table, "guarded", SAMPLE_FILE).unwrap_err(),
        "Failed to read 'lib/sample.ex': gone"
    );
    sources.add(SAMPLE_FILE.to_string(), Ok("short".to_string()));
    assert_eq!(
        try_get_implementation(&sources, &symbol_table, "guarded", SAMPLE_FILE),
        None
    );
}

#[test]
fn queries_are_compiled_once_for_all_questions() {
    let Fixture { configs, sources, file_tree, symbol_table } = index_elixir_fixture();
    let mut cache = QueryCache::new();
    let held = |cache: &QueryCache, kind: QueryKind| {
        cached_query_count_for_tests(cache, Language::Elixir, kind)
    };

    let first =
        find_callers(&configs, &mut cache, &sources, &file_tree, &symbol_table, "normalize/1", SAMPLE_FILE, 10);
    assert_eq!(held(&cache, QueryKind::Callers), 1);
    assert_eq!(held(&cache, QueryKind::ElixirExUnitBlocks), 0);
    let again =
        find_callers(&configs, &mut cache, &sources, &file_tree, &symbol_table, "normalize/1", SAMPLE_FILE, 10);
    assert_eq!(first, again);

    assert!(find_tests(&mut cache, &sources, &file_tree, &symbol_table, "guarded", SAMPLE_FILE, 10).is_ok());
    assert_eq!(held(&cache, QueryKind::ElixirExUnitBlocks), 1);
    assert!(list_variables(&configs, &mut cache, &sources, &symbol_table, "public_fun", SAMPLE_FILE).is_ok());
    assert_eq!(held(&cache, QueryKind::Variables), 1);
    assert_eq!(held(&cache, QueryKind::Symbols), 0);
}

#[test]
fn a_test_file_without_tests_asks_for_no_calls() {
    let Fixture { mut sources, file_tree, symbol_table, .. } = index_elixir_fixture();
    sources.add(TEST_FILE.to_string(), Ok("describe \"x\" do\nend\n".to_string()));
    let mut cache = QueryCache::new();
    let tests =
        find_tests(&mut cache, &sources, &file_tree, &symbol_table, "guarded", SAMPLE_FILE, 10).unwrap();
    assert!(tests.is_empty());
    assert_eq!(
        cached_query_count_for_tests(&cache, Language::Elixir, QueryKind::ElixirExUnitBlocks),
        1
    );
    assert_eq!(cached_query_count_for_tests(&cache, Language::Elixir, QueryKind::Callers), 0);
}

fn index_one(path: &str, text: &str) -> Fixture {
    let configs = LanguageConfigs::builtin();
    let mut sources = Sources::new();
    let mut file_tree = FileTree::new();
    let mut symbol_table = SymbolTable::new();
    sources.add(path.to_string(), Ok(text.to_string()));
    file_tree.insert(FileEntry::new(
        path.to_string(),
        text.len() as u64,
        Timestamp { secs: 1, nanos: 0 },
    ));
    let mut cache = QueryCache::new();
    for symbol in
        extract_symbols_from_file(&configs, &mut cache, &sources, path, Language::Elixir).unwrap()
    {
        symbol_table.insert(symbol);
    }
    Fixture { configs, sources, file_tree, symbol_table }
}

#[test]
fn variables_around_a_function_are_not_its_own() {
    let Fixture { configs, sources, symbol_table, .. } =
        index_one("lib/w.ex", "wrapped = defmodule M do def f(a) do b = a end end\n");
    let mut cache = QueryCache::new();
    let variables =
        list_variables(&configs, &mut cache, &sources, &symbol_table, "f/1", "lib/w.ex").unwrap();
    let names: Vec<&str> = variables.iter().map(|v| v.name.as_str()).collect();
    assert_eq!(names, ["a", "b"]);
}

#[test]
fn a_block_around_a_test_is_no_call_in_it() {
    let text = "describe \"outer\" do\n  test \"inner\" do\n    run()\n  end\nend\n";
    let Fixture { mut sources, mut file_tree, mut symbol_table, .. } =
        index_one("lib/d.ex", "def describe(a, b), do: {a, b}\ndef run(), do: 1\n");
    let test = index_one("test/d_test.exs", text);
    sources.add("test/d_test.exs".to_string(), Ok(text.to_string()));
    file_tree.insert(test.file_tree.get("test/d_test.exs").unwrap());
    for symbol in test.symbol_table.all_symbols() {
        symbol_table.insert(symbol);
    }
    let mut cache = QueryCache::new();
    let mut ask = |name: &str| {
        find_tests(&mut cache, &sources, &file_tree, &symbol_table, name, "lib/d.ex", 10).unwrap()
    };
    assert!(ask("describe/2").is_empty());
    let found = ask("run/0");
    assert_eq!(found.len(), 1);
    assert_eq!(found[0].name, "test outer > inner");
}
