//! Elixir.
use tree_sitter::Language as Grammar;
use vstd::prelude::*;
use crate::index::file_entry::Language;
use crate::symbols::queries::{ConfigView, LanguageConfig, TestPattern};

verus! {

pub const SYMBOLS_QUERY: &'static str = r#"
(call
  target: (identifier) @ignore
  (arguments (alias) @mod.name)
  (#any-of? @ignore "defmodule" "defprotocol" "defimpl")) @mod.def

(call
  target: (identifier) @ignore
  (arguments (alias) @import.name)
  (#any-of? @ignore "alias" "import" "require" "use")) @import.def

(call
  target: (identifier) @ignore
  (arguments
    [
      (identifier) @function.name
      (call target: (identifier) @function.name)
      (binary_operator
        left: (call target: (identifier) @function.name)
        operator: "when")
    ])
  (#any-of? @ignore "def" "defp" "defdelegate" "defguard" "defguardp" "defmacro" "defmacrop" "defn" "defnp")) @function.def
"#;

pub const CALLERS_QUERY: &'static str = r#"
(call
  target: (identifier) @callee)

(call
  target: (dot
    right: (identifier) @callee))

(binary_operator
  operator: "|>"
  right: (identifier) @callee)

(binary_operator
  operator: "|>"
  right: (call
    target: (dot
      right: (identifier) @callee)))
"#;

pub const VARIABLES_QUERY: &'static str = r#"
(call
  target: (identifier) @ignore
  (arguments
    (call
      target: (identifier)
      (arguments
        (identifier) @var.name)))
  (#any-of? @ignore "def" "defp" "defdelegate" "defguard" "defguardp" "defmacro" "defmacrop" "defn" "defnp"))

(call
  target: (identifier) @ignore
  (arguments
    (binary_operator
      left: (call
        target: (identifier)
        (arguments
          (identifier) @var.name))
      operator: "when"))
  (#any-of? @ignore "def" "defp" "defdelegate" "defguard" "defguardp" "defmacro" "defmacrop" "defn" "defnp"))

(binary_operator
  left: (identifier) @var.name
  "=")

(binary_operator
  left: (identifier) @var.name
  "<-")
"#;

/// The grammar that a grammar crate holds for a language.
pub uninterp spec fn grammar_of(language: Language) -> Grammar;

/// Reads `tree_sitter_elixir::LANGUAGE`, a constant, as a tree-sitter grammar.
#[verifier::external_body]
pub(crate) fn elixir_grammar() -> (r: Grammar)
    ensures
        r == grammar_of(Language::Elixir),
{
    tree_sitter_elixir::LANGUAGE.into()
}

/// The grammar and the queries of Elixir.
pub open spec fn config_view() -> ConfigView {
    ConfigView {
        language: grammar_of(Language::Elixir),
        symbols_query: SYMBOLS_QUERY@,
        callers_query: CALLERS_QUERY@,
        variables_query: VARIABLES_QUERY@,
        test_patterns: seq![TestPattern::CallExpression("test")],
    }
}

/// The grammar and the queries of Elixir.
pub fn config() -> (r: LanguageConfig)
    ensures
        r@ == config_view(),
{
    let r = LanguageConfig {
        language: elixir_grammar(),
        symbols_query: SYMBOLS_QUERY,
        callers_query: CALLERS_QUERY,
        variables_query: VARIABLES_QUERY,
        test_patterns: vec![TestPattern::CallExpression("test")],
    };
    assert(r@.test_patterns =~= config_view().test_patterns);
    r
}

} // verus!
