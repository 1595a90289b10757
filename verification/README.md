# coderlm

An index of the code of a project, for agents that ask about it: which files there
are, which symbols they define, where a symbol is called and tested, which variables a
function has, and which lines match a pattern. The index follows changes on disk.

The library is written in Verus. What each function returns or changes is stated in
its contract and proved; what holds of several functions together is stated in proof
functions whose names begin with `law_`.

- `src/text.rs`, `src/sorting.rs`, `src/maps.rs`: strings, orders and maps.
- `src/sources.rs`: what came of reading the files of a project.
- `src/pattern.rs`, `src/symbols/syntax.rs`: regular expressions and syntax trees, as
  `regex` and `tree-sitter` give them.
- `src/config.rs`, `src/index/`: the files of a project, what is cached of them, which
  paths are followed, and how changes are brought in. `consistency.rs` states what the
  index keeps to meanwhile.
- `src/symbols/`: queries, extraction of symbols, and the table that holds them.
- `src/ops/`: what can be asked of an index.
- `src/score.rs`: the score of the fixture project.
- `app/`: files, the watcher, blocking tasks and the shapes of answers.

The crate brings the grammar and the queries of Elixir. Other languages are added with
`LanguageConfigs::register`.

Maps are changed by whoever holds them exclusively, and every listing comes in the order
of keys, so that what a question gives depends on the index and the files alone.
