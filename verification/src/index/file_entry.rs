//! Files of a project and the languages they are written in.
use vstd::prelude::*;
use crate::text::{same, split, split_of, views};

verus! {

/// A point in time: seconds since the Unix epoch, and nanoseconds.
#[derive(Debug, Clone, Copy, PartialEq, Eq, Structural)]
pub struct Timestamp {
    pub secs: i64,
    pub nanos: u32,
}

/// The language of a file.
#[derive(Debug, Clone, Copy, PartialEq, Eq, Hash, Structural)]
pub enum Language {
    Rust,
    Python,
    TypeScript,
    JavaScript,
    Go,
    Java,
    Scala,
    Elixir,
    Ruby,
    Php,
    Zig,
    Sql,
    Markdown,
    Other,
}

/// The languages that are parsed into syntax trees.
pub open spec fn parsed_language(language: Language) -> bool {
    match language {
        Language::Sql | Language::Markdown | Language::Other => false,
        _ => true,
    }
}

/// The extension of the last component of a path: what follows its last dot. A
/// name without a dot, or with no other dot than one in front, has none.
pub open spec fn extension_of(path: Seq<char>) -> Option<Seq<char>> {
    let name = split_of(path, '/').last();
    let parts = split_of(name, '.');
    if parts.len() < 2 || (parts.len() == 2 && parts[0].len() == 0) {
        None
    } else {
        Some(parts.last())
    }
}

/// The language that a file extension stands for.
pub open spec fn language_of_extension(e: Seq<char>) -> Language {
    if e == "rs"@ {
        Language::Rust
    } else if e == "py"@ || e == "pyi"@ {
        Language::Python
    } else if e == "ts"@ || e == "tsx"@ {
        Language::TypeScript
    } else if e == "js"@ || e == "jsx"@ || e == "mjs"@ || e == "cjs"@ {
        Language::JavaScript
    } else if e == "go"@ {
        Language::Go
    } else if e == "java"@ {
        Language::Java
    } else if e == "scala"@ || e == "sc"@ {
        Language::Scala
    } else if e == "ex"@ || e == "exs"@ {
        Language::Elixir
    } else if e == "rb"@ || e == "rake"@ {
        Language::Ruby
    } else if e == "php"@ || e == "phtml"@ {
        Language::Php
    } else if e == "zig"@ || e == "zon"@ {
        Language::Zig
    } else if e == "sql"@ {
        Language::Sql
    } else if e == "md"@ {
        Language::Markdown
    } else {
        Language::Other
    }
}

/// The language of a file, by its path.
pub open spec fn language_of_path(path: Seq<char>) -> Language {
    match extension_of(path) {
        Some(e) => language_of_extension(e),
        None => Language::Other,
    }
}

/// The extension of the last component of a path.
pub fn extension(path: &str) -> (r: Option<String>)
    ensures
        match r {
            Some(e) => extension_of(path@) == Some(e@),
            None => extension_of(path@) is None,
        },
{
    let components = split(path, '/');
    let name: &String = &components[components.len() - 1];
    assert(views(components@).last() == name@);
    let parts = split(name.as_str(), '.');
    let n: usize = parts.len();
    assert(views(parts@)[0] == parts@[0]@);
    assert(views(parts@).last() == parts@[n - 1]@);
    if n < 2 || (n == 2 && parts[0].as_str().is_empty()) {
        None
    } else {
        Some(parts[n - 1].clone())
    }
}

impl Language {
    /// Whether files of this language are parsed into syntax trees.
    pub fn has_tree_sitter_support(self) -> (r: bool)
        ensures
            r == parsed_language(self),
    {
        match self {
            Language::Sql | Language::Markdown | Language::Other => false,
            _ => true,
        }
    }

    /// The language of a file, by its path.
    pub fn from_path(path: &str) -> (r: Self)
        ensures
            r == language_of_path(path@),
    {
        match extension(path) {
            Some(e) => Language::from_extension(e.as_str()),
            None => Language::Other,
        }
    }

    /// The language that a file extension stands for.
    pub fn from_extension(e: &str) -> (r: Self)
        ensures
            r == language_of_extension(e@),
    {
        if same(e, "rs") {
            Language::Rust
        } else if same(e, "py") || same(e, "pyi") {
            Language::Python
        } else if same(e, "ts") || same(e, "tsx") {
            Language::TypeScript
        } else if same(e, "js") || same(e, "jsx") || same(e, "mjs") || same(e, "cjs") {
            Language::JavaScript
        } else if same(e, "go") {
            Language::Go
        } else if same(e, "java") {
            Language::Java
        } else if same(e, "scala") || same(e, "sc") {
            Language::Scala
        } else if same(e, "ex") || same(e, "exs") {
            Language::Elixir
        } else if same(e, "rb") || same(e, "rake") {
            Language::Ruby
        } else if same(e, "php") || same(e, "phtml") {
            Language::Php
        } else if same(e, "zig") || same(e, "zon") {
            Language::Zig
        } else if same(e, "sql") {
            Language::Sql
        } else if same(e, "md") {
            Language::Markdown
        } else {
            Language::Other
        }
    }
}

/// What is known of a file.
pub struct FileEntryView {
    pub rel_path: Seq<char>,
    pub size: u64,
    pub modified: Timestamp,
    pub language: Language,
    pub symbols_extracted: bool,
}

/// What is known of a file: its path relative to the project, its size and the
/// time of its last change, its language, and whether its symbols have been
/// extracted.
#[derive(Debug, PartialEq, Eq)]
pub struct FileEntry {
    pub rel_path: String,
    pub size: u64,
    pub modified: Timestamp,
    pub language: Language,
    pub symbols_extracted: bool,
}

impl View for FileEntry {
    type V = FileEntryView;

    open spec fn view(&self) -> FileEntryView {
        FileEntryView {
            rel_path: self.rel_path@,
            size: self.size,
            modified: self.modified,
            language: self.language,
            symbols_extracted: self.symbols_extracted,
        }
    }
}

impl Clone for FileEntry {
    fn clone(&self) -> (r: Self)
        ensures
            r@ == self@,
    {
        FileEntry {
            rel_path: self.rel_path.clone(),
            size: self.size,
            modified: self.modified,
            language: self.language,
            symbols_extracted: self.symbols_extracted,
        }
    }
}

/// The entry of a file whose symbols have not been extracted yet.
pub open spec fn new_entry(rel_path: Seq<char>, size: u64, modified: Timestamp) -> FileEntryView {
    FileEntryView {
        rel_path,
        size,
        modified,
        language: language_of_path(rel_path),
        symbols_extracted: false,
    }
}

impl FileEntry {
    /// The entry of a file; its language follows from its path.
    pub fn new(rel_path: String, size: u64, modified: Timestamp) -> (r: Self)
        ensures
            r@ == new_entry(rel_path@, size, modified),
    {
        let language = Language::from_path(rel_path.as_str());
        FileEntry { rel_path, size, modified, language, symbols_extracted: false }
    }
}

} // verus!
