//! The symbols of a program: functions, types, modules and the like.
use vstd::prelude::*;
use crate::index::file_entry::Language;
use crate::text::{copy_opt, opt_view};

verus! {

/// What a symbol is.
#[derive(Debug, Clone, Copy, PartialEq, Eq, Hash, Structural)]
pub enum SymbolKind {
    Function,
    Method,
    Struct,
    Enum,
    Trait,
    Class,
    Interface,
    Type,
    Constant,
    Variable,
    Module,
    Import,
    Test,
    Other,
}

/// A symbol.
pub struct SymbolView {
    pub name: Seq<char>,
    pub kind: SymbolKind,
    pub file: Seq<char>,
    pub byte_range: (usize, usize),
    pub line_range: (usize, usize),
    pub language: Language,
    pub signature: Seq<char>,
    pub definition: Option<Seq<char>>,
    pub parent: Option<Seq<char>>,
}

/// A symbol: its name and kind, the file, bytes and lines (from 1) where it is
/// defined, the first line of its definition, what an agent has noted of it, and
/// the type or class it belongs to.
#[derive(Debug, PartialEq, Eq)]
pub struct Symbol {
    pub name: String,
    pub kind: SymbolKind,
    pub file: String,
    pub byte_range: (usize, usize),
    pub line_range: (usize, usize),
    pub language: Language,
    pub signature: String,
    pub definition: Option<String>,
    pub parent: Option<String>,
}

impl View for Symbol {
    type V = SymbolView;

    open spec fn view(&self) -> SymbolView {
        SymbolView {
            name: self.name@,
            kind: self.kind,
            file: self.file@,
            byte_range: self.byte_range,
            line_range: self.line_range,
            language: self.language,
            signature: self.signature@,
            definition: opt_view(self.definition),
            parent: opt_view(self.parent),
        }
    }
}

impl Clone for Symbol {
    fn clone(&self) -> (r: Self)
        ensures
            r@ == self@,
    {
        Symbol {
            name: self.name.clone(),
            kind: self.kind,
            file: self.file.clone(),
            byte_range: self.byte_range,
            line_range: self.line_range,
            language: self.language,
            signature: self.signature.clone(),
            definition: copy_opt(&self.definition),
            parent: copy_opt(&self.parent),
        }
    }
}

/// The symbols of a list.
pub open spec fn symbol_views(v: Seq<Symbol>) -> Seq<SymbolView> {
    v.map_values(|s: Symbol| s@)
}

} // verus!
