//! Which directories and files of a project are left out of its index.
use vstd::prelude::*;
use crate::index::file_entry::{extension, extension_of};
use crate::text::{is_among, views};

verus! {

/// The directory names and the file extensions that are left out.
pub struct IgnoreRules {
    pub dirs: Vec<String>,
    pub extensions: Vec<String>,
}

/// The rules, as sets of names.
pub struct IgnoreRulesView {
    pub dirs: Set<Seq<char>>,
    pub extensions: Set<Seq<char>>,
}

impl View for IgnoreRules {
    type V = IgnoreRulesView;

    open spec fn view(&self) -> IgnoreRulesView {
        IgnoreRulesView {
            dirs: views(self.dirs@).to_set(),
            extensions: views(self.extensions@).to_set(),
        }
    }
}

/// A file with this path is left out for its extension.
pub open spec fn ignored_extension(rules: IgnoreRulesView, path: Seq<char>) -> bool {
    match extension_of(path) {
        Some(e) => rules.extensions.contains(e),
        None => false,
    }
}

/// The rules that hold in every project.
pub open spec fn builtin_rules() -> IgnoreRulesView {
    IgnoreRulesView {
        dirs: set![
            "node_modules"@,
            "vendor"@,
            "target"@,
            "coverage"@,
            ".git"@,
            ".cache"@,
            ".journey"@,
        ],
        extensions: Set::empty(),
    }
}

impl IgnoreRules {
    /// The rules that hold in every project: dependency, build, coverage, version
    /// control, cache and runtime directories.
    pub fn builtin() -> (r: Self)
        ensures
            views(r.dirs@) == seq![
                "node_modules"@,
                "vendor"@,
                "target"@,
                "coverage"@,
                ".git"@,
                ".cache"@,
                ".journey"@,
            ],
            views(r.extensions@) == Seq::<Seq<char>>::empty(),
            r@ == builtin_rules(),
    {
        let mut dirs: Vec<String> = Vec::new();
        dirs.push("node_modules".to_string());
        dirs.push("vendor".to_string());
        dirs.push("target".to_string());
        dirs.push("coverage".to_string());
        dirs.push(".git".to_string());
        dirs.push(".cache".to_string());
        dirs.push(".journey".to_string());
        let r = IgnoreRules { dirs, extensions: Vec::new() };
        assert(views(r.dirs@) =~= seq![
            "node_modules"@,
            "vendor"@,
            "target"@,
            "coverage"@,
            ".git"@,
            ".cache"@,
            ".journey"@,
        ]);
        assert(views(r.extensions@) =~= Seq::<Seq<char>>::empty());
        assert(r@.extensions =~= builtin_rules().extensions);
        assert(r@.dirs =~= builtin_rules().dirs) by {
            let names = views(r.dirs@);
            let rules = builtin_rules();
            assert forall|d: Seq<char>|
                names.to_set().contains(d) <==> #[trigger] rules.dirs.contains(d) by {
                assert(names[0] == "node_modules"@ && names[1] == "vendor"@ && names[2]
                    == "target"@ && names[3] == "coverage"@);
                assert(names[4] == ".git"@ && names[5] == ".cache"@ && names[6] == ".journey"@);
                assert(names.to_set().contains(d) <==> names.contains(d));
            }
        }
        r
    }

    /// Whether directories of this name are left out.
    pub fn should_ignore_dir(&self, name: &str) -> (r: bool)
        ensures
            r == self@.dirs.contains(name@),
    {
        is_among(&self.dirs, name)
    }

    /// Whether a file with this path is left out for its extension.
    pub fn should_ignore_extension(&self, path: &str) -> (r: bool)
        ensures
            r == ignored_extension(self@, path@),
    {
        match extension(path) {
            Some(e) => is_among(&self.extensions, e.as_str()),
            None => false,
        }
    }
}

} // verus!
