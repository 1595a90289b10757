//! What came of reading the files of a project.
use vstd::hash_map::StringHashMap;
use vstd::prelude::*;

verus! {

/// What came of reading a file: its text, or the message of the error.
pub type ReadView = Result<Seq<char>, Seq<char>>;

/// What came of reading a file.
pub open spec fn read_view(r: Result<String, String>) -> ReadView {
    match r {
        Ok(s) => Ok(s@),
        Err(e) => Err(e@),
    }
}

/// What reading `path` gives; a path that was not loaded gives an error.
pub open spec fn read_of(reads: Map<Seq<char>, ReadView>, path: Seq<char>) -> ReadView {
    if reads.contains_key(path) {
        reads[path]
    } else {
        Err("not loaded"@)
    }
}

/// A snapshot of the files of a project: for each path that was loaded, the
/// text of the file or the message of the error that reading it gave.
pub struct Sources {
    reads: StringHashMap<Result<String, String>>,
}

impl View for Sources {
    type V = Map<Seq<char>, ReadView>;

    closed spec fn view(&self) -> Map<Seq<char>, ReadView> {
        self.reads@.map_values(|r: Result<String, String>| read_view(r))
    }
}

impl Sources {
    /// A snapshot of no files.
    pub fn new() -> (r: Self)
        ensures
            r@ == Map::<Seq<char>, ReadView>::empty(),
    {
        let r = Sources { reads: StringHashMap::new() };
        assert(r@ =~= Map::<Seq<char>, ReadView>::empty());
        r
    }

    /// Records what came of reading `path`.
    pub fn add(&mut self, path: String, outcome: Result<String, String>)
        ensures
            final(self)@ == old(self)@.insert(path@, read_view(outcome)),
    {
        self.reads.insert(path, outcome);
        assert(self@ =~= old(self)@.insert(path@, read_view(outcome)));
    }

    /// What reading `path` gives.
    pub fn read(&self, path: &str) -> (r: Result<String, String>)
        ensures
            read_view(r) == read_of(self@, path@),
    {
        match self.reads.get(path) {
            Some(Ok(s)) => Ok(s.clone()),
            Some(Err(e)) => Err(e.clone()),
            None => Err("not loaded".to_string()),
        }
    }
}

} // verus!
