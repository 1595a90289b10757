//! The files of a project, and what is cached of them.
use dashmap::DashMap;
use vstd::prelude::*;
use crate::index::call_site_cache::{
    fact_views, freshness, identity_of, CachedCallSites, CachedView, CallSiteCacheFreshness,
    CallSiteCacheLookup, CallSiteCacheMissReason, CallSiteFact, FactView, LookupView,
};
use crate::index::file_entry::{
    parsed_language, FileEntry, FileEntryView, Language, Timestamp,
};
use crate::index::tree_view::{draw_paths, tree_of};
use crate::maps::{
    lemma_filter_next, lemma_filter_start, lemma_sorted_keys, lists_in_order, lists_keys,
    sorted_keys,
};
use crate::sorting::{
    lemma_rank_order, lemma_sorted_by, lemma_sorted_members, rank_order, sort, sort_texts, Ranked,
};
use crate::text::views;

verus! {

// ---------------------------------------------------------------------------
// Cached ranges
// ---------------------------------------------------------------------------

/// The ranges of a file that are not code, with the state of the file they were
/// found in.
pub struct RangesView {
    pub size: u64,
    pub modified: Timestamp,
    pub language: Language,
    pub ranges: Seq<(usize, usize)>,
}

/// The ranges of a file that are not code, with the state of the file they were
/// found in.
pub struct CachedNonCodeRanges {
    pub size: u64,
    pub modified: Timestamp,
    pub language: Language,
    pub ranges: Vec<(usize, usize)>,
}

impl View for CachedNonCodeRanges {
    type V = RangesView;

    open spec fn view(&self) -> RangesView {
        RangesView {
            size: self.size,
            modified: self.modified,
            language: self.language,
            ranges: self.ranges@,
        }
    }
}

impl Clone for CachedNonCodeRanges {
    fn clone(&self) -> (r: Self)
        ensures
            r@ == self@,
    {
        CachedNonCodeRanges {
            size: self.size,
            modified: self.modified,
            language: self.language,
            ranges: copy_ranges(&self.ranges),
        }
    }
}

/// A copy of a list of ranges.
pub(crate) fn copy_ranges(ranges: &Vec<(usize, usize)>) -> (r: Vec<(usize, usize)>)
    ensures
        r@ == ranges@,
{
    let mut out: Vec<(usize, usize)> = Vec::new();
    let mut i: usize = 0;
    while i < ranges.len()
        invariant
            i <= ranges@.len(),
            out@ == ranges@.take(i as int),
        decreases ranges@.len() - i,
    {
        out.push(ranges[i]);
        i = i + 1;
        assert(out@ =~= ranges@.take(i as int));
    }
    assert(out@ =~= ranges@);
    out
}

// ---------------------------------------------------------------------------
// The map of files
// ---------------------------------------------------------------------------

/// What a map of files holds.
pub uninterp spec fn file_contents(map: DashMap<String, FileEntry>) -> Map<
    Seq<char>,
    FileEntryView,
>;

/// The keys of a list of files.
pub open spec fn file_keys(entries: Seq<(String, FileEntry)>) -> Seq<Seq<char>> {
    Seq::new(entries.len(), |i: int| entries[i].0@)
}

/// Calls `DashMap::new`: the map is empty.
#[verifier::external_body]
fn new_files() -> (r: DashMap<String, FileEntry>)
    ensures
        (file_contents(r) == Map::<Seq<char>, FileEntryView>::empty()),
{
    DashMap::new()
}

/// Calls `DashMap::insert`: the value takes the place of any other under its key.
#[verifier::external_body]
fn put_file(map: &mut DashMap<String, FileEntry>, key: String, value: FileEntry)
    ensures
        file_contents(*final(map)) == file_contents(*old(map)).insert(key@, value@),
{
    map.insert(key, value);
}

/// Calls `DashMap::get`: a copy of the value under the key, if there is one.
#[verifier::external_body]
fn look_up_file(map: &DashMap<String, FileEntry>, key: &str) -> (r: Option<FileEntry>)
    ensures
        match r {
            Some(e) => file_contents(*map).contains_key(key@) && file_contents(*map)[key@] == e@,
            None => !file_contents(*map).contains_key(key@),
        },
{
    map.get(key).map(|entry| entry.value().clone())
}

/// Calls `DashMap::remove`: nothing is left under the key, and what was there is
/// handed out.
#[verifier::external_body]
fn drop_file(map: &mut DashMap<String, FileEntry>, key: &str) -> (r: Option<FileEntry>)
    ensures
        file_contents(*final(map)) == file_contents(*old(map)).remove(key@),
        match r {
            Some(e) => file_contents(*old(map)).contains_key(key@) && file_contents(*old(map))[key@]
                == e@,
            None => !file_contents(*old(map)).contains_key(key@),
        },
{
    map.remove(key).map(|pair| pair.1)
}

/// Calls `DashMap::len`: the number of keys.
#[verifier::external_body]
fn count_files(map: &DashMap<String, FileEntry>) -> (r: usize)
    ensures
        r == file_contents(*map).len(),
{
    map.len()
}

/// Calls `DashMap::iter`: each entry once, in no particular order.
#[verifier::external_body]
fn all_files(map: &DashMap<String, FileEntry>) -> (r: Vec<(String, FileEntry)>)
    ensures
        lists_keys(file_keys(r@), file_contents(*map)),
        forall|i: int|
            0 <= i < r@.len() ==> (#[trigger] r@[i]).1@ == file_contents(*map)[r@[i].0@],
{
    map.iter().map(|entry| (entry.key().clone(), entry.value().clone())).collect()
}

// ---------------------------------------------------------------------------
// The map of ranges
// ---------------------------------------------------------------------------

/// What a map of ranges holds.
pub uninterp spec fn range_contents(map: DashMap<String, CachedNonCodeRanges>) -> Map<
    Seq<char>,
    RangesView,
>;

/// Calls `DashMap::new`: the map is empty.
#[verifier::external_body]
fn new_ranges() -> (r: DashMap<String, CachedNonCodeRanges>)
    ensures
        (range_contents(r) == Map::<Seq<char>, RangesView>::empty()),
{
    DashMap::new()
}

/// Calls `DashMap::insert`: the value takes the place of any other under its key.
#[verifier::external_body]
fn put_ranges(
    map: &mut DashMap<String, CachedNonCodeRanges>,
    key: String,
    value: CachedNonCodeRanges,
)
    ensures
        range_contents(*final(map)) == range_contents(*old(map)).insert(key@, value@),
{
    map.insert(key, value);
}

/// Calls `DashMap::get`: a copy of the value under the key, if there is one.
#[verifier::external_body]
fn look_up_ranges(map: &DashMap<String, CachedNonCodeRanges>, key: &str) -> (r: Option<
    CachedNonCodeRanges,
>)
    ensures
        match r {
            Some(c) => range_contents(*map).contains_key(key@) && range_contents(*map)[key@] == c@,
            None => !range_contents(*map).contains_key(key@),
        },
{
    map.get(key).map(|entry| entry.value().clone())
}

/// Calls `DashMap::remove`: nothing is left under the key.
#[verifier::external_body]
fn drop_ranges(map: &mut DashMap<String, CachedNonCodeRanges>, key: &str)
    ensures
        range_contents(*final(map)) == range_contents(*old(map)).remove(key@),
{
    map.remove(key);
}

// ---------------------------------------------------------------------------
// The map of call sites
// ---------------------------------------------------------------------------

/// What a map of call sites holds.
pub uninterp spec fn site_contents(map: DashMap<String, CachedCallSites>) -> Map<
    Seq<char>,
    CachedView,
>;

/// Calls `DashMap::new`: the map is empty.
#[verifier::external_body]
fn new_sites() -> (r: DashMap<String, CachedCallSites>)
    ensures
        (site_contents(r) == Map::<Seq<char>, CachedView>::empty()),
{
    DashMap::new()
}

/// Calls `DashMap::insert`: the value takes the place of any other under its key.
#[verifier::external_body]
fn put_sites(map: &mut DashMap<String, CachedCallSites>, key: String, value: CachedCallSites)
    ensures
        site_contents(*final(map)) == site_contents(*old(map)).insert(key@, value@),
{
    map.insert(key, value);
}

/// Calls `DashMap::get`: a copy of the value under the key, if there is one.
#[verifier::external_body]
fn look_up_sites(map: &DashMap<String, CachedCallSites>, key: &str) -> (r: Option<CachedCallSites>)
    ensures
        match r {
            Some(c) => site_contents(*map).contains_key(key@) && site_contents(*map)[key@] == c@,
            None => !site_contents(*map).contains_key(key@),
        },
{
    map.get(key).map(|entry| entry.value().clone())
}

/// Calls `DashMap::remove`: nothing is left under the key.
#[verifier::external_body]
fn drop_sites(map: &mut DashMap<String, CachedCallSites>, key: &str)
    ensures
        site_contents(*final(map)) == site_contents(*old(map)).remove(key@),
{
    map.remove(key);
}

// ---------------------------------------------------------------------------
// The files of a project
// ---------------------------------------------------------------------------

/// The files of a project by their paths, and what is cached of them.
pub struct FileTree {
    files: DashMap<String, FileEntry>,
    non_code_ranges: DashMap<String, CachedNonCodeRanges>,
    call_site_cache: DashMap<String, CachedCallSites>,
}

/// The files of a project by their paths, and what is cached of them.
pub struct FileTreeView {
    pub files: Map<Seq<char>, FileEntryView>,
    pub ranges: Map<Seq<char>, RangesView>,
    pub sites: Map<Seq<char>, CachedView>,
}

impl View for FileTree {
    type V = FileTreeView;

    closed spec fn view(&self) -> FileTreeView {
        FileTreeView {
            files: file_contents(self.files),
            ranges: range_contents(self.non_code_ranges),
            sites: site_contents(self.call_site_cache),
        }
    }
}

/// The tree with a file put in: nothing that was cached for its path is left.
pub open spec fn with_file(tree: FileTreeView, entry: FileEntryView) -> FileTreeView {
    FileTreeView {
        files: tree.files.insert(entry.rel_path, entry),
        ranges: tree.ranges.remove(entry.rel_path),
        sites: tree.sites.remove(entry.rel_path),
    }
}

/// The tree without a file and without what was cached for it.
pub open spec fn without_path(tree: FileTreeView, rel_path: Seq<char>) -> FileTreeView {
    FileTreeView {
        files: tree.files.remove(rel_path),
        ranges: tree.ranges.remove(rel_path),
        sites: tree.sites.remove(rel_path),
    }
}

/// The ranges cached for a path that hold for the file as `entry` has it.
pub open spec fn cached_ranges(
    tree: FileTreeView,
    rel_path: Seq<char>,
    entry: FileEntryView,
) -> Option<Seq<(usize, usize)>> {
    if tree.ranges.contains_key(rel_path) {
        let cached = tree.ranges[rel_path];
        if cached.size == entry.size && cached.modified == entry.modified && cached.language
            == entry.language {
            Some(cached.ranges)
        } else {
            None
        }
    } else {
        None
    }
}

/// The tree with ranges cached for a path.
pub open spec fn with_ranges(
    tree: FileTreeView,
    rel_path: Seq<char>,
    entry: FileEntryView,
    ranges: Seq<(usize, usize)>,
) -> FileTreeView {
    FileTreeView {
        ranges: tree.ranges.insert(
            rel_path,
            RangesView {
                size: entry.size,
                modified: entry.modified,
                language: entry.language,
                ranges,
            },
        ),
        ..tree
    }
}

/// The tree with call sites cached for a file.
pub open spec fn with_sites(
    tree: FileTreeView,
    entry: FileEntryView,
    facts: Seq<FactView>,
) -> FileTreeView {
    FileTreeView {
        sites: tree.sites.insert(
            entry.rel_path,
            CachedView { identity: identity_of(entry), facts },
        ),
        ..tree
    }
}

/// The tree without the call sites cached for a path.
pub open spec fn without_sites(tree: FileTreeView, rel_path: Seq<char>) -> FileTreeView {
    FileTreeView { sites: tree.sites.remove(rel_path), ..tree }
}

/// What looking up the call sites of a file gives.
pub open spec fn site_lookup(
    tree: FileTreeView,
    rel_path: Seq<char>,
    max_file_size: u64,
) -> LookupView {
    if !tree.files.contains_key(rel_path) {
        LookupView::Miss(CallSiteCacheMissReason::Missing)
    } else if tree.files[rel_path].size > max_file_size {
        LookupView::Miss(CallSiteCacheMissReason::Oversized)
    } else if !parsed_language(tree.files[rel_path].language) {
        LookupView::Miss(CallSiteCacheMissReason::Unsupported)
    } else if !tree.sites.contains_key(rel_path) {
        LookupView::Miss(CallSiteCacheMissReason::Absent)
    } else {
        let cached = tree.sites[rel_path];
        match freshness(cached.identity, tree.files[rel_path], max_file_size) {
            CallSiteCacheFreshness::Fresh => LookupView::Hit(cached.facts),
            CallSiteCacheFreshness::Miss(reason) => LookupView::Miss(reason),
        }
    }
}

/// The tree with a note that the symbols of a file have been extracted.
pub open spec fn with_extracted(tree: FileTreeView, rel_path: Seq<char>) -> FileTreeView {
    if tree.files.contains_key(rel_path) {
        FileTreeView {
            files: tree.files.insert(
                rel_path,
                FileEntryView { symbols_extracted: true, ..tree.files[rel_path] },
            ),
            ..tree
        }
    } else {
        tree
    }
}

/// The paths and languages of a list.
pub open spec fn path_pairs(v: Seq<(String, Language)>) -> Seq<(Seq<char>, Language)> {
    Seq::new(v.len(), |i: int| (v[i].0@, v[i].1))
}

/// The paths of all files with their languages, in the order of the paths.
pub open spec fn path_languages(files: Map<Seq<char>, FileEntryView>) -> Seq<
    (Seq<char>, Language),
> {
    sorted_keys(files).map_values(|k: Seq<char>| (k, files[k].language))
}

/// The paths of the files that are parsed with their languages, in the order of
/// the paths.
pub open spec fn parsed_pairs(files: Map<Seq<char>, FileEntryView>) -> Seq<
    (Seq<char>, Language),
> {
    path_languages(files).filter(|e: (Seq<char>, Language)| parsed_language(e.1))
}

impl FileTree {
    /// A tree without files.
    pub fn new() -> (r: Self)
        ensures
            r@ == (FileTreeView {
                files: Map::empty(),
                ranges: Map::empty(),
                sites: Map::empty(),
            }),
    {
        FileTree {
            files: new_files(),
            non_code_ranges: new_ranges(),
            call_site_cache: new_sites(),
        }
    }

    /// Puts a file into the tree, in place of any other with its path. What was
    /// cached for the path is dropped.
    pub fn insert(&mut self, entry: FileEntry)
        ensures
            final(self)@ == with_file(old(self)@, entry@),
    {
        drop_ranges(&mut self.non_code_ranges, entry.rel_path.as_str());
        self.purge_call_sites(entry.rel_path.as_str());
        let key = entry.rel_path.clone();
        put_file(&mut self.files, key, entry);
    }

    /// Takes a file out of the tree, with what was cached for it.
    pub fn remove(&mut self, rel_path: &str) -> (r: Option<FileEntry>)
        ensures
            final(self)@ == without_path(old(self)@, rel_path@),
            match r {
                Some(e) => old(self)@.files.contains_key(rel_path@) && old(self)@.files[rel_path@]
                    == e@,
                None => !old(self)@.files.contains_key(rel_path@),
            },
    {
        drop_ranges(&mut self.non_code_ranges, rel_path);
        self.purge_call_sites(rel_path);
        drop_file(&mut self.files, rel_path)
    }

    /// The entry of a file.
    pub fn get(&self, rel_path: &str) -> (r: Option<FileEntry>)
        ensures
            match r {
                Some(e) => self@.files.contains_key(rel_path@) && self@.files[rel_path@] == e@,
                None => !self@.files.contains_key(rel_path@),
            },
    {
        look_up_file(&self.files, rel_path)
    }

    /// The number of files.
    pub fn len(&self) -> (r: usize)
        ensures
            r == self@.files.len(),
    {
        count_files(&self.files)
    }

    /// The paths of all files, in no particular order.
    pub fn all_paths(&self) -> (r: Vec<String>)
        ensures
            lists_keys(views(r@), self@.files),
    {
        let entries = all_files(&self.files);
        let mut out: Vec<String> = Vec::new();
        let mut i: usize = 0;
        while i < entries.len()
            invariant
                i <= entries@.len(),
                out@.len() == i,
                forall|k: int| 0 <= k < i ==> (#[trigger] out@[k])@ == entries@[k].0@,
            decreases entries@.len() - i,
        {
            out.push(entries[i].0.clone());
            i = i + 1;
        }
        assert(views(out@) =~= file_keys(entries@));
        out
    }

    /// The paths of all files, in order.
    pub fn sorted_paths(&self) -> (r: Vec<String>)
        ensures
            views(r@) == sorted_keys(self@.files),
            lists_in_order(views(r@), self@.files),
    {
        let paths = self.all_paths();
        proof {
            lemma_sorted_keys(views(paths@), self@.files);
        }
        sort_texts(paths)
    }

    /// The files that are parsed, with their languages, in the order of their
    /// paths.
    pub fn parsed_files(&self) -> (r: Vec<(String, Language)>)
        ensures
            path_pairs(r@) == parsed_pairs(self@.files),
            lists_in_order(sorted_keys(self@.files), self@.files),
    {
        let paths = self.sorted_paths();
        let ghost files = self@.files;
        let ghost all = path_languages(files);
        let ghost p = |e: (Seq<char>, Language)| parsed_language(e.1);
        let mut out: Vec<(String, Language)> = Vec::new();
        let mut i: usize = 0;
        proof {
            lemma_filter_start(all, p);
            assert(path_pairs(out@) =~= Seq::empty());
        }
        while i < paths.len()
            invariant
                i <= paths@.len(),
                files == self@.files,
                all == path_languages(files),
                p == (|e: (Seq<char>, Language)| parsed_language(e.1)),
                views(paths@) == sorted_keys(files),
                lists_keys(views(paths@), files),
                path_pairs(out@) == all.take(i as int).filter(p),
            decreases paths@.len() - i,
        {
            let ghost before = path_pairs(out@);
            proof {
                assert(views(paths@)[i as int] == paths@[i as int]@);
                assert(views(paths@).contains(paths@[i as int]@));
                lemma_filter_next(all, p, i as int);
            }
            match self.get(paths[i].as_str()) {
                Some(entry) => {
                    assert(all[i as int] == (paths@[i as int]@, entry.language));
                    if entry.language.has_tree_sitter_support() {
                        out.push((paths[i].clone(), entry.language));
                        assert(path_pairs(out@) =~= before.push(all[i as int]));
                    }
                },
                None => {},
            }
            i = i + 1;
        }
        assert(all.take(i as int) =~= all);
        out
    }

    /// The ranges cached for a path, if they hold for the file as `entry` has it.
    pub fn cached_non_code_ranges(&self, rel_path: &str, entry: &FileEntry) -> (r: Option<
        Vec<(usize, usize)>,
    >)
        ensures
            match r {
                Some(v) => cached_ranges(self@, rel_path@, entry@) == Some(v@),
                None => cached_ranges(self@, rel_path@, entry@) is None,
            },
    {
        match look_up_ranges(&self.non_code_ranges, rel_path) {
            Some(cached) => if cached.size == entry.size && cached.modified == entry.modified
                && cached.language == entry.language {
                Some(cached.ranges)
            } else {
                None
            },
            None => None,
        }
    }

    /// Caches the ranges of a file that are not code.
    pub fn store_non_code_ranges(
        &mut self,
        rel_path: &str,
        entry: &FileEntry,
        ranges: Vec<(usize, usize)>,
    )
        ensures
            final(self)@ == with_ranges(old(self)@, rel_path@, entry@, ranges@),
    {
        let cached = CachedNonCodeRanges {
            size: entry.size,
            modified: entry.modified,
            language: entry.language,
            ranges,
        };
        put_ranges(&mut self.non_code_ranges, rel_path.to_owned(), cached);
    }

    /// Caches the call sites of a file. Only files that are parsed have any.
    pub fn store_call_sites(&mut self, entry: &FileEntry, facts: Vec<CallSiteFact>) -> (r: Result<
        (),
        CallSiteCacheMissReason,
    >)
        ensures
            parsed_language(entry.language) ==> r == Ok::<(), CallSiteCacheMissReason>(())
                && final(self)@ == with_sites(old(self)@, entry@, fact_views(facts@)),
            !parsed_language(entry.language) ==> r == Err::<(), CallSiteCacheMissReason>(
                CallSiteCacheMissReason::Unsupported,
            ) && final(self)@ == old(self)@,
    {
        if !entry.language.has_tree_sitter_support() {
            return Err(CallSiteCacheMissReason::Unsupported);
        }
        let cached = CachedCallSites::new(entry, facts);
        put_sites(&mut self.call_site_cache, entry.rel_path.clone(), cached);
        Ok(())
    }

    /// The call sites of a file, or why there are none.
    pub fn call_site_cache_lookup(&self, rel_path: &str, max_file_size: u64) -> (r:
        CallSiteCacheLookup)
        ensures
            r@ == site_lookup(self@, rel_path@, max_file_size),
    {
        let entry = match self.get(rel_path) {
            Some(e) => e,
            None => return CallSiteCacheLookup::Miss(CallSiteCacheMissReason::Missing),
        };
        if entry.size > max_file_size {
            return CallSiteCacheLookup::Miss(CallSiteCacheMissReason::Oversized);
        }
        if !entry.language.has_tree_sitter_support() {
            return CallSiteCacheLookup::Miss(CallSiteCacheMissReason::Unsupported);
        }
        let cached = match look_up_sites(&self.call_site_cache, rel_path) {
            Some(c) => c,
            None => return CallSiteCacheLookup::Miss(CallSiteCacheMissReason::Absent),
        };
        match cached.freshness_against(&entry, max_file_size) {
            CallSiteCacheFreshness::Fresh => CallSiteCacheLookup::Hit(cached.facts),
            CallSiteCacheFreshness::Miss(reason) => CallSiteCacheLookup::Miss(reason),
        }
    }

    /// Drops the call sites cached for a path.
    pub fn purge_call_sites(&mut self, rel_path: &str)
        ensures
            final(self)@ == without_sites(old(self)@, rel_path@),
    {
        drop_sites(&mut self.call_site_cache, rel_path);
    }

    /// Notes that the symbols of a file have been extracted.
    pub fn mark_extracted(&mut self, rel_path: &str)
        ensures
            final(self)@ == with_extracted(old(self)@, rel_path@),
    {
        match self.get(rel_path) {
            Some(mut entry) => {
                entry.symbols_extracted = true;
                put_file(&mut self.files, rel_path.to_owned(), entry);
            },
            None => {},
        }
    }

    /// The files drawn as a tree, as the `tree` command does. `depth` limits how
    /// many levels are drawn; 0 draws all.
    pub fn render_tree(&self, depth: usize) -> (r: String)
        ensures
            r@ == tree_of(sorted_keys(self@.files), depth as nat),
            lists_in_order(sorted_keys(self@.files), self@.files),
    {
        let paths = self.sorted_paths();
        draw_paths(&paths, depth)
    }
}

// ---------------------------------------------------------------------------
// Languages
// ---------------------------------------------------------------------------

/// How many files are written in a language.
#[derive(Debug, Clone, Copy, PartialEq, Eq, Structural)]
pub struct LanguageBreakdown {
    pub language: Language,
    pub count: usize,
}

impl Ranked for LanguageBreakdown {
    open spec fn rank_le(self, other: Self) -> bool {
        self.count >= other.count
    }

    proof fn rank_total(a: Self, b: Self) {
    }

    proof fn rank_transitive(a: Self, b: Self, c: Self) {
    }

    fn may_precede(&self, other: &Self) -> (r: bool) {
        self.count >= other.count
    }
}

/// The paths of the files that are written in a language.
pub open spec fn paths_in(files: Map<Seq<char>, FileEntryView>, language: Language) -> Set<
    Seq<char>,
> {
    files.dom().filter(|k: Seq<char>| files[k].language == language)
}

/// `items` has each language that occurs once, with the number of its files, and
/// the languages with more files in front. Languages with equally many files may
/// come in any order.
pub open spec fn is_breakdown(
    items: Seq<LanguageBreakdown>,
    files: Map<Seq<char>, FileEntryView>,
) -> bool {
    &&& forall|i: int, j: int|
        0 <= i < j < items.len() ==> (#[trigger] items[i]).count >= (#[trigger] items[j]).count
            && items[i].language != items[j].language
    &&& forall|i: int|
        0 <= i < items.len() ==> (#[trigger] items[i]).count == paths_in(
            files,
            items[i].language,
        ).len() && items[i].count > 0
    &&& forall|k: Seq<char>| #[trigger]
        files.contains_key(k) ==> exists|i: int|
            0 <= i < items.len() && (#[trigger] items[i]).language == files[k].language
}

/// How many of the first `n` keys are those of files in a language.
spec fn tally(
    keys: Seq<Seq<char>>,
    files: Map<Seq<char>, FileEntryView>,
    language: Language,
    n: int,
) -> nat
    decreases n,
{
    if n <= 0 {
        0
    } else {
        tally(keys, files, language, n - 1) + if files[keys[n - 1]].language == language {
            1nat
        } else {
            0
        }
    }
}

/// The tally of the first keys is the number of paths among them.
proof fn lemma_tally_prefix(
    keys: Seq<Seq<char>>,
    files: Map<Seq<char>, FileEntryView>,
    language: Language,
    n: int,
)
    requires
        0 <= n <= keys.len(),
        keys.no_duplicates(),
    ensures
        keys.take(n).to_set().filter(|k: Seq<char>| files[k].language == language).finite(),
        keys.take(n).to_set().filter(|k: Seq<char>| files[k].language == language).len() == tally(
            keys,
            files,
            language,
            n,
        ),
    decreases n,
{
    let p = |k: Seq<char>| files[k].language == language;
    let now = keys.take(n).to_set().filter(p);
    if n == 0 {
        assert(now =~= Set::empty());
    } else {
        lemma_tally_prefix(keys, files, language, n - 1);
        let before = keys.take(n - 1).to_set().filter(p);
        let key = keys[n - 1];
        let t = keys.take(n - 1);
        let u = keys.take(n);
        assert(!before.contains(key)) by {
            if t.contains(key) {
                let j = choose|j: int| 0 <= j < t.len() && t[j] == key;
                assert(keys[j] == keys[n - 1]);
            }
        }
        assert forall|k: Seq<char>| #[trigger] u.contains(k) <==> t.contains(k) || k == key by {
            if u.contains(k) {
                let j = choose|j: int| 0 <= j < u.len() && u[j] == k;
                if j < n - 1 {
                    assert(t[j] == k);
                }
            }
            if t.contains(k) {
                let j = choose|j: int| 0 <= j < t.len() && t[j] == k;
                assert(u[j] == k);
            }
            assert(u[n - 1] == key);
        }
        if p(key) {
            assert(now =~= before.insert(key));
        } else {
            assert(now =~= before);
        }
    }
}

/// The tally of all keys is the number of files.
proof fn lemma_tally(
    keys: Seq<Seq<char>>,
    files: Map<Seq<char>, FileEntryView>,
    language: Language,
)
    requires
        lists_keys(keys, files),
    ensures
        tally(keys, files, language, keys.len() as int) == paths_in(files, language).len(),
{
    lemma_tally_prefix(keys, files, language, keys.len() as int);
    assert(keys.take(keys.len() as int) =~= keys);
    assert(keys.to_set().filter(|k: Seq<char>| files[k].language == language) =~= paths_in(
        files,
        language,
    )) by {
        assert forall|k: Seq<char>| keys.to_set().contains(k) <==> files.dom().contains(k) by {
            assert(keys.contains(k) <==> files.contains_key(k));
        }
    }
}

impl FileTree {
    /// How many files there are of each language, the most frequent first.
    pub fn language_breakdown(&self) -> (r: Vec<LanguageBreakdown>)
        ensures
            is_breakdown(r@, self@.files),
    {
        let entries = all_files(&self.files);
        let ghost files = self@.files;
        let ghost keys = file_keys(entries@);
        let mut counts: Vec<LanguageBreakdown> = Vec::new();
        let mut i: usize = 0;
        while i < entries.len()
            invariant
                i <= entries@.len(),
                keys == file_keys(entries@),
                files == self@.files,
                forall|k: int|
                    0 <= k < entries@.len() ==> (#[trigger] entries@[k]).1@ == files[entries@[k].0@],
                forall|a: int, b: int|
                    0 <= a < b < counts@.len() ==> (#[trigger] counts@[a]).language != (
                    #[trigger] counts@[b]).language,
                forall|a: int|
                    0 <= a < counts@.len() ==> (#[trigger] counts@[a]).count == tally(
                        keys,
                        files,
                        counts@[a].language,
                        i as int,
                    ) && 0 < counts@[a].count <= i,
                forall|l: Language|
                    #[trigger] tally(keys, files, l, i as int) > 0 ==> exists|a: int|
                        0 <= a < counts@.len() && (#[trigger] counts@[a]).language == l,
            decreases entries@.len() - i,
        {
            let language = entries[i].1.language;
            let ghost before = counts@;
            assert(entries@[i as int].1@ == files[keys[i as int]]);
            let mut at: usize = 0;
            while at < counts.len() && counts[at].language != language
                invariant
                    at <= counts@.len(),
                    counts@ == before,
                    forall|a: int| 0 <= a < at ==> (#[trigger] before[a]).language != language,
                decreases counts@.len() - at,
            {
                at = at + 1;
            }
            if at < counts.len() {
                let grown = LanguageBreakdown { language, count: counts[at].count + 1 };
                counts.set(at, grown);
            } else {
                counts.push(LanguageBreakdown { language, count: 1 });
                assert(tally(keys, files, language, i as int) == 0);
            }
            assert forall|l: Language| #[trigger]
                tally(keys, files, l, i + 1) > 0 implies exists|a: int|
                0 <= a < counts@.len() && (#[trigger] counts@[a]).language == l by {
                if l == language {
                    assert(counts@[at as int].language == l);
                } else {
                    assert(tally(keys, files, l, i as int) > 0);
                    let a = choose|a: int|
                        0 <= a < before.len() && (#[trigger] before[a]).language == l;
                    assert(counts@[a].language == l);
                }
            }
            i = i + 1;
        }
        let ghost unsorted = counts@;
        let sorted = sort(counts);
        proof {
            let le = rank_order::<LanguageBreakdown>();
            lemma_rank_order::<LanguageBreakdown>();
            lemma_sorted_by(unsorted, le);
            lemma_sorted_members(unsorted, le);
            assert(keys.len() == entries@.len());
            assert forall|a: int| 0 <= a < sorted@.len() implies (#[trigger] sorted@[a]).count
                == paths_in(files, sorted@[a].language).len() && sorted@[a].count > 0 by {
                assert(sorted@.contains(sorted@[a]));
                let b = choose|b: int| 0 <= b < unsorted.len() && unsorted[b] == sorted@[a];
                lemma_tally(keys, files, sorted@[a].language);
            }
            assert forall|a: int, b: int| 0 <= a < b < sorted@.len() implies (
            #[trigger] sorted@[a]).count >= (#[trigger] sorted@[b]).count && sorted@[a].language
                != sorted@[b].language by {
                assert(le(sorted@[a], sorted@[b]));
                if sorted@[a].language == sorted@[b].language {
                    assert(sorted@[a] == sorted@[b]);
                }
            }
            assert forall|k: Seq<char>| #[trigger] files.contains_key(k) implies exists|a: int|
                0 <= a < sorted@.len() && (#[trigger] sorted@[a]).language == files[k].language by {
                assert(keys.contains(k));
                let j = choose|j: int| 0 <= j < keys.len() && keys[j] == k;
                lemma_tally_grows(keys, files, files[k].language, j + 1, i as int);
                assert(tally(keys, files, files[k].language, i as int) > 0);
                let a = choose|a: int|
                    0 <= a < unsorted.len() && (#[trigger] unsorted[a]).language
                        == files[k].language;
                assert(unsorted.contains(unsorted[a]));
                assert(sorted@.contains(unsorted[a]));
                let b = choose|b: int| 0 <= b < sorted@.len() && sorted@[b] == unsorted[a];
                assert(sorted@[b].language == files[k].language);
            }
        }
        sorted
    }
}

/// The tally grows from key to key.
proof fn lemma_tally_grows(
    keys: Seq<Seq<char>>,
    files: Map<Seq<char>, FileEntryView>,
    language: Language,
    m: int,
    n: int,
)
    requires
        m <= n,
    ensures
        tally(keys, files, language, m) <= tally(keys, files, language, n),
    decreases n - m,
{
    if m < n {
        lemma_tally_grows(keys, files, language, m, n - 1);
    }
}

// ---------------------------------------------------------------------------
// Laws
// ---------------------------------------------------------------------------

/// A file that is put into the tree can be read back, and nothing that was cached
/// for its path is served any more.
pub proof fn law_insert_invalidates(
    tree: FileTreeView,
    entry: FileEntryView,
    current: FileEntryView,
    max_file_size: u64,
)
    ensures
        ({
            let next = with_file(tree, entry);
            &&& next.files.contains_key(entry.rel_path)
            &&& next.files[entry.rel_path] == entry
            &&& cached_ranges(next, entry.rel_path, current) is None
            &&& site_lookup(next, entry.rel_path, max_file_size) is Miss
        }),
{
}

/// A file that is taken out is not found any more, and neither is anything that
/// was cached for its path.
pub proof fn law_remove_invalidates(
    tree: FileTreeView,
    rel_path: Seq<char>,
    current: FileEntryView,
    max_file_size: u64,
)
    ensures
        ({
            let next = without_path(tree, rel_path);
            &&& !next.files.contains_key(rel_path)
            &&& cached_ranges(next, rel_path, current) is None
            &&& site_lookup(next, rel_path, max_file_size) == LookupView::Miss(
                CallSiteCacheMissReason::Missing,
            )
        }),
{
}

/// Cached ranges are served for as long as size, time of change and language of
/// the file are those under which they were stored, and for no other state.
pub proof fn law_ranges_are_tied_to_metadata(
    tree: FileTreeView,
    rel_path: Seq<char>,
    stored: FileEntryView,
    current: FileEntryView,
    ranges: Seq<(usize, usize)>,
)
    ensures
        ({
            let next = with_ranges(tree, rel_path, stored, ranges);
            let unchanged = stored.size == current.size && stored.modified == current.modified
                && stored.language == current.language;
            cached_ranges(next, rel_path, current) == (if unchanged {
                Some(ranges)
            } else {
                None
            })
        }),
{
}

/// Call sites stored for a file of the tree are what a lookup gives, provided that
/// the file is parsed and not too large.
pub proof fn law_sites_are_read_back(
    tree: FileTreeView,
    entry: FileEntryView,
    facts: Seq<FactView>,
    max_file_size: u64,
)
    requires
        tree.files.contains_key(entry.rel_path),
        tree.files[entry.rel_path] == entry,
        parsed_language(entry.language),
        entry.size <= max_file_size,
    ensures
        site_lookup(with_sites(tree, entry, facts), entry.rel_path, max_file_size)
            == LookupView::Hit(facts),
{
}

/// Whatever is done with one path leaves every other path as it was.
pub proof fn law_paths_are_separate(
    tree: FileTreeView,
    entry: FileEntryView,
    facts: Seq<FactView>,
    other: Seq<char>,
    current: FileEntryView,
    max_file_size: u64,
)
    requires
        other != entry.rel_path,
    ensures
        site_lookup(with_file(tree, entry), other, max_file_size) == site_lookup(
            tree,
            other,
            max_file_size,
        ),
        site_lookup(without_path(tree, entry.rel_path), other, max_file_size) == site_lookup(
            tree,
            other,
            max_file_size,
        ),
        site_lookup(with_sites(tree, entry, facts), other, max_file_size) == site_lookup(
            tree,
            other,
            max_file_size,
        ),
        cached_ranges(with_file(tree, entry), other, current) == cached_ranges(
            tree,
            other,
            current,
        ),
        cached_ranges(without_path(tree, entry.rel_path), other, current) == cached_ranges(
            tree,
            other,
            current,
        ),
{
}

} // verus!
