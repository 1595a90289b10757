//! How the files of an index are drawn and counted.
use vstd::prelude::*;
use crate::index::file_entry::{parsed_language, FileEntryView, Language};
use crate::index::file_tree::{
    is_breakdown, parsed_pairs, path_languages, paths_in, LanguageBreakdown,
};
use crate::index::tree_view::{
    below, drawing, drawn_names, first_names, lemma_below_is_shorter, lemma_names_have_length,
    longest, names_in, tree_of,
};
use crate::laws::lists::lemma_filter_members;
use crate::maps::{lists_in_order, sorted_keys};
use crate::sorting::{lemma_sorted_by, lemma_sorted_members, lemma_text_order, text_order};
use crate::text::{split_of, text_le};

verus! {

// ---------------------------------------------------------------------------
// The drawing
// ---------------------------------------------------------------------------

/// One of the paths goes through a name first.
pub open spec fn leads_to(paths: Seq<Seq<Seq<char>>>, i: int, name: Seq<char>) -> bool {
    0 <= i < paths.len() && paths[i].len() > 0 && paths[i][0] == name
}

/// The first names, each once.
proof fn lemma_first_names(paths: Seq<Seq<Seq<char>>>)
    ensures
        forall|name: Seq<char>| #[trigger]
            first_names(paths).contains(name) <==> exists|i: int| #[trigger]
                leads_to(paths, i, name),
        first_names(paths).no_duplicates(),
    decreases paths.len(),
{
    let all = first_names(paths);
    if paths.len() > 0 {
        let rest = paths.drop_last();
        let n = paths.len() - 1;
        assert(paths[n] == paths.last());
        lemma_first_names(rest);
        let before = first_names(rest);
        assert forall|name: Seq<char>| #[trigger] all.contains(name) <==> exists|i: int| #[trigger]
            leads_to(paths, i, name) by {
            if all.contains(name) {
                let k = choose|k: int| 0 <= k < all.len() && all[k] == name;
                if k < before.len() {
                    assert(before[k] == name);
                    assert(before.contains(name));
                    let i = choose|i: int| #[trigger] leads_to(rest, i, name);
                    assert(rest[i] == paths[i]);
                    assert(leads_to(paths, i, name));
                } else {
                    assert(leads_to(paths, n, name));
                }
            }
            if exists|i: int| #[trigger] leads_to(paths, i, name) {
                let i = choose|i: int| #[trigger] leads_to(paths, i, name);
                if i < n {
                    assert(rest[i] == paths[i]);
                    assert(leads_to(rest, i, name));
                    assert(before.contains(name));
                    let k = choose|k: int| 0 <= k < before.len() && before[k] == name;
                    assert(all[k] == name);
                } else if before.contains(name) {
                    let k = choose|k: int| 0 <= k < before.len() && before[k] == name;
                    assert(all[k] == name);
                } else {
                    assert(all[before.len() as int] == name);
                }
            }
        }
        assert forall|i: int, j: int| 0 <= i < j < all.len() implies all[i] != all[j] by {
            if j == before.len() {
                assert(before.contains(before[i]));
            }
        }
    } else {
        assert(all.len() == 0);
    }
}

/// What stands in a directory are the first names of the paths in it, each once and in
/// order.
pub proof fn law_names_in_a_directory(paths: Seq<Seq<Seq<char>>>, name: Seq<char>)
    ensures
        names_in(paths).contains(name) <==> exists|i: int| #[trigger] leads_to(paths, i, name),
        forall|i: int, j: int|
            0 <= i < j < names_in(paths).len() ==> text_le(
                #[trigger] names_in(paths)[i],
                #[trigger] names_in(paths)[j],
            ) && names_in(paths)[i] != names_in(paths)[j],
{
    lemma_first_names(paths);
    lemma_text_order();
    lemma_sorted_by(first_names(paths), text_order());
    lemma_sorted_members(first_names(paths), text_order());
    let names = names_in(paths);
    assert(names.contains(name) <==> first_names(paths).contains(name));
    assert forall|i: int, j: int| 0 <= i < j < names.len() implies text_le(
        #[trigger] names[i],
        #[trigger] names[j],
    ) && names[i] != names[j] by {
        assert(text_order()(names[i], names[j]));
    }
}

/// What stands below a name are the rests of the paths that lead through it further on.
pub proof fn law_below(paths: Seq<Seq<Seq<char>>>, name: Seq<char>, rest: Seq<Seq<char>>)
    ensures
        below(paths, name).contains(rest) <==> rest.len() > 0 && paths.contains(
            seq![name] + rest,
        ),
    decreases paths.len(),
{
    let all = below(paths, name);
    let whole = seq![name] + rest;
    if paths.len() > 0 {
        let others = paths.drop_last();
        let last = paths.last();
        let n = paths.len() - 1;
        assert(paths[n] == last);
        law_below(others, name, rest);
        let before = below(others, name);
        if last.len() > 1 && last[0] == name {
            assert(last =~= seq![name] + last.drop_first());
            if last.drop_first() == rest {
                assert(last == whole);
            }
        }
        if last == whole {
            assert(last.drop_first() =~= rest);
        }
        if all.contains(rest) {
            let k = choose|k: int| 0 <= k < all.len() && all[k] == rest;
            if k < before.len() {
                assert(before[k] == rest);
                let i = choose|i: int| 0 <= i < others.len() && others[i] == whole;
                assert(paths[i] == whole);
            }
        }
        if rest.len() > 0 && paths.contains(whole) {
            let i = choose|i: int| 0 <= i < paths.len() && paths[i] == whole;
            if i < n {
                assert(others[i] == whole);
                let k = choose|k: int| 0 <= k < before.len() && before[k] == rest;
                assert(all[k] == rest);
            } else {
                assert(all[before.len() as int] == rest);
            }
        }
    } else {
        assert(all.len() == 0);
    }
}

/// How an entry is drawn behind a prefix: with a branch, and a bar before what stands below
/// it, where more entries follow, and with a corner and spaces where it is the last. A
/// directory has a slash, and what stands in it below it; nothing is drawn from a depth on
/// that is not asked for, where one is.
pub proof fn law_drawing(
    paths: Seq<Seq<Seq<char>>>,
    names: Seq<Seq<char>>,
    prefix: Seq<char>,
    max_depth: nat,
    depth: nat,
)
    requires
        longest(paths) > 0,
        names.len() > 0,
    ensures
        ({
            let more = names.len() > 1;
            let head = prefix + (if more {
                "├── "@
            } else {
                "└── "@
            }) + names[0];
            let inner = drawing(
                below(paths, names[0]),
                prefix + (if more {
                    "│   "@
                } else {
                    "    "@
                }),
                max_depth,
                depth + 1,
            );
            let others = drawn_names(paths, names.drop_first(), prefix, max_depth, depth);
            let drawn = drawn_names(paths, names, prefix, max_depth, depth);
            &&& paths.contains(seq![names[0]]) ==> drawn == head + "\n"@ + others
            &&& !paths.contains(seq![names[0]]) ==> drawn == head + "/\n"@ + inner + others
            &&& !more ==> others.len() == 0
        }),
        max_depth > 0 && depth >= max_depth ==> drawing(paths, prefix, max_depth, depth).len()
            == 0,
        max_depth == 0 || depth < max_depth ==> drawing(paths, prefix, max_depth, depth)
            == drawn_names(paths, names_in(paths), prefix, max_depth, depth),
{
    lemma_below_is_shorter(paths, names[0]);
}

/// The tree of an index is the drawing of the parts of its paths between the slashes, from
/// the start of the line and from depth zero.
pub proof fn law_tree(paths: Seq<Seq<char>>, max_depth: nat, parts: Seq<Seq<Seq<char>>>)
    requires
        parts.len() == paths.len(),
        forall|i: int| 0 <= i < paths.len() ==> (#[trigger] parts[i]) == split_of(paths[i], '/'),
    ensures
        tree_of(paths, max_depth) == drawing(parts, Seq::empty(), max_depth, 0),
        paths.len() == 0 ==> tree_of(paths, max_depth).len() == 0,
{
    assert(parts =~= paths.map_values(|p: Seq<char>| split_of(p, '/')));
    if paths.len() == 0 {
        assert(longest(parts) == 0);
        let names = names_in(parts);
        lemma_names_have_length(parts);
    }
}

// ---------------------------------------------------------------------------
// The counts
// ---------------------------------------------------------------------------

/// The languages of an index are told with the number of their files, the most frequent
/// first, each once, none without files, and each that has files.
pub proof fn law_breakdown(
    items: Seq<LanguageBreakdown>,
    files: Map<Seq<char>, FileEntryView>,
    i: int,
    j: int,
    path: Seq<char>,
)
    requires
        is_breakdown(items, files),
    ensures
        0 <= i < items.len() ==> items[i].count > 0 && items[i].count == files.dom().filter(
            |k: Seq<char>| files[k].language == items[i].language,
        ).len(),
        0 <= i < j < items.len() ==> items[i].count >= items[j].count && items[i].language
            != items[j].language,
        files.contains_key(path) ==> exists|k: int|
            0 <= k < items.len() && (#[trigger] items[k]).language == files[path].language,
{
    if 0 <= i < items.len() {
        assert(items[i].count == paths_in(files, items[i].language).len());
        assert(paths_in(files, items[i].language) =~= files.dom().filter(
            |k: Seq<char>| files[k].language == items[i].language,
        ));
    }
}

/// The files to be parsed are those of the index of a language that is parsed, each with
/// its language.
pub proof fn law_files_to_parse(
    files: Map<Seq<char>, FileEntryView>,
    path: Seq<char>,
    language: Language,
)
    requires
        lists_in_order(sorted_keys(files), files),
    ensures
        parsed_pairs(files).contains((path, language)) <==> files.contains_key(path)
            && files[path].language == language && language != Language::Sql && language
            != Language::Markdown && language != Language::Other,
{
    let keys = sorted_keys(files);
    let all = path_languages(files);
    let p = |e: (Seq<char>, Language)| parsed_language(e.1);
    lemma_filter_members(all, p);
    assert(parsed_pairs(files).contains((path, language)) <==> all.contains((path, language)) && p(
        (path, language),
    ));
    if all.contains((path, language)) {
        let i = choose|i: int| 0 <= i < all.len() && all[i] == (path, language);
        assert(keys.contains(keys[i]));
    }
    if files.contains_key(path) && files[path].language == language {
        assert(keys.contains(path));
        let i = choose|i: int| 0 <= i < keys.len() && keys[i] == path;
        assert(all[i] == (path, language));
    }
}

} // verus!
