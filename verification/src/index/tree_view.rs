//! Paths drawn as a tree, as the `tree` command does.
use vstd::prelude::*;
use crate::sorting::{
    lemma_sorted_by, lemma_text_order, sort_texts, sorted_by, text_order,
};
use crate::text::{is_among, same, split, split_of, views};

verus! {

/// The components of the paths of a list.
pub open spec fn components(v: Seq<Vec<String>>) -> Seq<Seq<Seq<char>>> {
    v.map_values(|p: Vec<String>| views(p@))
}

/// The first components of paths, each once.
pub open spec fn first_names(paths: Seq<Seq<Seq<char>>>) -> Seq<Seq<char>>
    decreases paths.len(),
{
    if paths.len() == 0 {
        Seq::empty()
    } else {
        let before = first_names(paths.drop_last());
        if paths.last().len() == 0 || before.contains(paths.last()[0]) {
            before
        } else {
            before.push(paths.last()[0])
        }
    }
}

/// The names in a directory, in order.
pub open spec fn names_in(paths: Seq<Seq<Seq<char>>>) -> Seq<Seq<char>> {
    sorted_by(first_names(paths), text_order())
}

/// A name in a directory is a file if a path ends there; else it is a directory.
pub open spec fn is_file(paths: Seq<Seq<Seq<char>>>, name: Seq<char>) -> bool {
    paths.contains(seq![name])
}

/// What is below the directory `name`: the rest of the paths that go through it.
pub open spec fn below(paths: Seq<Seq<Seq<char>>>, name: Seq<char>) -> Seq<Seq<Seq<char>>>
    decreases paths.len(),
{
    if paths.len() == 0 {
        Seq::empty()
    } else {
        let before = below(paths.drop_last(), name);
        if paths.last().len() > 1 && paths.last()[0] == name {
            before.push(paths.last().drop_first())
        } else {
            before
        }
    }
}

/// The number of components of the longest path.
pub open spec fn longest(paths: Seq<Seq<Seq<char>>>) -> nat
    decreases paths.len(),
{
    if paths.len() == 0 {
        0
    } else if paths.last().len() > longest(paths.drop_last()) {
        paths.last().len()
    } else {
        longest(paths.drop_last())
    }
}

/// A path below a directory is shorter than the whole path.
pub proof fn lemma_below_is_shorter(paths: Seq<Seq<Seq<char>>>, name: Seq<char>)
    ensures
        longest(paths) > 0 ==> longest(below(paths, name)) < longest(paths),
        longest(paths) == 0 ==> longest(below(paths, name)) == 0,
    decreases paths.len(),
{
    if paths.len() > 0 {
        let rest = below(paths.drop_last(), name);
        lemma_below_is_shorter(paths.drop_last(), name);
        if paths.last().len() > 1 && paths.last()[0] == name {
            let added = rest.push(paths.last().drop_first());
            assert(added.drop_last() =~= rest);
            assert(added.last() == paths.last().drop_first());
        }
    }
}

/// The drawing of a directory: a line for each name, and below each directory
/// what is in it. `max_depth` bounds how many levels are drawn; 0 draws all.
pub open spec fn drawing(
    paths: Seq<Seq<Seq<char>>>,
    prefix: Seq<char>,
    max_depth: nat,
    depth: nat,
) -> Seq<char>
    decreases longest(paths), 1nat, 0nat,
{
    if max_depth > 0 && depth >= max_depth {
        Seq::empty()
    } else {
        drawn_names(paths, names_in(paths), prefix, max_depth, depth)
    }
}

/// The drawing of the last names of a directory.
pub open spec fn drawn_names(
    paths: Seq<Seq<Seq<char>>>,
    names: Seq<Seq<char>>,
    prefix: Seq<char>,
    max_depth: nat,
    depth: nat,
) -> Seq<char>
    decreases longest(paths), 0nat, names.len(),
{
    if names.len() == 0 || longest(paths) == 0 {
        Seq::empty()
    } else {
        proof {
            lemma_below_is_shorter(paths, names[0]);
        }
        let connector = if names.len() == 1 {
            "└── "@
        } else {
            "├── "@
        };
        let indent = if names.len() == 1 {
            "    "@
        } else {
            "│   "@
        };
        let line = prefix + connector + names[0];
        let entry = if is_file(paths, names[0]) {
            line + "\n"@
        } else {
            line + "/\n"@ + drawing(below(paths, names[0]), prefix + indent, max_depth, depth + 1)
        };
        entry + drawn_names(paths, names.drop_first(), prefix, max_depth, depth)
    }
}

/// The drawing of paths.
pub open spec fn tree_of(paths: Seq<Seq<char>>, max_depth: nat) -> Seq<char> {
    drawing(paths.map_values(|p: Seq<char>| split_of(p, '/')), Seq::empty(), max_depth, 0)
}

/// Where there is a name, there is a component.
pub proof fn lemma_names_have_length(paths: Seq<Seq<Seq<char>>>)
    ensures
        first_names(paths).len() > 0 ==> longest(paths) > 0,
    decreases paths.len(),
{
    if paths.len() > 0 {
        lemma_names_have_length(paths.drop_last());
    }
}

/// The names in a directory, in order.
fn list_names(paths: &Vec<Vec<String>>) -> (r: Vec<String>)
    ensures
        views(r@) == names_in(components(paths@)),
        r@.len() > 0 ==> longest(components(paths@)) > 0,
{
    let ghost all = components(paths@);
    let mut names: Vec<String> = Vec::new();
    let mut i: usize = 0;
    assert(all.take(0) =~= Seq::empty());
    assert(views(names@) =~= Seq::empty());
    while i < paths.len()
        invariant
            i <= paths@.len(),
            all == components(paths@),
            views(names@) == first_names(all.take(i as int)),
        decreases paths@.len() - i,
    {
        let ghost seen = views(names@);
        assert(all.take(i + 1).drop_last() =~= all.take(i as int));
        assert(all.take(i + 1).last() == views(paths@[i as int]@));
        if paths[i].len() > 0 {
            assert(views(paths@[i as int]@)[0] == paths@[i as int]@[0]@);
            if !is_among(&names, paths[i][0].as_str()) {
                names.push(paths[i][0].clone());
                assert(views(names@) =~= seen.push(paths@[i as int]@[0]@));
            }
        }
        i = i + 1;
    }
    assert(all.take(i as int) =~= all);
    proof {
        lemma_names_have_length(all);
        lemma_text_order();
        lemma_sorted_by(first_names(all), text_order());
        assert(views(names@).len() == names@.len());
    }
    sort_texts(names)
}

/// Whether a path ends at `name`.
fn ends_at(paths: &Vec<Vec<String>>, name: &str) -> (r: bool)
    ensures
        r == is_file(components(paths@), name@),
{
    let ghost all = components(paths@);
    let mut i: usize = 0;
    while i < paths.len()
        invariant
            i <= paths@.len(),
            all == components(paths@),
            forall|k: int| 0 <= k < i ==> #[trigger] all[k] != seq![name@],
        decreases paths@.len() - i,
    {
        assert(all[i as int] == views(paths@[i as int]@));
        if paths[i].len() == 1 && same(paths[i][0].as_str(), name) {
            assert(all[i as int] =~= seq![name@]);
            return true;
        }
        assert(paths@[i as int]@.len() == 1 ==> views(paths@[i as int]@)[0]
            == paths@[i as int]@[0]@);
        i = i + 1;
    }
    false
}

/// What is below the directory `name`.
fn list_below(paths: &Vec<Vec<String>>, name: &str) -> (r: Vec<Vec<String>>)
    ensures
        components(r@) == below(components(paths@), name@),
{
    let ghost all = components(paths@);
    let mut out: Vec<Vec<String>> = Vec::new();
    let mut i: usize = 0;
    assert(all.take(0) =~= Seq::empty());
    assert(components(out@) =~= Seq::empty());
    while i < paths.len()
        invariant
            i <= paths@.len(),
            all == components(paths@),
            components(out@) == below(all.take(i as int), name@),
        decreases paths@.len() - i,
    {
        let ghost seen = components(out@);
        assert(all.take(i + 1).drop_last() =~= all.take(i as int));
        assert(all.take(i + 1).last() == views(paths@[i as int]@));
        if paths[i].len() > 1 {
            assert(views(paths@[i as int]@)[0] == paths@[i as int]@[0]@);
            if same(paths[i][0].as_str(), name) {
                let rest = without_first(&paths[i]);
                out.push(rest);
                assert(components(out@) =~= seen.push(views(rest@)));
            }
        }
        i = i + 1;
    }
    assert(all.take(i as int) =~= all);
    out
}

/// A path without its first component.
fn without_first(path: &Vec<String>) -> (r: Vec<String>)
    requires
        path@.len() > 0,
    ensures
        views(r@) == views(path@).drop_first(),
{
    let mut out: Vec<String> = Vec::new();
    let mut i: usize = 1;
    while i < path.len()
        invariant
            1 <= i <= path@.len(),
            out@.len() == i - 1,
            forall|k: int| 0 <= k < i - 1 ==> (#[trigger] out@[k])@ == path@[k + 1]@,
        decreases path@.len() - i,
    {
        out.push(path[i].clone());
        i = i + 1;
    }
    assert(views(out@) =~= views(path@).drop_first());
    out
}

/// Appends the drawing of a directory.
#[verifier::rlimit(30)]
fn render_level(
    paths: &Vec<Vec<String>>,
    output: &mut String,
    prefix: &str,
    max_depth: usize,
    current_depth: usize,
)
    requires
        current_depth + longest(components(paths@)) <= usize::MAX,
    ensures
        final(output)@ == old(output)@ + drawing(
            components(paths@),
            prefix@,
            max_depth as nat,
            current_depth as nat,
        ),
    decreases longest(components(paths@)),
{
    let ghost all = components(paths@);
    let ghost start = output@;
    if max_depth > 0 && current_depth >= max_depth {
        assert(output@ + Seq::empty() =~= output@);
        return;
    }
    let names = list_names(paths);
    let ghost listed = views(names@);
    let mut i: usize = 0;
    assert(listed.skip(0) =~= listed);
    assert(drawn_names(all, listed, prefix@, max_depth as nat, current_depth as nat) == drawing(
        all,
        prefix@,
        max_depth as nat,
        current_depth as nat,
    ));
    while i < names.len()
        invariant
            i <= names@.len(),
            all == components(paths@),
            listed == views(names@),
            names@.len() > 0 ==> longest(all) > 0,
            current_depth + longest(all) <= usize::MAX,
            output@ + drawn_names(
                all,
                listed.skip(i as int),
                prefix@,
                max_depth as nat,
                current_depth as nat,
            ) == start + drawing(all, prefix@, max_depth as nat, current_depth as nat),
        decreases names@.len() - i,
    {
        let ghost before = output@;
        let ghost left = listed.skip(i as int);
        let last = i == names.len() - 1;
        let name = names[i].as_str();
        assert(left[0] == name@);
        assert(left.drop_first() =~= listed.skip(i + 1));
        let ghost tail = drawn_names(
            all,
            listed.skip(i + 1),
            prefix@,
            max_depth as nat,
            current_depth as nat,
        );
        output.append(prefix);
        if last {
            output.append("└── ");
        } else {
            output.append("├── ");
        }
        output.append(name);
        if ends_at(paths, name) {
            output.append("\n");
        } else {
            output.append("/\n");
            let inner = list_below(paths, name);
            proof {
                lemma_below_is_shorter(all, name@);
            }
            let mut deeper = prefix.to_owned();
            if last {
                deeper.append("    ");
            } else {
                deeper.append("│   ");
            }
            render_level(&inner, output, deeper.as_str(), max_depth, current_depth + 1);
        }
        assert(output@ + tail =~= before + drawn_names(
            all,
            left,
            prefix@,
            max_depth as nat,
            current_depth as nat,
        ));
        i = i + 1;
    }
    assert(listed.skip(i as int) =~= Seq::empty());
    assert(output@ =~= output@ + drawn_names(
        all,
        listed.skip(i as int),
        prefix@,
        max_depth as nat,
        current_depth as nat,
    ));
}

/// The length of the longest path is that of one of them.
proof fn lemma_longest_is_bounded(paths: Seq<Seq<Seq<char>>>, bound: nat)
    requires
        forall|i: int| 0 <= i < paths.len() ==> (#[trigger] paths[i]).len() <= bound,
    ensures
        longest(paths) <= bound,
    decreases paths.len(),
{
    if paths.len() > 0 {
        assert forall|i: int| 0 <= i < paths.drop_last().len() implies (
        #[trigger] paths.drop_last()[i]).len() <= bound by {
            assert(paths.drop_last()[i] == paths[i]);
        }
        assert(paths[paths.len() - 1].len() <= bound);
        lemma_longest_is_bounded(paths.drop_last(), bound);
    }
}

/// The drawing of paths, of `max_depth` levels, or of all where that is 0.
pub fn draw_paths(paths: &Vec<String>, max_depth: usize) -> (r: String)
    ensures
        r@ == tree_of(views(paths@), max_depth as nat),
{
    let ghost pieces = views(paths@).map_values(|p: Seq<char>| split_of(p, '/'));
    let mut parts: Vec<Vec<String>> = Vec::new();
    let mut i: usize = 0;
    while i < paths.len()
        invariant
            i <= paths@.len(),
            pieces == views(paths@).map_values(|p: Seq<char>| split_of(p, '/')),
            parts@.len() == i,
            forall|k: int| 0 <= k < i ==> views((#[trigger] parts@[k])@) == pieces[k],
            forall|k: int| 0 <= k < i ==> (#[trigger] parts@[k])@.len() <= usize::MAX,
        decreases paths@.len() - i,
    {
        let path = split(paths[i].as_str(), '/');
        assert(views(paths@)[i as int] == paths@[i as int]@);
        let n: usize = path.len();
        parts.push(path);
        i = i + 1;
    }
    assert(components(parts@) =~= pieces);
    proof {
        assert forall|k: int| 0 <= k < pieces.len() implies (#[trigger] pieces[k]).len()
            <= usize::MAX by {
            assert(parts@[k]@.len() <= usize::MAX);
            assert(views(parts@[k]@).len() == parts@[k]@.len());
        }
        lemma_longest_is_bounded(pieces, usize::MAX as nat);
    }
    let mut output = String::new();
    render_level(&parts, &mut output, "", max_depth, 0);
    proof {
        reveal_strlit("");
        assert(""@ =~= Seq::empty());
        assert(output@ =~= Seq::empty() + drawing(pieces, Seq::empty(), max_depth as nat, 0));
    }
    output
}

/// A bound that no path reaches leaves nothing out: the drawing is the one
/// without a bound.
pub proof fn law_deep_bound_draws_all(
    paths: Seq<Seq<Seq<char>>>,
    prefix: Seq<char>,
    max_depth: nat,
    depth: nat,
)
    requires
        max_depth > depth,
        max_depth >= depth + longest(paths),
    ensures
        drawing(paths, prefix, max_depth, depth) == drawing(paths, prefix, 0, depth),
    decreases longest(paths), 1nat, 0nat,
{
    lemma_deep_names(paths, names_in(paths), prefix, max_depth, depth);
}

proof fn lemma_deep_names(
    paths: Seq<Seq<Seq<char>>>,
    names: Seq<Seq<char>>,
    prefix: Seq<char>,
    max_depth: nat,
    depth: nat,
)
    requires
        max_depth > depth,
        max_depth >= depth + longest(paths),
    ensures
        drawn_names(paths, names, prefix, max_depth, depth) == drawn_names(
            paths,
            names,
            prefix,
            0,
            depth,
        ),
    decreases longest(paths), 0nat, names.len(),
{
    if names.len() > 0 && longest(paths) > 0 {
        let rest = below(paths, names[0]);
        lemma_below_is_shorter(paths, names[0]);
        let indent = if names.len() == 1 {
            "    "@
        } else {
            "│   "@
        };
        if max_depth > depth + 1 {
            law_deep_bound_draws_all(rest, prefix + indent, max_depth, depth + 1);
        } else {
            assert(longest(rest) == 0);
            lemma_nothing_to_draw(rest, prefix + indent, max_depth, depth + 1);
            lemma_nothing_to_draw(rest, prefix + indent, 0, depth + 1);
        }
        lemma_deep_names(paths, names.drop_first(), prefix, max_depth, depth);
    }
}

/// A line of a drawing, and how many directories its entry lies in.
pub struct DrawnLine {
    pub text: Seq<char>,
    pub parents: nat,
}

/// The lines of the drawing of a directory that lies in `depth` others, with all levels.
pub open spec fn all_lines(
    paths: Seq<Seq<Seq<char>>>,
    prefix: Seq<char>,
    depth: nat,
) -> Seq<DrawnLine>
    decreases longest(paths), 1nat, 0nat,
{
    lines_of_names(paths, names_in(paths), prefix, depth)
}

/// The lines of the last names of a directory.
pub open spec fn lines_of_names(
    paths: Seq<Seq<Seq<char>>>,
    names: Seq<Seq<char>>,
    prefix: Seq<char>,
    depth: nat,
) -> Seq<DrawnLine>
    decreases longest(paths), 0nat, names.len(),
{
    if names.len() == 0 || longest(paths) == 0 {
        Seq::empty()
    } else {
        proof {
            lemma_below_is_shorter(paths, names[0]);
        }
        let connector = if names.len() == 1 {
            "└── "@
        } else {
            "├── "@
        };
        let indent = if names.len() == 1 {
            "    "@
        } else {
            "│   "@
        };
        let line = prefix + connector + names[0];
        let entry = if is_file(paths, names[0]) {
            seq![DrawnLine { text: line + "\n"@, parents: depth }]
        } else {
            seq![DrawnLine { text: line + "/\n"@, parents: depth }] + all_lines(
                below(paths, names[0]),
                prefix + indent,
                depth + 1,
            )
        };
        entry + lines_of_names(paths, names.drop_first(), prefix, depth)
    }
}

/// The text of lines.
pub open spec fn text_of_lines(lines: Seq<DrawnLine>) -> Seq<char>
    decreases lines.len(),
{
    if lines.len() == 0 {
        Seq::empty()
    } else {
        text_of_lines(lines.drop_last()) + lines.last().text
    }
}

/// The lines of entries that lie in fewer than `max_depth` directories; all where that is
/// 0.
pub open spec fn shallow_lines(lines: Seq<DrawnLine>, max_depth: nat) -> Seq<DrawnLine> {
    lines.filter(|l: DrawnLine| max_depth == 0 || l.parents < max_depth)
}

/// The text of two lists of lines is that of the one, then that of the other.
proof fn lemma_text_of_lines(a: Seq<DrawnLine>, b: Seq<DrawnLine>)
    ensures
        text_of_lines(a + b) == text_of_lines(a) + text_of_lines(b),
    decreases b.len(),
{
    if b.len() == 0 {
        assert(a + b =~= a);
    } else {
        assert((a + b).drop_last() =~= a + b.drop_last());
        lemma_text_of_lines(a, b.drop_last());
        assert(text_of_lines(a + b) =~= text_of_lines(a) + text_of_lines(b));
    }
}

/// A line by itself, and what a bound leaves of it.
proof fn lemma_one_line(line: DrawnLine, max_depth: nat)
    ensures
        shallow_lines(seq![line], max_depth) == if max_depth == 0 || line.parents < max_depth {
            seq![line]
        } else {
            Seq::empty()
        },
        text_of_lines(seq![line]) == line.text,
{
    reveal(Seq::filter);
    let one = seq![line];
    let none = Seq::<DrawnLine>::empty();
    let p = |l: DrawnLine| max_depth == 0 || l.parents < max_depth;
    assert(one.drop_last() =~= none);
    assert(none.filter(p) =~= none);
    assert(one.last() == line);
    assert(text_of_lines(none) =~= Seq::empty());
    assert(text_of_lines(one) =~= line.text);
    if p(line) {
        assert(one.filter(p) =~= none.push(line));
        assert(none.push(line) =~= one);
    } else {
        assert(one.filter(p) =~= none);
    }
}

/// No line of a directory that lies in `depth` others lies in fewer.
proof fn lemma_lines_are_deep(
    paths: Seq<Seq<Seq<char>>>,
    names: Seq<Seq<char>>,
    prefix: Seq<char>,
    depth: nat,
    max_depth: nat,
)
    requires
        0 < max_depth <= depth,
    ensures
        shallow_lines(lines_of_names(paths, names, prefix, depth), max_depth) == Seq::<
            DrawnLine,
        >::empty(),
    decreases longest(paths), names.len(),
{
    let p = |l: DrawnLine| max_depth == 0 || l.parents < max_depth;
    if names.len() == 0 || longest(paths) == 0 {
        reveal(Seq::filter);
        assert(Seq::<DrawnLine>::empty().filter(p) =~= Seq::empty());
    } else {
        lemma_below_is_shorter(paths, names[0]);
        let connector = if names.len() == 1 {
            "└── "@
        } else {
            "├── "@
        };
        let indent = if names.len() == 1 {
            "    "@
        } else {
            "│   "@
        };
        let line = prefix + connector + names[0];
        let inner = below(paths, names[0]);
        let others = lines_of_names(paths, names.drop_first(), prefix, depth);
        lemma_lines_are_deep(paths, names.drop_first(), prefix, depth, max_depth);
        if is_file(paths, names[0]) {
            let head = DrawnLine { text: line + "\n"@, parents: depth };
            lemma_one_line(head, max_depth);
            Seq::filter_distributes_over_add(seq![head], others, p);
        } else {
            let head = DrawnLine { text: line + "/\n"@, parents: depth };
            let under = all_lines(inner, prefix + indent, depth + 1);
            lemma_one_line(head, max_depth);
            lemma_lines_are_deep(inner, names_in(inner), prefix + indent, depth + 1, max_depth);
            Seq::filter_distributes_over_add(seq![head], under, p);
            Seq::filter_distributes_over_add(seq![head] + under, others, p);
        }
        assert(Seq::<DrawnLine>::empty() + Seq::<DrawnLine>::empty() =~= Seq::empty());
    }
}

/// The drawing of the last names of a directory, as lines.
proof fn lemma_names_as_lines(
    paths: Seq<Seq<Seq<char>>>,
    names: Seq<Seq<char>>,
    prefix: Seq<char>,
    max_depth: nat,
    depth: nat,
)
    requires
        max_depth == 0 || depth < max_depth,
    ensures
        drawn_names(paths, names, prefix, max_depth, depth) == text_of_lines(
            shallow_lines(lines_of_names(paths, names, prefix, depth), max_depth),
        ),
    decreases longest(paths), names.len(),
{
    let p = |l: DrawnLine| max_depth == 0 || l.parents < max_depth;
    if names.len() == 0 || longest(paths) == 0 {
        reveal(Seq::filter);
        assert(Seq::<DrawnLine>::empty().filter(p) =~= Seq::empty());
    } else {
        lemma_below_is_shorter(paths, names[0]);
        let connector = if names.len() == 1 {
            "└── "@
        } else {
            "├── "@
        };
        let indent = if names.len() == 1 {
            "    "@
        } else {
            "│   "@
        };
        let line = prefix + connector + names[0];
        let inner = below(paths, names[0]);
        let others = lines_of_names(paths, names.drop_first(), prefix, depth);
        lemma_names_as_lines(paths, names.drop_first(), prefix, max_depth, depth);
        if is_file(paths, names[0]) {
            let head = DrawnLine { text: line + "\n"@, parents: depth };
            lemma_one_line(head, max_depth);
            Seq::filter_distributes_over_add(seq![head], others, p);
            lemma_text_of_lines(seq![head], shallow_lines(others, max_depth));
        } else {
            let head = DrawnLine { text: line + "/\n"@, parents: depth };
            let under = all_lines(inner, prefix + indent, depth + 1);
            lemma_one_line(head, max_depth);
            Seq::filter_distributes_over_add(seq![head], under, p);
            Seq::filter_distributes_over_add(seq![head] + under, others, p);
            lemma_text_of_lines(seq![head], shallow_lines(under, max_depth));
            lemma_text_of_lines(
                seq![head] + shallow_lines(under, max_depth),
                shallow_lines(others, max_depth),
            );
            if max_depth > 0 && depth + 1 >= max_depth {
                lemma_lines_are_deep(
                    inner,
                    names_in(inner),
                    prefix + indent,
                    depth + 1,
                    max_depth,
                );
            } else {
                lemma_names_as_lines(
                    inner,
                    names_in(inner),
                    prefix + indent,
                    max_depth,
                    depth + 1,
                );
            }
            assert(text_of_lines(shallow_lines(under, max_depth)) == drawing(
                inner,
                prefix + indent,
                max_depth,
                depth + 1,
            ));
        }
    }
}

/// A bound of `max_depth` levels, at least one, keeps of the whole drawing exactly the
/// lines of the entries that lie in fewer than `max_depth` directories, in their order and
/// as they are; without a bound, all lines are drawn, and also with one that no path
/// exceeds.
pub proof fn law_bound_keeps_shallow_lines(paths: Seq<Seq<char>>, max_depth: nat)
    ensures
        ({
            let pieces = paths.map_values(|p: Seq<char>| split_of(p, '/'));
            let lines = all_lines(pieces, Seq::empty(), 0);
            &&& tree_of(paths, 0) == text_of_lines(lines)
            &&& max_depth > 0 ==> tree_of(paths, max_depth) == text_of_lines(
                lines.filter(|l: DrawnLine| l.parents < max_depth),
            )
            &&& max_depth > 0 && (forall|i: int|
                0 <= i < pieces.len() ==> (#[trigger] pieces[i]).len() <= max_depth) ==> tree_of(
                paths,
                max_depth,
            ) == tree_of(paths, 0)
        }),
{
    let pieces = paths.map_values(|p: Seq<char>| split_of(p, '/'));
    let lines = all_lines(pieces, Seq::empty(), 0);
    lemma_names_as_lines(pieces, names_in(pieces), Seq::empty(), 0, 0);
    lemma_filter_all(lines, |l: DrawnLine| 0nat == 0 || l.parents < 0);
    if max_depth > 0 && (forall|i: int|
        0 <= i < pieces.len() ==> (#[trigger] pieces[i]).len() <= max_depth) {
        lemma_longest_is_bounded(pieces, max_depth);
        law_deep_bound_draws_all(pieces, Seq::empty(), max_depth, 0);
    }
    if max_depth > 0 {
        lemma_names_as_lines(pieces, names_in(pieces), Seq::empty(), max_depth, 0);
        assert((|l: DrawnLine| max_depth == 0 || l.parents < max_depth) =~= (|l: DrawnLine|
            l.parents < max_depth));
    }
}

/// A filter that takes everything changes nothing.
proof fn lemma_filter_all(lines: Seq<DrawnLine>, p: spec_fn(DrawnLine) -> bool)
    requires
        forall|l: DrawnLine| #[trigger] p(l),
    ensures
        lines.filter(p) == lines,
    decreases lines.len(),
{
    reveal(Seq::filter);
    if lines.len() > 0 {
        lemma_filter_all(lines.drop_last(), p);
        assert(p(lines.last()));
        assert(lines.drop_last().push(lines.last()) =~= lines);
    }
}

proof fn lemma_nothing_to_draw(
    paths: Seq<Seq<Seq<char>>>,
    prefix: Seq<char>,
    max_depth: nat,
    depth: nat,
)
    requires
        longest(paths) == 0,
    ensures
        drawing(paths, prefix, max_depth, depth) == Seq::<char>::empty(),
{
}

} // verus!
