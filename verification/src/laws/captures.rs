//! What a query captured.
use vstd::prelude::*;
use crate::symbols::syntax::{capture_number, node_text, CaptureView, NodeView};

verus! {

/// The capture with number `k` is the first with a name.
pub open spec fn is_first_named(names: Seq<Seq<char>>, name: Seq<char>, k: int) -> bool {
    &&& 0 <= k < names.len()
    &&& names[k] == name
    &&& forall|j: int| 0 <= j < k ==> names[j] != name
}

/// The number of a capture is that of the first with its name; there is none where no
/// capture has the name.
pub proof fn law_capture_number(names: Seq<Seq<char>>, name: Seq<char>)
    ensures
        match capture_number(names, name) {
            Some(k) => is_first_named(names, name, k),
            None => !names.contains(name),
        },
        forall|k: int| #[trigger]
            is_first_named(names, name, k) ==> capture_number(names, name) == Some(k),
    decreases names.len(),
{
    if names.len() > 0 && names[0] != name {
        let rest = names.drop_first();
        law_capture_number(rest, name);
        match capture_number(rest, name) {
            Some(k) => {
                assert forall|j: int| 0 <= j < k + 1 implies names[j] != name by {
                    if j > 0 {
                        assert(rest[j - 1] == names[j]);
                    }
                }
            },
            None => {
                if names.contains(name) {
                    let i = choose|i: int| 0 <= i < names.len() && names[i] == name;
                    assert(rest[i - 1] == name);
                    assert(rest.contains(name));
                }
            },
        }
        assert forall|k: int| #[trigger] is_first_named(names, name, k) implies capture_number(
            names,
            name,
        ) == Some(k) by {
            assert(rest[k - 1] == name);
            assert forall|j: int| 0 <= j < k - 1 implies rest[j] != name by {
                assert(rest[j] == names[j + 1]);
            }
            assert(is_first_named(rest, name, k - 1));
        }
    } else if names.len() > 0 {
        assert forall|k: int| #[trigger] is_first_named(names, name, k) implies capture_number(
            names,
            name,
        ) == Some(k) by {
            if k > 0 {
                assert(names[0] != name);
            }
        }
    }
}

/// The text of a node is this one; a node whose bytes are not text has none.
pub open spec fn reads_as(node: NodeView, text: Seq<char>) -> bool {
    match node.text {
        Some(t) => t == text,
        None => text.len() == 0,
    }
}

/// What is taken for the text of a node is what it reads.
pub proof fn law_node_text(node: NodeView, text: Seq<char>)
    ensures
        node_text(node) == text <==> reads_as(node, text),
{
    if node.text is None && text.len() == 0 {
        assert(text =~= Seq::empty());
    }
}

/// The last capture of a match with a name.
pub open spec fn is_last_named(
    names: Seq<Seq<char>>,
    name: Seq<char>,
    captures: Seq<CaptureView>,
    j: int,
) -> bool {
    &&& 0 <= j < captures.len()
    &&& is_first_named(names, name, captures[j].index as int)
    &&& forall|k: int|
        j < k < captures.len() ==> !is_first_named(
            names,
            name,
            (#[trigger] captures[k]).index as int,
        )
}

/// The last capture with a name among the first captures and among all of them.
pub proof fn lemma_last_named(
    names: Seq<Seq<char>>,
    name: Seq<char>,
    captures: Seq<CaptureView>,
    j: int,
)
    requires
        captures.len() > 0,
    ensures
        is_last_named(names, name, captures, j) <==> if capture_number(names, name) == Some(
            captures.last().index as int,
        ) {
            j == captures.len() - 1
        } else {
            is_last_named(names, name, captures.drop_last(), j)
        },
{
    law_capture_number(names, name);
    let rest = captures.drop_last();
    let n = captures.len() - 1;
    assert(captures[n] == captures.last());
    if is_last_named(names, name, captures, j) && j < n {
        assert(!is_first_named(names, name, captures[n].index as int));
        assert(rest[j] == captures[j]);
        assert forall|k: int| j < k < rest.len() implies !is_first_named(
            names,
            name,
            (#[trigger] rest[k]).index as int,
        ) by {
            assert(rest[k] == captures[k]);
        }
    }
    if !is_first_named(names, name, captures[n].index as int) && is_last_named(
        names,
        name,
        rest,
        j,
    ) {
        assert(rest[j] == captures[j]);
        assert forall|k: int| j < k < captures.len() implies !is_first_named(
            names,
            name,
            (#[trigger] captures[k]).index as int,
        ) by {
            if k < n {
                assert(rest[k] == captures[k]);
            }
        }
    }
}

} // verus!
