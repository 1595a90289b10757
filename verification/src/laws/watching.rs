//! Which changes reach the index.
use vstd::prelude::*;
use crate::index::watch_filter::{follows, may_change_file, path_view, EventKind, FilterView};
use crate::index::watcher::{
    accepted, is_step, last_state, pending_after, relevant, ChangedPath, DebounceStep, DiskState,
    Received, WatchEvent,
};

use crate::sorting::{law_ordered_names, text_order};
use crate::text::{text_le, views};

verus! {

/// One of the paths of an event is this one, and it is followed.
pub open spec fn is_followed_at(
    filter: FilterView,
    paths: Seq<ChangedPath>,
    i: int,
    path: Seq<char>,
) -> bool {
    &&& 0 <= i < paths.len()
    &&& path_view(paths[i].rel_path) == Some(path)
    &&& follows(filter, Some(path), paths[i].is_dir)
}

/// The paths of an event that matter are those that are followed, where the event may have
/// changed a file, and none where it may not have.
pub proof fn law_relevant(
    filter: FilterView,
    kind: EventKind,
    paths: Seq<ChangedPath>,
    path: Seq<char>,
)
    ensures
        relevant(filter, kind, paths).contains(path) <==> may_change_file(kind) && exists|i: int|
            #[trigger] is_followed_at(filter, paths, i, path),
        relevant(filter, kind, paths).len() <= paths.len(),
    decreases paths.len(),
{
    let all = relevant(filter, kind, paths);
    if paths.len() > 0 {
        let rest = paths.drop_last();
        let n = paths.len() - 1;
        assert(paths[n] == paths.last());
        law_relevant(filter, kind, rest, path);
        let before = relevant(filter, kind, rest);
        if all.contains(path) {
            let k = choose|k: int| 0 <= k < all.len() && all[k] == path;
            if k < before.len() {
                assert(before[k] == path);
                let i = choose|i: int| #[trigger] is_followed_at(filter, rest, i, path);
                assert(rest[i] == paths[i]);
                assert(is_followed_at(filter, paths, i, path));
            } else {
                assert(is_followed_at(filter, paths, n, path));
            }
        }
        if may_change_file(kind) && exists|i: int| #[trigger]
            is_followed_at(filter, paths, i, path) {
            let i = choose|i: int| #[trigger] is_followed_at(filter, paths, i, path);
            if i < n {
                assert(rest[i] == paths[i]);
                assert(is_followed_at(filter, rest, i, path));
                let k = choose|k: int| 0 <= k < before.len() && before[k] == path;
                assert(all[k] == path);
            } else {
                assert(all[before.len() as int] == path);
            }
        }
    } else {
        assert(all.len() == 0);
    }
}

/// What is waiting after a message: with paths that changed, what waited and those of the
/// paths that are followed; nothing once the time is up; and otherwise what waited.
pub proof fn law_waiting(
    pending: Set<Seq<char>>,
    filter: FilterView,
    received: Received,
    path: Seq<char>,
)
    ensures
        pending_after(pending, filter, received).contains(path) <==> match received {
            Received::Event(paths) => pending.contains(path) || exists|i: int| #[trigger]
                is_followed_at(filter, paths@, i, path),
            Received::TimedOut => false,
            Received::Failed | Received::Shutdown | Received::Disconnected => pending.contains(
                path,
            ),
        },
{
    if let Received::Event(paths) = received {
        if exists|i: int|
            0 <= i < paths@.len() && path_view((#[trigger] paths@[i]).rel_path) == Some(path)
                && follows(filter, Some(path), paths@[i].is_dir) {
            let i = choose|i: int|
                0 <= i < paths@.len() && path_view((#[trigger] paths@[i]).rel_path) == Some(path)
                    && follows(filter, Some(path), paths@[i].is_dir);
            assert(is_followed_at(filter, paths@, i, path));
        }
        if exists|i: int| #[trigger] is_followed_at(filter, paths@, i, path) {
            let i = choose|i: int| #[trigger] is_followed_at(filter, paths@, i, path);
            assert(path_view(paths@[i].rel_path) == Some(path));
        }
    }
}

/// What is done after a message: paths wait, an error is reported, an order to stop and the
/// end of all messages stop. Once the time is up, everything that waits is handed on, each
/// path once and in order, and nothing is done where nothing waits.
pub proof fn law_step(step: DebounceStep, pending: Set<Seq<char>>, received: Received)
    requires
        is_step(step, pending, received),
    ensures
        received is Event ==> step is Continue,
        received is Failed ==> step is Report,
        received is Shutdown || received is Disconnected ==> step is Stop,
        received is TimedOut && (forall|p: Seq<char>| !#[trigger] pending.contains(p)) ==> step
            is Continue,
        received is TimedOut && step !is Flush ==> (forall|p: Seq<char>|
            !#[trigger] pending.contains(p)),
        step matches DebounceStep::Flush(paths) ==> {
            let found = views(paths@);
            &&& received is TimedOut
            &&& forall|p: Seq<char>| #[trigger] found.contains(p) <==> pending.contains(p)
            &&& forall|i: int, j: int|
                0 <= i < j < found.len() ==> text_le(#[trigger] found[i], #[trigger] found[j])
                    && found[i] != found[j]
        },
{
    if forall|p: Seq<char>| !#[trigger] pending.contains(p) {
        assert(pending =~= Set::empty());
    }
    if let DebounceStep::Flush(paths) = step {
        let found = views(paths@);
        law_ordered_names(found);
        assert forall|p: Seq<char>| #[trigger] found.contains(p) <==> pending.contains(p) by {
            assert(found.to_set().contains(p) <==> found.contains(p));
        }
        assert forall|i: int, j: int| 0 <= i < j < found.len() implies text_le(
            #[trigger] found[i],
            #[trigger] found[j],
        ) && found[i] != found[j] by {
            assert(text_order()(found[i], found[j]));
        }
    }
}

/// An event is of this path, which is followed, and found this on disk.
pub open spec fn is_accepted_at(
    filter: FilterView,
    events: Seq<WatchEvent>,
    i: int,
    path: Seq<char>,
    disk: DiskState,
) -> bool {
    &&& 0 <= i < events.len()
    &&& path_view(events[i].rel_path) == Some(path)
    &&& follows(filter, Some(path), events[i].is_dir)
    &&& events[i].disk == disk
}

/// The events that are accepted are those of paths that are followed.
pub proof fn law_accepted(
    filter: FilterView,
    events: Seq<WatchEvent>,
    path: Seq<char>,
    disk: DiskState,
)
    ensures
        accepted(filter, events).contains((path, disk)) <==> exists|i: int| #[trigger]
            is_accepted_at(filter, events, i, path, disk),
        accepted(filter, events).len() <= events.len(),
    decreases events.len(),
{
    let all = accepted(filter, events);
    if events.len() > 0 {
        let rest = events.drop_last();
        let n = events.len() - 1;
        assert(events[n] == events.last());
        law_accepted(filter, rest, path, disk);
        let before = accepted(filter, rest);
        if all.contains((path, disk)) {
            let k = choose|k: int| 0 <= k < all.len() && all[k] == (path, disk);
            if k < before.len() {
                assert(before[k] == (path, disk));
                let i = choose|i: int| #[trigger] is_accepted_at(filter, rest, i, path, disk);
                assert(rest[i] == events[i]);
                assert(is_accepted_at(filter, events, i, path, disk));
            } else {
                assert(is_accepted_at(filter, events, n, path, disk));
            }
        }
        if exists|i: int| #[trigger] is_accepted_at(filter, events, i, path, disk) {
            let i = choose|i: int| #[trigger] is_accepted_at(filter, events, i, path, disk);
            if i < n {
                assert(rest[i] == events[i]);
                assert(is_accepted_at(filter, rest, i, path, disk));
                let k = choose|k: int| 0 <= k < before.len() && before[k] == (path, disk);
                assert(all[k] == (path, disk));
            } else {
                assert(all[before.len() as int] == (path, disk));
            }
        }
    } else {
        assert(all.len() == 0);
    }
}

/// Of several events of one path the last one counts.
pub proof fn law_last_event(events: Seq<(Seq<char>, DiskState)>, path: Seq<char>, i: int)
    requires
        0 <= i < events.len(),
        events[i].0 == path,
        forall|k: int| i < k < events.len() ==> (#[trigger] events[k]).0 != path,
    ensures
        last_state(events, path) == events[i].1,
    decreases events.len(),
{
    let n = events.len() - 1;
    assert(events[n] == events.last());
    if i < n {
        let rest = events.drop_last();
        assert(events[n].0 != path);
        assert forall|k: int| i < k < rest.len() implies (#[trigger] rest[k]).0 != path by {
            assert(rest[k] == events[k]);
        }
        assert(rest[i] == events[i]);
        law_last_event(rest, path, i);
    }
}

} // verus!
