//! Normalization of a source's raw watch notifications into change events whose
//! paths are relative to the source's root.
use crate::engine::{Event, EventType};
use vstd::prelude::*;

verus! {

/// A raw notification of one source's watch; each path as its list of components.
#[derive(Debug, Clone, PartialEq, Eq)]
pub enum RawEvent {
    Create(Vec<String>),
    Remove(Vec<String>),
    Rename(Vec<String>, Vec<String>),
    Error(String, Option<String>),
    Other,
}

/// `path` with the components of `root` taken off its front, if `root` is a prefix of it.
pub open spec fn strip(root: Seq<String>, path: Seq<String>) -> Option<Seq<String>> {
    if root.len() <= path.len() && forall|i: int| 0 <= i < root.len() ==> path[i]@ == root[i]@ {
        Some(path.skip(root.len() as int))
    } else {
        None
    }
}

/// The components joined by single `/` separators.
pub open spec fn join(parts: Seq<String>) -> Seq<char>
    decreases parts.len(),
{
    if parts.len() == 0 {
        Seq::empty()
    } else if parts.len() == 1 {
        parts[0]@
    } else {
        join(parts.drop_last()) + seq!['/'] + parts.last()@
    }
}

/// The path of `path` relative to `root`, as text, if it lies under `root`.
pub open spec fn relative_to(root: Seq<String>, path: Seq<String>) -> Option<Seq<char>> {
    match strip(root, path) {
        Some(q) => Some(join(q)),
        None => None,
    }
}

/// The event is the failure that reports a path outside the source's root.
pub open spec fn is_outside_failure(e: Event) -> bool {
    e is Failure && e->Failure_1 is None
}

/// The path of `path` relative to `root`, joined by `/`, or none if `root` is not
/// a prefix of it.
pub fn relative_path(root: &Vec<String>, path: &Vec<String>) -> (r: Option<String>)
    ensures
        match relative_to(root@, path@) {
            Some(q) => r is Some && r->Some_0@ == q,
            None => r is None,
        },
{
    if root.len() > path.len() {
        return None;
    }
    let mut i: usize = 0;
    while i < root.len()
        invariant
            i <= root@.len() <= path@.len(),
            forall|j: int| 0 <= j < i ==> path@[j]@ == root@[j]@,
        decreases root@.len() - i,
    {
        if !(path[i] == root[i]) {
            return None;
        }
        i = i + 1;
    }
    let k = root.len();
    let mut s = String::new();
    let mut j: usize = k;
    while j < path.len()
        invariant
            k <= j <= path@.len(),
            s@ == join(path@.subrange(k as int, j as int)),
        decreases path@.len() - j,
    {
        if j > k {
            proof {
                reveal_strlit("/");
            }
            s.append("/");
        }
        s.append(path[j].as_str());
        proof {
            assert(path@.subrange(k as int, j + 1).drop_last() =~= path@.subrange(k as int, j as int));
        }
        j = j + 1;
    }
    proof {
        assert(path@.subrange(k as int, path@.len() as int) =~= path@.skip(k as int));
    }
    Some(s)
}

/// The failure event for a path outside the source's root.
fn outside_root(index: usize) -> (r: EventType)
    ensures
        r.index == index,
        is_outside_failure(r.event),
{
    EventType { index, event: Event::Failure("path outside the source root".to_string(), None) }
}

/// Turns a raw notification of source `index`, whose root has the components `root`,
/// into a change event. Creations, removals and renames get paths relative to the
/// root; one that names a path outside the root becomes a failure event rather than
/// being dropped. A watch error becomes a failure event as it is. Other notifications
/// give none.
pub fn normalize(index: usize, root: &Vec<String>, raw: RawEvent) -> (r: Option<EventType>)
    ensures
        r is None <==> raw is Other,
        r matches Some(e) ==> e.index == index,
        match raw {
            RawEvent::Create(p) => match relative_to(root@, p@) {
                Some(q) => r is Some && r->Some_0.event is Created && r->Some_0.event->Created_0@ == q,
                None => r is Some && is_outside_failure(r->Some_0.event),
            },
            RawEvent::Remove(p) => match relative_to(root@, p@) {
                Some(q) => r is Some && r->Some_0.event is Removed && r->Some_0.event->Removed_0@ == q,
                None => r is Some && is_outside_failure(r->Some_0.event),
            },
            RawEvent::Rename(a, b) => match (relative_to(root@, a@), relative_to(root@, b@)) {
                (Some(x), Some(y)) => r is Some && r->Some_0.event is Renamed
                    && r->Some_0.event->Renamed_0@ == x && r->Some_0.event->Renamed_1@ == y,
                _ => r is Some && is_outside_failure(r->Some_0.event),
            },
            RawEvent::Error(c, p) => r == Some((EventType { index, event: Event::Failure(c, p) })),
            RawEvent::Other => r is None,
        },
{
    match raw {
        RawEvent::Create(p) => match relative_path(root, &p) {
            Some(q) => Some(EventType { index, event: Event::Created(q) }),
            None => Some(outside_root(index)),
        },
        RawEvent::Remove(p) => match relative_path(root, &p) {
            Some(q) => Some(EventType { index, event: Event::Removed(q) }),
            None => Some(outside_root(index)),
        },
        RawEvent::Rename(a, b) => match (relative_path(root, &a), relative_path(root, &b)) {
            (Some(x), Some(y)) => Some(EventType { index, event: Event::Renamed(x, y) }),
            _ => Some(outside_root(index)),
        },
        RawEvent::Error(c, p) => Some(EventType { index, event: Event::Failure(c, p) }),
        RawEvent::Other => None,
    }
}

} // verus!
