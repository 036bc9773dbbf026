//! Properties that relate several calls of the engine.
use crate::engine::{
    next_view, output_of, register_all, resolves, winner_in, Action, Event, EventType,
};
use crate::index::{
    candidates, holds_source, is_top, lemma_other_paths, lemma_register_here, lemma_top_of,
    lemma_unregister_here, outranks, register_view, top_of, unregister_view, Candidate, Entry,
};
use vstd::prelude::*;

verus! {

/// The registrations after the events, in order, from `v`.
pub open spec fn replay(v: Set<Entry>, prios: Seq<u32>, evs: Seq<EventType>) -> Set<Entry>
    decreases evs.len(),
{
    if evs.len() == 0 {
        v
    } else {
        next_view(replay(v, prios, evs.drop_last()), prios, evs.last())
    }
}

/// Source `s` holds `p` after the events: the last of its events that names `p`
/// created it (a rename creates its new path and removes its old one).
pub open spec fn present(evs: Seq<EventType>, p: Seq<char>, s: usize) -> bool
    decreases evs.len(),
{
    if evs.len() == 0 {
        false
    } else {
        let e = evs.last();
        let rest = present(evs.drop_last(), p, s);
        if e.index != s {
            rest
        } else {
            match e.event {
                Event::Created(q) => q@ == p || rest,
                Event::Removed(q) => q@ != p && rest,
                Event::Renamed(a, b) => b@ == p || (a@ != p && rest),
                Event::Failure(..) => rest,
            }
        }
    }
}

/// The candidates of the registered sources that hold `p` after the events.
pub open spec fn holders(prios: Seq<u32>, evs: Seq<EventType>, p: Seq<char>) -> Set<Candidate> {
    Set::new(|c: Candidate| c.1 < prios.len() && c.0 == prios[c.1 as int] && present(evs, p, c.1))
}

/// From an empty index, after any sequence of events, the candidates of a path are
/// exactly the registered sources whose last event naming it created it; so the
/// winner is the top of those, whatever the interleaving of the sources' events.
pub proof fn lemma_replay_winner(prios: Seq<u32>, evs: Seq<EventType>, p: Seq<char>)
    ensures
        candidates(replay(Set::empty(), prios, evs), p) == holders(prios, evs, p),
        winner_in(replay(Set::empty(), prios, evs), p) == top_of(holders(prios, evs, p)),
    decreases evs.len(),
{
    if evs.len() == 0 {
        assert(candidates(Set::<Entry>::empty(), p) =~= holders(prios, evs, p));
    } else {
        let rest = evs.drop_last();
        let e = evs.last();
        let w = replay(Set::empty(), prios, rest);
        lemma_replay_winner(prios, rest, p);
        let s = e.index;
        let c_new = candidates(replay(Set::empty(), prios, evs), p);
        if s >= prios.len() {
            assert(c_new =~= holders(prios, evs, p));
        } else {
            let q = prios[s as int];
            match e.event {
                Event::Created(x) => {
                    if x@ == p {
                        lemma_register_here(w, p, q, s);
                        if holds_source(w, p, s) {
                            let q2 = choose|q2: u32| w.contains((p, q2, s));
                            assert(candidates(w, p).contains((q2, s)));
                        }
                    } else {
                        lemma_other_paths(w, x@, q, s, p);
                    }
                },
                Event::Removed(x) => {
                    if x@ == p {
                        lemma_unregister_here(w, p, s);
                    } else {
                        lemma_other_paths(w, x@, q, s, p);
                    }
                },
                Event::Renamed(a, b) => {
                    let u = unregister_view(w, a@, s);
                    if a@ == p {
                        lemma_unregister_here(w, p, s);
                    } else {
                        lemma_other_paths(w, a@, q, s, p);
                    }
                    if b@ == p {
                        lemma_register_here(u, p, q, s);
                        if holds_source(u, p, s) {
                            let q2 = choose|q2: u32| u.contains((p, q2, s));
                            assert(candidates(u, p).contains((q2, s)));
                        }
                    } else {
                        lemma_other_paths(u, b@, q, s, p);
                    }
                },
                Event::Failure(..) => {},
            }
            assert(c_new =~= holders(prios, evs, p));
        }
    }
}

/// A second identical creation event changes neither the index nor the output tree,
/// and calls for no action.
pub proof fn lemma_create_twice(v: Set<Entry>, prios: Seq<u32>, e: EventType)
    requires
        e.index < prios.len(),
        e.event is Created,
    ensures
        next_view(next_view(v, prios, e), prios, e) == next_view(v, prios, e),
        output_of(next_view(next_view(v, prios, e), prios, e)) == output_of(next_view(v, prios, e)),
        forall|acts: Seq<Action>|
            #[trigger] resolves(
                acts,
                e.event->Created_0@,
                winner_in(next_view(v, prios, e), e.event->Created_0@),
                winner_in(next_view(next_view(v, prios, e), prios, e), e.event->Created_0@),
            ) ==> acts.len() == 0,
{
    let p = e.event->Created_0@;
    let s = e.index;
    let w = next_view(v, prios, e);
    if !holds_source(v, p, s) {
        assert(w.contains((p, prios[s as int], s)));
    }
    assert(holds_source(w, p, s));
}

/// From an empty index, startup registration leaves each path with exactly the
/// registered sources that were found to hold it, whatever the order of the walk.
pub proof fn lemma_register_all(prios: Seq<u32>, found: Seq<(usize, String)>, p: Seq<char>)
    ensures
        candidates(register_all(Set::empty(), prios, found), p) == Set::new(
            |c: Candidate|
                c.1 < prios.len() && c.0 == prios[c.1 as int] && exists|k: int|
                    0 <= k < found.len() && found[k].0 == c.1 && found[k].1@ == p,
        ),
    decreases found.len(),
{
    let target = Set::new(
        |c: Candidate|
            c.1 < prios.len() && c.0 == prios[c.1 as int] && exists|k: int|
                0 <= k < found.len() && found[k].0 == c.1 && found[k].1@ == p,
    );
    if found.len() == 0 {
        assert(candidates(Set::<Entry>::empty(), p) =~= target);
    } else {
        let rest = found.drop_last();
        let w = register_all(Set::empty(), prios, rest);
        lemma_register_all(prios, rest, p);
        let n = found.len() - 1;
        let s = found[n].0;
        let x = found[n].1@;
        if s < prios.len() {
            if x == p {
                lemma_register_here(w, p, prios[s as int], s);
                if holds_source(w, p, s) {
                    let q2 = choose|q2: u32| w.contains((p, q2, s));
                    assert(candidates(w, p).contains((q2, s)));
                }
            } else {
                lemma_other_paths(w, x, prios[s as int], s, p);
            }
        }
        let c_new = candidates(register_all(Set::empty(), prios, found), p);
        assert forall|c: Candidate| c_new.contains(c) == target.contains(c) by {
            if target.contains(c) {
                let k = choose|k: int| 0 <= k < found.len() && found[k].0 == c.1 && found[k].1@ == p;
                if k < n {
                    assert(rest[k] == found[k]);
                }
            }
            if c_new.contains(c) && c.1 != s {
                let k = choose|k: int| 0 <= k < rest.len() && rest[k].0 == c.1 && rest[k].1@ == p;
                assert(rest[k] == found[k]);
            }
            if c_new.contains(c) && c.1 == s && x != p {
                let k = choose|k: int| 0 <= k < rest.len() && rest[k].0 == c.1 && rest[k].1@ == p;
                assert(rest[k] == found[k]);
            }
        }
        assert(c_new =~= target);
    }
}

/// Creating or removing a path in a source that neither wins it nor outranks its
/// winner leaves the winner as it was, so the engine calls for no action on it.
pub proof fn lemma_non_winner_untouched(
    v: Set<Entry>,
    p: Seq<char>,
    c: Candidate,
    q: u32,
    s: usize,
    acts: Seq<Action>,
)
    requires
        winner_in(v, p) == Some(c),
        c.1 != s,
        outranks(c, (q, s)),
    ensures
        winner_in(register_view(v, p, q, s), p) == Some(c),
        winner_in(unregister_view(v, p, s), p) == Some(c),
        resolves(acts, p, winner_in(v, p), winner_in(register_view(v, p, q, s), p)) ==> acts.len()
            == 0,
        resolves(acts, p, winner_in(v, p), winner_in(unregister_view(v, p, s), p)) ==> acts.len()
            == 0,
{
    assert(is_top(c, candidates(v, p)));
    lemma_register_here(v, p, q, s);
    lemma_unregister_here(v, p, s);
    assert(is_top(c, candidates(register_view(v, p, q, s), p)));
    lemma_top_of(c, candidates(register_view(v, p, q, s), p));
    assert(is_top(c, candidates(unregister_view(v, p, s), p)));
    lemma_top_of(c, candidates(unregister_view(v, p, s), p));
}

/// The events of source `s`, in their order.
pub open spec fn from_source(evs: Seq<EventType>, s: usize) -> Seq<EventType> {
    evs.filter(|e: EventType| e.index == s)
}

/// Whether a source holds a path depends on that source's own events alone.
pub proof fn lemma_present_own_events(evs: Seq<EventType>, p: Seq<char>, s: usize)
    ensures
        present(evs, p, s) == present(from_source(evs, s), p, s),
    decreases evs.len(),
{
    reveal(Seq::filter);
    if evs.len() > 0 {
        lemma_present_own_events(evs.drop_last(), p, s);
        let f = from_source(evs, s);
        if evs.last().index == s {
            assert(f == from_source(evs.drop_last(), s).push(evs.last()));
            assert(f.drop_last() =~= from_source(evs.drop_last(), s));
        }
    }
}

/// Two sequences of events that agree on each source's own events, in order, however
/// the sources' events are interleaved, leave an empty index with the same
/// registrations, hence the same winners and the same output tree.
pub proof fn lemma_interleavings_agree(prios: Seq<u32>, evs1: Seq<EventType>, evs2: Seq<EventType>)
    requires
        forall|s: usize| #[trigger] from_source(evs1, s) == from_source(evs2, s),
    ensures
        replay(Set::empty(), prios, evs1) == replay(Set::empty(), prios, evs2),
        forall|p: Seq<char>|
            #[trigger] winner_in(replay(Set::empty(), prios, evs1), p) == winner_in(
                replay(Set::empty(), prios, evs2),
                p,
            ),
        output_of(replay(Set::empty(), prios, evs1)) == output_of(replay(Set::empty(), prios, evs2)),
{
    let v1 = replay(Set::empty(), prios, evs1);
    let v2 = replay(Set::empty(), prios, evs2);
    assert forall|t: Entry| v1.contains(t) == v2.contains(t) by {
        let p = t.0;
        lemma_replay_winner(prios, evs1, p);
        lemma_replay_winner(prios, evs2, p);
        assert forall|c: Candidate| holders(prios, evs1, p).contains(c) == holders(prios, evs2, p).contains(c) by {
            lemma_present_own_events(evs1, p, c.1);
            lemma_present_own_events(evs2, p, c.1);
            assert(from_source(evs1, c.1) == from_source(evs2, c.1));
        }
        assert(holders(prios, evs1, p) =~= holders(prios, evs2, p));
        assert(candidates(v1, p).contains((t.1, t.2)) == v1.contains(t));
        assert(candidates(v2, p).contains((t.1, t.2)) == v2.contains(t));
    }
    assert(v1 =~= v2);
}

} // verus!
