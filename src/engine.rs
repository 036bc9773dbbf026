//! The overlay engine: registered sources, change events, and the output actions
//! that keep the output tree equal to the winner of every path.
use crate::index::{
    candidates, is_top, lemma_other_paths, register_view, top_of, unregister_view, Candidate,
    Entry, PriorityIndex,
};
use vstd::prelude::*;

verus! {

/// A registered source tree.
#[derive(Debug, Clone, PartialEq, Eq)]
pub struct Input {
    pub index: usize,
    pub path: String,
    pub priority: u32,
}

/// A change under one source tree, with paths relative to its root.
#[derive(Debug, Clone, PartialEq, Eq)]
pub enum Event {
    Created(String),
    Removed(String),
    Renamed(String, String),
    Failure(String, Option<String>),
}

/// An event together with the index of the source it comes from.
#[derive(Debug, Clone, PartialEq, Eq)]
pub struct EventType {
    pub index: usize,
    pub event: Event,
}

/// An operation on the output tree.
#[derive(Debug, Clone, PartialEq, Eq)]
pub enum Action {
    /// Remove any entry at `path`, then link it to the file of `source` at `path`.
    Link { path: String, source: usize },
    /// Remove the entry at `path`.
    Unlink { path: String },
}

/// The relative path an action touches.
pub open spec fn action_path(a: Action) -> Seq<char> {
    match a {
        Action::Link { path, .. } => path@,
        Action::Unlink { path } => path@,
    }
}

/// The output tree, as a map from relative path to the source it is linked from,
/// after one action.
pub open spec fn apply_action(out: Map<Seq<char>, usize>, a: Action) -> Map<Seq<char>, usize> {
    match a {
        Action::Link { path, source } => out.insert(path@, source),
        Action::Unlink { path } => out.remove(path@),
    }
}

/// The output tree after the actions, in order.
pub open spec fn apply_actions(out: Map<Seq<char>, usize>, acts: Seq<Action>) -> Map<
    Seq<char>,
    usize,
>
    decreases acts.len(),
{
    if acts.len() == 0 {
        out
    } else {
        apply_action(apply_actions(out, acts.drop_last()), acts.last())
    }
}

/// The winner of `p` under the registrations `v`.
pub open spec fn winner_in(v: Set<Entry>, p: Seq<char>) -> Option<Candidate> {
    top_of(candidates(v, p))
}

/// The output tree that the registrations `v` call for: each path that has a winner
/// is linked from the winner's source, and nothing else is present.
pub open spec fn output_of(v: Set<Entry>) -> Map<Seq<char>, usize> {
    Map::new(|p: Seq<char>| winner_in(v, p) is Some, |p: Seq<char>| winner_in(v, p).unwrap().1)
}

/// The priority of each registered source, by index.
pub open spec fn priorities(inputs: Seq<Input>) -> Seq<u32> {
    inputs.map_values(|i: Input| i.priority)
}

/// The registrations after one event. An event of an unknown source changes nothing;
/// a rename is a removal of the old path followed by a creation of the new one.
pub open spec fn next_view(v: Set<Entry>, prios: Seq<u32>, e: EventType) -> Set<Entry> {
    if e.index >= prios.len() {
        v
    } else {
        match e.event {
            Event::Created(p) => register_view(v, p@, prios[e.index as int], e.index),
            Event::Removed(p) => unregister_view(v, p@, e.index),
            Event::Renamed(a, b) => register_view(
                unregister_view(v, a@, e.index),
                b@,
                prios[e.index as int],
                e.index,
            ),
            Event::Failure(..) => v,
        }
    }
}

/// `acts` is what a change of the winner of `p` from `before` to `after` calls for:
/// nothing when it is unchanged, else one link to the new winner or one unlink.
pub open spec fn resolves(
    acts: Seq<Action>,
    p: Seq<char>,
    before: Option<Candidate>,
    after: Option<Candidate>,
) -> bool {
    if before == after {
        acts.len() == 0
    } else {
        &&& acts.len() == 1
        &&& action_path(acts[0]) == p
        &&& match after {
            Some(c) => acts[0] is Link && acts[0]->Link_source == c.1,
            None => acts[0] is Unlink,
        }
    }
}

/// Applying `a` then `b` is applying their concatenation.
pub proof fn lemma_apply_concat(m: Map<Seq<char>, usize>, a: Seq<Action>, b: Seq<Action>)
    ensures
        apply_actions(m, a + b) == apply_actions(apply_actions(m, a), b),
    decreases b.len(),
{
    if b.len() == 0 {
        assert(a + b =~= a);
    } else {
        assert((a + b).drop_last() =~= a + b.drop_last());
        lemma_apply_concat(m, a, b.drop_last());
    }
}

/// Actions that resolve the one path on which two registrations differ carry the
/// output of the first to the output of the second.
pub proof fn lemma_resolves(v: Set<Entry>, w: Set<Entry>, p: Seq<char>, acts: Seq<Action>)
    requires
        resolves(acts, p, winner_in(v, p), winner_in(w, p)),
        forall|o: Seq<char>| o != p ==> #[trigger] candidates(w, o) == candidates(v, o),
    ensures
        apply_actions(output_of(v), acts) == output_of(w),
{
    assert forall|o: Seq<char>| o != p implies winner_in(w, o) == winner_in(v, o) by {
        assert(candidates(w, o) == candidates(v, o));
    }
    if acts.len() == 0 {
        assert(output_of(v) =~= output_of(w));
    } else {
        assert(acts.drop_last().len() == 0);
        assert(apply_actions(output_of(v), acts.drop_last()) == output_of(v));
        assert(apply_actions(output_of(v), acts) == apply_action(output_of(v), acts[0]));
        match acts[0] {
            Action::Link { path, source } => {
                assert(output_of(v).insert(p, source) =~= output_of(w));
            },
            Action::Unlink { path } => {
                assert(output_of(v).remove(p) =~= output_of(w));
            },
        }
    }
}

/// Every link of `acts` names one of the first `n` sources.
pub open spec fn links_within(acts: Seq<Action>, n: nat) -> bool {
    forall|i: int| 0 <= i < acts.len() && #[trigger] acts[i] is Link ==> acts[i]->Link_source < n
}

/// `acts` touches path `o`.
pub open spec fn mentions(acts: Seq<Action>, o: Seq<char>) -> bool {
    exists|i: int| 0 <= i < acts.len() && action_path(acts[i]) == o
}

/// A path that no action touches keeps its entry.
pub proof fn lemma_untouched(m: Map<Seq<char>, usize>, acts: Seq<Action>, o: Seq<char>)
    requires
        !mentions(acts, o),
    ensures
        apply_actions(m, acts).contains_key(o) == m.contains_key(o),
        m.contains_key(o) ==> apply_actions(m, acts)[o] == m[o],
    decreases acts.len(),
{
    if acts.len() > 0 {
        assert forall|i: int| 0 <= i < acts.len() - 1 implies action_path(acts.drop_last()[i]) != o by {
            assert(acts.drop_last()[i] == acts[i]);
        }
        lemma_untouched(m, acts.drop_last(), o);
        assert(action_path(acts[acts.len() - 1]) != o);
    }
}

/// A path that only links to `s` touch, and at least one does, ends linked to `s`.
pub proof fn lemma_linked(m: Map<Seq<char>, usize>, acts: Seq<Action>, o: Seq<char>, s: usize)
    requires
        mentions(acts, o),
        forall|i: int|
            0 <= i < acts.len() && action_path(#[trigger] acts[i]) == o ==> acts[i] is Link
                && acts[i]->Link_source == s,
    ensures
        apply_actions(m, acts).contains_key(o),
        apply_actions(m, acts)[o] == s,
    decreases acts.len(),
{
    let n = acts.len() - 1;
    if action_path(acts[n]) != o {
        let i = choose|i: int| 0 <= i < acts.len() && action_path(acts[i]) == o;
        assert(acts.drop_last()[i] == acts[i]);
        assert forall|j: int|
            0 <= j < acts.drop_last().len() && action_path(#[trigger] acts.drop_last()[j]) == o
                implies acts.drop_last()[j] is Link && acts.drop_last()[j]->Link_source == s by {
            assert(acts.drop_last()[j] == acts[j]);
        }
        lemma_linked(m, acts.drop_last(), o, s);
    }
}

/// A path that only unlinks touch, and at least one does, ends absent.
pub proof fn lemma_unlinked(m: Map<Seq<char>, usize>, acts: Seq<Action>, o: Seq<char>)
    requires
        mentions(acts, o),
        forall|i: int|
            0 <= i < acts.len() && action_path(#[trigger] acts[i]) == o ==> acts[i] is Unlink,
    ensures
        !apply_actions(m, acts).contains_key(o),
    decreases acts.len(),
{
    let n = acts.len() - 1;
    if action_path(acts[n]) != o {
        let i = choose|i: int| 0 <= i < acts.len() && action_path(acts[i]) == o;
        assert(acts.drop_last()[i] == acts[i]);
        assert forall|j: int|
            0 <= j < acts.drop_last().len() && action_path(#[trigger] acts.drop_last()[j]) == o
                implies acts.drop_last()[j] is Unlink by {
            assert(acts.drop_last()[j] == acts[j]);
        }
        lemma_unlinked(m, acts.drop_last(), o);
    }
}

/// The registrations after each found `(source, path)` is registered in turn;
/// pairs of unknown sources are passed over.
pub open spec fn register_all(v: Set<Entry>, prios: Seq<u32>, found: Seq<(usize, String)>) -> Set<
    Entry,
>
    decreases found.len(),
{
    if found.len() == 0 {
        v
    } else {
        let w = register_all(v, prios, found.drop_last());
        let s = found.last().0;
        if s < prios.len() {
            register_view(w, found.last().1@, prios[s as int], s)
        } else {
            w
        }
    }
}

/// The relative paths of a listing.
pub open spec fn listed(paths: Seq<String>) -> Set<Seq<char>> {
    Set::new(|p: Seq<char>| exists|k: int| 0 <= k < paths.len() && paths[k]@ == p)
}

/// The action agrees with the winners of `v`: it links a path to its winner, or
/// unlinks a path that has none.
pub open spec fn action_fits(v: Set<Entry>, a: Action) -> bool {
    match a {
        Action::Link { path, source } => winner_in(v, path@) is Some && winner_in(v, path@).unwrap().1
            == source,
        Action::Unlink { path } => winner_in(v, path@) is None,
    }
}

/// Actions that agree with the winners of `v`, touch every path that has one, and
/// touch every listed path that has none, turn any output tree whose paths are
/// listed into the output that `v` calls for.
pub proof fn lemma_reconciled(m: Map<Seq<char>, usize>, acts: Seq<Action>, v: Set<Entry>, existing: Seq<String>)
    requires
        m.dom().subset_of(listed(existing)),
        forall|i: int| 0 <= i < acts.len() ==> #[trigger] action_fits(v, acts[i]),
        forall|o: Seq<char>| #[trigger] winner_in(v, o) is Some ==> mentions(acts, o),
        forall|o: Seq<char>|
            #[trigger] listed(existing).contains(o) && winner_in(v, o) is None ==> mentions(acts, o),
    ensures
        apply_actions(m, acts) == output_of(v),
{
    let r = apply_actions(m, acts);
    assert forall|o: Seq<char>| #[trigger] r.contains_key(o) == output_of(v).contains_key(o) && (
    r.contains_key(o) ==> r[o] == output_of(v)[o]) by {
        match winner_in(v, o) {
            Some(c) => {
                assert(mentions(acts, o));
                assert forall|i: int|
                    0 <= i < acts.len() && action_path(#[trigger] acts[i]) == o implies acts[i] is Link
                        && acts[i]->Link_source == c.1 by {
                    assert(action_fits(v, acts[i]));
                }
                lemma_linked(m, acts, o, c.1);
            },
            None => {
                if mentions(acts, o) {
                    assert forall|i: int|
                        0 <= i < acts.len() && action_path(#[trigger] acts[i]) == o implies acts[i] is Unlink by {
                        assert(action_fits(v, acts[i]));
                    }
                    lemma_unlinked(m, acts, o);
                } else {
                    lemma_untouched(m, acts, o);
                    if m.contains_key(o) {
                        assert(listed(existing).contains(o));
                    }
                }
            },
        }
    }
    assert(r =~= output_of(v));
}

/// The overlay engine: its sources, its output root, and its priority index.
pub struct Overlay {
    inputs: Vec<Input>,
    output: String,
    index: PriorityIndex,
}

impl Overlay {
    /// The registered sources, by index.
    pub closed spec fn inputs(&self) -> Seq<Input> {
        self.inputs@
    }

    /// The root of the output tree.
    pub closed spec fn output(&self) -> Seq<char> {
        self.output@
    }

    /// The registrations the index holds.
    pub closed spec fn registrations(&self) -> Set<Entry> {
        self.index@
    }

    /// The index is well formed, each source sits at its own index, and each
    /// registration names a registered source with that source's priority.
    pub closed spec fn wf(&self) -> bool {
        &&& self.index.wf()
        &&& forall|i: int| 0 <= i < self.inputs@.len() ==> #[trigger] self.inputs@[i].index == i
        &&& forall|t: Entry|
            #[trigger] self.index@.contains(t) ==> t.2 < self.inputs@.len() && t.1
                == self.inputs@[t.2 as int].priority
    }

    pub fn new(path: &str) -> (r: Overlay)
        ensures
            r.wf(),
            r.inputs().len() == 0,
            r.output() == path@,
            r.registrations() == Set::<Entry>::empty(),
    {
        Overlay { inputs: Vec::new(), output: path.to_string(), index: PriorityIndex::new() }
    }

    /// Registers a source tree; gives its index.
    pub fn add_input(&mut self, path: &str, priority: u32) -> (r: usize)
        requires
            old(self).wf(),
            old(self).inputs().len() < usize::MAX,
        ensures
            final(self).wf(),
            r == old(self).inputs().len(),
            final(self).inputs().len() == r + 1,
            forall|i: int| 0 <= i < r ==> #[trigger] final(self).inputs()[i] == old(self).inputs()[i],
            final(self).inputs()[r as int].index == r,
            final(self).inputs()[r as int].path@ == path@,
            final(self).inputs()[r as int].priority == priority,
            final(self).output() == old(self).output(),
            final(self).registrations() == old(self).registrations(),
    {
        let index = self.inputs.len();
        self.inputs.push(Input { index, path: path.to_string(), priority });
        index
    }

    /// The root of the output tree.
    pub fn output_root(&self) -> (r: &String)
        ensures
            r@ == self.output(),
    {
        &self.output
    }

    /// The number of registered sources.
    pub fn input_count(&self) -> (r: usize)
        ensures
            r == self.inputs().len(),
    {
        self.inputs.len()
    }

    /// The root of source `index`.
    pub fn input_root(&self, index: usize) -> (r: &String)
        requires
            index < self.inputs().len(),
        ensures
            r@ == self.inputs()[index as int].path@,
    {
        &self.inputs[index].path
    }

    /// The index of the source that currently wins `path`, if any holds it.
    pub fn winner(&self, path: &String) -> (r: Option<usize>)
        requires
            self.wf(),
        ensures
            r == match winner_in(self.registrations(), path@) {
                Some(c) => Some(c.1),
                None => None::<usize>,
            },
    {
        match self.index.winner(path) {
            Some(c) => Some(c.1),
            None => None,
        }
    }

    /// The actions that a change of the winner of `path` calls for.
    fn resolve(path: &String, before: Option<Candidate>, after: Option<Candidate>) -> (r: Vec<
        Action,
    >)
        ensures
            resolves(r@, path@, before, after),
    {
        let mut r: Vec<Action> = Vec::new();
        if before != after {
            match after {
                Some(c) => r.push(Action::Link { path: path.clone(), source: c.1 }),
                None => r.push(Action::Unlink { path: path.clone() }),
            }
        }
        r
    }

    /// `source` now holds `path`.
    fn created(&mut self, path: &String, source: usize) -> (r: Vec<Action>)
        requires
            old(self).wf(),
            source < old(self).inputs().len(),
        ensures
            final(self).wf(),
            final(self).inputs() == old(self).inputs(),
            final(self).output() == old(self).output(),
            final(self).registrations() == register_view(
                old(self).registrations(),
                path@,
                old(self).inputs()[source as int].priority,
                source,
            ),
            resolves(
                r@,
                path@,
                winner_in(old(self).registrations(), path@),
                winner_in(final(self).registrations(), path@),
            ),
            apply_actions(output_of(old(self).registrations()), r@) == output_of(
                final(self).registrations(),
            ),
            links_within(r@, final(self).inputs().len()),
    {
        let priority = self.inputs[source].priority;
        let (before, after) = self.index.register(path, priority, source);
        let r = Self::resolve(path, before, after);
        proof {
            assert forall|o: Seq<char>| o != path@ implies #[trigger] candidates(
                self.index@,
                o,
            ) == candidates(old(self).index@, o) by {
                lemma_other_paths(old(self).index@, path@, priority, source, o);
            }
            lemma_resolves(old(self).index@, self.index@, path@, r@);
            if let Some(c) = after {
                assert(candidates(self.index@, path@).contains(c));
            }
        }
        r
    }

    /// `source` no longer holds `path`.
    fn removed(&mut self, path: &String, source: usize) -> (r: Vec<Action>)
        requires
            old(self).wf(),
        ensures
            final(self).wf(),
            final(self).inputs() == old(self).inputs(),
            final(self).output() == old(self).output(),
            final(self).registrations() == unregister_view(
                old(self).registrations(),
                path@,
                source,
            ),
            resolves(
                r@,
                path@,
                winner_in(old(self).registrations(), path@),
                winner_in(final(self).registrations(), path@),
            ),
            apply_actions(output_of(old(self).registrations()), r@) == output_of(
                final(self).registrations(),
            ),
            links_within(r@, final(self).inputs().len()),
    {
        let (before, after) = self.index.unregister(path, source);
        let r = Self::resolve(path, before, after);
        proof {
            assert forall|o: Seq<char>| o != path@ implies #[trigger] candidates(
                self.index@,
                o,
            ) == candidates(old(self).index@, o) by {
                lemma_other_paths(old(self).index@, path@, 0, source, o);
            }
            lemma_resolves(old(self).index@, self.index@, path@, r@);
            if let Some(c) = after {
                assert(candidates(self.index@, path@).contains(c));
            }
        }
        r
    }

    /// Applies one event to the index and gives the output actions it calls for.
    /// Only a change of a path's winner touches the output tree; a failure, or an
    /// event of an unknown source, changes nothing.
    pub fn process_event(&mut self, event: EventType) -> (r: Vec<Action>)
        requires
            old(self).wf(),
        ensures
            final(self).wf(),
            final(self).inputs() == old(self).inputs(),
            final(self).output() == old(self).output(),
            final(self).registrations() == next_view(
                old(self).registrations(),
                priorities(old(self).inputs()),
                event,
            ),
            apply_actions(output_of(old(self).registrations()), r@) == output_of(
                final(self).registrations(),
            ),
            links_within(r@, final(self).inputs().len()),
            event.index >= old(self).inputs().len() ==> r@.len() == 0,
            event.index < old(self).inputs().len() ==> match event.event {
                Event::Created(p) => resolves(
                    r@,
                    p@,
                    winner_in(old(self).registrations(), p@),
                    winner_in(final(self).registrations(), p@),
                ),
                Event::Removed(p) => resolves(
                    r@,
                    p@,
                    winner_in(old(self).registrations(), p@),
                    winner_in(final(self).registrations(), p@),
                ),
                Event::Renamed(a, b) => {
                    let mid = unregister_view(old(self).registrations(), a@, event.index);
                    exists|k: int|
                        0 <= k <= r@.len() && resolves(
                            r@.take(k),
                            a@,
                            winner_in(old(self).registrations(), a@),
                            winner_in(mid, a@),
                        ) && resolves(
                            r@.skip(k),
                            b@,
                            winner_in(mid, b@),
                            winner_in(final(self).registrations(), b@),
                        )
                },
                Event::Failure(..) => r@.len() == 0,
            },
    {
        let source = event.index;
        if source >= self.inputs.len() {
            return Vec::new();
        }
        proof {
            assert(priorities(self.inputs@)[source as int] == self.inputs@[source as int].priority);
        }
        match event.event {
            Event::Created(p) => self.created(&p, source),
            Event::Removed(p) => self.removed(&p, source),
            Event::Renamed(a, b) => {
                let ghost v0 = self.index@;
                let mut r = self.removed(&a, source);
                let ghost r1 = r@;
                let ghost v1 = self.index@;
                let mut r2 = self.created(&b, source);
                let ghost r2v = r2@;
                r.append(&mut r2);
                proof {
                    lemma_apply_concat(output_of(v0), r1, r2v);
                    assert(r@.take(r1.len() as int) =~= r1);
                    assert(r@.skip(r1.len() as int) =~= r2v);
                    assert forall|i: int| 0 <= i < r@.len() && #[trigger] r@[i] is Link implies r@[i]->Link_source < self.inputs@.len() by {
                        if i < r1.len() {
                            assert(r@[i] == r1[i]);
                        } else {
                            assert(r@[i] == r2v[i - r1.len()]);
                        }
                    }
                }
                r
            },
            Event::Failure(..) => Vec::new(),
        }
    }

    /// Startup reconciliation. Registers each found `(source, path)` (pairs of unknown
    /// sources are passed over), then gives the actions that turn an output tree
    /// holding the `existing` paths into the output the index calls for: stale
    /// paths are unlinked and every path that has a winner is linked to it.
    pub fn reconcile(&mut self, found: &Vec<(usize, String)>, existing: &Vec<String>) -> (r: Vec<
        Action,
    >)
        requires
            old(self).wf(),
        ensures
            final(self).wf(),
            final(self).inputs() == old(self).inputs(),
            final(self).output() == old(self).output(),
            final(self).registrations() == register_all(
                old(self).registrations(),
                priorities(old(self).inputs()),
                found@,
            ),
            forall|m: Map<Seq<char>, usize>|
                m.dom().subset_of(listed(existing@)) ==> #[trigger] apply_actions(m, r@)
                    == output_of(final(self).registrations()),
            links_within(r@, final(self).inputs().len()),
    {
        let ghost v0 = self.index@;
        let ghost prios = priorities(self.inputs@);
        let mut i: usize = 0;
        while i < found.len()
            invariant
                self.wf(),
                self.inputs@ == old(self).inputs@,
                self.output@ == old(self).output@,
                prios == priorities(self.inputs@),
                i <= found@.len(),
                self.index@ == register_all(v0, prios, found@.take(i as int)),
            decreases found@.len() - i,
        {
            let s = found[i].0;
            if s < self.inputs.len() {
                let priority = self.inputs[s].priority;
                self.index.register(&found[i].1, priority, s);
            }
            proof {
                assert(found@.take(i + 1).drop_last() =~= found@.take(i as int));
            }
            i = i + 1;
        }
        proof {
            assert(found@.take(found@.len() as int) =~= found@);
        }
        let ghost v = self.index@;
        let mut acts: Vec<Action> = Vec::new();
        let mut j: usize = 0;
        while j < existing.len()
            invariant
                self.index@ == v,
                self.wf(),
                j <= existing@.len(),
                forall|k: int| 0 <= k < acts@.len() ==> #[trigger] action_fits(v, acts@[k]),
                forall|k: int|
                    0 <= k < j && winner_in(v, #[trigger] existing@[k]@) is None ==> mentions(
                        acts@,
                        existing@[k]@,
                    ),
            decreases existing@.len() - j,
        {
            if self.index.winner(&existing[j]).is_none() {
                let ghost a0 = acts@;
                acts.push(Action::Unlink { path: existing[j].clone() });
                proof {
                    assert forall|k: int|
                        0 <= k < j && winner_in(v, #[trigger] existing@[k]@) is None implies mentions(
                        acts@,
                        existing@[k]@,
                    ) by {
                        let x = choose|x: int| 0 <= x < a0.len() && action_path(a0[x]) == existing@[k]@;
                        assert(acts@[x] == a0[x]);
                    }
                    assert(action_path(acts@[a0.len() as int]) == existing@[j as int]@);
                }
            }
            j = j + 1;
        }
        let ws = self.index.winners();
        let mut l: usize = 0;
        while l < ws.len()
            invariant
                self.index@ == v,
                l <= ws@.len(),
                forall|i: int|
                    0 <= i < ws@.len() ==> #[trigger] top_of(candidates(v, ws@[i].0@)) is Some
                        && top_of(candidates(v, ws@[i].0@)).unwrap().1 == ws@[i].1,
                forall|k: int| 0 <= k < acts@.len() ==> #[trigger] action_fits(v, acts@[k]),
                forall|k: int|
                    0 <= k < existing@.len() && winner_in(v, #[trigger] existing@[k]@) is None
                        ==> mentions(acts@, existing@[k]@),
                forall|k: int| 0 <= k < l ==> mentions(acts@, #[trigger] ws@[k].0@),
            decreases ws@.len() - l,
        {
            let ghost a0 = acts@;
            acts.push(Action::Link { path: ws[l].0.clone(), source: ws[l].1 });
            proof {
                assert(top_of(candidates(v, ws@[l as int].0@)) is Some);
                assert(is_top(
                    top_of(candidates(v, ws@[l as int].0@)).unwrap(),
                    candidates(v, ws@[l as int].0@),
                ));
                assert(action_fits(v, acts@[a0.len() as int]));
                assert forall|k: int|
                    0 <= k < existing@.len() && winner_in(v, #[trigger] existing@[k]@) is None
                        implies mentions(acts@, existing@[k]@) by {
                    let x = choose|x: int| 0 <= x < a0.len() && action_path(a0[x]) == existing@[k]@;
                    assert(acts@[x] == a0[x]);
                }
                assert forall|k: int| 0 <= k < l + 1 implies mentions(acts@, #[trigger] ws@[k].0@) by {
                    if k < l {
                        let x = choose|x: int| 0 <= x < a0.len() && action_path(a0[x]) == ws@[k].0@;
                        assert(acts@[x] == a0[x]);
                    } else {
                        assert(action_path(acts@[a0.len() as int]) == ws@[k].0@);
                    }
                }
            }
            l = l + 1;
        }
        proof {
            assert forall|o: Seq<char>| #[trigger] winner_in(v, o) is Some implies mentions(acts@, o) by {
                assert(top_of(candidates(v, o)) is Some);
                let i = choose|i: int| 0 <= i < ws@.len() && ws@[i].0@ == o;
                assert(mentions(acts@, ws@[i].0@));
            }
            assert forall|o: Seq<char>|
                #[trigger] listed(existing@).contains(o) && winner_in(v, o) is None implies mentions(
                acts@,
                o,
            ) by {
                let k = choose|k: int| 0 <= k < existing@.len() && existing@[k]@ == o;
                assert(winner_in(v, existing@[k]@) is None);
            }
            assert forall|m: Map<Seq<char>, usize>|
                m.dom().subset_of(listed(existing@)) implies #[trigger] apply_actions(m, acts@)
                    == output_of(v) by {
                lemma_reconciled(m, acts@, v, existing@);
            }
            assert forall|i: int| 0 <= i < acts@.len() && #[trigger] acts@[i] is Link implies acts@[i]->Link_source < self.inputs@.len() by {
                assert(action_fits(v, acts@[i]));
                let p = action_path(acts@[i]);
                let c = winner_in(v, p).unwrap();
                assert(self.index@.contains((p, c.0, c.1)));
            }
        }
        acts
    }
}

} // verus!
