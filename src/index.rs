//! Per-path candidate sets and winner resolution.
use vstd::prelude::*;

verus! {

/// A candidate for a path: the source's priority and the source's index.
pub type Candidate = (u32, usize);

/// One registration of a path by a source, as the index models it.
pub type Entry = (Seq<char>, u32, usize);

/// `a` wins over `b`: higher priority first, then the lower source index.
pub open spec fn outranks(a: Candidate, b: Candidate) -> bool {
    a.0 > b.0 || (a.0 == b.0 && a.1 < b.1)
}

/// `c` belongs to `cs` and outranks every other member of it.
pub open spec fn is_top(c: Candidate, cs: Set<Candidate>) -> bool {
    &&& cs.contains(c)
    &&& forall|d: Candidate| #[trigger] cs.contains(d) && d != c ==> outranks(c, d)
}

/// The winner among `cs`, if `cs` has one.
pub open spec fn top_of(cs: Set<Candidate>) -> Option<Candidate> {
    if exists|c: Candidate| is_top(c, cs) {
        Some(choose|c: Candidate| is_top(c, cs))
    } else {
        None
    }
}

/// The candidates that `v` records for path `p`.
pub open spec fn candidates(v: Set<Entry>, p: Seq<char>) -> Set<Candidate> {
    Set::new(|c: Candidate| v.contains((p, c.0, c.1)))
}

/// Source `s` is recorded as holding path `p`.
pub open spec fn holds_source(v: Set<Entry>, p: Seq<char>, s: usize) -> bool {
    exists|q: u32| v.contains((p, q, s))
}

/// What `register` does to the model: a source is recorded at most once per path.
pub open spec fn register_view(v: Set<Entry>, p: Seq<char>, q: u32, s: usize) -> Set<Entry> {
    if holds_source(v, p, s) {
        v
    } else {
        v.insert((p, q, s))
    }
}

/// What `unregister` does to the model: the record of `s` for `p` goes, if any.
pub open spec fn unregister_view(v: Set<Entry>, p: Seq<char>, s: usize) -> Set<Entry> {
    v.filter(|t: Entry| !(t.0 == p && t.2 == s))
}

/// At most one candidate of a set is its top.
pub proof fn lemma_top_unique(a: Candidate, b: Candidate, cs: Set<Candidate>)
    requires
        is_top(a, cs),
        is_top(b, cs),
    ensures
        a == b,
{
}

/// A top, where there is one, is what `top_of` gives.
pub proof fn lemma_top_of(c: Candidate, cs: Set<Candidate>)
    requires
        is_top(c, cs),
    ensures
        top_of(cs) == Some(c),
{
    let d = choose|d: Candidate| is_top(d, cs);
    lemma_top_unique(c, d, cs);
}

/// Outside `p`, registering or unregistering at `p` changes no candidates.
pub proof fn lemma_other_paths(v: Set<Entry>, p: Seq<char>, q: u32, s: usize, o: Seq<char>)
    requires
        o != p,
    ensures
        candidates(register_view(v, p, q, s), o) == candidates(v, o),
        candidates(unregister_view(v, p, s), o) == candidates(v, o),
{
    assert(candidates(register_view(v, p, q, s), o) =~= candidates(v, o));
    assert(candidates(unregister_view(v, p, s), o) =~= candidates(v, o));
}

/// At `p`, registering adds the candidate unless the source already holds `p`.
pub proof fn lemma_register_here(v: Set<Entry>, p: Seq<char>, q: u32, s: usize)
    ensures
        candidates(register_view(v, p, q, s), p) == if holds_source(v, p, s) {
            candidates(v, p)
        } else {
            candidates(v, p).insert((q, s))
        },
{
    if !holds_source(v, p, s) {
        assert(candidates(register_view(v, p, q, s), p) =~= candidates(v, p).insert((q, s)));
    }
}

/// At `p`, unregistering drops the candidates of the source.
pub proof fn lemma_unregister_here(v: Set<Entry>, p: Seq<char>, s: usize)
    ensures
        candidates(unregister_view(v, p, s), p) == candidates(v, p).filter(|c: Candidate| c.1 != s),
{
    assert(candidates(unregister_view(v, p, s), p) =~= candidates(v, p).filter(
        |c: Candidate| c.1 != s,
    ));
}

/// A path registered by one source.
pub struct Registration {
    path: String,
    priority: u32,
    source: usize,
}

impl Registration {
    pub closed spec fn view(&self) -> Entry {
        (self.path@, self.priority, self.source)
    }
}

/// The set of (path, priority, source) registrations, at most one per path and source.
pub struct PriorityIndex {
    entries: Vec<Registration>,
}

impl PriorityIndex {
    pub closed spec fn view(&self) -> Set<Entry> {
        Set::new(
            |t: Entry|
                exists|k: int| 0 <= k < self.entries@.len() && #[trigger] self.entries@[k]@ == t,
        )
    }

    /// No source is recorded twice for one path.
    pub closed spec fn wf(&self) -> bool {
        forall|i: int, j: int|
            0 <= i < self.entries@.len() && 0 <= j < self.entries@.len() && i != j
                ==> !(#[trigger] self.entries@[i]@.0 == #[trigger] self.entries@[j]@.0
                && self.entries@[i]@.2 == self.entries@[j]@.2)
    }

    pub fn new() -> (r: PriorityIndex)
        ensures
            r.wf(),
            r@ == Set::<Entry>::empty(),
    {
        let r = PriorityIndex { entries: Vec::new() };
        assert(r@ =~= Set::<Entry>::empty());
        r
    }

    /// The position of the registration of `source` for `path`, if there is one.
    fn find(&self, path: &String, source: usize) -> (r: Option<usize>)
        ensures
            match r {
                Some(k) => k < self.entries@.len() && self.entries@[k as int]@.0 == path@
                    && self.entries@[k as int]@.2 == source,
                None => !holds_source(self@, path@, source),
            },
    {
        let mut k: usize = 0;
        while k < self.entries.len()
            invariant
                k <= self.entries@.len(),
                forall|j: int|
                    0 <= j < k ==> !(#[trigger] self.entries@[j]@.0 == path@ && self.entries@[j]@.2
                        == source),
            decreases self.entries@.len() - k,
        {
            let e = &self.entries[k];
            if e.source == source && e.path == *path {
                return Some(k);
            }
            k = k + 1;
        }
        assert forall|q: u32| !self@.contains((path@, q, source)) by {
            if self@.contains((path@, q, source)) {
                let j = choose|j: int|
                    0 <= j < self.entries@.len() && #[trigger] self.entries@[j]@ == (path@, q, source);
                assert(self.entries@[j]@.0 == path@);
            }
        }
        None
    }

    /// The current winner of `path`: the top of its candidates, or none.
    pub fn winner(&self, path: &String) -> (r: Option<Candidate>)
        ensures
            r == top_of(candidates(self@, path@)),
    {
        let mut best: Option<Candidate> = None;
        let mut k: usize = 0;
        while k < self.entries.len()
            invariant
                k <= self.entries@.len(),
                best is None ==> forall|j: int|
                    0 <= j < k ==> #[trigger] self.entries@[j]@.0 != path@,
                best matches Some(b) ==> {
                    &&& candidates(self@, path@).contains(b)
                    &&& forall|j: int|
                        0 <= j < k && #[trigger] self.entries@[j]@.0 == path@ ==> ((
                        self.entries@[j]@.1,
                        self.entries@[j]@.2,
                    ) == b || outranks(b, (self.entries@[j]@.1, self.entries@[j]@.2)))
                },
            decreases self.entries@.len() - k,
        {
            let e = &self.entries[k];
            if e.path == *path {
                let c: Candidate = (e.priority, e.source);
                assert(self@.contains(self.entries@[k as int]@));
                match best {
                    None => {
                        best = Some(c);
                    },
                    Some(b) => {
                        if c.0 > b.0 || (c.0 == b.0 && c.1 < b.1) {
                            best = Some(c);
                        }
                    },
                }
            }
            k = k + 1;
        }
        match best {
            None => {
                assert forall|c: Candidate| !is_top(c, candidates(self@, path@)) by {
                    if candidates(self@, path@).contains(c) {
                        let j = choose|j: int|
                            0 <= j < self.entries@.len() && #[trigger] self.entries@[j]@ == (
                                path@,
                                c.0,
                                c.1,
                            );
                        assert(self.entries@[j]@.0 == path@);
                    }
                }
            },
            Some(b) => {
                assert forall|d: Candidate|
                    #[trigger] candidates(self@, path@).contains(d) && d != b implies outranks(
                    b,
                    d,
                ) by {
                    let j = choose|j: int|
                        0 <= j < self.entries@.len() && #[trigger] self.entries@[j]@ == (
                            path@,
                            d.0,
                            d.1,
                        );
                    assert(self.entries@[j]@.0 == path@);
                }
                proof { lemma_top_of(b, candidates(self@, path@)); }
            },
        }
        best
    }

    /// Records that `source`, of priority `priority`, holds `path`; a second
    /// registration of the same source for the same path changes nothing.
    /// Gives the winner of `path` before and after.
    pub fn register(&mut self, path: &String, priority: u32, source: usize) -> (r: (
        Option<Candidate>,
        Option<Candidate>,
    ))
        requires
            old(self).wf(),
        ensures
            final(self).wf(),
            final(self)@ == register_view(old(self)@, path@, priority, source),
            r.0 == top_of(candidates(old(self)@, path@)),
            r.1 == top_of(candidates(final(self)@, path@)),
    {
        let before = self.winner(path);
        match self.find(path, source) {
            Some(k) => {
                assert(self@.contains(self.entries@[k as int]@));
            },
            None => {
                let ghost old_entries = self.entries@;
                let ghost old_view = self@;
                self.entries.push(Registration { path: path.clone(), priority, source });
                assert(self.entries@[old_entries.len() as int]@ == (path@, priority, source));
                assert forall|t: Entry| #[trigger] self@.contains(t) == old_view.insert(
                    (path@, priority, source),
                ).contains(t) by {
                    if old_view.contains(t) {
                        let j = choose|j: int|
                            0 <= j < old_entries.len() && #[trigger] old_entries[j]@ == t;
                        assert(self.entries@[j]@ == t);
                    }
                    if self@.contains(t) && t != (path@, priority, source) {
                        let j = choose|j: int|
                            0 <= j < self.entries@.len() && #[trigger] self.entries@[j]@ == t;
                        assert(old_entries[j]@ == t);
                    }
                }
                assert(self@ =~= old_view.insert((path@, priority, source)));
                assert forall|i: int|
                    0 <= i < old_entries.len() implies !(#[trigger] self.entries@[i]@.0 == path@
                    && self.entries@[i]@.2 == source) by {
                    if self.entries@[i]@.0 == path@ && self.entries@[i]@.2 == source {
                        assert(old_view.contains(old_entries[i]@));
                    }
                }
            },
        }
        let after = self.winner(path);
        (before, after)
    }

    /// Forgets that `source` holds `path`; nothing changes if it was not recorded.
    /// Gives the winner of `path` before and after.
    pub fn unregister(&mut self, path: &String, source: usize) -> (r: (
        Option<Candidate>,
        Option<Candidate>,
    ))
        requires
            old(self).wf(),
        ensures
            final(self).wf(),
            final(self)@ == unregister_view(old(self)@, path@, source),
            r.0 == top_of(candidates(old(self)@, path@)),
            r.1 == top_of(candidates(final(self)@, path@)),
    {
        let before = self.winner(path);
        let ghost old_view = self@;
        match self.find(path, source) {
            None => {
                assert(self@ =~= unregister_view(old_view, path@, source));
            },
            Some(k) => {
                let ghost old_entries = self.entries@;
                self.entries.remove(k);
                assert forall|t: Entry| #[trigger] self@.contains(t) == unregister_view(
                    old_view,
                    path@,
                    source,
                ).contains(t) by {
                    if self@.contains(t) {
                        let j = choose|j: int|
                            0 <= j < self.entries@.len() && #[trigger] self.entries@[j]@ == t;
                        if j < k {
                            assert(old_entries[j]@ == t);
                        } else {
                            assert(old_entries[j + 1]@ == t);
                        }
                    }
                    if old_view.contains(t) && !(t.0 == path@ && t.2 == source) {
                        let j = choose|j: int|
                            0 <= j < old_entries.len() && #[trigger] old_entries[j]@ == t;
                        if j < k {
                            assert(self.entries@[j]@ == t);
                        } else if j > k {
                            assert(self.entries@[j - 1]@ == t);
                        }
                    }
                }
                assert(self@ =~= unregister_view(old_view, path@, source));
                assert forall|i: int, j: int|
                    0 <= i < self.entries@.len() && 0 <= j < self.entries@.len() && i != j
                        implies !(#[trigger] self.entries@[i]@.0 == #[trigger] self.entries@[j]@.0
                    && self.entries@[i]@.2 == self.entries@[j]@.2) by {
                    let i0 = if i < k { i } else { i + 1 };
                    let j0 = if j < k { j } else { j + 1 };
                    assert(self.entries@[i] == old_entries[i0]);
                    assert(self.entries@[j] == old_entries[j0]);
                }
            },
        }
        let after = self.winner(path);
        (before, after)
    }

    /// Each path that has a winner, with the winner's source.
    pub fn winners(&self) -> (r: Vec<(String, usize)>)
        requires
            self.wf(),
        ensures
            forall|i: int|
                0 <= i < r@.len() ==> #[trigger] top_of(candidates(self@, r@[i].0@)) is Some
                    && top_of(candidates(self@, r@[i].0@)).unwrap().1 == r@[i].1,
            forall|p: Seq<char>|
                #[trigger] top_of(candidates(self@, p)) is Some ==> exists|i: int|
                    0 <= i < r@.len() && r@[i].0@ == p,
    {
        let mut r: Vec<(String, usize)> = Vec::new();
        let mut k: usize = 0;
        while k < self.entries.len()
            invariant
                k <= self.entries@.len(),
                forall|i: int|
                    0 <= i < r@.len() ==> #[trigger] top_of(candidates(self@, r@[i].0@)) is Some
                        && top_of(candidates(self@, r@[i].0@)).unwrap().1 == r@[i].1,
                forall|j: int|
                    0 <= j < k && top_of(candidates(self@, self.entries@[j]@.0)) == Some(
                        (#[trigger] self.entries@[j]@.1, self.entries@[j]@.2),
                    ) ==> exists|i: int| 0 <= i < r@.len() && r@[i].0@ == self.entries@[j]@.0,
            decreases self.entries@.len() - k,
        {
            let e = &self.entries[k];
            let w = self.winner(&e.path);
            if w == Some((e.priority, e.source)) {
                let ghost r0 = r@;
                r.push((e.path.clone(), e.source));
                proof {
                    assert forall|j: int|
                        0 <= j < k && top_of(candidates(self@, self.entries@[j]@.0)) == Some(
                            (#[trigger] self.entries@[j]@.1, self.entries@[j]@.2),
                        ) implies exists|i: int|
                        0 <= i < r@.len() && r@[i].0@ == self.entries@[j]@.0 by {
                        let i = choose|i: int|
                            0 <= i < r0.len() && r0[i].0@ == self.entries@[j]@.0;
                        assert(r@[i] == r0[i]);
                    }
                    assert(r@[r0.len() as int].0@ == self.entries@[k as int]@.0);
                }
            }
            k = k + 1;
        }
        assert forall|p: Seq<char>| #[trigger] top_of(candidates(self@, p)) is Some implies exists|
            i: int,
        | 0 <= i < r@.len() && r@[i].0@ == p by {
            let c = top_of(candidates(self@, p)).unwrap();
            let d = choose|d: Candidate| is_top(d, candidates(self@, p));
            assert(c == d);
            assert(candidates(self@, p).contains(c));
            let j = choose|j: int|
                0 <= j < self.entries@.len() && #[trigger] self.entries@[j]@ == (p, c.0, c.1);
            assert(self.entries@[j]@.1 == c.0);
        }
        r
    }
}

} // verus!
