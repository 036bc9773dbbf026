use overlay::{Action, Event, EventType, Overlay, PriorityIndex};
use std::collections::HashMap;

fn created(index: usize, path: &str) -> EventType {
    EventType { index, event: Event::Created(path.to_string()) }
}

fn removed(index: usize, path: &str) -> EventType {
    EventType { index, event: Event::Removed(path.to_string()) }
}

fn link(path: &str, source: usize) -> Action {
    Action::Link { path: path.to_string(), source }
}

fn unlink(path: &str) -> Action {
    Action::Unlink { path: path.to_string() }
}

fn apply(out: &mut HashMap<String, usize>, acts: &[Action]) {
    for a in acts {
        match a {
            Action::Link { path, source } => {
                out.insert(path.clone(), *source);
            }
            Action::Unlink { path } => {
                out.remove(path);
            }
        }
    }
}

fn two_sources() -> Overlay {
    let mut o = Overlay::new("/out");
    assert_eq!(o.add_input("/a", 10), 0);
    assert_eq!(o.add_input("/b", 0), 1);
    o
}

#[test]
fn add_input_gives_consecutive_indices() {
    let mut o = Overlay::new("/srv/out");
    assert_eq!(o.add_input("/srv/in1", 0), 0);
    assert_eq!(o.add_input("/srv/in2", 10), 1);
    assert_eq!(o.output_root(), "/srv/out");
    assert_eq!(o.input_root(0), "/srv/in1");
    assert_eq!(o.input_root(1), "/srv/in2");
}

#[test]
fn first_creation_links() {
    let mut o = two_sources();
    assert_eq!(o.process_event(created(1, "f")), vec![link("f", 1)]);
    assert_eq!(o.winner(&"f".to_string()), Some(1));
}

#[test]
fn higher_priority_replaces_link() {
    let mut o = two_sources();
    o.process_event(created(1, "f"));
    assert_eq!(o.process_event(created(0, "f")), vec![link("f", 0)]);
    assert_eq!(o.winner(&"f".to_string()), Some(0));
}

#[test]
fn fallback_then_absent() {
    let mut o = two_sources();
    let mut out = HashMap::new();
    apply(&mut out, &o.process_event(created(0, "f")));
    apply(&mut out, &o.process_event(created(1, "f")));
    assert_eq!(out.get("f"), Some(&0));
    let acts = o.process_event(removed(0, "f"));
    assert_eq!(acts, vec![link("f", 1)]);
    apply(&mut out, &acts);
    assert_eq!(out.get("f"), Some(&1));
    let acts = o.process_event(removed(1, "f"));
    assert_eq!(acts, vec![unlink("f")]);
    apply(&mut out, &acts);
    assert!(out.is_empty());
    assert_eq!(o.winner(&"f".to_string()), None);
}

#[test]
fn non_winner_changes_touch_nothing() {
    let mut o = two_sources();
    o.process_event(created(0, "f"));
    assert_eq!(o.process_event(created(1, "f")), Vec::<Action>::new());
    assert_eq!(o.process_event(removed(1, "f")), Vec::<Action>::new());
    assert_eq!(o.process_event(created(1, "f")), Vec::<Action>::new());
    assert_eq!(o.winner(&"f".to_string()), Some(0));
}

#[test]
fn duplicate_creation_is_idempotent() {
    let mut o = two_sources();
    assert_eq!(o.process_event(created(1, "f")), vec![link("f", 1)]);
    assert_eq!(o.process_event(created(1, "f")), Vec::<Action>::new());
    assert_eq!(o.winner(&"f".to_string()), Some(1));
    // one removal is enough to forget it
    assert_eq!(o.process_event(removed(1, "f")), vec![unlink("f")]);
}

#[test]
fn removal_of_unknown_path_is_ignored() {
    let mut o = two_sources();
    assert_eq!(o.process_event(removed(0, "nothing")), Vec::<Action>::new());
    o.process_event(created(1, "f"));
    assert_eq!(o.process_event(removed(0, "f")), Vec::<Action>::new());
    assert_eq!(o.winner(&"f".to_string()), Some(1));
}

#[test]
fn equal_priority_lower_index_wins_in_any_order() {
    let mut o = Overlay::new("/out");
    o.add_input("/x", 5);
    o.add_input("/y", 5);
    let mut p = Overlay::new("/out");
    p.add_input("/x", 5);
    p.add_input("/y", 5);
    o.process_event(created(0, "f"));
    assert_eq!(o.process_event(created(1, "f")), Vec::<Action>::new());
    p.process_event(created(1, "f"));
    assert_eq!(p.process_event(created(0, "f")), vec![link("f", 0)]);
    assert_eq!(o.winner(&"f".to_string()), Some(0));
    assert_eq!(p.winner(&"f".to_string()), Some(0));
}

#[test]
fn winner_does_not_depend_on_interleaving() {
    let evs = vec![
        created(0, "f"),
        created(1, "f"),
        created(1, "g"),
        removed(0, "f"),
        created(0, "g"),
        created(0, "f"),
        removed(1, "g"),
    ];
    let mut o = two_sources();
    let mut out_o = HashMap::new();
    for e in evs.clone() {
        apply(&mut out_o, &o.process_event(e));
    }
    // the same per-source order, the sources' events interleaved otherwise
    let mut p = two_sources();
    let mut out_p = HashMap::new();
    for i in [1usize, 2, 6, 0, 3, 4, 5] {
        apply(&mut out_p, &p.process_event(evs[i].clone()));
    }
    for path in ["f", "g"] {
        assert_eq!(o.winner(&path.to_string()), p.winner(&path.to_string()));
    }
    assert_eq!(out_o, out_p);
    assert_eq!(out_o.len(), 2);
    assert_eq!(o.winner(&"f".to_string()), Some(0));
    assert_eq!(o.winner(&"g".to_string()), Some(0));
}

#[test]
fn rename_is_remove_then_create() {
    let mut o = two_sources();
    o.process_event(created(0, "old"));
    o.process_event(created(1, "old"));
    let acts = o.process_event(EventType {
        index: 0,
        event: Event::Renamed("old".to_string(), "new".to_string()),
    });
    assert_eq!(acts, vec![link("old", 1), link("new", 0)]);
    assert_eq!(o.winner(&"old".to_string()), Some(1));
    assert_eq!(o.winner(&"new".to_string()), Some(0));
    let acts = o.process_event(EventType {
        index: 1,
        event: Event::Renamed("old".to_string(), "new".to_string()),
    });
    assert_eq!(acts, vec![unlink("old")]);
}

#[test]
fn failure_and_unknown_source_change_nothing() {
    let mut o = two_sources();
    o.process_event(created(0, "f"));
    let fail = EventType { index: 0, event: Event::Failure("watch lost".to_string(), None) };
    assert_eq!(o.process_event(fail), Vec::<Action>::new());
    assert_eq!(o.process_event(created(7, "g")), Vec::<Action>::new());
    assert_eq!(o.process_event(removed(7, "f")), Vec::<Action>::new());
    assert_eq!(o.winner(&"f".to_string()), Some(0));
    assert_eq!(o.winner(&"g".to_string()), None);
}

#[test]
fn reconcile_then_live_removals() {
    let mut o = Overlay::new("/out");
    let i1 = o.add_input("/I1", 0);
    let i2 = o.add_input("/I2", 10);
    let found = vec![
        (i1, "a.txt".to_string()),
        (i2, "a.txt".to_string()),
        (i2, "b.txt".to_string()),
    ];
    let mut out = HashMap::new();
    let acts = o.reconcile(&found, &Vec::new());
    apply(&mut out, &acts);
    let mut want = HashMap::new();
    want.insert("a.txt".to_string(), i2);
    want.insert("b.txt".to_string(), i2);
    assert_eq!(out, want);
    let acts = o.process_event(removed(i2, "a.txt"));
    assert_eq!(acts, vec![link("a.txt", i1)]);
    apply(&mut out, &acts);
    assert_eq!(out.get("a.txt"), Some(&i1));
    let acts = o.process_event(removed(i1, "a.txt"));
    assert_eq!(acts, vec![unlink("a.txt")]);
    apply(&mut out, &acts);
    assert_eq!(out.get("a.txt"), None);
    assert_eq!(out.get("b.txt"), Some(&i2));
}

#[test]
fn reconcile_removes_stale_entries() {
    let mut o = two_sources();
    let found = vec![(1, "keep".to_string())];
    let existing = vec!["keep".to_string(), "stale".to_string()];
    let acts = o.reconcile(&found, &existing);
    assert!(acts.contains(&unlink("stale")));
    assert!(acts.contains(&link("keep", 1)));
    let mut out = HashMap::new();
    out.insert("keep".to_string(), 0);
    out.insert("stale".to_string(), 0);
    apply(&mut out, &acts);
    let mut want = HashMap::new();
    want.insert("keep".to_string(), 1);
    assert_eq!(out, want);
}

#[test]
fn reconcile_overlapping_sources_converge() {
    let found = vec![
        (1, "x".to_string()),
        (0, "x".to_string()),
        (1, "y".to_string()),
        (0, "z".to_string()),
        (1, "z".to_string()),
        (5, "w".to_string()),
    ];
    let mut reversed = found.clone();
    reversed.reverse();
    let mut results = Vec::new();
    for walk in [found, reversed] {
        let mut o = two_sources();
        let mut out = HashMap::new();
        apply(&mut out, &o.reconcile(&walk, &Vec::new()));
        results.push(out);
    }
    let mut want = HashMap::new();
    want.insert("x".to_string(), 0);
    want.insert("y".to_string(), 1);
    want.insert("z".to_string(), 0);
    assert_eq!(results[0], want);
    assert_eq!(results[1], want);
}

#[test]
fn index_register_and_unregister() {
    let mut idx = PriorityIndex::new();
    let f = "f".to_string();
    assert_eq!(idx.register(&f, 3, 2), (None, Some((3, 2))));
    assert_eq!(idx.register(&f, 3, 1), (Some((3, 2)), Some((3, 1))));
    assert_eq!(idx.register(&f, 9, 4), (Some((3, 1)), Some((9, 4))));
    assert_eq!(idx.register(&f, 9, 4), (Some((9, 4)), Some((9, 4))));
    assert_eq!(idx.winner(&f), Some((9, 4)));
    assert_eq!(idx.unregister(&f, 4), (Some((9, 4)), Some((3, 1))));
    assert_eq!(idx.unregister(&f, 4), (Some((3, 1)), Some((3, 1))));
    assert_eq!(idx.unregister(&f, 1), (Some((3, 1)), Some((3, 2))));
    assert_eq!(idx.unregister(&f, 2), (Some((3, 2)), None));
    assert_eq!(idx.winner(&f), None);
}

#[test]
fn index_winners_lists_each_path() {
    let mut idx = PriorityIndex::new();
    idx.register(&"a".to_string(), 1, 0);
    idx.register(&"a".to_string(), 2, 1);
    idx.register(&"b".to_string(), 1, 0);
    let mut ws = idx.winners();
    ws.sort();
    assert_eq!(ws, vec![("a".to_string(), 1), ("b".to_string(), 0)]);
}
