use overlay::{normalize, relative_path, Event, EventType, RawEvent};

fn parts(s: &[&str]) -> Vec<String> {
    s.iter().map(|c| c.to_string()).collect()
}

fn root() -> Vec<String> {
    parts(&["/", "srv", "in"])
}

#[test]
fn relative_path_strips_root_components() {
    assert_eq!(
        relative_path(&root(), &parts(&["/", "srv", "in", "a", "b.txt"])),
        Some("a/b.txt".to_string())
    );
    assert_eq!(relative_path(&root(), &parts(&["/", "srv", "in", "f"])), Some("f".to_string()));
    assert_eq!(relative_path(&root(), &root()), Some(String::new()));
}

#[test]
fn relative_path_outside_root_is_none() {
    assert_eq!(relative_path(&root(), &parts(&["/", "srv", "other", "f"])), None);
    assert_eq!(relative_path(&root(), &parts(&["/", "srv"])), None);
    // a component that only starts like the root's is no match
    assert_eq!(relative_path(&root(), &parts(&["/", "srv", "input", "f"])), None);
}

#[test]
fn normalize_create_and_remove() {
    let created = normalize(3, &root(), RawEvent::Create(parts(&["/", "srv", "in", "d", "x"])));
    assert_eq!(created, Some(EventType { index: 3, event: Event::Created("d/x".to_string()) }));
    let removed = normalize(3, &root(), RawEvent::Remove(parts(&["/", "srv", "in", "x"])));
    assert_eq!(removed, Some(EventType { index: 3, event: Event::Removed("x".to_string()) }));
}

#[test]
fn normalize_rename() {
    let raw = RawEvent::Rename(
        parts(&["/", "srv", "in", "old"]),
        parts(&["/", "srv", "in", "sub", "new"]),
    );
    assert_eq!(
        normalize(1, &root(), raw),
        Some(EventType {
            index: 1,
            event: Event::Renamed("old".to_string(), "sub/new".to_string())
        })
    );
}

#[test]
fn normalize_outside_root_is_failure() {
    let r = normalize(2, &root(), RawEvent::Create(parts(&["/", "tmp", "f"]))).unwrap();
    assert_eq!(r.index, 2);
    assert!(matches!(r.event, Event::Failure(_, None)));
    let raw = RawEvent::Rename(parts(&["/", "srv", "in", "a"]), parts(&["/", "tmp", "b"]));
    let r = normalize(2, &root(), raw).unwrap();
    assert!(matches!(r.event, Event::Failure(_, None)));
}

#[test]
fn normalize_error_is_kept_and_other_dropped() {
    let raw = RawEvent::Error("watch lost".to_string(), Some("/srv/in/f".to_string()));
    assert_eq!(
        normalize(0, &root(), raw),
        Some(EventType {
            index: 0,
            event: Event::Failure("watch lost".to_string(), Some("/srv/in/f".to_string()))
        })
    );
    assert_eq!(normalize(0, &root(), RawEvent::Other), None);
}
