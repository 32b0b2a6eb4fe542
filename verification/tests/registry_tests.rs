use sync_hub::IdAllocator;
use sync_hub::Msg;
use sync_hub::Registry;
use sync_hub::route;

#[test]
fn registry_tracks_joins_updates_and_leaves() {
    let mut reg = Registry::new();
    assert_eq!(reg.len(), 0);

    reg.insert(0, String::new());
    assert_eq!(reg.len(), 1);
    assert!(reg.contains(0));
    assert_eq!(reg.get_text(0), Some(String::new()));

    reg.insert(1, String::new());
    assert_eq!(reg.len(), 2);

    assert!(reg.update(0, "alpha".to_string()));
    assert_eq!(reg.get_text(0), Some("alpha".to_string()));
    assert_eq!(reg.get_text(1), Some(String::new()));

    assert!(reg.update(0, "beta".to_string()));
    assert_eq!(reg.get_text(0), Some("beta".to_string()));

    assert!(reg.remove(1));
    assert_eq!(reg.len(), 1);
    assert!(!reg.contains(1));
    assert!(reg.contains(0));

    assert!(!reg.update(1, "gone".to_string()));
    assert!(!reg.remove(1));
    assert_eq!(reg.len(), 1);
    assert_eq!(reg.get_text(0), Some("beta".to_string()));
}

#[test]
fn snapshot_excludes_only_the_given_id() {
    let mut reg = Registry::new();
    reg.insert(3, "three".to_string());
    reg.insert(5, "five".to_string());
    reg.insert(8, String::new());

    let snap = reg.snapshot(5);
    assert_eq!(
        snap,
        vec![
            Msg::SetText(3, "three".to_string()),
            Msg::SetText(8, String::new()),
        ]
    );

    let snap_all = reg.snapshot(-1);
    assert_eq!(snap_all.len(), 3);
}

#[test]
fn empty_registry_has_nothing_to_say() {
    let mut reg = Registry::new();
    assert!(reg.snapshot(0).is_empty());
    assert!(!reg.contains(7));
    assert_eq!(reg.get_text(7), None);
    assert!(!reg.update(7, "x".to_string()));
    assert!(!reg.remove(7));
    assert!(route(&mut reg, Msg::SetText(7, "x".to_string())).is_empty());
    assert!(route(&mut reg, Msg::Remove(7)).is_empty());
    assert_eq!(reg.len(), 0);
}

#[test]
fn allocator_counts_up_to_its_limit() {
    let mut ids = IdAllocator::new();
    assert_eq!(ids.next(), 0);
    assert_eq!(ids.next(), 1);
    let mut near_limit = IdAllocator { counter: i32::MAX - 1 };
    assert_eq!(near_limit.next(), i32::MAX - 1);
    assert_eq!(near_limit.counter, i32::MAX);
}

#[test]
fn events_copy_and_name_their_origin() {
    let m = Msg::SetText(4, "abc".to_string());
    assert_eq!(m.dup(), m);
    assert_eq!(m.origin(), 4);
    let l = Msg::Remove(9);
    assert_eq!(l.dup(), l);
    assert_eq!(l.origin(), 9);
}

#[test]
fn route_applies_and_fans_out() {
    let mut reg = Registry::new();
    reg.insert(0, String::new());
    reg.insert(1, String::new());
    reg.insert(2, String::new());

    let out = route(&mut reg, Msg::SetText(1, "hi".to_string()));
    assert_eq!(out.len(), 2);
    assert_eq!(out[0].target, 0);
    assert_eq!(out[0].msg, Msg::SetText(1, "hi".to_string()));
    assert_eq!(out[1].target, 2);
    assert_eq!(out[1].msg, Msg::SetText(1, "hi".to_string()));
    assert_eq!(reg.get_text(1), Some("hi".to_string()));

    let out = route(&mut reg, Msg::Remove(0));
    assert_eq!(out.len(), 2);
    assert_eq!(out[0].target, 1);
    assert_eq!(out[0].msg, Msg::Remove(0));
    assert_eq!(out[1].target, 2);
    assert!(!reg.contains(0));

    let out = route(&mut reg, Msg::Remove(0));
    assert!(out.is_empty());
}
