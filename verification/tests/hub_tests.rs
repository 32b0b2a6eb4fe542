use sync_hub::Delivery;
use sync_hub::Hub;
use sync_hub::Msg;

fn deliveries_to(out: &[Delivery], target: i32) -> Vec<Msg> {
    out.iter().filter(|d| d.target == target).map(|d| d.msg.clone()).collect()
}

#[test]
fn ids_are_monotonic_and_never_reused() {
    let mut hub = Hub::new();
    let (id0, _) = hub.connect();
    let (id1, _) = hub.connect();
    let (id2, _) = hub.connect();
    assert_eq!(id0, 0);
    assert_eq!(id1, 1);
    assert_eq!(id2, 2);
    hub.handle(Msg::Remove(1));
    let (id3, _) = hub.connect();
    assert_eq!(id3, 3);
}

#[test]
fn join_starts_with_empty_text() {
    let mut hub = Hub::new();
    let (id0, _) = hub.connect();
    assert_eq!(hub.registry.get_text(id0), Some(String::new()));
}

#[test]
fn no_self_echo_on_update() {
    let mut hub = Hub::new();
    let (id0, _) = hub.connect();
    let (id1, _) = hub.connect();
    let out = hub.handle(Msg::SetText(id0, "a".to_string()));
    assert!(out.iter().all(|d| d.target != id0));
    assert_eq!(deliveries_to(&out, id1), vec![Msg::SetText(id0, "a".to_string())]);
}

#[test]
fn update_for_departed_client_is_dropped() {
    let mut hub = Hub::new();
    let (id0, _) = hub.connect();
    let (id1, _) = hub.connect();
    hub.handle(Msg::Remove(id1));
    let out = hub.handle(Msg::SetText(id1, "ghost".to_string()));
    assert!(out.is_empty());
    assert!(!hub.registry.contains(id1));
    assert_eq!(hub.registry.get_text(id0), Some(String::new()));
}

#[test]
fn leave_is_idempotent() {
    let mut hub = Hub::new();
    let (id0, _) = hub.connect();
    let (id1, _) = hub.connect();
    let first = hub.handle(Msg::Remove(id1));
    assert_eq!(first, vec![Delivery { target: id0, msg: Msg::Remove(id1) }]);
    let len_after_first = hub.registry.len();
    let second = hub.handle(Msg::Remove(id1));
    assert!(second.is_empty());
    assert_eq!(hub.registry.len(), len_after_first);
    assert!(hub.registry.contains(id0));
    assert!(!hub.registry.contains(id1));
}

#[test]
fn broadcasts_preserve_enqueue_order() {
    let mut hub = Hub::new();
    let (a, _) = hub.connect();
    let (b, _) = hub.connect();
    let (c, _) = hub.connect();
    let mut seen_by_c: Vec<Msg> = Vec::new();
    for msg in [
        Msg::SetText(a, "x".to_string()),
        Msg::SetText(a, "y".to_string()),
        Msg::SetText(b, "z".to_string()),
    ] {
        let out = hub.handle(msg);
        seen_by_c.extend(deliveries_to(&out, c));
    }
    assert_eq!(
        seen_by_c,
        vec![
            Msg::SetText(a, "x".to_string()),
            Msg::SetText(a, "y".to_string()),
            Msg::SetText(b, "z".to_string()),
        ]
    );
}

#[test]
fn two_client_session() {
    let mut hub = Hub::new();
    let (id0, w0) = hub.connect();
    assert!(w0.is_empty());
    let (id1, w1) = hub.connect();
    assert_eq!(w1, vec![Msg::SetText(id0, String::new())]);

    let out = hub.handle(Msg::SetText(id0, "hello".to_string()));
    assert_eq!(deliveries_to(&out, id1), vec![Msg::SetText(id0, "hello".to_string())]);
    assert!(deliveries_to(&out, id0).is_empty());

    let out = hub.handle(Msg::Remove(id1));
    assert_eq!(deliveries_to(&out, id0), vec![Msg::Remove(id1)]);

    assert_eq!(hub.registry.len(), 1);
    assert!(hub.registry.contains(id0));
    assert_eq!(hub.registry.get_text(id0), Some("hello".to_string()));
}

#[test]
fn late_joiner_gets_full_snapshot() {
    let mut hub = Hub::new();
    let (id0, _) = hub.connect();
    let (id1, _) = hub.connect();
    hub.handle(Msg::SetText(id0, "hello".to_string()));
    let (id2, welcome) = hub.connect();
    assert_eq!(
        welcome,
        vec![
            Msg::SetText(id0, "hello".to_string()),
            Msg::SetText(id1, String::new()),
        ]
    );
    assert!(welcome.iter().all(|m| !matches!(m, Msg::SetText(id, _) if *id == id2)));
}
