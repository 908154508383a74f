use hottake::errors::ServiceError;
use hottake::hub::{Envelope, Hub, SignalKind};
use hottake::registry::Registry;
use hottake::user::User;

fn user(id: &str) -> User {
    User::new(id.to_string(), "Someone".to_string(), 30, "x".to_string())
}

/// A registry with one session of u1 and u2, returning the session id.
fn two_person_session(reg: &mut Registry) -> String {
    let s = reg
        .create_session(&"Pineapple on pizza?".to_string(), &user("u1"))
        .expect("creation succeeds");
    reg.join_session(s.id(), &user("u2")).expect("there is room");
    s.id().clone()
}

#[test]
fn attach_unknown_session_is_not_found() {
    let reg = Registry::new();
    let mut hub = Hub::new();
    let r = hub.attach(&reg, &"nope".to_string(), &"u1".to_string(), 1);
    assert_eq!(r.err(), Some(ServiceError::NotFound));
    assert_eq!(hub.route_count(), 0);
}

#[test]
fn attach_by_a_non_member_is_forbidden() {
    let mut reg = Registry::new();
    let sid = two_person_session(&mut reg);
    let mut hub = Hub::new();
    let r = hub.attach(&reg, &sid, &"eavesdropper".to_string(), 1);
    assert_eq!(r.err(), Some(ServiceError::Forbidden));
    assert_eq!(hub.route_count(), 0);
    assert!(!hub.is_attached(&sid, &"eavesdropper".to_string()));
}

#[test]
fn attach_registers_a_route_and_a_second_supersedes_it() {
    let mut reg = Registry::new();
    let sid = two_person_session(&mut reg);
    let mut hub = Hub::new();
    let first = hub
        .attach(&reg, &sid, &"u1".to_string(), 7)
        .expect("u1 is a participant");
    assert_eq!(first, None);
    assert!(hub.is_attached(&sid, &"u1".to_string()));
    assert_eq!(hub.route_count(), 1);
    // a reconnect replaces the route and hands back the old handle to close
    let second = hub
        .attach(&reg, &sid, &"u1".to_string(), 8)
        .expect("u1 is still a participant");
    assert_eq!(second, Some(7));
    assert_eq!(hub.route_count(), 1);
}

#[test]
fn detach_is_idempotent() {
    let mut reg = Registry::new();
    let sid = two_person_session(&mut reg);
    let mut hub = Hub::new();
    hub.attach(&reg, &sid, &"u1".to_string(), 7)
        .expect("u1 is a participant");
    hub.detach(&sid, &"u1".to_string());
    assert!(!hub.is_attached(&sid, &"u1".to_string()));
    assert_eq!(hub.route_count(), 0);
    // detaching an already-detached pair is a no-op, not an error
    hub.detach(&sid, &"u1".to_string());
    assert_eq!(hub.route_count(), 0);
    // detaching in an unknown session is equally harmless
    hub.detach(&"nope".to_string(), &"u1".to_string());
    assert_eq!(hub.route_count(), 0);
}

#[test]
fn detach_leaves_other_routes_alone() {
    let mut reg = Registry::new();
    let sid = two_person_session(&mut reg);
    let mut hub = Hub::new();
    hub.attach(&reg, &sid, &"u1".to_string(), 7).expect("member");
    hub.attach(&reg, &sid, &"u2".to_string(), 8).expect("member");
    hub.detach(&sid, &"u1".to_string());
    assert!(hub.is_attached(&sid, &"u2".to_string()));
    assert_eq!(hub.route_count(), 1);
}

#[test]
fn relay_reaches_exactly_the_other_session_members() {
    let mut reg = Registry::new();
    let sid = two_person_session(&mut reg);
    // a second, unrelated session with its own attached connection
    let other = reg
        .create_session(&"Cats or dogs?".to_string(), &user("u3"))
        .expect("creation succeeds");
    let mut hub = Hub::new();
    hub.attach(&reg, &sid, &"u1".to_string(), 1).expect("member");
    hub.attach(&reg, &sid, &"u2".to_string(), 2).expect("member");
    hub.attach(&reg, other.id(), &"u3".to_string(), 3).expect("member");

    let offer = Envelope::new("u1".to_string(), SignalKind::Offer, "sdp-blob".to_string());
    let deliveries = hub.relay(&reg, &sid, &"u1".to_string(), &offer);
    // u2 receives exactly the envelope; u1 and the other session get nothing
    assert_eq!(deliveries.len(), 1);
    assert_eq!(deliveries[0].handle, 2);
    assert_eq!(deliveries[0].message.from, "u1");
    assert_eq!(deliveries[0].message.kind, SignalKind::Offer);
    assert_eq!(deliveries[0].message.payload, "sdp-blob");

    // and nothing is forwarded inside the other session either
    let presence = Envelope::new("u3".to_string(), SignalKind::Presence, String::new());
    let silent = hub.relay(&reg, other.id(), &"u3".to_string(), &presence);
    assert_eq!(silent.len(), 0);
}

#[test]
fn relay_drops_when_session_or_sender_route_is_gone() {
    let mut reg = Registry::new();
    let sid = two_person_session(&mut reg);
    let mut hub = Hub::new();
    hub.attach(&reg, &sid, &"u2".to_string(), 2).expect("member");
    let msg = Envelope::new("u1".to_string(), SignalKind::Candidate, "c".to_string());
    // the sender has no live route: silently dropped
    let out = hub.relay(&reg, &sid, &"u1".to_string(), &msg);
    assert_eq!(out.len(), 0);
    // unknown session: silently dropped
    let out2 = hub.relay(&reg, &"nope".to_string(), &"u1".to_string(), &msg);
    assert_eq!(out2.len(), 0);
}

#[test]
fn relay_skips_routes_of_departed_participants() {
    let mut reg = Registry::new();
    let sid = two_person_session(&mut reg);
    let mut hub = Hub::new();
    hub.attach(&reg, &sid, &"u1".to_string(), 1).expect("member");
    hub.attach(&reg, &sid, &"u2".to_string(), 2).expect("member");
    // u2 leaves the session but keeps the signaling route open
    reg.leave_session(&sid, &"u2".to_string()).expect("u2 is in");
    let msg = Envelope::new("u1".to_string(), SignalKind::Answer, "a".to_string());
    // membership is re-checked on every routing decision: u2 gets nothing
    let out = hub.relay(&reg, &sid, &"u1".to_string(), &msg);
    assert_eq!(out.len(), 0);
}

#[test]
fn relay_preserves_per_sender_order() {
    let mut reg = Registry::new();
    let sid = two_person_session(&mut reg);
    let mut hub = Hub::new();
    hub.attach(&reg, &sid, &"u1".to_string(), 1).expect("member");
    hub.attach(&reg, &sid, &"u2".to_string(), 2).expect("member");
    let first = Envelope::new("u1".to_string(), SignalKind::Offer, "one".to_string());
    let second = Envelope::new("u1".to_string(), SignalKind::Candidate, "two".to_string());
    let out1 = hub.relay(&reg, &sid, &"u1".to_string(), &first);
    let out2 = hub.relay(&reg, &sid, &"u1".to_string(), &second);
    assert_eq!(out1[0].message.payload, "one");
    assert_eq!(out2[0].message.payload, "two");
}
