use hottake::errors::ServiceError;
use hottake::registry::Registry;
use hottake::session::{Session, MAX_PARTICIPANTS};
use hottake::user::User;

fn user(id: &str, name: &str, age: u32, gender: &str) -> User {
    User::new(id.to_string(), name.to_string(), age, gender.to_string())
}

fn create(reg: &mut Registry, title: &str, owner: &User) -> Session {
    reg.create_session(&title.to_string(), owner)
        .expect("creation with a non-empty title must succeed")
}

#[test]
fn create_session_holds_owner_alone() {
    let mut reg = Registry::new();
    let owner = user("u1", "Ann", 25, "f");
    let s = create(&mut reg, "Pineapple on pizza?", &owner);
    assert_eq!(s.title(), "Pineapple on pizza?");
    assert!(s.is_active());
    assert_eq!(s.owner_id(), "u1");
    assert_eq!(s.participant_count(), 1);
    assert!(s.has_participant(&"u1".to_string()));
    assert_eq!(s.id().chars().count(), 36);
    assert!(!s.created_at().is_empty());
}

#[test]
fn create_session_trims_title() {
    let mut reg = Registry::new();
    let owner = user("u1", "Ann", 25, "f");
    let s = create(&mut reg, "  Pineapple on pizza?  ", &owner);
    assert_eq!(s.title(), "Pineapple on pizza?");
}

#[test]
fn create_session_rejects_blank_title() {
    let mut reg = Registry::new();
    let owner = user("u1", "Ann", 25, "f");
    let r = reg.create_session(&"   ".to_string(), &owner);
    assert_eq!(r.err(), Some(ServiceError::InvalidArgument));
    let r2 = reg.create_session(&String::new(), &owner);
    assert_eq!(r2.err(), Some(ServiceError::InvalidArgument));
}

#[test]
fn create_sessions_get_distinct_ids() {
    let mut reg = Registry::new();
    let owner = user("u1", "Ann", 25, "f");
    let a = create(&mut reg, "first", &owner);
    let b = create(&mut reg, "second", &owner);
    assert_ne!(a.id(), b.id());
}

#[test]
fn get_session_unknown_id_is_not_found() {
    let reg = Registry::new();
    let r = reg.get_session(&"nope".to_string());
    assert_eq!(r.err(), Some(ServiceError::NotFound));
}

#[test]
fn get_session_returns_an_independent_snapshot() {
    let mut reg = Registry::new();
    let owner = user("u1", "Ann", 25, "f");
    let s = create(&mut reg, "topic", &owner);
    let snapshot = reg.get_session(s.id()).expect("the session exists");
    assert_eq!(snapshot.participant_count(), 1);
    reg.join_session(s.id(), &user("u2", "Bob", 30, "m"))
        .expect("there is room");
    // the earlier snapshot must not reflect the later join
    assert_eq!(snapshot.participant_count(), 1);
    let fresh = reg.get_session(s.id()).expect("the session exists");
    assert_eq!(fresh.participant_count(), 2);
}

#[test]
fn list_sessions_returns_every_session_once() {
    let mut reg = Registry::new();
    let owner = user("u1", "Ann", 25, "f");
    let a = create(&mut reg, "first", &owner);
    let b = create(&mut reg, "second", &owner);
    let all = reg.list_sessions();
    assert_eq!(all.len(), 2);
    let ids: Vec<&String> = all.iter().map(|s| s.id()).collect();
    assert!(ids.contains(&a.id()));
    assert!(ids.contains(&b.id()));
    assert_ne!(all[0].id(), all[1].id());
}

#[test]
fn join_session_unknown_id_is_not_found() {
    let mut reg = Registry::new();
    let r = reg.join_session(&"nope".to_string(), &user("u2", "Bob", 30, "m"));
    assert_eq!(r.err(), Some(ServiceError::NotFound));
}

#[test]
fn capacity_scenario() {
    let mut reg = Registry::new();
    let owner = user("u1", "Ann", 25, "f");
    let s = create(&mut reg, "Pineapple on pizza?", &owner);
    assert_eq!(s.participant_count(), 1);
    for i in 2..=6 {
        let joined = reg
            .join_session(s.id(), &user(&format!("u{}", i), "Guest", 20 + i, "x"))
            .expect("there is room below capacity");
        assert_eq!(joined.participant_count(), i as usize);
    }
    // the session is full now
    let r = reg.join_session(s.id(), &user("u7", "Late", 40, "x"));
    assert_eq!(r.err(), Some(ServiceError::Conflict));
    // the owner may leave like anyone else
    let after_leave = reg
        .leave_session(s.id(), &"u1".to_string())
        .expect("the owner is a participant");
    assert_eq!(after_leave.participant_count(), 5);
    assert!(after_leave.is_active());
    assert!(!after_leave.has_participant(&"u1".to_string()));
    // leaving with an unknown id is a bad request, not a crash
    let r2 = reg.leave_session(s.id(), &"u99".to_string());
    assert_eq!(r2.err(), Some(ServiceError::InvalidArgument));
}

#[test]
fn join_never_exceeds_capacity() {
    let mut reg = Registry::new();
    let owner = user("u1", "Ann", 25, "f");
    let s = create(&mut reg, "crowded", &owner);
    for i in 2..=20 {
        let _ = reg.join_session(s.id(), &user(&format!("u{}", i), "Guest", 20, "x"));
        let now = reg.get_session(s.id()).expect("the session exists");
        assert!(now.participant_count() <= MAX_PARTICIPANTS as usize);
    }
    let full = reg.get_session(s.id()).expect("the session exists");
    assert_eq!(full.participant_count(), MAX_PARTICIPANTS as usize);
    // exactly those admitted before capacity was reached are in
    for i in 1..=6 {
        assert!(full.has_participant(&format!("u{}", i)));
    }
    for i in 7..=20 {
        assert!(!full.has_participant(&format!("u{}", i)));
    }
}

#[test]
fn rejoin_succeeds_even_when_full_and_keeps_the_count() {
    let mut reg = Registry::new();
    let owner = user("u1", "Ann", 25, "f");
    let s = create(&mut reg, "full house", &owner);
    for i in 2..=6 {
        reg.join_session(s.id(), &user(&format!("u{}", i), "Guest", 20, "x"))
            .expect("there is room below capacity");
    }
    // u3 is already in: the re-join must succeed although the session is full
    let rejoined = reg
        .join_session(s.id(), &user("u3", "Renamed", 33, "x"))
        .expect("a re-join of a present participant must succeed");
    assert_eq!(rejoined.participant_count(), 6);
    // the profile fields were replaced, the id identity kept
    let record = reg
        .get_user(&"u3".to_string())
        .expect("the user was upserted");
    assert_eq!(record.name, "Renamed");
    assert_eq!(record.age, 33);
}

#[test]
fn leave_unknown_session_is_not_found() {
    let mut reg = Registry::new();
    let r = reg.leave_session(&"nope".to_string(), &"u1".to_string());
    assert_eq!(r.err(), Some(ServiceError::NotFound));
}

#[test]
fn leave_then_get_reflects_the_removal() {
    let mut reg = Registry::new();
    let owner = user("u1", "Ann", 25, "f");
    let s = create(&mut reg, "topic", &owner);
    reg.join_session(s.id(), &user("u2", "Bob", 30, "m"))
        .expect("there is room");
    let left = reg
        .leave_session(s.id(), &"u2".to_string())
        .expect("u2 is a participant");
    assert!(!left.has_participant(&"u2".to_string()));
    let read = reg.get_session(s.id()).expect("the session survives");
    assert!(!read.has_participant(&"u2".to_string()));
    assert_eq!(read.participant_count(), 1);
    // the departed user's record stays in the user table
    assert!(reg.get_user(&"u2".to_string()).is_some());
}

#[test]
fn empty_session_survives_the_last_leave() {
    let mut reg = Registry::new();
    let owner = user("u1", "Ann", 25, "f");
    let s = create(&mut reg, "topic", &owner);
    let left = reg
        .leave_session(s.id(), &"u1".to_string())
        .expect("the owner is a participant");
    assert_eq!(left.participant_count(), 0);
    let read = reg.get_session(s.id()).expect("the session survives empty");
    assert_eq!(read.participant_count(), 0);
    assert!(read.is_active());
}

#[test]
fn create_upserts_the_owner_record() {
    let mut reg = Registry::new();
    assert!(reg.get_user(&"u1".to_string()).is_none());
    let owner = user("u1", "Ann", 25, "f");
    create(&mut reg, "topic", &owner);
    let record = reg.get_user(&"u1".to_string()).expect("upserted on create");
    assert_eq!(record.id, "u1");
    assert_eq!(record.name, "Ann");
    assert_eq!(record.age, 25);
    assert_eq!(record.gender, "f");
}
