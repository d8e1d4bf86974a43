use chat_store::db::{
    find_user_by_phone, find_user_by_uid, get_all_rooms, get_conversation_by_room_uid,
    insert_new_conversation, insert_new_user, new_conversation_record, new_user_record,
    participant_union, room_response, update_room_user,
};
use chat_store::models::{Conversation, DbError, NewConversation, Room, User};
use chat_store::participants::{join_participants, parse_participants};
use std::collections::HashSet;

fn user(id: &str, name: &str, phone: &str) -> User {
    User {
        id: id.to_string(),
        username: name.to_string(),
        phone: phone.to_string(),
        created_at: "2024-01-01T00:00:00+00:00".to_string(),
    }
}

fn room(id: &str, participants: &str) -> Room {
    Room {
        id: id.to_string(),
        name: "general".to_string(),
        participant_ids: participants.to_string(),
        last_message: String::new(),
    }
}

fn post(user_id: &str, room_id: &str, message: &str) -> NewConversation {
    NewConversation {
        user_id: user_id.to_string(),
        room_id: room_id.to_string(),
        message: message.to_string(),
    }
}

fn id_set(list: &str) -> HashSet<String> {
    list.split(',').map(|s| s.to_string()).collect()
}

#[test]
fn inserted_user_found_by_uid() {
    let u = insert_new_user("bob", "+1555000").unwrap();
    let uid = uuid::Uuid::parse_str(&u.id).unwrap().as_u128();
    let rows = vec![user("other", "carol", "+1"), u.clone()];
    assert_eq!(find_user_by_uid(&rows, uid), Some(u));
}

#[test]
fn unknown_uid_is_absent() {
    let rows = vec![user("00000000-0000-0000-0000-000000000001", "a", "1")];
    assert_eq!(find_user_by_uid(&rows, uuid::Uuid::new_v4().as_u128()), None);
    assert_eq!(find_user_by_uid(&Vec::new(), 1), None);
}

#[test]
fn uid_matches_hyphenated_text() {
    let rows = vec![user("00000000-0000-0000-0000-00000000002a", "answer", "42")];
    let found = find_user_by_uid(&rows, 42).unwrap();
    assert_eq!(found.username, "answer");
    let rows = vec![user("67e55044-10b1-426f-9247-bb680e5fe0c8", "x", "1")];
    let uid = 0x67e5504410b1426f9247bb680e5fe0c8u128;
    assert_eq!(find_user_by_uid(&rows, uid).unwrap().username, "x");
}

#[test]
fn inserted_user_found_by_phone() {
    let u = insert_new_user("alice", "+15551234").unwrap();
    let rows = vec![u];
    let found = find_user_by_phone(&rows, &"+15551234".to_string()).unwrap();
    assert_eq!(found.username, "alice");
    assert_eq!(find_user_by_phone(&rows, &"+1999".to_string()), None);
}

#[test]
fn phone_lookup_takes_first_match() {
    let rows = vec![user("a", "first", "+1"), user("b", "second", "+1")];
    assert_eq!(find_user_by_phone(&rows, &"+1".to_string()).unwrap().username, "first");
}

#[test]
fn new_user_record_is_exact() {
    let u = new_user_record(42, "dan", "+4412", 1431648000, 0).unwrap();
    assert_eq!(u.id, "00000000-0000-0000-0000-00000000002a");
    assert_eq!(u.username, "dan");
    assert_eq!(u.phone, "+4412");
    assert_eq!(u.created_at, "2015-05-15T00:00:00+00:00");
}

#[test]
fn instant_without_date_is_rejected() {
    assert_eq!(new_user_record(1, "a", "b", i64::MAX, 0), Err(DbError::ClockOutOfRange));
    let nc = post("u", "r", "m");
    assert_eq!(new_conversation_record(1, nc, i64::MIN, 0), Err(DbError::ClockOutOfRange));
}

#[test]
fn insert_new_user_gives_fresh_ids() {
    let a = insert_new_user("a", "1").unwrap();
    let b = insert_new_user("a", "1").unwrap();
    assert_ne!(a.id, b.id);
    assert_eq!(a.id.len(), 36);
    assert!(a.created_at.ends_with("+00:00"));
}

#[test]
fn new_conversation_record_is_exact() {
    let c = new_conversation_record(1, post("u1", "r1", "hello"), 0, 0).unwrap();
    assert_eq!(
        c,
        Conversation {
            id: "00000000-0000-0000-0000-000000000001".to_string(),
            user_id: "u1".to_string(),
            room_id: "r1".to_string(),
            content: "hello".to_string(),
            created_at: "1970-01-01T00:00:00+00:00".to_string(),
        }
    );
}

#[test]
fn inserted_conversation_listed_for_room() {
    let room_uid: u128 = 7;
    let room_id = uuid::Uuid::from_u128(room_uid).to_string();
    let c = insert_new_conversation(post("u1", &room_id, "hey there")).unwrap();
    let other = new_conversation_record(9, post("u1", "elsewhere", "no"), 0, 0).unwrap();
    let rows = vec![other, c.clone()];
    let listed = get_conversation_by_room_uid(&rows, room_uid).unwrap();
    assert_eq!(listed.len(), 1);
    assert_eq!(listed[0].content, "hey there");
    assert_eq!(listed[0], c);
}

#[test]
fn room_without_conversations_is_absent() {
    let rows = vec![new_conversation_record(9, post("u1", "elsewhere", "no"), 0, 0).unwrap()];
    assert_eq!(get_conversation_by_room_uid(&rows, 7), None);
}

#[test]
fn update_adds_new_participant() {
    let r = room("r1", "u1,u2");
    let u3 = user("u3", "carol", "+3");
    let after = update_room_user(Some(r), Some(u3), &post("u3", "r1", "hi")).unwrap();
    assert_eq!(id_set(&after.participant_ids), id_set("u1,u2,u3"));
    assert_eq!(after.participant_ids, "u1,u2,u3");
    assert_eq!(after.last_message, "hi");
    assert_eq!(after.name, "carol");
    assert_eq!(after.id, "r1");
}

#[test]
fn update_twice_keeps_membership() {
    let u3 = user("u3", "carol", "+3");
    let once = update_room_user(Some(room("r1", "u1,u2")), Some(u3.clone()), &post("u3", "r1", "hi"))
        .unwrap();
    let twice = update_room_user(Some(once.clone()), Some(u3), &post("u3", "r1", "again")).unwrap();
    assert_eq!(twice.participant_ids, once.participant_ids);
    assert_eq!(twice.participant_ids.split(',').count(), 3);
    assert_eq!(twice.last_message, "again");
    assert_eq!(twice.name, "carol");
}

#[test]
fn update_of_existing_member() {
    let after = update_room_user(
        Some(room("r1", "u1,u2,u1")),
        Some(user("u1", "ann", "+1")),
        &post("u1", "r1", "yo"),
    )
    .unwrap();
    assert_eq!(after.participant_ids, "u1,u2");
}

#[test]
fn update_of_empty_room() {
    let after = update_room_user(Some(room("r1", "")), Some(user("u1", "ann", "+1")), &post("u1", "r1", "first"))
        .unwrap();
    assert_eq!(after.participant_ids, "u1");
}

#[test]
fn update_of_missing_room_fails() {
    let r = update_room_user(None, Some(user("u3", "carol", "+3")), &post("u3", "nope", "hi"));
    assert_eq!(r, Err(DbError::MissingRoom("nope".to_string())));
    let r = update_room_user(Some(room("r2", "u1")), Some(user("u3", "c", "+3")), &post("u3", "r1", "hi"));
    assert_eq!(r, Err(DbError::MissingRoom("r1".to_string())));
}

#[test]
fn update_by_missing_user_fails() {
    let r = update_room_user(Some(room("r1", "u1")), None, &post("ghost", "r1", "hi"));
    assert_eq!(r, Err(DbError::MissingUser("ghost".to_string())));
    let r = update_room_user(Some(room("r1", "u1")), Some(user("u2", "b", "+2")), &post("u9", "r1", "hi"));
    assert_eq!(r, Err(DbError::MissingUser("u9".to_string())));
}

#[test]
fn all_rooms_resolve_participants() {
    let rooms = vec![room("r1", "u1,u2"), room("r2", "u2,u3"), room("r3", "u3,u1,u2")];
    let users = vec![user("u1", "ann", "1"), user("u2", "bob", "2"), user("u3", "cat", "3")];
    let resp = get_all_rooms(&rooms, &users);
    assert_eq!(resp.len(), 3);
    for (i, entry) in resp.iter().enumerate() {
        assert_eq!(entry.room, rooms[i]);
        let ids: HashSet<String> = entry.users.iter().map(|u| u.id.clone()).collect();
        assert_eq!(ids, id_set(&rooms[i].participant_ids));
        assert!(entry.missing.is_empty());
    }
    let order: Vec<&str> = resp[2].users.iter().map(|u| u.username.as_str()).collect();
    assert_eq!(order, vec!["cat", "ann", "bob"]);
}

#[test]
fn dangling_participant_is_reported() {
    let rooms = vec![room("r1", "u1,gone"), room("r2", "u1")];
    let users = vec![user("u1", "ann", "1")];
    let resp = get_all_rooms(&rooms, &users);
    assert_eq!(resp.len(), 2);
    assert_eq!(resp[0].users, vec![user("u1", "ann", "1")]);
    assert_eq!(resp[0].missing, vec!["gone".to_string()]);
    assert!(resp[1].missing.is_empty());
    let single = room_response(&room("r9", "x"), &users);
    assert!(single.users.is_empty());
    assert_eq!(single.missing, vec!["x".to_string()]);
}

#[test]
fn union_lists_each_id_once() {
    let rooms = vec![room("r1", "u1,u2"), room("r2", "u2,u3"), room("r3", "")];
    let ids = participant_union(&rooms);
    assert_eq!(ids, vec!["u1".to_string(), "u2".to_string(), "u3".to_string()]);
    assert!(participant_union(&Vec::new()).is_empty());
}

#[test]
fn participant_list_parsing() {
    assert!(parse_participants("").is_empty());
    assert_eq!(parse_participants("a,,a,b,"), vec!["a".to_string(), "b".to_string()]);
    assert_eq!(parse_participants("solo"), vec!["solo".to_string()]);
}

#[test]
fn participant_list_joining() {
    assert_eq!(join_participants(&Vec::new()), "");
    assert_eq!(join_participants(&vec!["a".to_string()]), "a");
    assert_eq!(join_participants(&vec!["a".to_string(), "bc".to_string()]), "a,bc");
}

#[test]
fn update_twice_with_empty_id() {
    let nobody = user("", "anon", "+0");
    let once = update_room_user(Some(room("r1", "u1")), Some(nobody.clone()), &post("", "r1", "a"))
        .unwrap();
    let twice = update_room_user(Some(once.clone()), Some(nobody), &post("", "r1", "b")).unwrap();
    assert_eq!(once.participant_ids, "u1,");
    assert_eq!(twice.participant_ids, once.participant_ids);
    assert_eq!(twice.last_message, "b");
}
