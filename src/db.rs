//! The operations of the data-access layer. The caller runs the store's
//! queries and hands the rows that came back to these functions, which pick
//! the answer, build the records to insert and compute the room updates.
use vstd::prelude::*;
use crate::ids::{rfc3339_at, rfc3339_text, uuid_string, uuid_text, random_uuid, utc_now, LAST_SECOND_OF_9999};
use crate::models::{copy_conversation, copy_room, copy_user, texts, user_ids, Conversation, DbError, NewConversation, Room, RoomResponse, User};
use crate::participants::{canonical, join_participants, joined, lemma_distinct_entries, lemma_distinct_entries_canonical, lemma_participants_canonical, lemma_participants_of_joined, lemma_pieces_of_joined, parse_participants, participants, pieces, valid_id, with_participant};

verus! {

/// The first user in `users` whose id is `id`.
pub open spec fn user_with_id(users: Seq<User>, id: Seq<char>) -> Option<User>
    decreases users.len(),
{
    if users.len() == 0 {
        None
    } else if users[0].id@ == id {
        Some(users[0])
    } else {
        user_with_id(users.drop_first(), id)
    }
}

/// The first user in `users` whose phone is `phone`.
pub open spec fn user_with_phone(users: Seq<User>, phone: Seq<char>) -> Option<User>
    decreases users.len(),
{
    if users.len() == 0 {
        None
    } else if users[0].phone@ == phone {
        Some(users[0])
    } else {
        user_with_phone(users.drop_first(), phone)
    }
}

/// The conversations of `convs` that belong to the room `room`, in order.
pub open spec fn in_room(convs: Seq<Conversation>, room: Seq<char>) -> Seq<Conversation>
    decreases convs.len(),
{
    if convs.len() == 0 {
        Seq::empty()
    } else {
        let r = in_room(convs.drop_last(), room);
        if convs.last().room_id@ == room {
            r.push(convs.last())
        } else {
            r
        }
    }
}

/// The participant list after `id` joins the room whose list is `list`.
pub open spec fn updated_participants(list: Seq<char>, id: Seq<char>) -> Seq<char> {
    joined(with_participant(participants(list), id))
}

/// `after` is `before` once `user` has posted `nc` in it.
pub open spec fn is_update_of(after: Room, before: Room, user: User, nc: NewConversation) -> bool {
    &&& after.id == before.id
    &&& after.name == user.username
    &&& after.last_message == nc.message
    &&& after.participant_ids@ == updated_participants(before.participant_ids@, nc.user_id@)
}

/// The users that the ids resolve to in `users`, in the order of the ids.
pub open spec fn resolved(ids: Seq<Seq<char>>, users: Seq<User>) -> Seq<User>
    decreases ids.len(),
{
    if ids.len() == 0 {
        Seq::empty()
    } else {
        let r = resolved(ids.drop_last(), users);
        match user_with_id(users, ids.last()) {
            Some(u) => r.push(u),
            None => r,
        }
    }
}

/// The ids that no user in `users` has, in order.
pub open spec fn unresolved(ids: Seq<Seq<char>>, users: Seq<User>) -> Seq<Seq<char>>
    decreases ids.len(),
{
    if ids.len() == 0 {
        Seq::empty()
    } else {
        let r = unresolved(ids.drop_last(), users);
        match user_with_id(users, ids.last()) {
            Some(_) => r,
            None => r.push(ids.last()),
        }
    }
}

/// `resp` is the view of `room` with its participants resolved in `users`.
pub open spec fn responds_to(resp: RoomResponse, room: Room, users: Seq<User>) -> bool {
    &&& resp.room == room
    &&& resp.users@ == resolved(participants(room.participant_ids@), users)
    &&& texts(resp.missing@) == unresolved(participants(room.participant_ids@), users)
}

/// The first row of `rows` whose id is `id`.
fn user_by_id(rows: &Vec<User>, id: &String) -> (r: Option<User>)
    ensures
        r == user_with_id(rows@, id@),
{
    let mut i: usize = 0;
    assert(rows@.subrange(0, rows.len() as int) =~= rows@);
    while i < rows.len()
        invariant
            i <= rows.len(),
            user_with_id(rows@, id@) == user_with_id(rows@.subrange(i as int, rows.len() as int), id@),
        decreases rows.len() - i,
    {
        let ghost rest = rows@.subrange(i as int, rows.len() as int);
        assert(rest.drop_first() =~= rows@.subrange(i as int + 1, rows.len() as int));
        if rows[i].id == *id {
            return Some(copy_user(&rows[i]));
        }
        i = i + 1;
    }
    None
}

/// The user whose id is the UUID `uid`, among the rows that the store gave
/// for that id; `None` when no row has it.
pub fn find_user_by_uid(rows: &Vec<User>, uid: u128) -> (r: Option<User>)
    ensures
        r == user_with_id(rows@, uuid_text(uid)),
{
    let key = uuid_string(uid);
    user_by_id(rows, &key)
}

/// The first user whose phone is `user_phone`, among the rows that the store
/// gave for that phone; `None` when no row has it.
pub fn find_user_by_phone(rows: &Vec<User>, user_phone: &String) -> (r: Option<User>)
    ensures
        r == user_with_phone(rows@, user_phone@),
{
    let mut i: usize = 0;
    assert(rows@.subrange(0, rows.len() as int) =~= rows@);
    while i < rows.len()
        invariant
            i <= rows.len(),
            user_with_phone(rows@, user_phone@) == user_with_phone(
                rows@.subrange(i as int, rows.len() as int),
                user_phone@,
            ),
        decreases rows.len() - i,
    {
        let ghost rest = rows@.subrange(i as int, rows.len() as int);
        assert(rest.drop_first() =~= rows@.subrange(i as int + 1, rows.len() as int));
        if rows[i].phone == *user_phone {
            return Some(copy_user(&rows[i]));
        }
        i = i + 1;
    }
    None
}

/// The conversations of the room whose id is the UUID `uid`, in the order
/// of `rows`; `None` when the room has none.
pub fn get_conversation_by_room_uid(rows: &Vec<Conversation>, uid: u128) -> (r: Option<
    Vec<Conversation>,
>)
    ensures
        match r {
            Some(v) => v@ == in_room(rows@, uuid_text(uid)) && v@.len() > 0,
            None => in_room(rows@, uuid_text(uid)).len() == 0,
        },
{
    let key = uuid_string(uid);
    let mut out: Vec<Conversation> = Vec::new();
    let mut i: usize = 0;
    while i < rows.len()
        invariant
            i <= rows.len(),
            key@ == uuid_text(uid),
            out@ == in_room(rows@.subrange(0, i as int), key@),
        decreases rows.len() - i,
    {
        assert(rows@.subrange(0, i as int + 1).drop_last() =~= rows@.subrange(0, i as int));
        if rows[i].room_id == key {
            out.push(copy_conversation(&rows[i]));
        }
        i = i + 1;
    }
    assert(rows@.subrange(0, rows.len() as int) =~= rows@);
    if out.len() == 0 {
        None
    } else {
        Some(out)
    }
}

/// The room as it stands once the user has posted `new_conversation` in it:
/// the user joins the participants (at the end, unless already there), the
/// message becomes the last one, and the room takes the user's name.
/// `room` and `user` are what the store gave for the message's room id and
/// user id; either one missing is an error.
pub fn update_room_user(room: Option<Room>, user: Option<User>, new_conversation: &NewConversation)
    -> (r: Result<Room, DbError>)
    ensures
        !(room matches Some(rm) && rm.id@ == new_conversation.room_id@) ==> r == Err::<Room, DbError>(
            DbError::MissingRoom(new_conversation.room_id),
        ),
        (room matches Some(rm) && rm.id@ == new_conversation.room_id@) && !(user matches Some(u)
            && u.id@ == new_conversation.user_id@) ==> r == Err::<Room, DbError>(
            DbError::MissingUser(new_conversation.user_id),
        ),
        (room matches Some(rm) && rm.id@ == new_conversation.room_id@) && (user matches Some(u)
            && u.id@ == new_conversation.user_id@) ==> (r matches Ok(after) && is_update_of(
            after,
            room->0,
            user->0,
            *new_conversation,
        )),
{
    let before = match room {
        Some(rm) => {
            if rm.id != new_conversation.room_id {
                return Err(DbError::MissingRoom(new_conversation.room_id.clone()));
            }
            rm
        },
        None => {
            return Err(DbError::MissingRoom(new_conversation.room_id.clone()));
        },
    };
    let acting = match user {
        Some(u) => {
            if u.id != new_conversation.user_id {
                return Err(DbError::MissingUser(new_conversation.user_id.clone()));
            }
            u
        },
        None => {
            return Err(DbError::MissingUser(new_conversation.user_id.clone()));
        },
    };
    let mut ids = parse_participants(before.participant_ids.as_str());
    let ghost parsed = ids@;
    if !crate::participants::contains_text(&ids, &new_conversation.user_id) {
        ids.push(new_conversation.user_id.clone());
        assert(texts(ids@) =~= texts(parsed).push(new_conversation.user_id@));
    }
    let list = join_participants(&ids);
    Ok(Room {
        id: before.id,
        name: acting.username,
        participant_ids: list,
        last_message: new_conversation.message.clone(),
    })
}

/// The ids that some room of `rooms` lists as a participant.
pub open spec fn all_participants(rooms: Seq<Room>) -> Set<Seq<char>>
    decreases rooms.len(),
{
    if rooms.len() == 0 {
        Set::empty()
    } else {
        all_participants(rooms.drop_last()).union(participants(rooms.last().participant_ids@).to_set())
    }
}

/// `room` with its participants looked up in `users`; ids that no user has
/// are listed in `missing`.
pub fn room_response(room: &Room, users: &Vec<User>) -> (r: RoomResponse)
    ensures
        responds_to(r, *room, users@),
{
    let ids = parse_participants(room.participant_ids.as_str());
    let mut found: Vec<User> = Vec::new();
    let mut missing: Vec<String> = Vec::new();
    let mut i: usize = 0;
    assert(texts(missing@) =~= Seq::<Seq<char>>::empty());
    while i < ids.len()
        invariant
            i <= ids.len(),
            found@ == resolved(texts(ids@).subrange(0, i as int), users@),
            texts(missing@) == unresolved(texts(ids@).subrange(0, i as int), users@),
        decreases ids.len() - i,
    {
        let ghost xs = texts(ids@).subrange(0, i as int + 1);
        assert(xs.drop_last() =~= texts(ids@).subrange(0, i as int));
        assert(xs.last() == ids@[i as int]@);
        match user_by_id(users, &ids[i]) {
            Some(u) => {
                found.push(u);
            },
            None => {
                let ghost before = missing@;
                missing.push(ids[i].clone());
                assert(texts(missing@) =~= texts(before).push(ids@[i as int]@));
            },
        }
        i = i + 1;
    }
    assert(texts(ids@).subrange(0, ids.len() as int) =~= texts(ids@));
    RoomResponse { room: copy_room(room), users: found, missing }
}

/// Every room with the users of its participant list, in the order of
/// `rooms`. `users` is what the store gave for the ids of
/// `participant_union(rooms)`.
pub fn get_all_rooms(rooms: &Vec<Room>, users: &Vec<User>) -> (r: Vec<RoomResponse>)
    ensures
        r@.len() == rooms@.len(),
        forall|i: int| 0 <= i < rooms@.len() ==> responds_to(#[trigger] r@[i], rooms@[i], users@),
{
    let mut out: Vec<RoomResponse> = Vec::new();
    let mut i: usize = 0;
    while i < rooms.len()
        invariant
            i <= rooms.len(),
            out@.len() == i,
            forall|k: int| 0 <= k < i ==> responds_to(#[trigger] out@[k], rooms@[k], users@),
        decreases rooms.len() - i,
    {
        out.push(room_response(&rooms[i], users));
        i = i + 1;
    }
    out
}

/// Each id that some room lists as a participant, once.
pub fn participant_union(rooms: &Vec<Room>) -> (r: Vec<String>)
    ensures
        texts(r@).no_duplicates(),
        texts(r@).to_set() == all_participants(rooms@),
{
    let mut out: Vec<String> = Vec::new();
    let mut i: usize = 0;
    assert(texts(out@).to_set() =~= Set::<Seq<char>>::empty());
    assert(rooms@.subrange(0, 0) =~= Seq::<Room>::empty());
    while i < rooms.len()
        invariant
            i <= rooms.len(),
            texts(out@).no_duplicates(),
            texts(out@).to_set() == all_participants(rooms@.subrange(0, i as int)),
        decreases rooms.len() - i,
    {
        let ids = parse_participants(rooms[i].participant_ids.as_str());
        let ghost base = texts(out@).to_set();
        let mut j: usize = 0;
        assert(texts(ids@).subrange(0, 0).to_set() =~= Set::<Seq<char>>::empty());
        while j < ids.len()
            invariant
                i < rooms.len(),
                j <= ids.len(),
                texts(out@).no_duplicates(),
                texts(out@).to_set() == base.union(texts(ids@).subrange(0, j as int).to_set()),
            decreases ids.len() - j,
        {
            let ghost prev = texts(out@);
            if !crate::participants::contains_text(&out, &ids[j]) {
                out.push(ids[j].clone());
                assert(texts(out@) =~= prev.push(ids@[j as int]@));
                assert(texts(out@).no_duplicates()) by {
                    assert forall|a: int, b: int|
                        0 <= a < b < texts(out@).len() implies texts(out@)[a] != texts(out@)[b] by {
                        if b == prev.len() {
                            assert(prev.contains(prev[a]));
                        }
                    }
                }
            }
            assert(texts(out@).to_set() =~= base.union(texts(ids@).subrange(0, j as int + 1).to_set())) by {
                assert(texts(ids@).subrange(0, j as int + 1) =~= texts(ids@).subrange(0, j as int).push(ids@[j as int]@));
                assert forall|x: Seq<char>| texts(out@).to_set().contains(x) implies base.union(texts(ids@).subrange(0, j as int + 1).to_set()).contains(x) by {
                    let k = choose|k: int| 0 <= k < texts(out@).len() && texts(out@)[k] == x;
                    if k < prev.len() {
                        assert(prev.to_set().contains(prev[k]));
                        if !base.contains(x) {
                            let m = choose|m: int| 0 <= m < j && #[trigger] texts(ids@).subrange(0, j as int)[m] == x;
                            assert(texts(ids@).subrange(0, j as int + 1)[m] == x);
                        }
                    } else {
                        assert(texts(ids@).subrange(0, j as int + 1)[j as int] == x);
                    }
                }
                assert forall|x: Seq<char>| base.union(texts(ids@).subrange(0, j as int + 1).to_set()).contains(x) implies texts(out@).to_set().contains(x) by {
                    if base.contains(x) {
                        assert(prev.to_set().contains(x));
                        let k = choose|k: int| 0 <= k < prev.len() && prev[k] == x;
                        assert(texts(out@)[k] == x);
                    } else {
                        let m = choose|m: int| 0 <= m < j + 1 && #[trigger] texts(ids@).subrange(0, j as int + 1)[m] == x;
                        if m < j {
                            assert(texts(ids@).subrange(0, j as int)[m] == x);
                            assert(prev.to_set().contains(x));
                            let k = choose|k: int| 0 <= k < prev.len() && prev[k] == x;
                            assert(texts(out@)[k] == x);
                        } else if prev.contains(x) {
                            let k = choose|k: int| 0 <= k < prev.len() && prev[k] == x;
                            assert(texts(out@)[k] == x);
                        } else {
                            assert(texts(out@)[prev.len() as int] == x);
                        }
                    }
                }
            }
            j = j + 1;
        }
        assert(rooms@.subrange(0, i as int + 1).drop_last() =~= rooms@.subrange(0, i as int));
        assert(texts(ids@).subrange(0, ids.len() as int) =~= texts(ids@));
        i = i + 1;
    }
    assert(rooms@.subrange(0, rooms.len() as int) =~= rooms@);
    out
}

/// The user record with id `id`, the given name and phone, created at the
/// instant `secs`/`nanos`; an error when that instant has no calendar date.
pub fn new_user_record(id: u128, nm: &str, pn: &str, secs: i64, nanos: u32) -> (r: Result<
    User,
    DbError,
>)
    ensures
        match r {
            Ok(u) => {
                &&& u.id@ == uuid_text(id)
                &&& u.username@ == nm@
                &&& u.phone@ == pn@
                &&& u.created_at@ == rfc3339_text(secs as int, nanos as int)
            },
            Err(e) => e == DbError::ClockOutOfRange,
        },
        0 <= secs <= LAST_SECOND_OF_9999 && nanos < 1_000_000_000 ==> r is Ok,
{
    match rfc3339_at(secs, nanos) {
        Some(created_at) => Ok(
            User { id: uuid_string(id), username: nm.to_owned(), phone: pn.to_owned(), created_at },
        ),
        None => Err(DbError::ClockOutOfRange),
    }
}

/// A new user with a fresh random id, created now, ready to be inserted.
pub fn insert_new_user(nm: &str, pn: &str) -> (r: Result<User, DbError>)
    ensures
        match r {
            Ok(u) => {
                &&& u.username@ == nm@
                &&& u.phone@ == pn@
                &&& exists|id: u128| u.id@ == uuid_text(id)
                &&& exists|secs: i64, nanos: u32| u.created_at@ == rfc3339_text(secs as int, nanos as int)
            },
            Err(e) => e == DbError::ClockOutOfRange,
        },
{
    let id = random_uuid();
    let (secs, nanos) = utc_now();
    new_user_record(id, nm, pn, secs, nanos)
}

/// The conversation record with id `id` that holds `new`'s user, room and
/// message, created at the instant `secs`/`nanos`; an error when that
/// instant has no calendar date.
pub fn new_conversation_record(id: u128, new: NewConversation, secs: i64, nanos: u32) -> (r: Result<
    Conversation,
    DbError,
>)
    ensures
        match r {
            Ok(c) => {
                &&& c.id@ == uuid_text(id)
                &&& c.user_id == new.user_id
                &&& c.room_id == new.room_id
                &&& c.content == new.message
                &&& c.created_at@ == rfc3339_text(secs as int, nanos as int)
            },
            Err(e) => e == DbError::ClockOutOfRange,
        },
        0 <= secs <= LAST_SECOND_OF_9999 && nanos < 1_000_000_000 ==> r is Ok,
{
    match rfc3339_at(secs, nanos) {
        Some(created_at) => Ok(
            Conversation {
                id: uuid_string(id),
                user_id: new.user_id,
                room_id: new.room_id,
                content: new.message,
                created_at,
            },
        ),
        None => Err(DbError::ClockOutOfRange),
    }
}

/// A new conversation for `new` with a fresh random id, created now, ready
/// to be inserted.
pub fn insert_new_conversation(new: NewConversation) -> (r: Result<Conversation, DbError>)
    ensures
        match r {
            Ok(c) => {
                &&& c.user_id == new.user_id
                &&& c.room_id == new.room_id
                &&& c.content == new.message
                &&& exists|id: u128| c.id@ == uuid_text(id)
                &&& exists|secs: i64, nanos: u32| c.created_at@ == rfc3339_text(secs as int, nanos as int)
            },
            Err(e) => e == DbError::ClockOutOfRange,
        },
{
    let id = random_uuid();
    let (secs, nanos) = utc_now();
    new_conversation_record(id, new, secs, nanos)
}

/// A user found by id has that id.
proof fn lemma_user_with_id_has_id(users: Seq<User>, id: Seq<char>)
    ensures
        user_with_id(users, id) matches Some(u) ==> u.id@ == id,
    decreases users.len(),
{
    if users.len() > 0 && users[0].id@ != id {
        lemma_user_with_id_has_id(users.drop_first(), id);
    }
}

/// Looking up an id that no row has finds nothing.
pub proof fn lemma_absent_user_not_found(users: Seq<User>, id: Seq<char>)
    requires
        forall|k: int| 0 <= k < users.len() ==> (#[trigger] users[k]).id@ != id,
    ensures
        user_with_id(users, id) is None,
    decreases users.len(),
{
    if users.len() > 0 {
        assert(users[0].id@ != id);
        assert forall|k: int| 0 <= k < users.drop_first().len() implies (
        #[trigger] users.drop_first()[k]).id@ != id by {
            assert(users.drop_first()[k] == users[k + 1]);
        }
        lemma_absent_user_not_found(users.drop_first(), id);
    }
}

/// Once a user whose id no earlier row has is added to the table, looking
/// up that id finds exactly that user.
pub proof fn lemma_inserted_user_found(users: Seq<User>, u: User)
    requires
        forall|k: int| 0 <= k < users.len() ==> (#[trigger] users[k]).id@ != u.id@,
    ensures
        user_with_id(users.push(u), u.id@) == Some(u),
    decreases users.len(),
{
    if users.len() > 0 {
        assert(users[0].id@ != u.id@);
        assert(users.push(u).drop_first() =~= users.drop_first().push(u));
        assert forall|k: int| 0 <= k < users.drop_first().len() implies (
        #[trigger] users.drop_first()[k]).id@ != u.id@ by {
            assert(users.drop_first()[k] == users[k + 1]);
        }
        lemma_inserted_user_found(users.drop_first(), u);
    } else {
        assert(users.push(u)[0] == u);
    }
}

/// Once a user whose phone no earlier row has is added to the table, looking
/// up that phone finds exactly that user.
pub proof fn lemma_inserted_phone_found(users: Seq<User>, u: User)
    requires
        forall|k: int| 0 <= k < users.len() ==> (#[trigger] users[k]).phone@ != u.phone@,
    ensures
        user_with_phone(users.push(u), u.phone@) == Some(u),
    decreases users.len(),
{
    if users.len() > 0 {
        assert(users[0].phone@ != u.phone@);
        assert(users.push(u).drop_first() =~= users.drop_first().push(u));
        assert forall|k: int| 0 <= k < users.drop_first().len() implies (
        #[trigger] users.drop_first()[k]).phone@ != u.phone@ by {
            assert(users.drop_first()[k] == users[k + 1]);
        }
        lemma_inserted_phone_found(users.drop_first(), u);
    } else {
        assert(users.push(u)[0] == u);
    }
}

/// A conversation added to the table is among the conversations listed for
/// its room, as the last of them.
pub proof fn lemma_inserted_conversation_listed(convs: Seq<Conversation>, c: Conversation)
    ensures
        in_room(convs.push(c), c.room_id@).contains(c),
        in_room(convs.push(c), c.room_id@).last() == c,
{
    assert(convs.push(c).drop_last() =~= convs);
    let r = in_room(convs.push(c), c.room_id@);
    assert(r[r.len() - 1] == c);
}

/// Adding a valid id to a canonical list keeps it canonical.
proof fn lemma_with_participant_canonical(ids: Seq<Seq<char>>, id: Seq<char>)
    requires
        canonical(ids),
        valid_id(id),
    ensures
        canonical(with_participant(ids, id)),
        with_participant(ids, id).contains(id),
        with_participant(ids, id).to_set() == ids.to_set().insert(id),
{
    let w = with_participant(ids, id);
    if ids.contains(id) {
        assert(ids.to_set().insert(id) =~= ids.to_set());
    } else {
        assert(w[ids.len() as int] == id);
        assert(w.no_duplicates()) by {
            assert forall|a: int, b: int| 0 <= a < b < w.len() implies w[a] != w[b] by {
                if b == ids.len() {
                    assert(ids.contains(ids[a]));
                }
            }
        }
        assert forall|i: int| 0 <= i < w.len() implies valid_id(#[trigger] w[i]) by {
            if i < ids.len() {
                assert(w[i] == ids[i]);
            }
        }
        assert(w.to_set() =~= ids.to_set().insert(id)) by {
            assert forall|x: Seq<char>| w.to_set().contains(x) implies ids.to_set().insert(id).contains(x) by {
                let k = choose|k: int| 0 <= k < w.len() && w[k] == x;
                if k < ids.len() {
                    assert(ids[k] == x);
                }
            }
            assert forall|x: Seq<char>| ids.to_set().insert(id).contains(x) implies w.to_set().contains(x) by {
                if x != id {
                    let k = choose|k: int| 0 <= k < ids.len() && ids[k] == x;
                    assert(w[k] == x);
                }
            }
        }
    }
}

/// After a user posts in a room, the room's participants are those it had
/// and that user, each written once; the last message is the one posted and
/// the room's name is the poster's username.
pub proof fn lemma_update_adds_participant(
    after: Room,
    before: Room,
    user: User,
    nc: NewConversation,
)
    requires
        is_update_of(after, before, user, nc),
        valid_id(nc.user_id@),
    ensures
        participants(after.participant_ids@).to_set() == participants(
            before.participant_ids@,
        ).to_set().insert(nc.user_id@),
        pieces(after.participant_ids@) == participants(after.participant_ids@),
        pieces(after.participant_ids@).no_duplicates(),
        after.last_message == nc.message,
        after.name == user.username,
{
    let old_ids = participants(before.participant_ids@);
    lemma_participants_canonical(before.participant_ids@);
    lemma_with_participant_canonical(old_ids, nc.user_id@);
    let w = with_participant(old_ids, nc.user_id@);
    lemma_participants_of_joined(w);
    lemma_pieces_of_joined(w);
}

/// Reading back a canonical list joined with one empty entry after it gives
/// the list, and the pieces of that text are distinct.
proof fn lemma_joined_with_empty(ids: Seq<Seq<char>>)
    requires
        canonical(ids),
    ensures
        participants(joined(ids.push(Seq::empty()))) == ids,
        pieces(joined(ids.push(Seq::empty()))).no_duplicates(),
{
    let w = ids.push(Seq::<char>::empty());
    assert forall|i: int| 0 <= i < w.len() implies !(#[trigger] w[i]).contains(',') by {
        if i < ids.len() {
            assert(w[i] == ids[i]);
            assert(valid_id(ids[i]));
        } else {
            assert(w[i] =~= Seq::<char>::empty());
        }
    }
    lemma_pieces_of_joined(w);
    lemma_distinct_entries_canonical(ids);
    assert(w.drop_last() =~= ids);
    assert(w.last().len() == 0);
    assert(w.no_duplicates()) by {
        assert forall|a: int, b: int| 0 <= a < b < w.len() implies w[a] != w[b] by {
            if b == ids.len() {
                assert(valid_id(ids[a]));
                assert(w[a].len() > 0);
            }
        }
    }
}

/// A second post by the same user leaves the participant list exactly as the
/// first one left it, each piece of it distinct; the last message and the name
/// follow the second post.
pub proof fn lemma_update_twice_same_user(
    first: Room,
    second: Room,
    before: Room,
    user1: User,
    user2: User,
    nc1: NewConversation,
    nc2: NewConversation,
)
    requires
        is_update_of(first, before, user1, nc1),
        is_update_of(second, first, user2, nc2),
        nc1.user_id@ == nc2.user_id@,
        !nc1.user_id@.contains(','),
    ensures
        second.participant_ids@ == first.participant_ids@,
        pieces(second.participant_ids@).no_duplicates(),
        second.last_message == nc2.message,
        second.name == user2.username,
{
    let old_ids = participants(before.participant_ids@);
    let u = nc1.user_id@;
    lemma_participants_canonical(before.participant_ids@);
    if u.len() > 0 {
        lemma_with_participant_canonical(old_ids, u);
        let w = with_participant(old_ids, u);
        lemma_participants_of_joined(w);
        lemma_pieces_of_joined(w);
        assert(with_participant(w, nc2.user_id@) == w);
    } else {
        assert(u =~= Seq::<char>::empty());
        assert(!old_ids.contains(u)) by {
            if old_ids.contains(u) {
                let k = choose|k: int| 0 <= k < old_ids.len() && old_ids[k] == u;
                assert(valid_id(old_ids[k]));
            }
        }
        lemma_joined_with_empty(old_ids);
        assert(participants(first.participant_ids@) == old_ids);
        assert(with_participant(old_ids, nc2.user_id@) == old_ids.push(Seq::<char>::empty()));
    }
}

/// The users that ids resolve to, together with the ids that resolve to no
/// user, are exactly the ids; with none missing, the users' ids are the ids
/// in order.
proof fn lemma_resolved_ids(ids: Seq<Seq<char>>, users: Seq<User>)
    ensures
        user_ids(resolved(ids, users)).to_set().union(unresolved(ids, users).to_set())
            == ids.to_set(),
        unresolved(ids, users).len() == 0 ==> user_ids(resolved(ids, users)) == ids,
    decreases ids.len(),
{
    if ids.len() == 0 {
        assert(user_ids(resolved(ids, users)).to_set() =~= Set::<Seq<char>>::empty());
        assert(unresolved(ids, users).to_set() =~= Set::<Seq<char>>::empty());
        assert(ids.to_set() =~= Set::<Seq<char>>::empty());
        assert(user_ids(resolved(ids, users)) =~= ids);
    } else {
        let init = ids.drop_last();
        let x = ids.last();
        lemma_resolved_ids(init, users);
        lemma_user_with_id_has_id(users, x);
        let r0 = resolved(init, users);
        let m0 = unresolved(init, users);
        assert(init.push(x) =~= ids);
        assert(ids.to_set() =~= init.to_set().insert(x)) by {
            assert forall|y: Seq<char>| ids.to_set().contains(y) implies init.to_set().insert(x).contains(y) by {
                let k = choose|k: int| 0 <= k < ids.len() && ids[k] == y;
                if k < init.len() {
                    assert(init[k] == y);
                }
            }
            assert forall|y: Seq<char>| init.to_set().insert(x).contains(y) implies ids.to_set().contains(y) by {
                if y == x {
                    assert(ids[ids.len() - 1] == x);
                } else {
                    let k = choose|k: int| 0 <= k < init.len() && init[k] == y;
                    assert(ids[k] == y);
                }
            }
        }
        match user_with_id(users, x) {
            Some(u) => {
                assert(user_ids(r0.push(u)) =~= user_ids(r0).push(x));
                assert(user_ids(r0).push(x).to_set() =~= user_ids(r0).to_set().insert(x)) by {
                    user_ids(r0).lemma_push_to_set_commute(x);
                }
                if m0.len() == 0 {
                    assert(user_ids(r0) == init);
                }
            },
            None => {
                assert(m0.push(x).to_set() =~= m0.to_set().insert(x)) by {
                    m0.lemma_push_to_set_commute(x);
                }
            },
        }
    }
}

/// An id that occurs in the list and matches no user is among the unresolved.
proof fn lemma_unresolved_contains(ids: Seq<Seq<char>>, users: Seq<User>, d: Seq<char>)
    requires
        ids.contains(d),
        user_with_id(users, d) is None,
    ensures
        unresolved(ids, users).contains(d),
    decreases ids.len(),
{
    let init = ids.drop_last();
    if ids.last() == d {
        let r = unresolved(init, users);
        assert(r.push(d)[r.len() as int] == d);
    } else {
        let k = choose|k: int| 0 <= k < ids.len() && ids[k] == d;
        assert(k < ids.len() - 1);
        assert(init[k] == d);
        lemma_unresolved_contains(init, users, d);
        let r = unresolved(init, users);
        let j = choose|j: int| 0 <= j < r.len() && r[j] == d;
        match user_with_id(users, ids.last()) {
            Some(_) => {},
            None => {
                assert(r.push(ids.last())[j] == d);
            },
        }
    }
}

/// `get_all_rooms` gives one entry per room, and in each the ids of the users
/// found together with the ids reported missing are exactly the room's
/// participants; where none is missing, the users' ids are the participants,
/// and they are the pieces of the stored list where that list has no empty
/// piece and no repeated id. A non-empty id of the list that no user has is
/// reported missing.
pub proof fn lemma_room_users_match_participants(
    rooms: Seq<Room>,
    users: Seq<User>,
    resp: Seq<RoomResponse>,
    i: int,
)
    requires
        resp.len() == rooms.len(),
        forall|k: int| 0 <= k < rooms.len() ==> responds_to(#[trigger] resp[k], rooms[k], users),
        0 <= i < rooms.len(),
    ensures
        resp[i].room == rooms[i],
        user_ids(resp[i].users@).to_set().union(texts(resp[i].missing@).to_set()) == participants(
            rooms[i].participant_ids@,
        ).to_set(),
        resp[i].missing@.len() == 0 ==> user_ids(resp[i].users@) == participants(
            rooms[i].participant_ids@,
        ),
        resp[i].missing@.len() == 0 && canonical(pieces(rooms[i].participant_ids@)) ==> user_ids(
            resp[i].users@,
        ) == pieces(rooms[i].participant_ids@),
        forall|d: Seq<char>|
            #![trigger pieces(rooms[i].participant_ids@).contains(d), texts(resp[i].missing@).contains(d)]
            pieces(rooms[i].participant_ids@).contains(d) && d.len() > 0 && (forall|k: int|
                0 <= k < users.len() ==> (#[trigger] users[k]).id@ != d) ==> texts(
                resp[i].missing@,
            ).contains(d),
{
    let s = rooms[i].participant_ids@;
    assert(responds_to(resp[i], rooms[i], users));
    lemma_resolved_ids(participants(s), users);
    if canonical(pieces(s)) {
        lemma_distinct_entries_canonical(pieces(s));
    }
    lemma_distinct_entries(pieces(s));
    assert forall|d: Seq<char>|
        #![trigger pieces(s).contains(d), texts(resp[i].missing@).contains(d)]
        pieces(s).contains(d) && d.len() > 0 && (forall|k: int|
            0 <= k < users.len() ==> (#[trigger] users[k]).id@ != d) implies texts(
        resp[i].missing@,
    ).contains(d) by {
        lemma_absent_user_not_found(users, d);
        lemma_unresolved_contains(participants(s), users, d);
    }
}

} // verus!
