use vstd::prelude::*;

verus! {

/// A registered user.
#[derive(Clone, Debug, PartialEq, Eq)]
pub struct User {
    pub id: String,
    pub username: String,
    pub phone: String,
    pub created_at: String,
}

/// A chat room. `participant_ids` holds the member ids joined by commas.
#[derive(Clone, Debug, PartialEq, Eq)]
pub struct Room {
    pub id: String,
    pub name: String,
    pub participant_ids: String,
    pub last_message: String,
}

/// A message stored in a room.
#[derive(Clone, Debug, PartialEq, Eq)]
pub struct Conversation {
    pub id: String,
    pub user_id: String,
    pub room_id: String,
    pub content: String,
    pub created_at: String,
}

/// A message that a user wants to post in a room.
#[derive(Clone, Debug, PartialEq, Eq)]
pub struct NewConversation {
    pub user_id: String,
    pub room_id: String,
    pub message: String,
}

/// A room with the users that its participant list resolves to, and the
/// participant ids that matched no user.
#[derive(Clone, Debug, PartialEq, Eq)]
pub struct RoomResponse {
    pub room: Room,
    pub users: Vec<User>,
    pub missing: Vec<String>,
}

/// Why an operation failed.
#[derive(Clone, Debug, PartialEq, Eq)]
pub enum DbError {
    /// The store could not run a query; the text is the store's message.
    Store(String),
    /// No room has the referenced id.
    MissingRoom(String),
    /// No user has the referenced id.
    MissingUser(String),
    /// The clock gave an instant that has no calendar date.
    ClockOutOfRange,
}

/// The text of each string, in order.
pub open spec fn texts(v: Seq<String>) -> Seq<Seq<char>> {
    v.map_values(|x: String| x@)
}

/// The ids of the users, in order.
pub open spec fn user_ids(v: Seq<User>) -> Seq<Seq<char>> {
    v.map_values(|u: User| u.id@)
}

/// A field-by-field copy of a user.
pub fn copy_user(u: &User) -> (r: User)
    ensures
        r == *u,
{
    User {
        id: u.id.clone(),
        username: u.username.clone(),
        phone: u.phone.clone(),
        created_at: u.created_at.clone(),
    }
}

/// A field-by-field copy of a room.
pub fn copy_room(r: &Room) -> (c: Room)
    ensures
        c == *r,
{
    Room {
        id: r.id.clone(),
        name: r.name.clone(),
        participant_ids: r.participant_ids.clone(),
        last_message: r.last_message.clone(),
    }
}

/// A field-by-field copy of a conversation.
pub fn copy_conversation(c: &Conversation) -> (r: Conversation)
    ensures
        r == *c,
{
    Conversation {
        id: c.id.clone(),
        user_id: c.user_id.clone(),
        room_id: c.room_id.clone(),
        content: c.content.clone(),
        created_at: c.created_at.clone(),
    }
}

} // verus!
