//! The bodies of the client-server API requests and responses that the
//! observation reads or sends.
use vstd::prelude::*;

use crate::{BkCommand, ViewIndex};

verus! {

/// The body of a password login request.
pub struct ConnectionRequest {
    pub typo: String,
    pub identifier: Identifier,
    pub password: String,
    pub initial_device_display_name: String,
}

/// The `identifier` of a login request.
pub struct Identifier {
    pub typo: String,
    pub user: String,
}

/// The body of the answer to a login request.
pub struct ConnectionResponse {
    pub user_id: String,
    pub access_token: String,
    pub device_id: String,
}

/// The body of the answer to a request for the joined rooms.
pub struct JoinedRooms {
    pub joined_rooms: Vec<String>,
}

impl ConnectionRequest {
    /// A password login for `username`.
    pub fn password_login(username: String, password: String) -> (r: ConnectionRequest)
        ensures
            r.typo@ == "m.login.password"@,
            r.identifier.typo@ == "m.id.user"@,
            r.identifier.user@ == username@,
            r.password@ == password@,
            r.initial_device_display_name@ == "Matrix visualisations"@,
    {
        ConnectionRequest {
            typo: "m.login.password".to_owned(),
            identifier: Identifier { typo: "m.id.user".to_owned(), user: username },
            password,
            initial_device_display_name: "Matrix visualisations".to_owned(),
        }
    }
}

impl JoinedRooms {
    /// Whether the user has joined `room_id`.
    pub fn contains(&self, room_id: &String) -> (r: bool)
        ensures
            r == exists|i: int| 0 <= i < self.joined_rooms@.len() && #[trigger] self.joined_rooms@[i]@ == room_id@,
    {
        let mut i: usize = 0;
        while i < self.joined_rooms.len()
            invariant
                i <= self.joined_rooms@.len(),
                forall|j: int| 0 <= j < i ==> #[trigger] self.joined_rooms@[j]@ != room_id@,
            decreases self.joined_rooms@.len() - i,
        {
            if self.joined_rooms[i] == *room_id {
                return true;
            }
            i = i + 1;
        }
        false
    }

    /// What to do once the joined rooms are known: synchronise when the room
    /// to observe is among them, else join it first.
    pub fn next_command(&self, view: ViewIndex, room_id: &String) -> (r: BkCommand)
        ensures
            r == (if exists|i: int| 0 <= i < self.joined_rooms@.len() && #[trigger] self.joined_rooms@[i]@ == room_id@ {
                BkCommand::Sync(view)
            } else {
                BkCommand::JoinRoom(view)
            }),
    {
        if self.contains(room_id) {
            BkCommand::Sync(view)
        } else {
            BkCommand::JoinRoom(view)
        }
    }
}

} // verus!
