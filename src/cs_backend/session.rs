use vstd::prelude::*;

verus! {

/// What the application needs to talk to a homeserver through the
/// client-server API and to fetch the events of the observed room.
#[derive(Clone, Debug)]
pub struct Session {
    pub server_name: String,
    pub room_id: String,
    pub username: String,
    pub user_id: String,
    pub password: String,
    pub access_token: Option<String>,
    pub device_id: Option<String>,
    pub filter_id: Option<String>,
    pub next_batch_token: Option<String>,
    pub prev_batch_token: Option<String>,
}

impl Session {
    /// A session with every field empty.
    pub fn empty() -> (r: Self)
        ensures
            r.server_name@.len() == 0,
            r.room_id@.len() == 0,
            r.username@.len() == 0,
            r.user_id@.len() == 0,
            r.password@.len() == 0,
            r.access_token is None,
            r.device_id is None,
            r.filter_id is None,
            r.next_batch_token is None,
            r.prev_batch_token is None,
    {
        Session {
            server_name: String::new(),
            room_id: String::new(),
            username: String::new(),
            user_id: String::new(),
            password: String::new(),
            access_token: None,
            device_id: None,
            filter_id: None,
            next_batch_token: None,
            prev_batch_token: None,
        }
    }
}

} // verus!
