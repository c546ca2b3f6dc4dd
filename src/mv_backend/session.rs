use vstd::prelude::*;

verus! {

/// The room observed, the server it is observed from, and whether the
/// observation runs.
#[derive(Clone, Debug)]
pub struct Session {
    pub server_name: String,
    pub room_id: String,
    pub connected: bool,
}

impl Session {
    /// A session with every field empty, not connected.
    pub fn empty() -> (r: Self)
        ensures
            r.server_name@.len() == 0,
            r.room_id@.len() == 0,
            !r.connected,
    {
        Session { server_name: String::new(), room_id: String::new(), connected: false }
    }
}

} // verus!
