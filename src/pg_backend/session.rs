use vstd::prelude::*;

verus! {

/// The room observed through an indexed event store, and the server that
/// serves it.
#[derive(Clone, Debug)]
pub struct Session {
    pub server_name: String,
    pub room_id: String,
}

impl Session {
    /// A session with every field empty.
    pub fn empty() -> (r: Self)
        ensures
            r.server_name@.len() == 0,
            r.room_id@.len() == 0,
    {
        Session { server_name: String::new(), room_id: String::new() }
    }
}

} // verus!
