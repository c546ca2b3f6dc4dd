use matrix_visualisations::cs_backend::backend::{ConnectionRequest, JoinedRooms};
use matrix_visualisations::{cs_backend, mv_backend, pg_backend, BkCommand};

#[test]
fn empty_sessions_hold_nothing() {
    let s = cs_backend::session::Session::empty();
    assert!(s.server_name.is_empty() && s.room_id.is_empty() && s.username.is_empty());
    assert!(s.access_token.is_none() && s.next_batch_token.is_none() && s.prev_batch_token.is_none());
    let m = mv_backend::session::Session::empty();
    assert!(!m.connected && m.server_name.is_empty() && m.room_id.is_empty());
    let p = pg_backend::session::Session::empty();
    assert!(p.server_name.is_empty() && p.room_id.is_empty());
}

#[test]
fn login_request_carries_the_credentials() {
    let r = ConnectionRequest::password_login("alice".to_string(), "pw".to_string());
    assert_eq!(r.typo, "m.login.password");
    assert_eq!(r.identifier.typo, "m.id.user");
    assert_eq!(r.identifier.user, "alice");
    assert_eq!(r.password, "pw");
    assert_eq!(r.initial_device_display_name, "Matrix visualisations");
}

#[test]
fn joined_room_leads_to_sync_else_join() {
    let rooms = JoinedRooms { joined_rooms: vec!["!a:x.org".to_string()] };
    assert_eq!(rooms.next_command(3, &"!a:x.org".to_string()), BkCommand::Sync(3));
    assert_eq!(rooms.next_command(3, &"!b:x.org".to_string()), BkCommand::JoinRoom(3));
}
