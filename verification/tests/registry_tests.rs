use udp_chat::codec::decode;
use udp_chat::protocol::Packets;
use udp_chat::registry::{Datagram, Message, User, Users, EXPIRY_THRESHOLD_MS};

const ADDR1: u64 = 101;
const ADDR2: u64 = 202;
const ADDR3: u64 = 303;

fn notify_of(d: &Datagram) -> (String, String) {
    match decode(&d.payload).expect("payload should decode") {
        Packets::ChatNotify(n) => (n.name, n.contents),
        other => panic!("expected a chat notify, got {:?}", other),
    }
}

fn is_ping(d: &Datagram) -> bool {
    matches!(decode(&d.payload), Ok(Packets::Ping))
}

#[test]
fn user_records_login_time() {
    let u = User::new("alice".to_string(), 42);
    assert_eq!(u.name, "alice");
    assert_eq!(u.last_ping, 42);
}

#[test]
fn user_update_ping_resets_clock() {
    let mut u = User::new("alice".to_string(), 0);
    u.update_ping(1234);
    assert_eq!(u.last_ping, 1234);
    assert_eq!(u.name, "alice");
}

#[test]
fn user_expiry_is_strict() {
    let u = User::new("alice".to_string(), 1000);
    assert!(!u.is_expired(1000 + EXPIRY_THRESHOLD_MS));
    assert!(u.is_expired(1001 + EXPIRY_THRESHOLD_MS));
    // A clock reading from before the last signal is never stale.
    assert!(!u.is_expired(0));
}

#[test]
fn chat_fans_out_to_all_sessions_including_sender() {
    let mut users = Users::new();
    assert!(users.handle_message(Message::Login(ADDR1, "alice".to_string()), 0).is_empty());
    assert!(users.handle_message(Message::Login(ADDR2, "bob".to_string()), 0).is_empty());
    let out = users.handle_message(Message::Chat(ADDR1, "hi".to_string()), 1);
    assert_eq!(out.len(), 2);
    let mut addrs: Vec<u64> = out.iter().map(|d| d.addr).collect();
    addrs.sort();
    assert_eq!(addrs, vec![ADDR1, ADDR2]);
    for d in &out {
        assert_eq!(notify_of(d), ("alice".to_string(), "hi".to_string()));
    }
}

#[test]
fn chat_from_unknown_address_is_silent() {
    let mut users = Users::new();
    users.handle_message(Message::Login(ADDR1, "alice".to_string()), 0);
    let out = users.handle_message(Message::Chat(ADDR3, "hi".to_string()), 1);
    assert!(out.is_empty());
}

#[test]
fn relogin_overwrites_name_and_resets_clock() {
    let mut users = Users::new();
    users.handle_message(Message::Login(ADDR1, "alice".to_string()), 0);
    // Just before the first login would go stale, log in again.
    users.handle_message(Message::Login(ADDR1, "carol".to_string()), EXPIRY_THRESHOLD_MS);
    // A tick that would have evicted the original login leaves the session.
    let out = users.handle_message(Message::Tick, EXPIRY_THRESHOLD_MS + 1000);
    assert_eq!(out.len(), 1);
    assert_eq!(out[0].addr, ADDR1);
    assert!(is_ping(&out[0]));
    // No duplicate entry: one chat produces one notify, under the new name.
    let out = users.handle_message(Message::Chat(ADDR1, "hi".to_string()), EXPIRY_THRESHOLD_MS + 1001);
    assert_eq!(out.len(), 1);
    assert_eq!(notify_of(&out[0]), ("carol".to_string(), "hi".to_string()));
}

#[test]
fn ping_keeps_session_alive() {
    let mut users = Users::new();
    users.handle_message(Message::Login(ADDR1, "alice".to_string()), 0);
    users.handle_message(Message::PingReceived(ADDR1), 4000);
    // 4000 + threshold is still fresh at 8000.
    let out = users.handle_message(Message::Tick, 8000);
    assert_eq!(out.len(), 1);
    assert_eq!(out[0].addr, ADDR1);
}

#[test]
fn ping_from_unknown_address_creates_no_session() {
    let mut users = Users::new();
    users.handle_message(Message::PingReceived(ADDR1), 0);
    let out = users.handle_message(Message::Tick, 1000);
    assert!(out.is_empty());
}

#[test]
fn stale_session_is_swept_and_not_probed() {
    let mut users = Users::new();
    users.handle_message(Message::Login(ADDR1, "alice".to_string()), 0);
    users.handle_message(Message::Login(ADDR2, "bob".to_string()), 3000);
    // At 5500 only the first session is past the threshold: it is removed
    // and this tick's probes skip it (sweep precedes probe).
    let out = users.handle_message(Message::Tick, 5500);
    assert_eq!(out.len(), 1);
    assert_eq!(out[0].addr, ADDR2);
    assert!(is_ping(&out[0]));
}

#[test]
fn silent_session_disappears_after_six_intervals() {
    let mut users = Users::new();
    users.handle_message(Message::Login(ADDR1, "alice".to_string()), 0);
    // Six one-second sweep intervals pass with no ping.
    let out = users.handle_message(Message::Tick, 6000);
    assert!(out.is_empty());
    // A later chat from the evicted address notifies nobody.
    let out = users.handle_message(Message::Chat(ADDR1, "hi".to_string()), 6001);
    assert!(out.is_empty());
}

#[test]
fn logout_removes_session() {
    let mut users = Users::new();
    users.handle_message(Message::Login(ADDR1, "alice".to_string()), 0);
    users.handle_message(Message::Login(ADDR2, "bob".to_string()), 0);
    users.handle_message(Message::Logout(ADDR1), 1);
    let out = users.handle_message(Message::Chat(ADDR2, "hi".to_string()), 2);
    assert_eq!(out.len(), 1);
    assert_eq!(out[0].addr, ADDR2);
    // Logging out an unknown address is a no-op.
    users.handle_message(Message::Logout(ADDR3), 3);
}

#[test]
fn oversized_notify_sends_nothing() {
    let mut users = Users::new();
    users.handle_message(Message::Login(ADDR1, "alice".to_string()), 0);
    // The notify carries the sender's name too, so this pushes the encoding
    // past the ceiling even though the chat request itself would fit.
    let out = users.handle_message(Message::Chat(ADDR1, "a".repeat(2040)), 1);
    assert!(out.is_empty());
    // The session table is untouched: a small chat still works.
    let out = users.handle_message(Message::Chat(ADDR1, "hi".to_string()), 2);
    assert_eq!(out.len(), 1);
}

#[test]
fn send_reports_oversized() {
    let mut users = Users::new();
    users.handle_message(Message::Login(ADDR1, "alice".to_string()), 0);
    let r = users.send("alice", &"a".repeat(2044));
    assert_eq!(r.unwrap_err(), udp_chat::protocol::ChatError::OversizedMessage);
}

#[test]
fn get_name_reads_the_table() {
    let mut users = Users::new();
    assert!(users.get_name(ADDR1).is_none());
    users.add_user(ADDR1, "alice".to_string(), 0);
    assert_eq!(users.get_name(ADDR1).as_deref(), Some("alice"));
    users.remove_user(ADDR1);
    assert!(users.get_name(ADDR1).is_none());
}
