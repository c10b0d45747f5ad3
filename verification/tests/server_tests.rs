//! End-to-end exercises of the directory, the command handlers and the
//! janitor, against the exact frame bytes the server promises.

use irc_server::facade::register_user;
use irc_server::handler::{disconnect_user, MessageHandler, ServerState};
use irc_server::janitor::janitor_tick;
use irc_server::models::TokenClaims;

fn claims(sub: &str, username: &str) -> TokenClaims {
    TokenClaims {
        sub: sub.as_bytes().to_vec(),
        username: username.as_bytes().to_vec(),
        profile_pic: Vec::new(),
        exp: 10_000,
        iat: 0,
        nbf: None,
        jti: None,
        device_id: None,
        allowed_ips: None,
    }
}

fn server_with_users() -> ServerState {
    let mut server = ServerState::new(b"secret");
    register_user(&mut server, &claims("alice", "Alice"), Vec::new(), b"sessionAAAAAAAAAAAAAAAAAAAAAAAAA".to_vec(), [1u8; 32], 100);
    register_user(&mut server, &claims("bob", "Bob"), Vec::new(), b"sessionBBBBBBBBBBBBBBBBBBBBBBBBB".to_vec(), [2u8; 32], 100);
    server
}

fn find_user_index(server: &ServerState, id: &[u8]) -> Option<usize> {
    server.users.iter().position(|u| u.id == id)
}

#[test]
fn register_sends_welcome_and_ttl_notice() {
    let mut server = ServerState::new(b"secret");
    let frames = register_user(&mut server, &claims("alice", "Alice"), Vec::new(), b"s".to_vec(), [0u8; 32], 7);
    assert_eq!(frames.len(), 2);
    assert_eq!(frames[0].to, b"alice".to_vec());
    assert_eq!(
        frames[0].bytes,
        b":server 001 alice :Welcome to the Secure IRC Server, Alice\r\n".to_vec()
    );
    assert_eq!(
        frames[1].bytes,
        b":server NOTICE alice :SECURITY: All messages will be deleted after 60 minutes\r\n".to_vec()
    );
    assert_eq!(server.users.len(), 1);
    assert_eq!(server.message_ttl, 3600);
    assert_eq!(server.session_timeout, 3600);
}

#[test]
fn join_creates_channel_and_confirms() {
    let mut server = server_with_users();
    let h = MessageHandler::new(b"alice".to_vec());
    let frames = h.handle_message(&mut server, b"JOIN #lobby", 200).unwrap();
    assert_eq!(frames.len(), 1);
    assert_eq!(frames[0].to, b"alice".to_vec());
    assert_eq!(frames[0].bytes, b":alice JOIN #lobby\r\n".to_vec());
    assert_eq!(server.channels.len(), 1);
    assert_eq!(server.channels[0].name, b"#lobby".to_vec());
    assert_eq!(server.channels[0].users, vec![b"alice".to_vec()]);
    let ai = find_user_index(&server, b"alice").unwrap();
    assert_eq!(server.users[ai].channels, vec![b"#lobby".to_vec()]);
    // The join is logged as a SYSTEM history line.
    assert_eq!(server.channels[0].messages.len(), 1);
    assert_eq!(server.channels[0].messages[0].sender, b"SYSTEM".to_vec());
    assert_eq!(server.channels[0].messages[0].content, b"* Alice has joined #lobby".to_vec());
}

#[test]
fn second_join_notifies_existing_member() {
    let mut server = server_with_users();
    let alice = MessageHandler::new(b"alice".to_vec());
    let bob = MessageHandler::new(b"bob".to_vec());
    alice.handle_message(&mut server, b"JOIN #lobby", 200).unwrap();
    let frames = bob.handle_message(&mut server, b"JOIN #lobby", 201).unwrap();
    assert_eq!(frames.len(), 2);
    assert_eq!(frames[0].to, b"bob".to_vec());
    assert_eq!(frames[0].bytes, b":bob JOIN #lobby\r\n".to_vec());
    assert_eq!(frames[1].to, b"alice".to_vec());
    assert_eq!(
        frames[1].bytes,
        b":#lobby PRIVMSG Alice :* Bob has joined #lobby\r\n".to_vec()
    );
}

#[test]
fn channel_message_reaches_only_other_members() {
    let mut server = server_with_users();
    let alice = MessageHandler::new(b"alice".to_vec());
    let bob = MessageHandler::new(b"bob".to_vec());
    alice.handle_message(&mut server, b"JOIN #lobby", 200).unwrap();
    bob.handle_message(&mut server, b"JOIN #lobby", 201).unwrap();
    let frames = alice.handle_message(&mut server, b"PRIVMSG #lobby :hello", 202).unwrap();
    // Exactly one frame, to Bob, and none back to Alice.
    assert_eq!(frames.len(), 1);
    assert_eq!(frames[0].to, b"bob".to_vec());
    assert_eq!(frames[0].bytes, b":#lobby PRIVMSG Bob :<Alice> :hello\r\n".to_vec());
    // The line is stored under the sender's username.
    let last = server.channels[0].messages.last().unwrap();
    assert_eq!(last.sender, b"Alice".to_vec());
    assert_eq!(last.content, b":hello".to_vec());
}

#[test]
fn channel_message_requires_membership() {
    let mut server = server_with_users();
    let alice = MessageHandler::new(b"alice".to_vec());
    let bob = MessageHandler::new(b"bob".to_vec());
    alice.handle_message(&mut server, b"JOIN #lobby", 200).unwrap();
    let frames = bob.handle_message(&mut server, b"PRIVMSG #lobby :psst", 201).unwrap();
    assert_eq!(frames.len(), 1);
    assert_eq!(frames[0].to, b"bob".to_vec());
    assert_eq!(frames[0].bytes, b"ERROR :You are not in channel #lobby\r\n".to_vec());
}

#[test]
fn private_message_is_delivered_and_recorded() {
    let mut server = server_with_users();
    let alice = MessageHandler::new(b"alice".to_vec());
    let frames = alice.handle_message(&mut server, b"PRIVMSG Bob :hi", 300).unwrap();
    assert_eq!(frames.len(), 1);
    assert_eq!(frames[0].to, b"bob".to_vec());
    // The two-space split keeps the client's leading colon in the body.
    assert_eq!(frames[0].bytes, b"PRIVMSG Alice ::hi\r\n".to_vec());
    let ai = find_user_index(&server, b"alice").unwrap();
    let bi = find_user_index(&server, b"bob").unwrap();
    assert_eq!(server.users[ai].messages.len(), 1);
    assert_eq!(server.users[bi].messages.len(), 1);
    assert_eq!(server.users[bi].messages[0].content, b":hi".to_vec());
    assert_eq!(server.users[bi].messages[0].sender, b"Alice".to_vec());
}

#[test]
fn private_message_to_unknown_user_errors() {
    let mut server = server_with_users();
    let alice = MessageHandler::new(b"alice".to_vec());
    let err = alice.handle_message(&mut server, b"PRIVMSG Carol :hi", 300).unwrap_err();
    assert_eq!(err.message(), b"User Carol not found".to_vec());
}

#[test]
fn join_then_part_restores_the_directory() {
    let mut server = server_with_users();
    let alice = MessageHandler::new(b"alice".to_vec());
    let users_before = server.users.len();
    alice.handle_message(&mut server, b"JOIN #x", 200).unwrap();
    let frames = alice.handle_message(&mut server, b"PART #x", 201).unwrap();
    // The fresh channel empties and is deleted; only the confirmation is sent.
    assert_eq!(frames.len(), 1);
    assert_eq!(frames[0].bytes, b":alice PART #x\r\n".to_vec());
    assert_eq!(server.channels.len(), 0);
    assert_eq!(server.users.len(), users_before);
    let ai = find_user_index(&server, b"alice").unwrap();
    assert!(server.users[ai].channels.is_empty());
}

#[test]
fn part_notifies_remaining_members() {
    let mut server = server_with_users();
    let alice = MessageHandler::new(b"alice".to_vec());
    let bob = MessageHandler::new(b"bob".to_vec());
    alice.handle_message(&mut server, b"JOIN #lobby", 200).unwrap();
    bob.handle_message(&mut server, b"JOIN #lobby", 201).unwrap();
    let frames = alice.handle_message(&mut server, b"PART #lobby", 202).unwrap();
    assert_eq!(frames.len(), 2);
    assert_eq!(frames[0].to, b"bob".to_vec());
    assert_eq!(frames[0].bytes, b":#lobby PRIVMSG Bob :* Alice has left #lobby\r\n".to_vec());
    assert_eq!(frames[1].to, b"alice".to_vec());
    assert_eq!(frames[1].bytes, b":alice PART #lobby\r\n".to_vec());
    assert_eq!(server.channels[0].users, vec![b"bob".to_vec()]);
}

#[test]
fn membership_stays_symmetric() {
    let mut server = server_with_users();
    let alice = MessageHandler::new(b"alice".to_vec());
    let bob = MessageHandler::new(b"bob".to_vec());
    alice.handle_message(&mut server, b"JOIN #a", 200).unwrap();
    bob.handle_message(&mut server, b"JOIN #a", 201).unwrap();
    alice.handle_message(&mut server, b"JOIN #b", 202).unwrap();
    bob.handle_message(&mut server, b"PART #a", 203).unwrap();
    alice.handle_message(&mut server, b"JOIN #b", 204).unwrap();
    // Membership symmetry: u lists c iff c lists u.
    for c in &server.channels {
        for u in &server.users {
            let c_has_u = c.users.contains(&u.id);
            let u_has_c = u.channels.contains(&c.name);
            assert_eq!(c_has_u, u_has_c);
        }
    }
}

#[test]
fn list_and_who_report_channels_and_members() {
    let mut server = server_with_users();
    let alice = MessageHandler::new(b"alice".to_vec());
    alice.handle_message(&mut server, b"JOIN #lobby", 200).unwrap();
    let frames = alice.handle_message(&mut server, b"LIST", 201).unwrap();
    assert_eq!(frames.len(), 1);
    assert_eq!(
        frames[0].bytes,
        b":server 322 alice #lobby 1 :\r\n:server 323 alice :End of LIST\r\n".to_vec()
    );
    let frames = alice.handle_message(&mut server, b"WHO #lobby", 202).unwrap();
    assert_eq!(
        frames[0].bytes,
        b":server 352 alice #lobby Alice hostname server Alice H :0 Alice\r\n:server 315 alice #lobby :End of WHO list\r\n"
            .to_vec()
    );
    let frames = alice.handle_message(&mut server, b"WHO #nope", 203).unwrap();
    assert_eq!(frames[0].bytes, b"ERROR :Channel #nope not found\r\n".to_vec());
}

#[test]
fn unknown_command_is_reported_verbatim() {
    let mut server = server_with_users();
    let alice = MessageHandler::new(b"alice".to_vec());
    let frames = alice.handle_message(&mut server, b"dance now", 200).unwrap();
    assert_eq!(frames[0].bytes, b"ERROR :Unknown command: dance\r\n".to_vec());
}

#[test]
fn join_without_argument_is_rejected() {
    let mut server = server_with_users();
    let alice = MessageHandler::new(b"alice".to_vec());
    let frames = alice.handle_message(&mut server, b"JOIN", 200).unwrap();
    assert_eq!(frames[0].bytes, b"ERROR :Not enough parameters for JOIN\r\n".to_vec());
}

#[test]
fn secure_clear_empties_the_private_history() {
    let mut server = server_with_users();
    let alice = MessageHandler::new(b"alice".to_vec());
    alice.handle_message(&mut server, b"PRIVMSG Bob :one", 300).unwrap();
    alice.handle_message(&mut server, b"PRIVMSG Bob :two", 301).unwrap();
    let ai = find_user_index(&server, b"alice").unwrap();
    assert_eq!(server.users[ai].messages.len(), 2);
    let frames = alice.handle_message(&mut server, b"SECURECLEAR", 302).unwrap();
    assert_eq!(
        frames[0].bytes,
        b"NOTICE :All your messages have been securely deleted\r\n".to_vec()
    );
    assert_eq!(server.users[ai].messages.len(), 0);
}

#[test]
fn quit_disconnects_and_notifies() {
    let mut server = server_with_users();
    let alice = MessageHandler::new(b"alice".to_vec());
    let bob = MessageHandler::new(b"bob".to_vec());
    alice.handle_message(&mut server, b"JOIN #lobby", 200).unwrap();
    bob.handle_message(&mut server, b"JOIN #lobby", 201).unwrap();
    let frames = alice.handle_message(&mut server, b"QUIT :bye", 202).unwrap();
    assert_eq!(frames.len(), 1);
    assert_eq!(frames[0].to, b"bob".to_vec());
    assert_eq!(
        frames[0].bytes,
        b":#lobby PRIVMSG Bob :* Alice has disconnected\r\n".to_vec()
    );
    assert!(find_user_index(&server, b"alice").is_none());
    assert_eq!(server.channels[0].users, vec![b"bob".to_vec()]);
}

#[test]
fn secure_quit_strips_the_senders_lines() {
    let mut server = server_with_users();
    let alice = MessageHandler::new(b"alice".to_vec());
    let bob = MessageHandler::new(b"bob".to_vec());
    alice.handle_message(&mut server, b"JOIN #lobby", 200).unwrap();
    bob.handle_message(&mut server, b"JOIN #lobby", 201).unwrap();
    alice.handle_message(&mut server, b"PRIVMSG #lobby :secret", 202).unwrap();
    alice.handle_message(&mut server, b"QUIT :SECURE_DELETE", 203).unwrap();
    // Alice's channel line is gone; the SYSTEM join lines stay.
    for m in &server.channels[0].messages {
        assert_ne!(m.sender, b"Alice".to_vec());
    }
    assert!(find_user_index(&server, b"alice").is_none());
}

#[test]
fn disconnect_user_removes_memberships() {
    let mut server = server_with_users();
    let alice = MessageHandler::new(b"alice".to_vec());
    alice.handle_message(&mut server, b"JOIN #lobby", 200).unwrap();
    let frames = disconnect_user(&mut server, b"alice");
    assert!(frames.is_empty());
    assert!(find_user_index(&server, b"alice").is_none());
    assert!(server.channels[0].users.is_empty());
}

#[test]
fn janitor_evicts_expired_messages_with_notices() {
    let mut server = server_with_users();
    server.message_ttl = 2;
    let alice = MessageHandler::new(b"alice".to_vec());
    alice.handle_message(&mut server, b"JOIN #x", 100).unwrap();
    alice.handle_message(&mut server, b"PRIVMSG #x :a", 100).unwrap();
    alice.handle_message(&mut server, b"PRIVMSG #x :b", 100).unwrap();
    assert_eq!(server.channels[0].messages.len(), 3);
    let frames = janitor_tick(&mut server, 105);
    assert_eq!(server.channels[0].messages.len(), 0);
    assert_eq!(frames.len(), 1);
    assert_eq!(frames[0].to, b"alice".to_vec());
    assert_eq!(
        frames[0].bytes,
        b"NOTICE :SECURITY: 3 messages have been automatically deleted\r\n".to_vec()
    );
    // Everything that survives a tick is fresh.
    for c in &server.channels {
        for m in &c.messages {
            assert!(105 - m.timestamp < server.message_ttl);
        }
    }
}

#[test]
fn janitor_expires_idle_sessions() {
    let mut server = server_with_users();
    server.session_timeout = 2;
    let frames = janitor_tick(&mut server, 200);
    // Both users were last active at time 100 and get expired.
    assert!(find_user_index(&server, b"alice").is_none());
    assert!(find_user_index(&server, b"bob").is_none());
    let notice =
        b"NOTICE :SECURITY: You have been disconnected due to inactivity. All messages have been deleted.\r\n"
            .to_vec();
    assert_eq!(frames.iter().filter(|f| f.bytes == notice).count(), 2);
}

#[test]
fn janitor_reaps_long_empty_channels() {
    let mut server = server_with_users();
    let alice = MessageHandler::new(b"alice".to_vec());
    alice.handle_message(&mut server, b"JOIN #x", 100).unwrap();
    disconnect_user(&mut server, b"alice");
    assert_eq!(server.channels.len(), 1);
    // Not yet idle for a day.
    janitor_tick(&mut server, 1_000);
    assert_eq!(server.channels.len(), 1);
    // Idle past the one-day grace.
    janitor_tick(&mut server, 100 + 86_401);
    assert_eq!(server.channels.len(), 0);
}

#[test]
fn activity_updates_monotonically() {
    let mut server = server_with_users();
    let alice = MessageHandler::new(b"alice".to_vec());
    let ai = find_user_index(&server, b"alice").unwrap();
    let t1 = server.users[ai].session.as_ref().unwrap().last_activity;
    alice.handle_message(&mut server, b"LIST", 500).unwrap();
    let t2 = server.users[ai].session.as_ref().unwrap().last_activity;
    assert!(t2 >= t1);
    assert_eq!(t2, 500);
}
