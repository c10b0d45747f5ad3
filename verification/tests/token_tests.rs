//! Token issue and verification, the secure wipe, the AEAD codec, the JSON
//! codec, and the session monitor.

use irc_server::crypto::{CryptoError, Encryptor};
use irc_server::models::{secure_delete_message, ChatMessage};
use irc_server::monitor::SessionMonitor;
use irc_server::session::Session;
use irc_server::token::{verify_token, AuthError, TokenGenerator};
use irc_server::json::{parse_object, JsonVal};
use irc_server::handler::parse_parts;
use irc_server::bytes::{contains_bytes, to_upper, trim_bytes};

#[test]
fn token_round_trip_preserves_identity() {
    let g = TokenGenerator::new(b"topsecret");
    let token = g.generate_token_at(b"user123", b"CoolUser", b"\x01\x02\x03", 1, 1_000, 42, None, None);
    let claims = verify_token(&token, b"topsecret", 2_000).unwrap();
    assert_eq!(claims.sub, b"user123".to_vec());
    assert_eq!(claims.username, b"CoolUser".to_vec());
    assert_eq!(claims.iat, 1_000);
    assert_eq!(claims.exp, 1_000 + 86_400);
    assert_eq!(claims.nbf, Some(1_000));
    // The profile picture decodes back to the original bytes.
    let pic = irc_server::token::b64std_decode(&claims.profile_pic).unwrap();
    assert_eq!(pic, b"\x01\x02\x03".to_vec());
}

#[test]
fn token_with_optional_claims_round_trips() {
    let g = TokenGenerator::new(b"k");
    let dev = b"deadbeef".to_vec();
    let ips = b"127.0.0.1/32".to_vec();
    let token = g.generate_token_at(b"u", b"N", b"", 2, 50, 7, Some(&dev), Some(&ips));
    let claims = verify_token(&token, b"k", 100).unwrap();
    assert_eq!(claims.device_id, Some(dev));
    assert_eq!(claims.allowed_ips, Some(ips));
    assert!(claims.jti.is_some());
}

#[test]
fn control_bytes_in_claims_round_trip() {
    // A name with control bytes prints as \u escapes and parses back.
    let g = TokenGenerator::new(b"k");
    let name = b"line\x01\x1fbreak\ntab\t\"quote\\".to_vec();
    let token = g.generate_token_at(b"u\x02", &name, b"\x00\xff", 1, 500, 3, None, None);
    let claims = verify_token(&token, b"k", 600).unwrap();
    assert_eq!(claims.sub, b"u\x02".to_vec());
    assert_eq!(claims.username, name);
    let pic = irc_server::token::b64std_decode(&claims.profile_pic).unwrap();
    assert_eq!(pic, b"\x00\xff".to_vec());
}

#[test]
fn hex_escapes_parse_back_to_control_bytes() {
    let text = b"{\"sub\":\"a\\u0001b\\u001Fc\"}";
    let pairs = parse_object(text).unwrap();
    match &pairs[0].val {
        JsonVal::S(v) => assert_eq!(v, &b"a\x01b\x1fc".to_vec()),
        _ => panic!("sub must be a string"),
    }
    // Escapes other than the accepted three are refused.
    assert!(parse_object(b"{\"sub\":\"a\\nb\"}").is_none());
}

#[test]
fn wrong_secret_is_rejected() {
    let g = TokenGenerator::new(b"right");
    let token = g.generate_token_at(b"u", b"N", b"", 1, 1_000, 1, None, None);
    assert_eq!(verify_token(&token, b"wrong", 2_000).unwrap_err(), AuthError::BadSignature);
}

#[test]
fn expired_token_is_rejected() {
    let g = TokenGenerator::new(b"k");
    let token = g.generate_token_at(b"u", b"N", b"", 1, 1_000, 1, None, None);
    let too_late = 1_000 + 86_400;
    assert_eq!(verify_token(&token, b"k", too_late).unwrap_err(), AuthError::Expired);
}

#[test]
fn token_not_yet_valid_is_rejected() {
    let g = TokenGenerator::new(b"k");
    let token = g.generate_token_at(b"u", b"N", b"", 1, 1_000, 1, None, None);
    // At the issue instant, nbf is not yet strictly past.
    assert_eq!(verify_token(&token, b"k", 1_000).unwrap_err(), AuthError::NotYetValid);
}

#[test]
fn garbage_token_is_malformed() {
    assert_eq!(verify_token(b"no dots here", b"k", 0).unwrap_err(), AuthError::Malformed);
    assert_eq!(verify_token(b"", b"k", 0).unwrap_err(), AuthError::Malformed);
}

#[test]
fn generate_token_uses_the_clock() {
    let g = TokenGenerator::new(b"k");
    let token = g.generate_token(b"u", b"N", b"", 30, None, None);
    // Minted now with a 30-day validity: verification must succeed now.
    let now = irc_server::token::now_unix();
    let claims = verify_token(&token, b"k", now + 1).unwrap();
    assert_eq!(claims.sub, b"u".to_vec());
}

#[test]
fn secure_delete_zeroes_the_backing_bytes() {
    let mut m = ChatMessage {
        sender: b"Alice".to_vec(),
        content: b"top secret".to_vec(),
        timestamp: 7,
        encrypted: vec![9u8, 8, 7],
    };
    secure_delete_message(&mut m);
    assert_eq!(m.content.len(), 10);
    assert!(m.content.iter().all(|b| *b == 0));
    assert_eq!(m.encrypted.len(), 3);
    assert!(m.encrypted.iter().all(|b| *b == 0));
    assert_eq!(m.sender, b"Alice".to_vec());
}

#[test]
fn aead_round_trip_and_tamper_detection() {
    let key = [7u8; 32];
    let e = Encryptor::new(key);
    let ct = e.encrypt(1, b"hello world").unwrap();
    assert_eq!(ct.len(), 11 + 16);
    let pt = e.decrypt(1, &ct).unwrap();
    assert_eq!(pt, b"hello world".to_vec());
    // A flipped bit fails authentication.
    let mut bad = ct.clone();
    bad[0] ^= 1;
    assert_eq!(e.decrypt(1, &bad).unwrap_err(), CryptoError::AuthTagMismatch);
    // A wrong counter derives a different nonce.
    assert_eq!(e.decrypt(2, &ct).unwrap_err(), CryptoError::AuthTagMismatch);
    // Too short to even carry a tag.
    assert_eq!(e.decrypt(1, b"x").unwrap_err(), CryptoError::CiphertextTooShort);
}

#[test]
fn random_key_and_session_id_have_the_right_shape() {
    let key = Encryptor::generate_random_key().unwrap();
    assert_eq!(key.len(), 32);
    let id = irc_server::token::random_session_id();
    assert_eq!(id.len(), 32);
    assert!(id.iter().all(|b| b.is_ascii_alphanumeric()));
}

#[test]
fn session_tracks_activity_and_nonces() {
    let mut s = Session::new(b"sid".to_vec(), b"uid".to_vec(), [0u8; 32], 100);
    assert_eq!(s.last_activity, 100);
    s.update_activity(150);
    assert_eq!(s.last_activity, 150);
    assert!(!s.is_expired(60, 200));
    assert!(s.is_expired(49, 200));
    assert_eq!(s.increment_nonce(), 1);
    assert_eq!(s.increment_nonce(), 2);
    assert_eq!(s.duration(250), 150);
    assert_eq!(s.idle_time(250), 100);
}

#[test]
fn monitor_decides_expiry_and_warnings() {
    let m = SessionMonitor::new(3_600, 600, 0);
    // Quiet early on.
    let step = m.monitor_session(false, false, 10);
    assert!(!step.expire && !step.warn_idle && !step.warn_duration);
    // Idle warning window: 300 seconds before the 600-second timeout.
    let step = m.monitor_session(false, false, 350);
    assert!(!step.expire && step.warn_idle);
    assert!(step.warned_idle);
    // Idle timeout.
    let step = m.monitor_session(false, true, 700);
    assert!(step.expire);
    // Absolute duration limit.
    let step = m.monitor_session(true, true, 3_600);
    assert!(step.expire);
    assert_eq!(m.remaining_time(600), 3_000);
    assert_eq!(m.remaining_idle_time(100), 500);
}

#[test]
fn durations_format_like_clocks() {
    assert_eq!(SessionMonitor::format_duration(3_725), b"1h 2m 5s".to_vec());
    assert_eq!(SessionMonitor::format_duration(125), b"2m 5s".to_vec());
    assert_eq!(SessionMonitor::format_duration(59), b"59s".to_vec());
}

#[test]
fn json_parser_inverts_the_printer() {
    let mut c = irc_server::models::TokenClaims {
        sub: b"a\"b\\c".to_vec(),
        username: b"N".to_vec(),
        profile_pic: b"".to_vec(),
        exp: 18_446_744_073_709_551,
        iat: 0,
        nbf: None,
        jti: Some(b"x-1".to_vec()),
        device_id: None,
        allowed_ips: None,
    };
    let printed = irc_server::token::print_claims(&c);
    let pairs = parse_object(&printed).unwrap();
    assert_eq!(pairs.len(), 9);
    assert_eq!(pairs[0].key, b"sub".to_vec());
    match &pairs[0].val {
        JsonVal::S(v) => assert_eq!(v, &b"a\"b\\c".to_vec()),
        _ => panic!("sub must be a string"),
    }
    match &pairs[3].val {
        JsonVal::N(n) => assert_eq!(*n, 18_446_744_073_709_551),
        _ => panic!("exp must be a number"),
    }
    match &pairs[5].val {
        JsonVal::Null => {}
        _ => panic!("absent nbf must print as null"),
    }
    c.exp = 1;
    let reparsed = irc_server::token::claims_from_pairs(&parse_object(&irc_server::token::print_claims(&c)).unwrap()).unwrap();
    assert_eq!(reparsed.sub, c.sub);
    assert_eq!(reparsed.jti, c.jti);
}

#[test]
fn command_lines_split_at_the_first_two_spaces() {
    let p = parse_parts(b"PRIVMSG #lobby :hello there  friend");
    assert_eq!(p.verb, b"PRIVMSG".to_vec());
    assert_eq!(p.arg1, Some(b"#lobby".to_vec()));
    assert_eq!(p.rest, Some(b":hello there  friend".to_vec()));
    let p = parse_parts(b"LIST");
    assert_eq!(p.verb, b"LIST".to_vec());
    assert_eq!(p.arg1, None);
    assert_eq!(p.rest, None);
    let p = parse_parts(b"JOIN #x");
    assert_eq!(p.arg1, Some(b"#x".to_vec()));
    assert_eq!(p.rest, None);
}

#[test]
fn byte_helpers_behave_like_their_string_kin() {
    assert_eq!(trim_bytes(b"  hi there \r\n"), b"hi there".to_vec());
    assert_eq!(to_upper(b"quit now!"), b"QUIT NOW!".to_vec());
    assert!(contains_bytes(b"QUIT :SECURE_DELETE", b"SECURE_DELETE"));
    assert!(!contains_bytes(b"QUIT :bye", b"SECURE_DELETE"));
}
