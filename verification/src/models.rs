//! Data model of the chat server: messages, users, channels, token claims.
//!
//! All wire text is kept as raw bytes. Each type has a spec-level view so
//! that contracts can speak about sequences instead of vectors.

use vstd::prelude::*;

verus! {

/// Number of entries a message history may hold; the oldest entry is evicted
/// beyond this bound.
pub const HISTORY_CAP: usize = 100;

/// One delivered chat line, kept in a bounded history until it expires.
pub struct ChatMessage {
    pub sender: Vec<u8>,
    pub content: Vec<u8>,
    pub timestamp: u64,
    pub encrypted: Vec<u8>,
}

#[verifier::ext_equal]
pub struct ChatMessageView {
    pub sender: Seq<u8>,
    pub content: Seq<u8>,
    pub timestamp: u64,
    pub encrypted: Seq<u8>,
}

impl View for ChatMessage {
    type V = ChatMessageView;

    open spec fn view(&self) -> ChatMessageView {
        ChatMessageView {
            sender: self.sender@,
            content: self.content@,
            timestamp: self.timestamp,
            encrypted: self.encrypted@,
        }
    }
}

/// Kinds of messages the server routes.
#[derive(Debug, Clone, Copy, PartialEq, Eq, Structural)]
pub enum MessageType {
    PrivateMessage,
    ChannelMessage,
    SystemMessage,
}

/// A routed message together with its target and optional expiry time.
pub struct Message {
    pub message_type: MessageType,
    pub sender: Vec<u8>,
    pub content: Vec<u8>,
    pub timestamp: u64,
    pub target: Vec<u8>,
    pub expiration: Option<u64>,
}

/// One authenticated connection.
pub struct User {
    pub id: Vec<u8>,
    pub username: Vec<u8>,
    pub profile_pic: Vec<u8>,
    pub channels: Vec<Vec<u8>>,
    pub session: Option<crate::session::Session>,
    pub messages: Vec<ChatMessage>,
}

#[verifier::ext_equal]
pub struct UserView {
    pub id: Seq<u8>,
    pub username: Seq<u8>,
    pub profile_pic: Seq<u8>,
    pub channels: Seq<Seq<u8>>,
    pub session: Option<crate::session::SessionView>,
    pub messages: Seq<ChatMessageView>,
}

impl View for User {
    type V = UserView;

    open spec fn view(&self) -> UserView {
        UserView {
            id: self.id@,
            username: self.username@,
            profile_pic: self.profile_pic@,
            channels: self.channels.deep_view(),
            session: match self.session {
                Some(s) => Some(s@),
                None => None,
            },
            messages: Seq::new(self.messages@.len(), |i: int| self.messages@[i]@),
        }
    }
}

/// A named multicast group.
pub struct Channel {
    pub name: Vec<u8>,
    pub topic: Vec<u8>,
    pub users: Vec<Vec<u8>>,
    pub messages: Vec<ChatMessage>,
    pub created_at: u64,
    pub last_activity: u64,
}

#[verifier::ext_equal]
pub struct ChannelView {
    pub name: Seq<u8>,
    pub topic: Seq<u8>,
    pub users: Seq<Seq<u8>>,
    pub messages: Seq<ChatMessageView>,
    pub created_at: u64,
    pub last_activity: u64,
}

impl View for Channel {
    type V = ChannelView;

    open spec fn view(&self) -> ChannelView {
        ChannelView {
            name: self.name@,
            topic: self.topic@,
            users: self.users.deep_view(),
            messages: Seq::new(self.messages@.len(), |i: int| self.messages@[i]@),
            created_at: self.created_at,
            last_activity: self.last_activity,
        }
    }
}

/// The claims carried by a bearer token.
#[derive(Debug)]
pub struct TokenClaims {
    pub sub: Vec<u8>,
    pub username: Vec<u8>,
    pub profile_pic: Vec<u8>,
    pub exp: u64,
    pub iat: u64,
    pub nbf: Option<u64>,
    pub jti: Option<Vec<u8>>,
    pub device_id: Option<Vec<u8>>,
    pub allowed_ips: Option<Vec<u8>>,
}

#[verifier::ext_equal]
pub struct TokenClaimsView {
    pub sub: Seq<u8>,
    pub username: Seq<u8>,
    pub profile_pic: Seq<u8>,
    pub exp: u64,
    pub iat: u64,
    pub nbf: Option<u64>,
    pub jti: Option<Seq<u8>>,
    pub device_id: Option<Seq<u8>>,
    pub allowed_ips: Option<Seq<u8>>,
}

impl View for TokenClaims {
    type V = TokenClaimsView;

    open spec fn view(&self) -> TokenClaimsView {
        TokenClaimsView {
            sub: self.sub@,
            username: self.username@,
            profile_pic: self.profile_pic@,
            exp: self.exp,
            iat: self.iat,
            nbf: self.nbf,
            jti: match self.jti {
                Some(ref v) => Some(v@),
                None => None,
            },
            device_id: match self.device_id {
                Some(ref v) => Some(v@),
                None => None,
            },
            allowed_ips: match self.allowed_ips {
                Some(ref v) => Some(v@),
                None => None,
            },
        }
    }
}

/// True when every byte of `s` is zero.
pub open spec fn all_zero(s: Seq<u8>) -> bool {
    forall|i: int| 0 <= i < s.len() ==> s[i] == 0
}

/// Overwrites every byte of `v` with zero, in place.
pub fn zero_fill(v: &mut Vec<u8>)
    ensures
        final(v)@.len() == old(v)@.len(),
        all_zero(final(v)@),
{
    let n = v.len();
    let mut i: usize = 0;
    while i < n
        invariant
            i <= n,
            v@.len() == n,
            forall|j: int| 0 <= j < i ==> v@[j] == 0,
        decreases n - i,
    {
        v[i] = 0;
        i = i + 1;
    }
}

/// Overwrites the payload bytes of a message with zero before it is released.
pub fn secure_delete_message(message: &mut ChatMessage)
    ensures
        final(message).sender@ == old(message).sender@,
        final(message).timestamp == old(message).timestamp,
        final(message).content@.len() == old(message).content@.len(),
        all_zero(final(message).content@),
        final(message).encrypted@.len() == old(message).encrypted@.len(),
        all_zero(final(message).encrypted@),
{
    zero_fill(&mut message.content);
    zero_fill(&mut message.encrypted);
}

} // verus!
