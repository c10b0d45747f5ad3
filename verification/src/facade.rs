//! Construction and configuration of the server directory, and the
//! registration step that admits an authenticated connection.

use vstd::prelude::*;

use crate::bytes::copy_bytes;
use crate::handler::{
    disconnect_user, fv, has_user, spec_disconnect, wf, Effect, Frame, FrameView, ServerState,
    ServerStateView,
};
use crate::models::{TokenClaims, TokenClaimsView, User, UserView};
use crate::session::{Session, SessionView};

verus! {

impl ServerState {
    /// An empty directory guarding the given token secret, with one-hour
    /// message TTL and session timeout.
    pub fn new(jwt_secret: &[u8]) -> (s: ServerState)
        ensures
            s@.users.len() == 0,
            s@.channels.len() == 0,
            s@.jwt_secret == jwt_secret@,
            s@.message_ttl == 3600,
            s@.session_timeout == 3600,
            wf(s@),
    {
        let s = ServerState {
            users: Vec::new(),
            channels: Vec::new(),
            jwt_secret: copy_bytes(jwt_secret),
            message_ttl: 3600,
            session_timeout: 3600,
        };
        proof {
            assert(s@.users.len() == 0);
        }
        s
    }

    /// Sets how long messages live before the janitor evicts them. A zero
    /// hour count is not accepted: message evanescence is the point of the
    /// server, so callers must reject it rather than pass it on.
    pub fn set_message_ttl(&mut self, hours: u64)
        requires
            1 <= hours <= u64::MAX / 3600,
        ensures
            final(self)@ == (ServerStateView { message_ttl: (hours * 3600) as u64, ..old(self)@ }),
    {
        self.message_ttl = hours * 3600;
    }

    /// Sets how long a session may idle before the janitor expires it. A
    /// zero hour count is not accepted.
    pub fn set_session_timeout(&mut self, hours: u64)
        requires
            1 <= hours <= u64::MAX / 3600,
        ensures
            final(self)@ == (ServerStateView {
                session_timeout: (hours * 3600) as u64,
                ..old(self)@
            }),
    {
        self.session_timeout = hours * 3600;
    }
}

/// What registration does: any previous connection under the same id is
/// disconnected, then a fresh user record with a new session is added and
/// welcomed.
pub open spec fn spec_register(
    sv: ServerStateView,
    claims: TokenClaimsView,
    pic: Seq<u8>,
    session_id: Seq<u8>,
    key: Seq<u8>,
    now: u64,
) -> Effect {
    let uid = claims.sub;
    let d = spec_disconnect(sv, uid);
    let u = UserView {
        id: uid,
        username: claims.username,
        profile_pic: pic,
        channels: Seq::empty(),
        session: Some(
            SessionView {
                id: session_id,
                user_id: uid,
                started_at: now,
                last_activity: now,
                encryption_key: key,
                nonce_counter: 0,
            },
        ),
        messages: Seq::empty(),
    };
    Effect {
        sv: ServerStateView { users: d.sv.users.push(u), ..d.sv },
        frames: d.frames + seq![
            FrameView { to: uid, bytes: crate::frames::welcome_frame(uid, claims.username) },
            FrameView {
                to: uid,
                bytes: crate::frames::ttl_notice_frame(uid, (sv.message_ttl / 60) as nat),
            },
        ],
    }
}

/// Admits an authenticated connection: replaces any previous record under
/// the same id, installs the fresh session, and returns the welcome frames.
pub fn register_user(
    server: &mut ServerState,
    claims: &TokenClaims,
    profile_pic: Vec<u8>,
    session_id: Vec<u8>,
    encryption_key: [u8; 32],
    now: u64,
) -> (r: Vec<Frame>)
    requires
        wf(old(server)@),
    ensures
        final(server)@ == spec_register(
            old(server)@,
            claims@,
            profile_pic@,
            session_id@,
            encryption_key@,
            now,
        ).sv,
        fv(r@) == spec_register(
            old(server)@,
            claims@,
            profile_pic@,
            session_id@,
            encryption_key@,
            now,
        ).frames,
        wf(final(server)@),
{
    proof {
        crate::laws::lemma_register_wf(
            old(server)@,
            claims@,
            profile_pic@,
            session_id@,
            encryption_key@,
            now,
        );
    }
    let ghost sv0 = server@;
    let ttl_minutes = server.message_ttl / 60;
    let mut out = disconnect_user(server, claims.sub.as_slice());
    let uid = copy_bytes(claims.sub.as_slice());
    let username = copy_bytes(claims.username.as_slice());
    let session = Session::new(
        copy_bytes(session_id.as_slice()),
        copy_bytes(claims.sub.as_slice()),
        encryption_key,
        now,
    );
    let user = User {
        id: copy_bytes(claims.sub.as_slice()),
        username: copy_bytes(claims.username.as_slice()),
        profile_pic,
        channels: Vec::new(),
        session: Some(session),
        messages: Vec::new(),
    };
    server.users.push(user);
    let w1 = crate::frames::build_welcome_frame(uid.as_slice(), username.as_slice());
    let ghost o1 = out@;
    out.push(Frame { to: copy_bytes(uid.as_slice()), bytes: w1 });
    proof {
        crate::handler::lemma_fv_push(o1, out@.last());
    }
    let w2 = crate::frames::build_ttl_notice_frame(uid.as_slice(), ttl_minutes);
    let ghost o2 = out@;
    out.push(Frame { to: copy_bytes(uid.as_slice()), bytes: w2 });
    proof {
        crate::handler::lemma_fv_push(o2, out@.last());
        let e = spec_register(sv0, claims@, profile_pic@, session_id@, encryption_key@, now);
        assert(server@ =~~= e.sv);
        assert(fv(out@) =~~= e.frames);
    }
    out
}

} // verus!