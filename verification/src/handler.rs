//! The shared server directory and the per-connection command handler.
//!
//! `ServerState` is the single record every connection works on: users,
//! channels, memberships and message histories. `MessageHandler` dispatches
//! one parsed command line against it. Handlers never touch sockets: they
//! return the frames to deliver, each addressed to a user id, and the caller
//! writes them out.

use vstd::prelude::*;

use crate::bytes::{
    append_bytes, append_str, ascii, bytes_eq, copy_bytes, contains_bytes, contains_seq, find_byte,
    to_upper, upper,
};
use crate::models::{
    all_zero, secure_delete_message, Channel, ChannelView, ChatMessage, ChatMessageView, User,
    UserView, HISTORY_CAP,
};

verus! {

/// One outbound line, addressed to the user who should receive it.
#[derive(Debug)]
pub struct Frame {
    pub to: Vec<u8>,
    pub bytes: Vec<u8>,
}

#[verifier::ext_equal]
pub struct FrameView {
    pub to: Seq<u8>,
    pub bytes: Seq<u8>,
}

impl View for Frame {
    type V = FrameView;

    open spec fn view(&self) -> FrameView {
        FrameView { to: self.to@, bytes: self.bytes@ }
    }
}

/// The views of a sequence of frames.
pub open spec fn fv(s: Seq<Frame>) -> Seq<FrameView> {
    Seq::new(s.len(), |i: int| s[i]@)
}

/// The shared in-memory directory of the server.
pub struct ServerState {
    pub users: Vec<User>,
    pub channels: Vec<Channel>,
    pub jwt_secret: Vec<u8>,
    pub message_ttl: u64,
    pub session_timeout: u64,
}

#[verifier::ext_equal]
pub struct ServerStateView {
    pub users: Seq<UserView>,
    pub channels: Seq<ChannelView>,
    pub jwt_secret: Seq<u8>,
    pub message_ttl: u64,
    pub session_timeout: u64,
}

impl View for ServerState {
    type V = ServerStateView;

    open spec fn view(&self) -> ServerStateView {
        ServerStateView {
            users: Seq::new(self.users@.len(), |i: int| self.users@[i]@),
            channels: Seq::new(self.channels@.len(), |i: int| self.channels@[i]@),
            jwt_secret: self.jwt_secret@,
            message_ttl: self.message_ttl,
            session_timeout: self.session_timeout,
        }
    }
}

// ---------------------------------------------------------------------------
// Spec-level accessors over the directory view.
// ---------------------------------------------------------------------------

pub open spec fn has_user(sv: ServerStateView, id: Seq<u8>) -> bool {
    exists|i: int| 0 <= i < sv.users.len() && (#[trigger] sv.users[i]).id == id
}

/// Index of the user with the given id (meaningful when `has_user` holds and
/// ids are distinct).
pub open spec fn uidx(sv: ServerStateView, id: Seq<u8>) -> int {
    choose|i: int| 0 <= i < sv.users.len() && (#[trigger] sv.users[i]).id == id
}

pub open spec fn the_user(sv: ServerStateView, id: Seq<u8>) -> UserView {
    sv.users[uidx(sv, id)]
}

pub open spec fn has_channel(sv: ServerStateView, name: Seq<u8>) -> bool {
    exists|i: int| 0 <= i < sv.channels.len() && (#[trigger] sv.channels[i]).name == name
}

pub open spec fn cidx(sv: ServerStateView, name: Seq<u8>) -> int {
    choose|i: int| 0 <= i < sv.channels.len() && (#[trigger] sv.channels[i]).name == name
}

pub open spec fn the_chan(sv: ServerStateView, name: Seq<u8>) -> ChannelView {
    sv.channels[cidx(sv, name)]
}

/// All elements of `s` differ from one another.
pub open spec fn distinct(s: Seq<Seq<u8>>) -> bool {
    forall|i: int, j: int| 0 <= i < j < s.len() ==> s[i] != s[j]
}

/// No two user records share an id.
pub open spec fn distinct_ids(users: Seq<UserView>) -> bool {
    forall|i: int, j: int|
        0 <= i < j < users.len() ==> (#[trigger] users[i]).id != (#[trigger] users[j]).id
}

/// No two channels share a name.
pub open spec fn distinct_names(channels: Seq<ChannelView>) -> bool {
    forall|i: int, j: int|
        0 <= i < j < channels.len() ==> (#[trigger] channels[i]).name != (#[trigger] channels[j]).name
}

/// Well-formedness of one channel with respect to the directory.
pub open spec fn wf_channel(sv: ServerStateView, c: ChannelView) -> bool {
    &&& distinct(c.users)
    &&& forall|k: int| 0 <= k < c.users.len() ==> has_user(sv, #[trigger] c.users[k])
    &&& c.messages.len() <= HISTORY_CAP as int
}

/// Well-formedness of one user record with respect to the directory.
pub open spec fn wf_user(sv: ServerStateView, u: UserView) -> bool {
    &&& distinct(u.channels)
    &&& forall|k: int| 0 <= k < u.channels.len() ==> has_channel(sv, #[trigger] u.channels[k])
    &&& u.messages.len() <= HISTORY_CAP as int
    &&& u.session is Some ==> u.session->0.user_id == u.id
}

/// The directory invariant: unique keys, closed references, and two-way
/// membership symmetry between users and channels.
pub open spec fn wf(sv: ServerStateView) -> bool {
    &&& distinct_ids(sv.users)
    &&& distinct_names(sv.channels)
    &&& forall|ci: int| 0 <= ci < sv.channels.len() ==> wf_channel(sv, #[trigger] sv.channels[ci])
    &&& forall|ui: int| 0 <= ui < sv.users.len() ==> wf_user(sv, #[trigger] sv.users[ui])
    &&& forall|ci: int, ui: int|
        0 <= ci < sv.channels.len() && 0 <= ui < sv.users.len() ==> ((
        #[trigger] sv.channels[ci]).users.contains(sv.users[ui].id) <==> (
        #[trigger] sv.users[ui]).channels.contains(sv.channels[ci].name))
}

/// The unique index whose user has the given id.
pub proof fn lemma_uidx(sv: ServerStateView, id: Seq<u8>)
    requires
        distinct_ids(sv.users),
        has_user(sv, id),
    ensures
        0 <= uidx(sv, id) < sv.users.len(),
        the_user(sv, id).id == id,
        forall|i: int| 0 <= i < sv.users.len() && (#[trigger] sv.users[i]).id == id ==> i == uidx(
            sv,
            id,
        ),
{
    let w = uidx(sv, id);
    assert(0 <= w < sv.users.len() && sv.users[w].id == id);
    assert forall|i: int|
        0 <= i < sv.users.len() && (#[trigger] sv.users[i]).id == id implies i == w by {
        if i < w {
            assert(sv.users[i].id != sv.users[w].id);
        } else if w < i {
            assert(sv.users[w].id != sv.users[i].id);
        }
    }
}

/// The unique index whose channel has the given name.
pub proof fn lemma_cidx(sv: ServerStateView, name: Seq<u8>)
    requires
        distinct_names(sv.channels),
        has_channel(sv, name),
    ensures
        0 <= cidx(sv, name) < sv.channels.len(),
        the_chan(sv, name).name == name,
        forall|i: int|
            0 <= i < sv.channels.len() && (#[trigger] sv.channels[i]).name == name ==> i == cidx(
                sv,
                name,
            ),
{
    let w = cidx(sv, name);
    assert(0 <= w < sv.channels.len() && sv.channels[w].name == name);
    assert forall|i: int|
        0 <= i < sv.channels.len() && (#[trigger] sv.channels[i]).name == name implies i == w by {
        if i < w {
            assert(sv.channels[i].name != sv.channels[w].name);
        } else if w < i {
            assert(sv.channels[w].name != sv.channels[i].name);
        }
    }
}

// ---------------------------------------------------------------------------
// Executable lookups.
// ---------------------------------------------------------------------------

impl ServerState {
    /// Finds the index of the user with the given id.
    pub fn find_user(&self, id: &[u8]) -> (r: Option<usize>)
        ensures
            match r {
                Some(i) => i < self@.users.len() && self@.users[i as int].id == id@,
                None => !has_user(self@, id@),
            },
            r is Some <==> has_user(self@, id@),
    {
        let n = self.users.len();
        let mut i: usize = 0;
        while i < n
            invariant
                n == self@.users.len(),
                i <= n,
                forall|j: int| 0 <= j < i ==> (#[trigger] self@.users[j]).id != id@,
            decreases n - i,
        {
            if bytes_eq(self.users[i].id.as_slice(), id) {
                proof {
                    assert(self@.users[i as int].id == id@);
                    assert(has_user(self@, id@));
                }
                return Some(i);
            }
            i = i + 1;
        }
        None
    }

    /// Finds the index of the channel with the given name.
    pub fn find_channel(&self, name: &[u8]) -> (r: Option<usize>)
        ensures
            match r {
                Some(i) => i < self@.channels.len() && self@.channels[i as int].name == name@,
                None => !has_channel(self@, name@),
            },
            r is Some <==> has_channel(self@, name@),
    {
        let n = self.channels.len();
        let mut i: usize = 0;
        while i < n
            invariant
                n == self@.channels.len(),
                i <= n,
                forall|j: int| 0 <= j < i ==> (#[trigger] self@.channels[j]).name != name@,
            decreases n - i,
        {
            if bytes_eq(self.channels[i].name.as_slice(), name) {
                proof {
                    assert(self@.channels[i as int].name == name@);
                    assert(has_channel(self@, name@));
                }
                return Some(i);
            }
            i = i + 1;
        }
        None
    }
}

// ---------------------------------------------------------------------------
// Command parsing: a line splits at its first two spaces into
// `<verb> <arg1> <rest>`.
// ---------------------------------------------------------------------------

/// Index of the first space in `s`, or `s.len()` if there is none.
pub open spec fn first_sp(s: Seq<u8>) -> int
    decreases s.len(),
{
    if s.len() == 0 {
        0
    } else if s[0] == 0x20 {
        0
    } else {
        1 + first_sp(s.drop_first())
    }
}

pub proof fn lemma_first_sp(s: Seq<u8>)
    ensures
        0 <= first_sp(s) <= s.len(),
        forall|j: int| 0 <= j < first_sp(s) ==> s[j] != 0x20,
        first_sp(s) < s.len() ==> s[first_sp(s)] == 0x20,
    decreases s.len(),
{
    if s.len() == 0 {
    } else if s[0] == 0x20 {
    } else {
        lemma_first_sp(s.drop_first());
        assert forall|j: int| 0 <= j < first_sp(s) implies s[j] != 0x20 by {
            if j > 0 {
                assert(s.drop_first()[j - 1] == s[j]);
            }
        }
        if first_sp(s) < s.len() {
            assert(s.drop_first()[first_sp(s) - 1] == s[first_sp(s)]);
        }
    }
}

/// If the space bytes of `s` start exactly at `i`, then `first_sp(s) == i`.
pub proof fn lemma_first_sp_at(s: Seq<u8>, i: int)
    requires
        0 <= i <= s.len(),
        forall|j: int| 0 <= j < i ==> s[j] != 0x20,
        i < s.len() ==> s[i] == 0x20,
    ensures
        first_sp(s) == i,
    decreases i,
{
    if s.len() == 0 {
    } else if i == 0 {
        lemma_first_sp(s);
    } else {
        assert(s[0] != 0x20);
        assert forall|j: int| 0 <= j < i - 1 implies s.drop_first()[j] != 0x20 by {
            assert(s.drop_first()[j] == s[j + 1]);
        }
        lemma_first_sp_at(s.drop_first(), i - 1);
    }
}

/// A command line split at its first two spaces.
pub struct CommandParts {
    pub verb: Vec<u8>,
    pub arg1: Option<Vec<u8>>,
    pub rest: Option<Vec<u8>>,
}

#[verifier::ext_equal]
pub struct CommandPartsView {
    pub verb: Seq<u8>,
    pub arg1: Option<Seq<u8>>,
    pub rest: Option<Seq<u8>>,
}

impl View for CommandParts {
    type V = CommandPartsView;

    open spec fn view(&self) -> CommandPartsView {
        CommandPartsView {
            verb: self.verb@,
            arg1: match self.arg1 {
                Some(ref v) => Some(v@),
                None => None,
            },
            rest: match self.rest {
                Some(ref v) => Some(v@),
                None => None,
            },
        }
    }
}

/// How a command line is split: verb up to the first space, first argument up
/// to the second space, and the untouched remainder.
pub open spec fn spec_parts(s: Seq<u8>) -> CommandPartsView {
    let i = first_sp(s);
    if i == s.len() {
        CommandPartsView { verb: s, arg1: None, rest: None }
    } else {
        let verb = s.take(i);
        let r1 = s.skip(i + 1);
        let j = first_sp(r1);
        if j == r1.len() {
            CommandPartsView { verb, arg1: Some(r1), rest: None }
        } else {
            CommandPartsView { verb, arg1: Some(r1.take(j)), rest: Some(r1.skip(j + 1)) }
        }
    }
}

/// Splits a raw command line at its first two spaces.
pub fn parse_parts(line: &[u8]) -> (r: CommandParts)
    ensures
        r@ == spec_parts(line@),
{
    match find_byte(line, 0, 0x20) {
        None => {
            proof {
                lemma_first_sp_at(line@, line@.len() as int);
            }
            CommandParts { verb: copy_bytes(line), arg1: None, rest: None }
        },
        Some(i) => {
            let n = line.len();
            proof {
                lemma_first_sp_at(line@, i as int);
            }
            let verb = copy_bytes(vstd::slice::slice_subrange(line, 0, i));
            let r1 = vstd::slice::slice_subrange(line, i + 1, n);
            proof {
                assert(r1@ =~= line@.skip(i + 1));
            }
            match find_byte(r1, 0, 0x20) {
                None => {
                    proof {
                        lemma_first_sp_at(r1@, r1@.len() as int);
                        assert(line@.take(i as int) =~= verb@);
                    }
                    CommandParts { verb, arg1: Some(copy_bytes(r1)), rest: None }
                },
                Some(j) => {
                    let n1 = r1.len();
                    proof {
                        lemma_first_sp_at(r1@, j as int);
                        assert(line@.take(i as int) =~= verb@);
                    }
                    let a1 = copy_bytes(vstd::slice::slice_subrange(r1, 0, j));
                    let rest = copy_bytes(vstd::slice::slice_subrange(r1, j + 1, n1));
                    proof {
                        assert(a1@ =~= line@.skip(i + 1).take(j as int));
                        assert(rest@ =~= line@.skip(i + 1).skip(j + 1));
                    }
                    CommandParts { verb, arg1: Some(a1), rest: Some(rest) }
                },
            }
        },
    }
}

// ---------------------------------------------------------------------------
// Building blocks of the command effects.
// ---------------------------------------------------------------------------

/// A fresh channel created on first JOIN.
pub open spec fn new_channel(name: Seq<u8>, now: u64) -> ChannelView {
    ChannelView {
        name,
        topic: Seq::empty(),
        users: Seq::empty(),
        messages: Seq::empty(),
        created_at: now,
        last_activity: now,
    }
}

/// Appends to a bounded history, evicting the oldest entry past the cap.
pub open spec fn cap_push(h: Seq<ChatMessageView>, m: ChatMessageView) -> Seq<ChatMessageView> {
    let h1 = h.push(m);
    if h1.len() > HISTORY_CAP as int {
        h1.skip(h1.len() - HISTORY_CAP as int)
    } else {
        h1
    }
}

/// A history entry recorded by the server itself.
pub open spec fn system_msg(text: Seq<u8>, now: u64) -> ChatMessageView {
    ChatMessageView { sender: ascii("SYSTEM"@), content: text, timestamp: now, encrypted: Seq::empty() }
}

/// A history entry for a user-sent line.
pub open spec fn chat_msg(sender: Seq<u8>, content: Seq<u8>, now: u64) -> ChatMessageView {
    ChatMessageView { sender, content, timestamp: now, encrypted: Seq::empty() }
}

pub open spec fn oview(e: Option<&[u8]>) -> Option<Seq<u8>> {
    match e {
        Some(x) => Some(x@),
        None => None,
    }
}

/// The frames a channel broadcast produces: one line per listed member, in
/// member-list order, skipping the excluded user and ids with no user record.
pub open spec fn broadcast_frames(
    sv: ServerStateView,
    members: Seq<Seq<u8>>,
    chan: Seq<u8>,
    text: Seq<u8>,
    exclude: Option<Seq<u8>>,
) -> Seq<FrameView>
    decreases members.len(),
{
    if members.len() == 0 {
        Seq::empty()
    } else {
        let rest = broadcast_frames(sv, members.drop_last(), chan, text, exclude);
        let m = members.last();
        if exclude == Some(m) || !has_user(sv, m) {
            rest
        } else {
            rest.push(
                FrameView {
                    to: m,
                    bytes: crate::frames::chan_privmsg_frame(chan, the_user(sv, m).username, text),
                },
            )
        }
    }
}

/// Compares a byte string against an ASCII literal.
pub fn eq_lit(v: &[u8], lit: &str) -> (r: bool)
    requires
        lit.is_ascii(),
    ensures
        r == (v@ == ascii(lit@)),
{
    let b = lit.as_bytes();
    proof {
        broadcast use vstd::string::is_ascii_spec_bytes;

        assert(b@ =~= ascii(lit@));
    }
    bytes_eq(v, b)
}

/// Errors a handler reports to the connection loop instead of answering the
/// client directly.
#[derive(Debug)]
pub enum HandlerError {
    UserNotFound,
    SenderNotFound,
    RecipientNotFound(Vec<u8>),
}

impl HandlerError {
    /// The text the connection loop reports for this error, as the body of an
    /// `ERROR :` line.
    pub fn message(&self) -> (r: Vec<u8>)
        ensures
            (self matches HandlerError::UserNotFound ==> r@ == ascii("User not found"@)),
            (self matches HandlerError::SenderNotFound ==> r@ == ascii("Sender not found"@)),
            (self matches HandlerError::RecipientNotFound(t) ==> r@ == ascii("User "@) + t@
                + ascii(" not found"@)),
    {
        match self {
            HandlerError::UserNotFound => {
                proof {
                    reveal_strlit("User not found");
                    assert(("User not found").is_ascii());
                }
                let mut out: Vec<u8> = Vec::new();
                append_str(&mut out, "User not found");
                out
            },
            HandlerError::SenderNotFound => {
                proof {
                    reveal_strlit("Sender not found");
                    assert(("Sender not found").is_ascii());
                }
                let mut out: Vec<u8> = Vec::new();
                append_str(&mut out, "Sender not found");
                out
            },
            HandlerError::RecipientNotFound(t) => {
                proof {
                    reveal_strlit("User ");
                    reveal_strlit(" not found");
                    assert(("User ").is_ascii());
                    assert((" not found").is_ascii());
                }
                crate::frames::cat_a("User ", t.as_slice(), " not found")
            },
        }
    }
}

/// Dispatches commands for one connected user.
pub struct MessageHandler {
    pub user_id: Vec<u8>,
}

impl MessageHandler {
    pub fn new(user_id: Vec<u8>) -> (h: MessageHandler)
        ensures
            h.user_id@ == user_id@,
    {
        MessageHandler { user_id }
    }

    /// One `ERROR :<msg>` frame back to this handler's own user.
    fn send_error(&self, msg: &str, out: &mut Vec<Frame>)
        requires
            msg.is_ascii(),
        ensures
            fv(final(out)@) == fv(old(out)@).push(
                FrameView {
                    to: self.user_id@,
                    bytes: crate::frames::error_frame(ascii(msg@)),
                },
            ),
    {
        let mut text: Vec<u8> = Vec::new();
        append_str(&mut text, msg);
        let bytes = crate::frames::build_error_frame(text.as_slice());
        let f = Frame { to: copy_bytes(self.user_id.as_slice()), bytes };
        out.push(f);
        proof {
            assert(fv(final(out)@) =~= fv(old(out)@).push(
                FrameView {
                    to: self.user_id@,
                    bytes: crate::frames::error_frame(ascii(msg@)),
                },
            ));
        }
    }
}

/// Appends the broadcast frames for one channel to `out`; a no-op when the
/// channel does not exist.
pub fn broadcast_to_channel(
    server: &ServerState,
    channel_name: &[u8],
    message: &[u8],
    exclude_user: Option<&[u8]>,
    out: &mut Vec<Frame>,
)
    requires
        distinct_ids(server@.users),
        distinct_names(server@.channels),
    ensures
        has_channel(server@, channel_name@) ==> fv(final(out)@) == fv(old(out)@)
            + broadcast_frames(
            server@,
            the_chan(server@, channel_name@).users,
            channel_name@,
            message@,
            oview(exclude_user),
        ),
        !has_channel(server@, channel_name@) ==> final(out)@ == old(out)@,
{
    let ghost sv = server@;
    let ci = match server.find_channel(channel_name) {
        None => {
            return ;
        },
        Some(ci) => ci,
    };
    proof {
        lemma_cidx(sv, channel_name@);
        assert(cidx(sv, channel_name@) == ci as int);
    }
    let ghost members = the_chan(sv, channel_name@).users;
    let ghost orig = out@;
    let n = server.channels[ci].users.len();
    proof {
        assert(server.channels@[ci as int].users.deep_view() =~= members);
    }
    let mut k: usize = 0;
    while k < n
        invariant
            distinct_ids(sv.users),
            distinct_names(sv.channels),
            sv == server@,
            ci < sv.channels.len(),
            members == sv.channels[ci as int].users,
            n == members.len(),
            k <= n,
            fv(out@) == fv(orig) + broadcast_frames(
                sv,
                members.take(k as int),
                channel_name@,
                message@,
                oview(exclude_user),
            ),
        decreases n - k,
    {
        proof {
            assert(members.take(k + 1).drop_last() =~= members.take(k as int));
            assert(members.take(k + 1).last() == members[k as int]);
            assert(server.channels@[ci as int].users@[k as int]@ == members[k as int]);
        }
        let m: &Vec<u8> = &server.channels[ci].users[k];
        let skip = match exclude_user {
            Some(ex) => bytes_eq(m.as_slice(), ex),
            None => false,
        };
        if !skip {
            match server.find_user(m.as_slice()) {
                Some(uj) => {
                    proof {
                        lemma_uidx(sv, members[k as int]);
                        assert(uidx(sv, members[k as int]) == uj as int);
                    }
                    let bytes = crate::frames::build_chan_privmsg_frame(
                        channel_name,
                        server.users[uj].username.as_slice(),
                        message,
                    );
                    let f = Frame { to: copy_bytes(m.as_slice()), bytes };
                    let ghost fg = f@;
                    let ghost out0 = out@;
                    out.push(f);
                    proof {
                        let exv = oview(exclude_user);
                        let pre = broadcast_frames(sv, members.take(k as int), channel_name@, message@, exv);
                        let cur = broadcast_frames(sv, members.take(k + 1), channel_name@, message@, exv);
                        assert(exv != Some(members[k as int]));
                        assert(has_user(sv, members[k as int]));
                        assert(cur == pre.push(fg));
                        lemma_fv_push(out0, out@.last());
                        assert(fv(out@) =~= fv(orig) + cur);
                    }
                },
                None => {
                    proof {
                        assert(fv(out@) =~= fv(orig) + broadcast_frames(
                            sv,
                            members.take(k + 1),
                            channel_name@,
                            message@,
                            oview(exclude_user),
                        ));
                    }
                },
            }
        } else {
            proof {
                assert(fv(out@) =~= fv(orig) + broadcast_frames(
                    sv,
                    members.take(k + 1),
                    channel_name@,
                    message@,
                    oview(exclude_user),
                ));
            }
        }
        k = k + 1;
    }
    proof {
        assert(members.take(n as int) =~= members);
    }
}

// ---------------------------------------------------------------------------
// The JOIN command.
// ---------------------------------------------------------------------------

/// The outcome of a command: the next directory state and the frames to send.
#[verifier::ext_equal]
pub struct Effect {
    pub sv: ServerStateView,
    pub frames: Seq<FrameView>,
}

/// Views of a pushed frame sequence.
pub proof fn lemma_fv_push(s: Seq<Frame>, f: Frame)
    ensures
        fv(s.push(f)) == fv(s).push(f@),
{
    assert(fv(s.push(f)) =~= fv(s).push(f@));
}

/// What JOIN does when the joining user exists: create the channel if needed,
/// record the membership on both sides, confirm to the user, tell the other
/// members, and log a system line in the channel history.
pub open spec fn spec_join(sv: ServerStateView, uid: Seq<u8>, chan: Seq<u8>, now: u64) -> Effect {
    let sv1 = if has_channel(sv, chan) {
        sv
    } else {
        ServerStateView { channels: sv.channels.push(new_channel(chan, now)), ..sv }
    };
    let ci = cidx(sv1, chan);
    let c = sv1.channels[ci];
    let c2 = ChannelView {
        users: if c.users.contains(uid) {
            c.users
        } else {
            c.users.push(uid)
        },
        last_activity: now,
        ..c
    };
    let sv2 = ServerStateView { channels: sv1.channels.update(ci, c2), ..sv1 };
    let ui = uidx(sv2, uid);
    let u = sv2.users[ui];
    let u2 = UserView {
        channels: if u.channels.contains(chan) {
            u.channels
        } else {
            u.channels.push(chan)
        },
        ..u
    };
    let sv3 = ServerStateView { users: sv2.users.update(ui, u2), ..sv2 };
    let text = crate::frames::joined_text(u.username, chan);
    let frames = seq![
        FrameView { to: uid, bytes: crate::frames::self_join_frame(uid, chan) },
    ] + broadcast_frames(sv3, c2.users, chan, text, Some(uid));
    let c3 = ChannelView {
        messages: cap_push(c2.messages, system_msg(text, now)),
        last_activity: now,
        ..c2
    };
    let sv4 = ServerStateView { channels: sv3.channels.update(ci, c3), ..sv3 };
    Effect { sv: sv4, frames }
}

/// Whether a list of names contains `x`.
pub fn vec_contains_name(v: &Vec<Vec<u8>>, x: &[u8]) -> (r: bool)
    ensures
        r == v.deep_view().contains(x@),
{
    let n = v.len();
    let mut i: usize = 0;
    while i < n
        invariant
            n == v@.len(),
            i <= n,
            forall|j: int| 0 <= j < i ==> v.deep_view()[j] != x@,
        decreases n - i,
    {
        let hit = bytes_eq(v[i].as_slice(), x);
        proof {
            assert(v.deep_view()[i as int] =~= v@[i as int]@);
        }
        if hit {
            return true;
        }
        i = i + 1;
    }
    false
}

/// Appends one line to a channel history, evicting past the cap, and marks
/// the channel active; no effect when the channel does not exist.
pub fn store_channel_message(
    server: &mut ServerState,
    channel_name: &[u8],
    sender: &[u8],
    content: &[u8],
    now: u64,
)
    requires
        distinct_names(old(server)@.channels),
        forall|ci: int|
            0 <= ci < old(server)@.channels.len() ==> (#[trigger] old(
                server,
            )@.channels[ci]).messages.len() <= HISTORY_CAP as int,
    ensures
        !has_channel(old(server)@, channel_name@) ==> final(server)@ == old(server)@,
        has_channel(old(server)@, channel_name@) ==> final(server)@ == (ServerStateView {
            channels: old(server)@.channels.update(
                cidx(old(server)@, channel_name@),
                (ChannelView {
                    messages: cap_push(
                        the_chan(old(server)@, channel_name@).messages,
                        chat_msg(sender@, content@, now),
                    ),
                    last_activity: now,
                    ..the_chan(old(server)@, channel_name@)
                }),
            ),
            ..old(server)@
        }),
{
    let ghost sv0 = server@;
    let ci = match server.find_channel(channel_name) {
        None => {
            return ;
        },
        Some(ci) => ci,
    };
    proof {
        lemma_cidx(sv0, channel_name@);
        assert(cidx(sv0, channel_name@) == ci as int);
    }
    let msg = ChatMessage {
        sender: copy_bytes(sender),
        content: copy_bytes(content),
        timestamp: now,
        encrypted: Vec::new(),
    };
    let ghost mv = msg@;
    server.channels[ci].messages.push(msg);
    if server.channels[ci].messages.len() > HISTORY_CAP {
        let _evicted = server.channels[ci].messages.remove(0);
    }
    server.channels[ci].last_activity = now;
    proof {
        assert(mv == chat_msg(sender@, content@, now));
        let c = the_chan(sv0, channel_name@);
        let c3 = ChannelView {
            messages: cap_push(c.messages, chat_msg(sender@, content@, now)),
            last_activity: now,
            ..c
        };
        assert(server@.channels[ci as int].messages =~~= c3.messages);
        assert(server@.channels[ci as int] =~~= c3);
        assert(server@ =~~= (ServerStateView {
            channels: sv0.channels.update(ci as int, c3),
            ..sv0
        }));
    }
}

impl MessageHandler {
    /// JOIN: create-if-absent, add the membership on both sides, confirm to
    /// the caller, notify the channel, and log a system history line.
    pub fn handle_join(
        &self,
        server: &mut ServerState,
        arg1: Option<&Vec<u8>>,
        now: u64,
    ) -> (r: Result<Vec<Frame>, HandlerError>)
        requires
            wf(old(server)@),
        ensures
            (r matches Err(e) ==> final(server)@ == old(server)@ && arg1 is Some && !has_user(
                old(server)@,
                self.user_id@,
            ) && e == HandlerError::UserNotFound),
            (r matches Ok(frames) ==> match arg1 {
                None => final(server)@ == old(server)@ && fv(frames@) == seq![
                    FrameView {
                        to: self.user_id@,
                        bytes: crate::frames::error_frame(
                            ascii("Not enough parameters for JOIN"@),
                        ),
                    },
                ],
                Some(chan) => has_user(old(server)@, self.user_id@) && final(server)@ == spec_join(
                    old(server)@,
                    self.user_id@,
                    chan@,
                    now,
                ).sv && fv(frames@) == spec_join(old(server)@, self.user_id@, chan@, now).frames,
            }),
    {
        let mut out: Vec<Frame> = Vec::new();
        let chan: &Vec<u8> = match arg1 {
            None => {
                proof {
                    reveal_strlit("Not enough parameters for JOIN");
                    assert(("Not enough parameters for JOIN").is_ascii());
                }
                self.send_error("Not enough parameters for JOIN", &mut out);
                proof {
                    assert(fv(out@) =~= seq![
                        FrameView {
                            to: self.user_id@,
                            bytes: crate::frames::error_frame(
                                ascii("Not enough parameters for JOIN"@),
                            ),
                        },
                    ]);
                }
                return Ok(out);
            },
            Some(c) => c,
        };
        let ghost sv0 = server@;
        let ui = match server.find_user(self.user_id.as_slice()) {
            None => {
                return Err(HandlerError::UserNotFound);
            },
            Some(ui) => ui,
        };
        proof {
            lemma_uidx(sv0, self.user_id@);
            assert(uidx(sv0, self.user_id@) == ui as int);
        }
        // Create the channel if it does not exist.
        let ci = match server.find_channel(chan.as_slice()) {
            Some(ci) => ci,
            None => {
                let ci = server.channels.len();
                let c = Channel {
                    name: copy_bytes(chan.as_slice()),
                    topic: Vec::new(),
                    users: Vec::new(),
                    messages: Vec::new(),
                    created_at: now,
                    last_activity: now,
                };
                server.channels.push(c);
                ci
            },
        };
        let ghost sv1 = server@;
        proof {
            if has_channel(sv0, chan@) {
                assert(sv1 =~~= sv0);
            } else {
                assert(sv1.channels[ci as int] =~~= new_channel(chan@, now));
                assert(sv1 =~~= (ServerStateView {
                    channels: sv0.channels.push(new_channel(chan@, now)),
                    ..sv0
                }));
            }
            assert forall|i: int, j: int| 0 <= i < j < sv1.channels.len() implies (
            #[trigger] sv1.channels[i]).name != (#[trigger] sv1.channels[j]).name by {
                if j == sv1.channels.len() - 1 && !has_channel(sv0, chan@) {
                    assert(sv1.channels[i].name == sv0.channels[i].name);
                }
            }
            assert(distinct_names(sv1.channels));
            assert(sv1.channels[ci as int].name == chan@);
            assert(has_channel(sv1, chan@));
            lemma_cidx(sv1, chan@);
            assert(cidx(sv1, chan@) == ci as int);
        }
        // Add the user to the channel's member list.
        if !vec_contains_name(&server.channels[ci].users, self.user_id.as_slice()) {
            let idv = copy_bytes(self.user_id.as_slice());
            server.channels[ci].users.push(idv);
            proof {
                assert(server@.channels[ci as int].users =~~= sv1.channels[ci as int].users.push(
                    self.user_id@,
                ));
            }
        }
        server.channels[ci].last_activity = now;
        let ghost sv2 = server@;
        let ghost c2 = spec_join(sv0, self.user_id@, chan@, now).sv;
        proof {
            let c = sv1.channels[ci as int];
            let c2v = ChannelView {
                users: if c.users.contains(self.user_id@) {
                    c.users
                } else {
                    c.users.push(self.user_id@)
                },
                last_activity: now,
                ..c
            };
            assert(server@.channels[ci as int] =~~= c2v);
            assert(sv2 =~~= (ServerStateView { channels: sv1.channels.update(ci as int, c2v), ..sv1 }));
            assert(sv2.users == sv0.users);
            lemma_uidx(sv2, self.user_id@);
            assert(uidx(sv2, self.user_id@) == ui as int);
        }
        // Record the channel on the user's side, and confirm to the user.
        if !vec_contains_name(&server.users[ui].channels, chan.as_slice()) {
            let cv = copy_bytes(chan.as_slice());
            server.users[ui].channels.push(cv);
            proof {
                assert(server@.users[ui as int].channels =~~= sv2.users[ui as int].channels.push(
                    chan@,
                ));
            }
        }
        let ghost sv3 = server@;
        proof {
            let u = sv2.users[ui as int];
            let u2 = UserView {
                channels: if u.channels.contains(chan@) {
                    u.channels
                } else {
                    u.channels.push(chan@)
                },
                ..u
            };
            assert(server@.users[ui as int] =~~= u2);
            assert(sv3 =~~= (ServerStateView { users: sv2.users.update(ui as int, u2), ..sv2 }));
        }
        let bytes = crate::frames::build_self_join_frame(self.user_id.as_slice(), chan.as_slice());
        let f = Frame { to: copy_bytes(self.user_id.as_slice()), bytes };
        let ghost fg = f@;
        out.push(f);
        proof {
            assert(fv(out@) =~= seq![fg]);
        }
        // Broadcast the join notice to the other members.
        let text = crate::frames::build_joined_text(server.users[ui].username.as_slice(), chan.as_slice());
        proof {
            assert(distinct_ids(sv3.users)) by {
                assert forall|i: int, j: int| 0 <= i < j < sv3.users.len() implies (
                #[trigger] sv3.users[i]).id != (#[trigger] sv3.users[j]).id by {
                    assert(sv3.users[i].id == sv0.users[i].id);
                    assert(sv3.users[j].id == sv0.users[j].id);
                }
            }
            assert(distinct_names(sv3.channels)) by {
                assert forall|i: int, j: int| 0 <= i < j < sv3.channels.len() implies (
                #[trigger] sv3.channels[i]).name != (#[trigger] sv3.channels[j]).name by {
                    assert(sv3.channels[i].name == sv1.channels[i].name);
                    assert(sv3.channels[j].name == sv1.channels[j].name);
                }
            }
            assert(sv3.channels[ci as int].name == chan@);
            assert(has_channel(sv3, chan@));
            lemma_cidx(sv3, chan@);
            assert(cidx(sv3, chan@) == ci as int);
        }
        broadcast_to_channel(server, chan.as_slice(), text.as_slice(), Some(self.user_id.as_slice()), &mut out);
        // Log the join as a system line in the channel history.
        proof {
            assert(forall|k: int|
                0 <= k < server@.channels.len() ==> (#[trigger] server@.channels[k]).messages.len()
                    <= HISTORY_CAP as int) by {
                assert(forall|k: int|
                    0 <= k < sv0.channels.len() ==> wf_channel(sv0, #[trigger] sv0.channels[k]));
            }
        }
        let sys = "SYSTEM";
        proof {
            reveal_strlit("SYSTEM");
            assert(("SYSTEM").is_ascii());
        }
        let mut sender: Vec<u8> = Vec::new();
        append_str(&mut sender, sys);
        store_channel_message(server, chan.as_slice(), sender.as_slice(), text.as_slice(), now);
        proof {
            let e = spec_join(sv0, self.user_id@, chan@, now);
            assert(server@ =~~= e.sv);
            assert(fv(out@) =~~= e.frames);
        }
        Ok(out)
    }
}

// ---------------------------------------------------------------------------
// Preservation of the directory invariant.
// ---------------------------------------------------------------------------

/// The user lists have equal ids position by position.
pub open spec fn same_ids(a: Seq<UserView>, b: Seq<UserView>) -> bool {
    &&& a.len() == b.len()
    &&& forall|i: int| 0 <= i < a.len() ==> (#[trigger] a[i]).id == (#[trigger] b[i]).id
}

/// The channel lists have equal names position by position.
pub open spec fn same_names(a: Seq<ChannelView>, b: Seq<ChannelView>) -> bool {
    &&& a.len() == b.len()
    &&& forall|i: int| 0 <= i < a.len() ==> (#[trigger] a[i]).name == (#[trigger] b[i]).name
}

pub proof fn lemma_has_user_carry(a: ServerStateView, b: ServerStateView, x: Seq<u8>)
    requires
        same_ids(a.users, b.users),
        has_user(a, x),
    ensures
        has_user(b, x),
{
    let i = choose|i: int| 0 <= i < a.users.len() && (#[trigger] a.users[i]).id == x;
    assert(b.users[i].id == x);
}

pub proof fn lemma_has_chan_carry(a: ServerStateView, b: ServerStateView, x: Seq<u8>)
    requires
        same_names(a.channels, b.channels),
        has_channel(a, x),
    ensures
        has_channel(b, x),
{
    let i = choose|i: int| 0 <= i < a.channels.len() && (#[trigger] a.channels[i]).name == x;
    assert(b.channels[i].name == x);
}

pub proof fn lemma_uidx_carry(a: ServerStateView, b: ServerStateView, x: Seq<u8>)
    requires
        same_ids(a.users, b.users),
        distinct_ids(a.users),
        has_user(a, x),
    ensures
        has_user(b, x),
        distinct_ids(b.users),
        uidx(b, x) == uidx(a, x),
{
    lemma_has_user_carry(a, b, x);
    assert forall|i: int, j: int| 0 <= i < j < b.users.len() implies (#[trigger] b.users[i]).id
        != (#[trigger] b.users[j]).id by {
        assert(a.users[i].id != a.users[j].id);
    }
    lemma_uidx(a, x);
    lemma_uidx(b, x);
    assert(b.users[uidx(a, x)].id == x);
}

pub proof fn lemma_cidx_carry(a: ServerStateView, b: ServerStateView, x: Seq<u8>)
    requires
        same_names(a.channels, b.channels),
        distinct_names(a.channels),
        has_channel(a, x),
    ensures
        has_channel(b, x),
        distinct_names(b.channels),
        cidx(b, x) == cidx(a, x),
{
    lemma_has_chan_carry(a, b, x);
    assert forall|i: int, j: int| 0 <= i < j < b.channels.len() implies (
    #[trigger] b.channels[i]).name != (#[trigger] b.channels[j]).name by {
        assert(a.channels[i].name != a.channels[j].name);
    }
    lemma_cidx(a, x);
    lemma_cidx(b, x);
    assert(b.channels[cidx(a, x)].name == x);
}

/// `cap_push` keeps a history within the cap.
pub proof fn lemma_cap_push_len(h: Seq<ChatMessageView>, m: ChatMessageView)
    requires
        h.len() <= HISTORY_CAP as int,
    ensures
        cap_push(h, m).len() <= HISTORY_CAP as int,
{
}

/// JOIN preserves the directory invariant and establishes the membership on
/// both sides.
pub proof fn lemma_join_wf(sv: ServerStateView, uid: Seq<u8>, chan: Seq<u8>, now: u64)
    requires
        wf(sv),
        has_user(sv, uid),
    ensures
        wf(spec_join(sv, uid, chan, now).sv),
        has_user(spec_join(sv, uid, chan, now).sv, uid),
        has_channel(spec_join(sv, uid, chan, now).sv, chan),
        the_user(spec_join(sv, uid, chan, now).sv, uid).channels.contains(chan),
        the_chan(spec_join(sv, uid, chan, now).sv, chan).users.contains(uid),
{
    let sv1 = if has_channel(sv, chan) {
        sv
    } else {
        ServerStateView { channels: sv.channels.push(new_channel(chan, now)), ..sv }
    };
    // Step 1: the directory with the channel present is well-formed.
    assert(wf(sv1)) by {
        if !has_channel(sv, chan) {
            assert forall|i: int, j: int| 0 <= i < j < sv1.channels.len() implies (
            #[trigger] sv1.channels[i]).name != (#[trigger] sv1.channels[j]).name by {
                if j < sv1.channels.len() - 1 {
                    assert(sv.channels[i].name != sv.channels[j].name);
                } else {
                    assert(sv1.channels[i].name == sv.channels[i].name);
                    assert(sv1.channels[j].name == chan);
                }
            }
            assert forall|ci: int| 0 <= ci < sv1.channels.len() implies wf_channel(
                sv1,
                #[trigger] sv1.channels[ci],
            ) by {
                if ci < sv1.channels.len() - 1 {
                    assert(sv1.channels[ci] == sv.channels[ci]);
                    assert(wf_channel(sv, sv.channels[ci]));
                    assert forall|k: int| 0 <= k < sv1.channels[ci].users.len() implies has_user(
                        sv1,
                        #[trigger] sv1.channels[ci].users[k],
                    ) by {
                        lemma_has_user_carry(sv, sv1, sv.channels[ci].users[k]);
                    }
                }
            }
            assert forall|ui: int| 0 <= ui < sv1.users.len() implies wf_user(
                sv1,
                #[trigger] sv1.users[ui],
            ) by {
                assert(sv1.users[ui] == sv.users[ui]);
                assert(wf_user(sv, sv.users[ui]));
                assert forall|k: int| 0 <= k < sv1.users[ui].channels.len() implies has_channel(
                    sv1,
                    #[trigger] sv1.users[ui].channels[k],
                ) by {
                    let x = sv.users[ui].channels[k];
                    assert(has_channel(sv, x));
                    let i = choose|i: int|
                        0 <= i < sv.channels.len() && (#[trigger] sv.channels[i]).name == x;
                    assert(sv1.channels[i].name == x);
                }
            }
            assert forall|ci: int, ui: int|
                0 <= ci < sv1.channels.len() && 0 <= ui < sv1.users.len() implies ((
            #[trigger] sv1.channels[ci]).users.contains(sv1.users[ui].id) <==> (
            #[trigger] sv1.users[ui]).channels.contains(sv1.channels[ci].name)) by {
                if ci < sv1.channels.len() - 1 {
                    assert(sv1.channels[ci] == sv.channels[ci]);
                    assert(sv1.users[ui] == sv.users[ui]);
                } else {
                    // The fresh channel has no members, and no user lists an
                    // unknown channel name.
                    assert(sv1.channels[ci].users.len() == 0);
                    assert(!sv1.channels[ci].users.contains(sv1.users[ui].id));
                    if sv1.users[ui].channels.contains(chan) {
                        let k = choose|k: int|
                            0 <= k < sv.users[ui].channels.len() && (#[trigger] sv.users[ui].channels[k])
                                == chan;
                        assert(has_channel(sv, chan));
                        assert(false);
                    }
                }
            }
        }
    }
    let ci = cidx(sv1, chan);
    assert(has_channel(sv1, chan)) by {
        if has_channel(sv, chan) {
        } else {
            assert(sv1.channels[sv1.channels.len() - 1].name == chan);
        }
    }
    lemma_cidx(sv1, chan);
    let c = sv1.channels[ci];
    let c2 = ChannelView {
        users: if c.users.contains(uid) {
            c.users
        } else {
            c.users.push(uid)
        },
        last_activity: now,
        ..c
    };
    let sv2 = ServerStateView { channels: sv1.channels.update(ci, c2), ..sv1 };
    let ui = uidx(sv2, uid);
    lemma_uidx_carry(sv1, sv2, uid);
    lemma_uidx(sv2, uid);
    let u = sv2.users[ui];
    let u2 = UserView {
        channels: if u.channels.contains(chan) {
            u.channels
        } else {
            u.channels.push(chan)
        },
        ..u
    };
    let sv3 = ServerStateView { users: sv2.users.update(ui, u2), ..sv2 };
    let text = crate::frames::joined_text(u.username, chan);
    let c3 = ChannelView {
        messages: cap_push(c2.messages, system_msg(text, now)),
        last_activity: now,
        ..c2
    };
    let sv4 = ServerStateView { channels: sv3.channels.update(ci, c3), ..sv3 };
    assert(spec_join(sv, uid, chan, now).sv == sv4);
    // Membership is consistent both ways in the updated directory.
    let both = c.users.contains(uid);
    assert(both <==> u.channels.contains(chan)) by {
        assert(sv1.users[ui] == u);
        assert(wf(sv1));
    }
    assert(c3.users.contains(uid)) by {
        if !both {
            assert(c3.users == c.users.push(uid));
            assert(c3.users[c3.users.len() - 1] == uid);
        }
    }
    assert(u2.channels.contains(chan)) by {
        if !both {
            assert(u2.channels[u2.channels.len() - 1] == chan);
        }
    }
    // The invariant holds for the final directory.
    assert(same_ids(sv1.users, sv4.users));
    assert(same_names(sv1.channels, sv4.channels)) by {
        assert forall|i: int| 0 <= i < sv1.channels.len() implies (#[trigger] sv1.channels[i]).name
            == (#[trigger] sv4.channels[i]).name by {}
    }
    assert(wf(sv4)) by {
        assert(distinct_ids(sv4.users)) by {
            assert forall|i: int, j: int| 0 <= i < j < sv4.users.len() implies (
            #[trigger] sv4.users[i]).id != (#[trigger] sv4.users[j]).id by {
                assert(sv4.users[i].id == sv1.users[i].id);
                assert(sv4.users[j].id == sv1.users[j].id);
            }
        }
        assert(distinct_names(sv4.channels)) by {
            assert forall|i: int, j: int| 0 <= i < j < sv4.channels.len() implies (
            #[trigger] sv4.channels[i]).name != (#[trigger] sv4.channels[j]).name by {
                assert(sv4.channels[i].name == sv1.channels[i].name);
                assert(sv4.channels[j].name == sv1.channels[j].name);
            }
        }
        assert forall|k: int| 0 <= k < sv4.channels.len() implies wf_channel(
            sv4,
            #[trigger] sv4.channels[k],
        ) by {
            if k != ci {
                assert(sv4.channels[k] == sv1.channels[k]);
                assert(wf_channel(sv1, sv1.channels[k]));
                assert forall|m: int| 0 <= m < sv4.channels[k].users.len() implies has_user(
                    sv4,
                    #[trigger] sv4.channels[k].users[m],
                ) by {
                    lemma_has_user_carry(sv1, sv4, sv1.channels[k].users[m]);
                }
            } else {
                assert(sv4.channels[k] == c3);
                assert(wf_channel(sv1, c));
                assert(distinct(c3.users)) by {
                    if !both {
                        assert forall|a: int, b: int| 0 <= a < b < c3.users.len() implies c3.users[a]
                            != c3.users[b] by {
                            if b < c3.users.len() - 1 {
                                assert(c.users[a] != c.users[b]);
                            } else {
                                assert(c3.users[b] == uid);
                                if c.users[a] == uid {
                                    assert(c.users.contains(uid));
                                    assert(false);
                                }
                            }
                        }
                    }
                }
                assert forall|m: int| 0 <= m < c3.users.len() implies has_user(
                    sv4,
                    #[trigger] c3.users[m],
                ) by {
                    if both || m < c3.users.len() - 1 {
                        assert(c3.users[m] == c.users[m]);
                        lemma_has_user_carry(sv1, sv4, c.users[m]);
                    } else {
                        assert(c3.users[m] == uid);
                        lemma_has_user_carry(sv1, sv4, uid);
                    }
                }
                lemma_cap_push_len(c2.messages, system_msg(text, now));
            }
        }
        assert forall|k: int| 0 <= k < sv4.users.len() implies wf_user(
            sv4,
            #[trigger] sv4.users[k],
        ) by {
            assert(has_channel(sv4, chan)) by {
                assert(sv4.channels[ci].name == chan);
            }
            if k != ui {
                assert(sv4.users[k] == sv1.users[k]);
                assert(wf_user(sv1, sv1.users[k]));
                assert forall|m: int| 0 <= m < sv4.users[k].channels.len() implies has_channel(
                    sv4,
                    #[trigger] sv4.users[k].channels[m],
                ) by {
                    lemma_has_chan_carry(sv1, sv4, sv1.users[k].channels[m]);
                }
            } else {
                assert(sv4.users[k] == u2);
                assert(wf_user(sv1, u));
                assert(distinct(u2.channels)) by {
                    if !both {
                        assert forall|a: int, b: int| 0 <= a < b < u2.channels.len() implies u2.channels[a]
                            != u2.channels[b] by {
                            if b < u2.channels.len() - 1 {
                                assert(u.channels[a] != u.channels[b]);
                            } else {
                                assert(u2.channels[b] == chan);
                                if u.channels[a] == chan {
                                    assert(u.channels.contains(chan));
                                    assert(false);
                                }
                            }
                        }
                    }
                }
                assert forall|m: int| 0 <= m < u2.channels.len() implies has_channel(
                    sv4,
                    #[trigger] u2.channels[m],
                ) by {
                    if both || m < u2.channels.len() - 1 {
                        assert(u2.channels[m] == u.channels[m]);
                        lemma_has_chan_carry(sv1, sv4, u.channels[m]);
                    } else {
                        assert(u2.channels[m] == chan);
                    }
                }
            }
        }
        assert forall|a: int, b: int|
            0 <= a < sv4.channels.len() && 0 <= b < sv4.users.len() implies ((
        #[trigger] sv4.channels[a]).users.contains(sv4.users[b].id) <==> (
        #[trigger] sv4.users[b]).channels.contains(sv4.channels[a].name)) by {
            let cb = sv4.channels[a];
            let ub = sv4.users[b];
            if a != ci && b != ui {
                assert(cb == sv1.channels[a]);
                assert(ub == sv1.users[b]);
                assert(wf(sv1));
            } else if a == ci && b != ui {
                assert(ub == sv1.users[b]);
                assert(cb == c3);
                assert(ub.id != uid) by {
                    assert(sv1.users[ui].id == uid);
                }
                assert(c3.users.contains(ub.id) <==> c.users.contains(ub.id)) by {
                    if !both {
                        if c3.users.contains(ub.id) {
                            let m = choose|m: int|
                                0 <= m < c3.users.len() && (#[trigger] c3.users[m]) == ub.id;
                            if m < c3.users.len() - 1 {
                                assert(c.users[m] == ub.id);
                            } else {
                                assert(false);
                            }
                        }
                        if c.users.contains(ub.id) {
                            let m = choose|m: int|
                                0 <= m < c.users.len() && (#[trigger] c.users[m]) == ub.id;
                            assert(c3.users[m] == ub.id);
                        }
                    }
                }
                assert(cb.name == c.name);
                assert(c.users.contains(sv1.users[b].id) <==> sv1.users[b].channels.contains(
                    c.name,
                )) by {
                    assert(wf(sv1));
                    assert(sv1.channels[ci] == c);
                }
            } else if a != ci && b == ui {
                assert(cb == sv1.channels[a]);
                assert(ub == u2);
                assert(cb.name != chan) by {
                    assert(sv1.channels[ci].name == chan);
                }
                assert(u2.channels.contains(cb.name) <==> u.channels.contains(cb.name)) by {
                    if !both {
                        if u2.channels.contains(cb.name) {
                            let m = choose|m: int|
                                0 <= m < u2.channels.len() && (#[trigger] u2.channels[m]) == cb.name;
                            if m < u2.channels.len() - 1 {
                                assert(u.channels[m] == cb.name);
                            } else {
                                assert(false);
                            }
                        }
                        if u.channels.contains(cb.name) {
                            let m = choose|m: int|
                                0 <= m < u.channels.len() && (#[trigger] u.channels[m]) == cb.name;
                            assert(u2.channels[m] == cb.name);
                        }
                    }
                }
                assert(cb.users.contains(u.id) <==> u.channels.contains(cb.name)) by {
                    assert(wf(sv1));
                    assert(sv1.users[ui] == u);
                }
                assert(ub.id == u.id);
            } else {
                assert(cb == c3 && ub == u2);
                assert(c3.users.contains(u2.id)) by {
                    assert(u2.id == uid);
                }
                assert(u2.channels.contains(c3.name)) by {
                    assert(c3.name == chan);
                }
            }
        }
    }
    // The advertised membership facts.
    lemma_cidx_carry(sv1, sv4, chan);
    assert(the_chan(sv4, chan) == c3);
    lemma_uidx_carry(sv1, sv4, uid);
    assert(uidx(sv4, uid) == ui) by {
        assert(uidx(sv1, uid) == ui) by {
            lemma_uidx(sv1, uid);
            assert(sv1.users[ui].id == uid);
        }
    }
    assert(the_user(sv4, uid) == u2);
}

// ---------------------------------------------------------------------------
// The PART command.
// ---------------------------------------------------------------------------

/// `s` with the first occurrence of `x` removed, if any.
pub open spec fn remove_name(s: Seq<Seq<u8>>, x: Seq<u8>) -> Seq<Seq<u8>> {
    match s.index_of_first(x) {
        Some(i) => s.remove(i),
        None => s,
    }
}

/// Finds the first position of `x` in a list of names.
pub fn find_name(v: &Vec<Vec<u8>>, x: &[u8]) -> (r: Option<usize>)
    ensures
        match r {
            Some(p) => p < v.deep_view().len() && v.deep_view().index_of_first(x@) == Some(
                p as int,
            ),
            None => !v.deep_view().contains(x@),
        },
{
    let n = v.len();
    let mut i: usize = 0;
    while i < n
        invariant
            n == v@.len(),
            i <= n,
            forall|j: int| 0 <= j < i ==> v.deep_view()[j] != x@,
        decreases n - i,
    {
        let hit = bytes_eq(v[i].as_slice(), x);
        proof {
            assert(v.deep_view()[i as int] =~= v@[i as int]@);
        }
        if hit {
            proof {
                v.deep_view().index_of_first_ensures(x@);
                assert(v.deep_view().contains(x@));
                let f = v.deep_view().index_of_first(x@)->0;
                if f < i as int {
                    assert(v.deep_view()[f] != x@);
                }
                if f > i as int {
                    assert(v.deep_view()[i as int] != x@);
                }
            }
            return Some(i);
        }
        i = i + 1;
    }
    proof {
        if v.deep_view().contains(x@) {
            let w = choose|w: int|
                0 <= w < v.deep_view().len() && (#[trigger] v.deep_view()[w]) == x@;
            assert(false);
        }
    }
    None
}

/// What PART does when the parting user exists: drop the membership on both
/// sides, delete the channel when it empties, otherwise tell the remaining
/// members and log a system line; finally confirm to the user.
pub open spec fn spec_part(sv: ServerStateView, uid: Seq<u8>, chan: Seq<u8>, now: u64) -> Effect {
    let username = the_user(sv, uid).username;
    let e1 = if !has_channel(sv, chan) {
        Effect { sv, frames: Seq::empty() }
    } else {
        let ci = cidx(sv, chan);
        let c = sv.channels[ci];
        let c2 = ChannelView { users: remove_name(c.users, uid), last_activity: now, ..c };
        if c2.users.len() == 0 {
            Effect { sv: ServerStateView { channels: sv.channels.remove(ci), ..sv }, frames: Seq::empty() }
        } else {
            let text = crate::frames::left_text(username, chan);
            let svb = ServerStateView { channels: sv.channels.update(ci, c2), ..sv };
            let frames = broadcast_frames(svb, c2.users, chan, text, None);
            let c3 = ChannelView {
                messages: cap_push(c2.messages, system_msg(text, now)),
                last_activity: now,
                ..c2
            };
            Effect { sv: ServerStateView { channels: svb.channels.update(ci, c3), ..svb }, frames }
        }
    };
    let sv1 = e1.sv;
    let ui = uidx(sv1, uid);
    let u = sv1.users[ui];
    let u2 = UserView { channels: remove_name(u.channels, chan), ..u };
    let sv2 = ServerStateView { users: sv1.users.update(ui, u2), ..sv1 };
    let frames = e1.frames.push(
        FrameView { to: uid, bytes: crate::frames::self_part_frame(uid, chan) },
    );
    Effect { sv: sv2, frames }
}

impl MessageHandler {
    /// PART: drop the membership on both sides, delete the channel when it
    /// empties, otherwise notify the remaining members, then confirm.
    #[verifier::rlimit(60)]
    pub fn handle_leave(
        &self,
        server: &mut ServerState,
        arg1: Option<&Vec<u8>>,
        now: u64,
    ) -> (r: Result<Vec<Frame>, HandlerError>)
        requires
            wf(old(server)@),
        ensures
            (r matches Err(e) ==> final(server)@ == old(server)@ && arg1 is Some && !has_user(
                old(server)@,
                self.user_id@,
            ) && e == HandlerError::UserNotFound),
            (r matches Ok(frames) ==> match arg1 {
                None => final(server)@ == old(server)@ && fv(frames@) == seq![
                    FrameView {
                        to: self.user_id@,
                        bytes: crate::frames::error_frame(
                            ascii("Not enough parameters for PART"@),
                        ),
                    },
                ],
                Some(chan) => has_user(old(server)@, self.user_id@) && final(server)@ == spec_part(
                    old(server)@,
                    self.user_id@,
                    chan@,
                    now,
                ).sv && fv(frames@) == spec_part(old(server)@, self.user_id@, chan@, now).frames,
            }),
    {
        let mut out: Vec<Frame> = Vec::new();
        let chan: &Vec<u8> = match arg1 {
            None => {
                proof {
                    reveal_strlit("Not enough parameters for PART");
                    assert(("Not enough parameters for PART").is_ascii());
                }
                self.send_error("Not enough parameters for PART", &mut out);
                proof {
                    assert(fv(out@) =~= seq![
                        FrameView {
                            to: self.user_id@,
                            bytes: crate::frames::error_frame(
                                ascii("Not enough parameters for PART"@),
                            ),
                        },
                    ]);
                }
                return Ok(out);
            },
            Some(c) => c,
        };
        let ghost sv0 = server@;
        let ui = match server.find_user(self.user_id.as_slice()) {
            None => {
                return Err(HandlerError::UserNotFound);
            },
            Some(ui) => ui,
        };
        proof {
            lemma_uidx(sv0, self.user_id@);
            assert(uidx(sv0, self.user_id@) == ui as int);
        }
        let username = copy_bytes(server.users[ui].username.as_slice());
        // Drop the user from the channel's member list.
        match server.find_channel(chan.as_slice()) {
            None => {},
            Some(ci) => {
                proof {
                    lemma_cidx(sv0, chan@);
                    assert(cidx(sv0, chan@) == ci as int);
                }
                match find_name(&server.channels[ci].users, self.user_id.as_slice()) {
                    None => {
                        proof {
                            sv0.channels[ci as int].users.index_of_first_ensures(self.user_id@);
                            assert(remove_name(sv0.channels[ci as int].users, self.user_id@)
                                == sv0.channels[ci as int].users);
                        }
                    },
                    Some(p) => {
                        let _gone = server.channels[ci].users.remove(p);
                        proof {
                            assert(server@.channels[ci as int].users =~~= remove_name(
                                sv0.channels[ci as int].users,
                                self.user_id@,
                            ));
                        }
                    },
                }
                server.channels[ci].last_activity = now;
                let ghost c2 = ChannelView {
                    users: remove_name(sv0.channels[ci as int].users, self.user_id@),
                    last_activity: now,
                    ..sv0.channels[ci as int]
                };
                proof {
                    assert(server@.channels[ci as int] =~~= c2);
                    assert(server@ =~~= (ServerStateView {
                        channels: sv0.channels.update(ci as int, c2),
                        ..sv0
                    }));
                }
                if server.channels[ci].users.is_empty() {
                    let _c = server.channels.remove(ci);
                    proof {
                        assert(sv0.channels.update(ci as int, c2).remove(ci as int)
                            =~= sv0.channels.remove(ci as int));
                        assert(server@ =~~= (ServerStateView {
                            channels: sv0.channels.remove(ci as int),
                            ..sv0
                        }));
                    }
                } else {
                    let text = crate::frames::build_left_text(
                        username.as_slice(),
                        chan.as_slice(),
                    );
                    let ghost svb = server@;
                    proof {
                        assert(distinct_ids(svb.users));
                        assert(distinct_names(svb.channels)) by {
                            assert forall|i: int, j: int|
                                0 <= i < j < svb.channels.len() implies (
                            #[trigger] svb.channels[i]).name != (
                            #[trigger] svb.channels[j]).name by {
                                assert(svb.channels[i].name == sv0.channels[i].name);
                                assert(svb.channels[j].name == sv0.channels[j].name);
                            }
                        }
                        assert(svb.channels[ci as int].name == chan@);
                        assert(has_channel(svb, chan@));
                        lemma_cidx(svb, chan@);
                        assert(cidx(svb, chan@) == ci as int);
                        assert(the_chan(svb, chan@).users == c2.users);
                    }
                    broadcast_to_channel(server, chan.as_slice(), text.as_slice(), None, &mut out);
                    proof {
                        assert(forall|k: int|
                            0 <= k < server@.channels.len() ==> (
                        #[trigger] server@.channels[k]).messages.len() <= HISTORY_CAP as int) by {
                            assert(forall|k: int|
                                0 <= k < sv0.channels.len() ==> wf_channel(
                                    sv0,
                                    #[trigger] sv0.channels[k],
                                ));
                        }
                    }
                    let sys = "SYSTEM";
                    proof {
                        reveal_strlit("SYSTEM");
                        assert(("SYSTEM").is_ascii());
                    }
                    let mut sender: Vec<u8> = Vec::new();
                    append_str(&mut sender, sys);
                    store_channel_message(
                        server,
                        chan.as_slice(),
                        sender.as_slice(),
                        text.as_slice(),
                        now,
                    );
                    proof {
                        let text_s = crate::frames::left_text(username@, chan@);
                        let c3 = ChannelView {
                            messages: cap_push(c2.messages, system_msg(text_s, now)),
                            last_activity: now,
                            ..c2
                        };
                        assert(cap_push(the_chan(svb, chan@).messages, chat_msg(sender@, text@, now))
                            =~~= c3.messages);
                        assert(server@ =~~= (ServerStateView {
                            channels: svb.channels.update(ci as int, c3),
                            ..svb
                        }));
                    }
                }
            },
        }
        // Drop the channel from the user's list and confirm.
        let ghost sv1 = server@;
        proof {
            assert(same_ids(sv0.users, sv1.users));
            lemma_uidx_carry(sv0, sv1, self.user_id@);
            assert(uidx(sv1, self.user_id@) == ui as int);
        }
        match find_name(&server.users[ui].channels, chan.as_slice()) {
            None => {
                proof {
                    sv1.users[ui as int].channels.index_of_first_ensures(chan@);
                    assert(remove_name(sv1.users[ui as int].channels, chan@) == sv1.users[ui
                        as int].channels);
                }
            },
            Some(p) => {
                let _gone = server.users[ui].channels.remove(p);
                proof {
                    assert(server@.users[ui as int].channels =~~= remove_name(
                        sv1.users[ui as int].channels,
                        chan@,
                    ));
                }
            },
        }
        proof {
            let u2 = UserView {
                channels: remove_name(sv1.users[ui as int].channels, chan@),
                ..sv1.users[ui as int]
            };
            assert(server@.users[ui as int] =~~= u2);
            assert(server@ =~~= (ServerStateView {
                users: sv1.users.update(ui as int, u2),
                ..sv1
            }));
        }
        let bytes = crate::frames::build_self_part_frame(self.user_id.as_slice(), chan.as_slice());
        let f = Frame { to: copy_bytes(self.user_id.as_slice()), bytes };
        let ghost fg = f@;
        let ghost out0 = out@;
        out.push(f);
        proof {
            lemma_fv_push(out0, out@.last());
            assert(out@.last()@ == fg);
            let e = spec_part(sv0, self.user_id@, chan@, now);
            assert(the_user(sv0, self.user_id@).username == username@);
            assert(server@ =~~= e.sv);
            assert(fv(out@) =~~= e.frames);
        }
        Ok(out)
    }
}

// ---------------------------------------------------------------------------
// The PRIVMSG command.
// ---------------------------------------------------------------------------

/// Marks the user's session as active at `now`.
pub open spec fn spec_touch(sv: ServerStateView, uid: Seq<u8>, now: u64) -> ServerStateView {
    if has_user(sv, uid) {
        let ui = uidx(sv, uid);
        let u = sv.users[ui];
        let u2 = match u.session {
            Some(s) => UserView {
                session: Some(crate::session::SessionView { last_activity: now, ..s }),
                ..u
            },
            None => u,
        };
        ServerStateView { users: sv.users.update(ui, u2), ..sv }
    } else {
        sv
    }
}

/// Index of the first user whose username is `name`.
pub open spec fn ufind(users: Seq<UserView>, name: Seq<u8>) -> Option<int>
    decreases users.len(),
{
    if users.len() == 0 {
        None
    } else if users[0].username == name {
        Some(0)
    } else {
        match ufind(users.drop_first(), name) {
            Some(i) => Some(i + 1),
            None => None,
        }
    }
}

pub proof fn lemma_ufind_at(users: Seq<UserView>, name: Seq<u8>, p: int)
    requires
        0 <= p <= users.len(),
        forall|j: int| 0 <= j < p ==> (#[trigger] users[j]).username != name,
        p < users.len() ==> users[p].username == name,
    ensures
        p < users.len() ==> ufind(users, name) == Some(p),
        p == users.len() ==> ufind(users, name) is None,
    decreases p,
{
    if users.len() == 0 {
    } else if p == 0 {
        if p == users.len() {
        }
    } else {
        assert(users[0].username != name);
        assert forall|j: int| 0 <= j < p - 1 implies (#[trigger] users.drop_first()[j]).username
            != name by {
            assert(users.drop_first()[j] == users[j + 1]);
        }
        if p < users.len() {
            assert(users.drop_first()[p - 1] == users[p]);
        }
        lemma_ufind_at(users.drop_first(), name, p - 1);
    }
}

impl ServerState {
    /// Finds the id of the first user with the given display name.
    pub fn find_user_by_username(&self, username: &[u8]) -> (r: Option<Vec<u8>>)
        ensures
            match r {
                Some(id) => {
                    &&& ufind(self@.users, username@) is Some
                    &&& id@ == self@.users[ufind(self@.users, username@)->0].id
                },
                None => ufind(self@.users, username@) is None,
            },
    {
        let n = self.users.len();
        let mut i: usize = 0;
        while i < n
            invariant
                n == self@.users.len(),
                i <= n,
                forall|j: int| 0 <= j < i ==> (#[trigger] self@.users[j]).username != username@,
            decreases n - i,
        {
            if bytes_eq(self.users[i].username.as_slice(), username) {
                proof {
                    lemma_ufind_at(self@.users, username@, i as int);
                }
                return Some(copy_bytes(self.users[i].id.as_slice()));
            }
            i = i + 1;
        }
        proof {
            lemma_ufind_at(self@.users, username@, n as int);
        }
        None
    }
}

/// One bounded history push on the user at index `ui`.
pub open spec fn user_history_push(
    sv: ServerStateView,
    ui: int,
    m: ChatMessageView,
) -> ServerStateView {
    let u = sv.users[ui];
    let u2 = UserView { messages: cap_push(u.messages, m), ..u };
    ServerStateView { users: sv.users.update(ui, u2), ..sv }
}

/// Appends a direct message to the bounded histories of the sender and the
/// recipient, in that order.
pub open spec fn spec_store_private(
    sv: ServerStateView,
    sender_id: Seq<u8>,
    recipient_id: Seq<u8>,
    content: Seq<u8>,
    now: u64,
) -> ServerStateView {
    let sender_name = if has_user(sv, sender_id) {
        the_user(sv, sender_id).username
    } else {
        ascii("Unknown"@)
    };
    let m = chat_msg(sender_name, content, now);
    let sv1 = if has_user(sv, sender_id) {
        user_history_push(sv, uidx(sv, sender_id), m)
    } else {
        sv
    };
    if has_user(sv1, recipient_id) {
        user_history_push(sv1, uidx(sv1, recipient_id), m)
    } else {
        sv1
    }
}

/// Appends a direct message to both parties' bounded histories.
pub fn store_private_message(
    server: &mut ServerState,
    sender_id: &[u8],
    recipient_id: &[u8],
    content: &[u8],
    now: u64,
)
    requires
        distinct_ids(old(server)@.users),
        forall|ui: int|
            0 <= ui < old(server)@.users.len() ==> (#[trigger] old(
                server,
            )@.users[ui]).messages.len() <= HISTORY_CAP as int,
    ensures
        final(server)@ == spec_store_private(old(server)@, sender_id@, recipient_id@, content@, now),
{
    let ghost sv0 = server@;
    let sender_name: Vec<u8> = match server.find_user(sender_id) {
        Some(si) => {
            proof {
                lemma_uidx(sv0, sender_id@);
                assert(uidx(sv0, sender_id@) == si as int);
            }
            copy_bytes(server.users[si].username.as_slice())
        },
        None => {
            proof {
                reveal_strlit("Unknown");
                assert(("Unknown").is_ascii());
            }
            let mut v: Vec<u8> = Vec::new();
            append_str(&mut v, "Unknown");
            v
        },
    };
    match server.find_user(sender_id) {
        Some(si) => {
            let msg = ChatMessage {
                sender: copy_bytes(sender_name.as_slice()),
                content: copy_bytes(content),
                timestamp: now,
                encrypted: Vec::new(),
            };
            server.users[si].messages.push(msg);
            if server.users[si].messages.len() > HISTORY_CAP {
                let _e = server.users[si].messages.remove(0);
            }
            proof {
                let m = chat_msg(sender_name@, content@, now);
                assert(server@.users[si as int].messages =~~= cap_push(
                    sv0.users[si as int].messages,
                    m,
                ));
                assert(server@ =~~= user_history_push(sv0, si as int, m));
            }
        },
        None => {},
    }
    let ghost sv1 = server@;
    proof {
        assert(same_ids(sv0.users, sv1.users));
        if has_user(sv0, sender_id@) {
            lemma_uidx_carry(sv0, sv1, sender_id@);
        } else {
            assert(sv1 == sv0);
        }
        assert(distinct_ids(sv1.users)) by {
            assert forall|i: int, j: int| 0 <= i < j < sv1.users.len() implies (
            #[trigger] sv1.users[i]).id != (#[trigger] sv1.users[j]).id by {
                assert(sv0.users[i].id != sv0.users[j].id);
            }
        }
        if has_user(sv1, recipient_id@) {
            lemma_uidx(sv1, recipient_id@);
        }
    }
    match server.find_user(recipient_id) {
        Some(ri) => {
            let msg = ChatMessage {
                sender: copy_bytes(sender_name.as_slice()),
                content: copy_bytes(content),
                timestamp: now,
                encrypted: Vec::new(),
            };
            proof {
                assert(server@.users[ri as int].messages.len() <= HISTORY_CAP as int) by {
                    if has_user(sv0, sender_id@) && ri as int != uidx(sv0, sender_id@) {
                        assert(sv1.users[ri as int] == sv0.users[ri as int]);
                    } else if has_user(sv0, sender_id@) {
                        lemma_cap_push_u(sv0.users[ri as int].messages);
                    }
                }
            }
            server.users[ri].messages.push(msg);
            if server.users[ri].messages.len() > HISTORY_CAP {
                let _e = server.users[ri].messages.remove(0);
            }
            proof {
                let m = chat_msg(sender_name@, content@, now);
                assert(server@.users[ri as int].messages =~~= cap_push(
                    sv1.users[ri as int].messages,
                    m,
                ));
                assert(server@ =~~= user_history_push(sv1, ri as int, m));
                assert(uidx(sv1, recipient_id@) == ri as int);
                if has_user(sv0, sender_id@) {
                    assert(the_user(sv0, sender_id@).username == sender_name@);
                }
                assert(server@ =~~= spec_store_private(sv0, sender_id@, recipient_id@, content@, now));
            }
        },
        None => {
            proof {
                if has_user(sv0, sender_id@) {
                    assert(the_user(sv0, sender_id@).username == sender_name@);
                }
                assert(server@ =~~= spec_store_private(sv0, sender_id@, recipient_id@, content@, now));
            }
        },
    }
}

/// A capped history stays within the cap.
pub proof fn lemma_cap_push_u(h: Seq<ChatMessageView>)
    ensures
        forall|m: ChatMessageView| #[trigger] cap_push(h, m).len() <= HISTORY_CAP as int + 1,
        forall|m: ChatMessageView|
            h.len() <= HISTORY_CAP as int ==> #[trigger] cap_push(h, m).len() <= HISTORY_CAP as int,
{
}

/// Spec-level form of a handler error.
pub enum HandlerErrorView {
    UserNotFound,
    SenderNotFound,
    RecipientNotFound(Seq<u8>),
}

impl View for HandlerError {
    type V = HandlerErrorView;

    open spec fn view(&self) -> HandlerErrorView {
        match self {
            HandlerError::UserNotFound => HandlerErrorView::UserNotFound,
            HandlerError::SenderNotFound => HandlerErrorView::SenderNotFound,
            HandlerError::RecipientNotFound(t) => HandlerErrorView::RecipientNotFound(t@),
        }
    }
}

/// The full outcome of one dispatched command.
#[verifier::ext_equal]
pub struct CmdResult {
    pub sv: ServerStateView,
    pub frames: Seq<FrameView>,
    pub err: Option<HandlerErrorView>,
}

/// What PRIVMSG does, over all inputs: refresh the sender's activity, then
/// either fan a channel message out to the other members, or deliver a direct
/// message and record it in both private histories.
pub open spec fn spec_privmsg(
    sv: ServerStateView,
    uid: Seq<u8>,
    arg1: Option<Seq<u8>>,
    rest: Option<Seq<u8>>,
    now: u64,
) -> CmdResult {
    if arg1 is None || rest is None {
        CmdResult {
            sv,
            frames: seq![
                FrameView {
                    to: uid,
                    bytes: crate::frames::error_frame(
                        ascii("Not enough parameters for PRIVMSG"@),
                    ),
                },
            ],
            err: None,
        }
    } else if !has_user(sv, uid) {
        CmdResult { sv, frames: Seq::empty(), err: Some(HandlerErrorView::SenderNotFound) }
    } else {
        let target = arg1->0;
        let msg = rest->0;
        let svt = spec_touch(sv, uid, now);
        let username = the_user(svt, uid).username;
        if target.len() > 0 && target[0] == 0x23 {
            if !the_user(svt, uid).channels.contains(target) {
                CmdResult {
                    sv: svt,
                    frames: seq![
                        FrameView {
                            to: uid,
                            bytes: crate::frames::error_frame(
                                ascii("You are not in channel "@) + target,
                            ),
                        },
                    ],
                    err: None,
                }
            } else {
                let svs = if has_channel(svt, target) {
                    ServerStateView {
                        channels: svt.channels.update(
                            cidx(svt, target),
                            (ChannelView {
                                messages: cap_push(
                                    the_chan(svt, target).messages,
                                    chat_msg(username, msg, now),
                                ),
                                last_activity: now,
                                ..the_chan(svt, target)
                            }),
                        ),
                        ..svt
                    }
                } else {
                    svt
                };
                let formatted = crate::frames::formatted_msg(username, msg);
                let frames = if has_channel(svs, target) {
                    broadcast_frames(
                        svs,
                        the_chan(svs, target).users,
                        target,
                        formatted,
                        Some(uid),
                    )
                } else {
                    Seq::empty()
                };
                CmdResult { sv: svs, frames, err: None }
            }
        } else {
            match ufind(svt.users, target) {
                None => CmdResult {
                    sv: svt,
                    frames: Seq::empty(),
                    err: Some(HandlerErrorView::RecipientNotFound(target)),
                },
                Some(ri) => {
                    let rid = svt.users[ri].id;
                    let sv2 = spec_store_private(svt, uid, rid, msg, now);
                    CmdResult {
                        sv: sv2,
                        frames: seq![
                            FrameView {
                                to: rid,
                                bytes: crate::frames::private_frame(username, msg),
                            },
                        ],
                        err: None,
                    }
                },
            }
        }
    }
}

impl MessageHandler {
    /// PRIVMSG: a channel message requires membership and fans out to the
    /// other members; otherwise the target is a username and the line goes to
    /// that user, recorded in both private histories.
    #[verifier::rlimit(60)]
    pub fn handle_privmsg(
        &self,
        server: &mut ServerState,
        arg1: Option<&Vec<u8>>,
        rest: Option<&Vec<u8>>,
        now: u64,
    ) -> (r: Result<Vec<Frame>, HandlerError>)
        requires
            wf(old(server)@),
        ensures
            final(server)@ == spec_privmsg(
                old(server)@,
                self.user_id@,
                oviewv(arg1),
                oviewv(rest),
                now,
            ).sv,
            (r matches Ok(frames) ==> spec_privmsg(
                old(server)@,
                self.user_id@,
                oviewv(arg1),
                oviewv(rest),
                now,
            ).err is None && fv(frames@) == spec_privmsg(
                old(server)@,
                self.user_id@,
                oviewv(arg1),
                oviewv(rest),
                now,
            ).frames),
            (r matches Err(e) ==> spec_privmsg(
                old(server)@,
                self.user_id@,
                oviewv(arg1),
                oviewv(rest),
                now,
            ).err == Some(e@)),
    {
        let mut out: Vec<Frame> = Vec::new();
        let (target, msg): (&Vec<u8>, &Vec<u8>) = match (arg1, rest) {
            (Some(t), Some(m)) => (t, m),
            _ => {
                proof {
                    reveal_strlit("Not enough parameters for PRIVMSG");
                    assert(("Not enough parameters for PRIVMSG").is_ascii());
                }
                self.send_error("Not enough parameters for PRIVMSG", &mut out);
                proof {
                    assert(fv(out@) =~= spec_privmsg(
                        server@,
                        self.user_id@,
                        oviewv(arg1),
                        oviewv(rest),
                        now,
                    ).frames);
                }
                return Ok(out);
            },
        };
        let ghost sv0 = server@;
        let ui = match server.find_user(self.user_id.as_slice()) {
            None => {
                return Err(HandlerError::SenderNotFound);
            },
            Some(ui) => ui,
        };
        proof {
            lemma_uidx(sv0, self.user_id@);
            assert(uidx(sv0, self.user_id@) == ui as int);
        }
        // Refresh the sender's activity clock.
        match &mut server.users[ui].session {
            Some(s) => s.update_activity(now),
            None => {},
        }
        let ghost svt = server@;
        proof {
            assert(svt =~~= spec_touch(sv0, self.user_id@, now));
            assert(same_ids(sv0.users, svt.users));
            lemma_uidx_carry(sv0, svt, self.user_id@);
            assert(uidx(svt, self.user_id@) == ui as int);
            assert(svt.channels == sv0.channels);
        }
        let is_chan = target.len() > 0 && {
            let b = target[0];
            b == 0x23
        };
        if is_chan {
            if !vec_contains_name(&server.users[ui].channels, target.as_slice()) {
                proof {
                    reveal_strlit("You are not in channel ");
                    reveal_strlit("");
                    assert(("You are not in channel ").is_ascii());
                    assert(("").is_ascii());
                }
                let txt = crate::frames::cat_a("You are not in channel ", target.as_slice(), "");
                let bytes = crate::frames::build_error_frame(txt.as_slice());
                let f = Frame { to: copy_bytes(self.user_id.as_slice()), bytes };
                out.push(f);
                proof {
                    assert(txt@ =~= ascii("You are not in channel "@) + target@);
                    assert(fv(out@) =~= spec_privmsg(
                        sv0,
                        self.user_id@,
                        oviewv(arg1),
                        oviewv(rest),
                        now,
                    ).frames);
                }
                return Ok(out);
            }
            let username = copy_bytes(server.users[ui].username.as_slice());
            proof {
                assert(the_user(svt, self.user_id@).channels.contains(target@));
                assert(has_channel(svt, target@)) by {
                    assert(wf_user(sv0, sv0.users[ui as int]));
                    let k = choose|k: int|
                        0 <= k < svt.users[ui as int].channels.len() && (
                        #[trigger] svt.users[ui as int].channels[k]) == target@;
                    assert(sv0.users[ui as int].channels[k] == target@);
                    assert(has_channel(sv0, target@));
                    lemma_has_chan_carry(sv0, svt, target@);
                }
                assert(distinct_names(svt.channels));
                assert(forall|k: int|
                    0 <= k < svt.channels.len() ==> (#[trigger] svt.channels[k]).messages.len()
                        <= HISTORY_CAP as int) by {
                    assert(forall|k: int|
                        0 <= k < sv0.channels.len() ==> wf_channel(
                            sv0,
                            #[trigger] sv0.channels[k],
                        ));
                }
            }
            store_channel_message(
                server,
                target.as_slice(),
                username.as_slice(),
                msg.as_slice(),
                now,
            );
            let ghost svs = server@;
            proof {
                lemma_cidx(svt, target@);
                assert(svs =~~= spec_privmsg(
                    sv0,
                    self.user_id@,
                    oviewv(arg1),
                    oviewv(rest),
                    now,
                ).sv);
                assert(same_names(svt.channels, svs.channels));
                lemma_cidx_carry(svt, svs, target@);
                assert(distinct_ids(svs.users));
                assert(the_user(svt, self.user_id@).username == username@);
            }
            let text = crate::frames::build_formatted_msg(username.as_slice(), msg.as_slice());
            broadcast_to_channel(
                server,
                target.as_slice(),
                text.as_slice(),
                Some(self.user_id.as_slice()),
                &mut out,
            );
            proof {
                assert(fv(out@) =~= spec_privmsg(
                    sv0,
                    self.user_id@,
                    oviewv(arg1),
                    oviewv(rest),
                    now,
                ).frames);
            }
            Ok(out)
        } else {
            let rid = match server.find_user_by_username(target.as_slice()) {
                None => {
                    return Err(HandlerError::RecipientNotFound(copy_bytes(target.as_slice())));
                },
                Some(rid) => rid,
            };
            let username = copy_bytes(server.users[ui].username.as_slice());
            proof {
                assert(distinct_ids(svt.users));
                assert(forall|k: int|
                    0 <= k < svt.users.len() ==> (#[trigger] svt.users[k]).messages.len()
                        <= HISTORY_CAP as int) by {
                    assert(forall|k: int|
                        0 <= k < sv0.users.len() ==> wf_user(sv0, #[trigger] sv0.users[k]));
                }
                assert(the_user(svt, self.user_id@).username == username@);
            }
            store_private_message(
                server,
                self.user_id.as_slice(),
                rid.as_slice(),
                msg.as_slice(),
                now,
            );
            let bytes = crate::frames::build_private_frame(username.as_slice(), msg.as_slice());
            let f = Frame { to: copy_bytes(rid.as_slice()), bytes };
            let ghost out0 = out@;
            out.push(f);
            proof {
                assert(server@ =~~= spec_privmsg(
                    sv0,
                    self.user_id@,
                    oviewv(arg1),
                    oviewv(rest),
                    now,
                ).sv);
                assert(fv(out@) =~= spec_privmsg(
                    sv0,
                    self.user_id@,
                    oviewv(arg1),
                    oviewv(rest),
                    now,
                ).frames);
            }
            Ok(out)
        }
    }
}

/// View of an optional borrowed name.
pub open spec fn oviewv(e: Option<&Vec<u8>>) -> Option<Seq<u8>> {
    match e {
        Some(x) => Some(x@),
        None => None,
    }
}

// ---------------------------------------------------------------------------
// LIST, WHO, SECURECLEAR and unknown commands.
// ---------------------------------------------------------------------------

/// The LIST reply body: one `322` line per channel, in directory order.
pub open spec fn list_body(channels: Seq<ChannelView>, uid: Seq<u8>) -> Seq<u8>
    decreases channels.len(),
{
    if channels.len() == 0 {
        Seq::empty()
    } else {
        let c = channels.last();
        list_body(channels.drop_last(), uid) + crate::frames::list_entry(
            uid,
            c.name,
            c.users.len(),
            c.topic,
        )
    }
}

/// The WHO reply body: one `352` line per listed member with a user record.
pub open spec fn who_body(
    sv: ServerStateView,
    members: Seq<Seq<u8>>,
    uid: Seq<u8>,
    chan: Seq<u8>,
) -> Seq<u8>
    decreases members.len(),
{
    if members.len() == 0 {
        Seq::empty()
    } else {
        let rest = who_body(sv, members.drop_last(), uid, chan);
        let m = members.last();
        if has_user(sv, m) {
            rest + crate::frames::who_entry(uid, chan, the_user(sv, m).username)
        } else {
            rest
        }
    }
}

/// What SECURECLEAR does: wipe and empty the caller's private history and
/// confirm, when the caller exists.
pub open spec fn spec_secure_clear(sv: ServerStateView, uid: Seq<u8>) -> Effect {
    if has_user(sv, uid) {
        let ui = uidx(sv, uid);
        let u2 = UserView { messages: Seq::empty(), ..sv.users[ui] };
        Effect {
            sv: ServerStateView { users: sv.users.update(ui, u2), ..sv },
            frames: seq![
                FrameView { to: uid, bytes: crate::frames::secure_clear_notice() },
            ],
        }
    } else {
        Effect { sv, frames: Seq::empty() }
    }
}

impl MessageHandler {
    /// LIST: one reply frame with a `322` line per channel and a `323` tail.
    pub fn handle_list(&self, server: &ServerState) -> (r: Vec<Frame>)
        ensures
            fv(r@) == seq![
                FrameView {
                    to: self.user_id@,
                    bytes: list_body(server@.channels, self.user_id@) + crate::frames::list_end(
                        self.user_id@,
                    ),
                },
            ],
    {
        let mut body: Vec<u8> = Vec::new();
        let n = server.channels.len();
        let mut k: usize = 0;
        while k < n
            invariant
                n == server@.channels.len(),
                k <= n,
                body@ == list_body(server@.channels.take(k as int), self.user_id@),
            decreases n - k,
        {
            proof {
                assert(server@.channels.take(k + 1).drop_last() =~= server@.channels.take(
                    k as int,
                ));
                assert(server@.channels.take(k + 1).last() == server@.channels[k as int]);
            }
            let members: u64 = server.channels[k].users.len() as u64;
            crate::frames::append_list_entry(
                &mut body,
                self.user_id.as_slice(),
                server.channels[k].name.as_slice(),
                members,
                server.channels[k].topic.as_slice(),
            );
            k = k + 1;
        }
        proof {
            assert(server@.channels.take(n as int) =~= server@.channels);
        }
        crate::frames::append_list_end(&mut body, self.user_id.as_slice());
        let mut out: Vec<Frame> = Vec::new();
        out.push(Frame { to: copy_bytes(self.user_id.as_slice()), bytes: body });
        proof {
            assert(fv(out@) =~= seq![
                FrameView {
                    to: self.user_id@,
                    bytes: list_body(server@.channels, self.user_id@) + crate::frames::list_end(
                        self.user_id@,
                    ),
                },
            ]);
        }
        out
    }

    /// WHO: a `352` line per member of the named channel and a `315` tail.
    pub fn handle_who(&self, server: &ServerState, arg1: Option<&Vec<u8>>) -> (r: Vec<Frame>)
        requires
            wf(server@),
        ensures
            arg1 is None ==> fv(r@) == seq![
                FrameView {
                    to: self.user_id@,
                    bytes: crate::frames::error_frame(ascii("Not enough parameters for WHO"@)),
                },
            ],
            (arg1 matches Some(chan) ==> fv(r@) == if has_channel(server@, chan@) {
                seq![
                    FrameView {
                        to: self.user_id@,
                        bytes: who_body(
                            server@,
                            the_chan(server@, chan@).users,
                            self.user_id@,
                            chan@,
                        ) + crate::frames::who_end(self.user_id@, chan@),
                    },
                ]
            } else {
                seq![
                    FrameView {
                        to: self.user_id@,
                        bytes: crate::frames::error_frame(
                            ascii("Channel "@) + chan@ + ascii(" not found"@),
                        ),
                    },
                ]
            }),
    {
        let mut out: Vec<Frame> = Vec::new();
        let chan: &Vec<u8> = match arg1 {
            None => {
                proof {
                    reveal_strlit("Not enough parameters for WHO");
                    assert(("Not enough parameters for WHO").is_ascii());
                }
                self.send_error("Not enough parameters for WHO", &mut out);
                proof {
                    assert(fv(out@) =~= seq![
                        FrameView {
                            to: self.user_id@,
                            bytes: crate::frames::error_frame(
                                ascii("Not enough parameters for WHO"@),
                            ),
                        },
                    ]);
                }
                return out;
            },
            Some(c) => c,
        };
        let ci = match server.find_channel(chan.as_slice()) {
            None => {
                proof {
                    reveal_strlit("Channel ");
                    reveal_strlit(" not found");
                    assert(("Channel ").is_ascii());
                    assert((" not found").is_ascii());
                }
                let txt = crate::frames::cat_a("Channel ", chan.as_slice(), " not found");
                let bytes = crate::frames::build_error_frame(txt.as_slice());
                out.push(Frame { to: copy_bytes(self.user_id.as_slice()), bytes });
                proof {
                    assert(fv(out@) =~= seq![
                        FrameView {
                            to: self.user_id@,
                            bytes: crate::frames::error_frame(
                                ascii("Channel "@) + chan@ + ascii(" not found"@),
                            ),
                        },
                    ]);
                }
                return out;
            },
            Some(ci) => ci,
        };
        proof {
            lemma_cidx(server@, chan@);
            assert(cidx(server@, chan@) == ci as int);
        }
        let ghost members = the_chan(server@, chan@).users;
        let mut body: Vec<u8> = Vec::new();
        let n = server.channels[ci].users.len();
        let mut k: usize = 0;
        while k < n
            invariant
                wf(server@),
                ci < server@.channels.len(),
                members == server@.channels[ci as int].users,
                n == members.len(),
                k <= n,
                body@ == who_body(server@, members.take(k as int), self.user_id@, chan@),
            decreases n - k,
        {
            proof {
                assert(members.take(k + 1).drop_last() =~= members.take(k as int));
                assert(members.take(k + 1).last() == members[k as int]);
                assert(server.channels@[ci as int].users@[k as int]@ == members[k as int]);
            }
            let m: &Vec<u8> = &server.channels[ci].users[k];
            match server.find_user(m.as_slice()) {
                Some(uj) => {
                    proof {
                        lemma_uidx(server@, members[k as int]);
                        assert(uidx(server@, members[k as int]) == uj as int);
                    }
                    crate::frames::append_who_entry(
                        &mut body,
                        self.user_id.as_slice(),
                        chan.as_slice(),
                        server.users[uj].username.as_slice(),
                    );
                },
                None => {},
            }
            k = k + 1;
        }
        proof {
            assert(members.take(n as int) =~= members);
        }
        crate::frames::append_who_end(&mut body, self.user_id.as_slice(), chan.as_slice());
        out.push(Frame { to: copy_bytes(self.user_id.as_slice()), bytes: body });
        proof {
            assert(fv(out@) =~= seq![
                FrameView {
                    to: self.user_id@,
                    bytes: who_body(server@, members, self.user_id@, chan@)
                        + crate::frames::who_end(self.user_id@, chan@),
                },
            ]);
        }
        out
    }

    /// SECURECLEAR: wipe the caller's private history in place, drop it, and
    /// confirm.
    pub fn handle_secure_clear(&self, server: &mut ServerState) -> (r: Vec<Frame>)
        requires
            distinct_ids(old(server)@.users),
        ensures
            final(server)@ == spec_secure_clear(old(server)@, self.user_id@).sv,
            fv(r@) == spec_secure_clear(old(server)@, self.user_id@).frames,
    {
        let ghost sv0 = server@;
        let mut out: Vec<Frame> = Vec::new();
        match server.find_user(self.user_id.as_slice()) {
            None => {},
            Some(ui) => {
                proof {
                    lemma_uidx(sv0, self.user_id@);
                    assert(uidx(sv0, self.user_id@) == ui as int);
                }
                let n = server.users[ui].messages.len();
                let mut k: usize = 0;
                while k < n
                    invariant
                        ui < server@.users.len(),
                        n == server@.users[ui as int].messages.len(),
                        k <= n,
                        server@.users.len() == sv0.users.len(),
                        forall|j: int|
                            0 <= j < sv0.users.len() && j != ui ==> server@.users[j] == sv0.users[j],
                        server@.users[ui as int] == (UserView {
                            messages: server@.users[ui as int].messages,
                            ..sv0.users[ui as int]
                        }),
                        server@.channels == sv0.channels,
                        server@.jwt_secret == sv0.jwt_secret,
                        server@.message_ttl == sv0.message_ttl,
                        server@.session_timeout == sv0.session_timeout,
                    decreases n - k,
                {
                    secure_delete_message(&mut server.users[ui].messages[k]);
                    k = k + 1;
                }
                server.users[ui].messages.clear();
                let bytes = crate::frames::build_secure_clear_notice();
                out.push(Frame { to: copy_bytes(self.user_id.as_slice()), bytes });
                proof {
                    let e = spec_secure_clear(sv0, self.user_id@);
                    assert(server@ =~~= e.sv);
                    assert(fv(out@) =~= e.frames);
                }
            },
        }
        proof {
            if !has_user(sv0, self.user_id@) {
                assert(server@ =~~= spec_secure_clear(sv0, self.user_id@).sv);
                assert(fv(out@) =~= spec_secure_clear(sv0, self.user_id@).frames);
            }
        }
        out
    }

    /// Any other verb: one `ERROR :Unknown command: <verb>` line.
    pub fn handle_unknown(&self, command: &[u8]) -> (r: Vec<Frame>)
        ensures
            fv(r@) == seq![
                FrameView {
                    to: self.user_id@,
                    bytes: crate::frames::error_frame(
                        ascii("Unknown command: "@) + command@,
                    ),
                },
            ],
    {
        proof {
            reveal_strlit("Unknown command: ");
            reveal_strlit("");
            assert(("Unknown command: ").is_ascii());
            assert(("").is_ascii());
        }
        let txt = crate::frames::cat_a("Unknown command: ", command, "");
        let bytes = crate::frames::build_error_frame(txt.as_slice());
        let mut out: Vec<Frame> = Vec::new();
        out.push(Frame { to: copy_bytes(self.user_id.as_slice()), bytes });
        proof {
            assert(fv(out@) =~= seq![
                FrameView {
                    to: self.user_id@,
                    bytes: crate::frames::error_frame(
                        ascii("Unknown command: "@) + command@,
                    ),
                },
            ]);
        }
        out
    }
}

// ---------------------------------------------------------------------------
// QUIT and the disconnect cascade.
// ---------------------------------------------------------------------------

/// `s` without the entries sent by `sender`.
pub open spec fn strip_msgs(s: Seq<ChatMessageView>, sender: Seq<u8>) -> Seq<ChatMessageView>
    decreases s.len(),
{
    if s.len() == 0 {
        Seq::empty()
    } else {
        let r = strip_msgs(s.drop_last(), sender);
        if s.last().sender != sender {
            r.push(s.last())
        } else {
            r
        }
    }
}

/// A stripped history is no longer than the original.
pub proof fn lemma_strip_len(s: Seq<ChatMessageView>, sender: Seq<u8>)
    ensures
        strip_msgs(s, sender).len() <= s.len(),
    decreases s.len(),
{
    if s.len() > 0 {
        lemma_strip_len(s.drop_last(), sender);
    }
}

/// The view sequence of a message vector.
pub open spec fn mv(s: Seq<ChatMessage>) -> Seq<ChatMessageView> {
    Seq::new(s.len(), |i: int| s[i]@)
}

/// Removes, after wiping, every entry of `messages` sent by `sender`.
pub fn strip_sender(messages: &mut Vec<ChatMessage>, sender: &[u8])
    ensures
        mv(final(messages)@) == strip_msgs(mv(old(messages)@), sender@),
{
    let ghost orig = messages@;
    let mut kept: Vec<ChatMessage> = Vec::new();
    let n = messages.len();
    let mut i: usize = 0;
    while i < n
        invariant
            n == orig.len(),
            i <= n,
            messages@ == orig.skip(i as int),
            mv(kept@) == strip_msgs(mv(orig.take(i as int)), sender@),
        decreases n - i,
    {
        proof {
            assert(mv(orig.take(i + 1)).drop_last() =~= mv(orig.take(i as int)));
            assert(mv(orig.take(i + 1)).last() == orig[i as int]@);
        }
        let mut m = messages.remove(0);
        proof {
            assert(m == orig[i as int]);
            assert(orig.skip(i as int).remove(0) =~= orig.skip(i + 1));
        }
        if bytes_eq(m.sender.as_slice(), sender) {
            secure_delete_message(&mut m);
        } else {
            let ghost kept0 = kept@;
            kept.push(m);
            proof {
                assert(mv(kept@) =~= mv(kept0).push(orig[i as int]@));
            }
        }
        i = i + 1;
    }
    proof {
        assert(orig.take(n as int) =~= orig);
    }
    *messages = kept;
}

/// Wipes and then empties the private history of the user at index `ui`.
fn wipe_user_messages(server: &mut ServerState, ui: usize)
    requires
        ui < old(server)@.users.len(),
    ensures
        final(server)@ == (ServerStateView {
            users: old(server)@.users.update(
                ui as int,
                (UserView { messages: Seq::empty(), ..old(server)@.users[ui as int] }),
            ),
            ..old(server)@
        }),
{
    let ghost sv0 = server@;
    let n = server.users[ui].messages.len();
    let mut k: usize = 0;
    while k < n
        invariant
            ui < server@.users.len(),
            n == server@.users[ui as int].messages.len(),
            k <= n,
            server@.users.len() == sv0.users.len(),
            forall|j: int| 0 <= j < sv0.users.len() && j != ui ==> server@.users[j] == sv0.users[j],
            server@.users[ui as int] == (UserView {
                messages: server@.users[ui as int].messages,
                ..sv0.users[ui as int]
            }),
            server@.channels == sv0.channels,
            server@.jwt_secret == sv0.jwt_secret,
            server@.message_ttl == sv0.message_ttl,
            server@.session_timeout == sv0.session_timeout,
        decreases n - k,
    {
        secure_delete_message(&mut server.users[ui].messages[k]);
        k = k + 1;
    }
    server.users[ui].messages.clear();
    proof {
        assert(server@ =~~= (ServerStateView {
            users: sv0.users.update(
                ui as int,
                (UserView { messages: Seq::empty(), ..sv0.users[ui as int] }),
            ),
            ..sv0
        }));
    }
}

/// The disconnect cascade over the first `k` channels: drop the leaving user
/// from each member list and tell the remaining members.
pub open spec fn spec_disc_upto(
    sv0: ServerStateView,
    uid: Seq<u8>,
    text: Seq<u8>,
    k: int,
) -> Effect
    decreases k,
{
    if k <= 0 {
        Effect { sv: sv0, frames: Seq::empty() }
    } else {
        let e = spec_disc_upto(sv0, uid, text, k - 1);
        let c = e.sv.channels[k - 1];
        if c.users.contains(uid) {
            let c2 = ChannelView { users: remove_name(c.users, uid), ..c };
            let svb = ServerStateView { channels: e.sv.channels.update(k - 1, c2), ..e.sv };
            Effect {
                sv: svb,
                frames: e.frames + broadcast_frames(svb, c2.users, c.name, text, None),
            }
        } else {
            e
        }
    }
}

/// A disconnect with the given broadcast line: leave every channel, telling
/// the remaining members, then remove the user record.
pub open spec fn spec_disconnect_with(sv: ServerStateView, uid: Seq<u8>, text: Seq<u8>) -> Effect {
    if !has_user(sv, uid) {
        Effect { sv, frames: Seq::empty() }
    } else {
        let e = spec_disc_upto(sv, uid, text, sv.channels.len() as int);
        let ui = uidx(sv, uid);
        Effect {
            sv: ServerStateView { users: e.sv.users.remove(ui), channels: e.sv.channels, ..sv },
            frames: e.frames,
        }
    }
}

/// What a disconnect does: leave every channel with a notice to the remaining
/// members, wipe the private history, and remove the user record.
pub open spec fn spec_disconnect(sv: ServerStateView, uid: Seq<u8>) -> Effect {
    spec_disconnect_with(sv, uid, crate::frames::disconnected_text(the_user(sv, uid).username))
}

/// Removes a user: leaves every channel with the given notice line to the
/// others, wipes the private history, and drops the record.
pub fn disconnect_cascade(server: &mut ServerState, user_id: &[u8], text: &[u8]) -> (r: Vec<Frame>)
    requires
        distinct_ids(old(server)@.users),
        distinct_names(old(server)@.channels),
    ensures
        final(server)@ == spec_disconnect_with(old(server)@, user_id@, text@).sv,
        fv(r@) == spec_disconnect_with(old(server)@, user_id@, text@).frames,
        distinct_ids(final(server)@.users),
        distinct_names(final(server)@.channels),
{
    let ghost sv0 = server@;
    let mut out: Vec<Frame> = Vec::new();
    let ui = match server.find_user(user_id) {
        None => {
            return out;
        },
        Some(ui) => ui,
    };
    proof {
        lemma_uidx(sv0, user_id@);
        assert(uidx(sv0, user_id@) == ui as int);
    }
    let n = server.channels.len();
    let mut ci: usize = 0;
    while ci < n
        invariant
            distinct_ids(sv0.users),
            distinct_names(sv0.channels),
            n == sv0.channels.len(),
            ci <= n,
            server@ == spec_disc_upto(sv0, user_id@, text@, ci as int).sv,
            fv(out@) == spec_disc_upto(sv0, user_id@, text@, ci as int).frames,
            server@.users == sv0.users,
            server@.channels.len() == sv0.channels.len(),
            same_names(sv0.channels, server@.channels),
            server@.jwt_secret == sv0.jwt_secret,
            server@.message_ttl == sv0.message_ttl,
            server@.session_timeout == sv0.session_timeout,
        decreases n - ci,
    {
        let ghost epre = spec_disc_upto(sv0, user_id@, text@, ci as int);
        let ghost c = server@.channels[ci as int];
        match find_name(&server.channels[ci].users, user_id) {
            None => {
                proof {
                    if c.users.contains(user_id@) {
                        assert(false);
                    }
                    assert(spec_disc_upto(sv0, user_id@, text@, ci + 1) == epre);
                }
            },
            Some(p) => {
                let cname = copy_bytes(server.channels[ci].name.as_slice());
                let _gone = server.channels[ci].users.remove(p);
                let ghost svb = server@;
                proof {
                    c.users.index_of_first_ensures(user_id@);
                    assert(c.users[p as int] == user_id@);
                    assert(c.users.contains(user_id@));
                    let c2 = ChannelView { users: remove_name(c.users, user_id@), ..c };
                    assert(server@.channels[ci as int].users =~~= remove_name(c.users, user_id@));
                    assert(server@.channels[ci as int] =~~= c2);
                    assert(svb =~~= (ServerStateView {
                        channels: epre.sv.channels.update(ci as int, c2),
                        ..epre.sv
                    }));
                    assert(distinct_ids(svb.users));
                    assert(distinct_names(svb.channels)) by {
                        assert forall|a: int, b: int| 0 <= a < b < svb.channels.len() implies (
                        #[trigger] svb.channels[a]).name != (#[trigger] svb.channels[b]).name by {
                            assert(svb.channels[a].name == sv0.channels[a].name);
                            assert(svb.channels[b].name == sv0.channels[b].name);
                        }
                    }
                    assert(svb.channels[ci as int].name == cname@);
                    assert(has_channel(svb, cname@));
                    lemma_cidx(svb, cname@);
                    assert(cidx(svb, cname@) == ci as int);
                }
                broadcast_to_channel(server, cname.as_slice(), text, None, &mut out);
                proof {
                    let c2 = ChannelView { users: remove_name(c.users, user_id@), ..c };
                    assert(the_chan(svb, cname@) == c2);
                    assert(spec_disc_upto(sv0, user_id@, text@, ci + 1) == (Effect {
                        sv: svb,
                        frames: epre.frames + broadcast_frames(svb, c2.users, c.name, text@, None),
                    }));
                }
            },
        }
        ci = ci + 1;
    }
    proof {
        assert(server@.users.len() == sv0.users.len());
    }
    wipe_user_messages(server, ui);
    let ghost swiped = server@;
    proof {
        assert(swiped.users.len() == sv0.users.len());
    }
    let _u = server.users.remove(ui);
    proof {
        let e = spec_disc_upto(sv0, user_id@, text@, n as int);
        assert(swiped.users.remove(ui as int) =~= e.sv.users.remove(ui as int));
        assert(server@ =~~= spec_disconnect_with(sv0, user_id@, text@).sv);
        assert(distinct_ids(server@.users)) by {
            assert forall|a: int, b: int| 0 <= a < b < server@.users.len() implies (
            #[trigger] server@.users[a]).id != (#[trigger] server@.users[b]).id by {
                let a0 = if a < ui as int { a } else { a + 1 };
                let b0 = if b < ui as int { b } else { b + 1 };
                assert(server@.users[a].id == sv0.users[a0].id);
                assert(server@.users[b].id == sv0.users[b0].id);
            }
        }
        assert(distinct_names(server@.channels)) by {
            assert forall|a: int, b: int| 0 <= a < b < server@.channels.len() implies (
            #[trigger] server@.channels[a]).name != (#[trigger] server@.channels[b]).name by {
                assert(server@.channels[a].name == sv0.channels[a].name);
                assert(server@.channels[b].name == sv0.channels[b].name);
            }
        }
    }
    out
}

/// Removes a user with the standard disconnect notice.
pub fn disconnect_user(server: &mut ServerState, user_id: &[u8]) -> (r: Vec<Frame>)
    requires
        wf(old(server)@),
    ensures
        final(server)@ == spec_disconnect(old(server)@, user_id@).sv,
        fv(r@) == spec_disconnect(old(server)@, user_id@).frames,
        wf(final(server)@),
{
    proof {
        crate::laws::lemma_disconnect_wf(
            old(server)@,
            user_id@,
            crate::frames::disconnected_text(the_user(old(server)@, user_id@).username),
        );
    }
    let ghost sv0 = server@;
    match server.find_user(user_id) {
        None => {
            let out: Vec<Frame> = Vec::new();
            proof {
                assert(fv(out@) =~= Seq::<FrameView>::empty());
            }
            out
        },
        Some(ui) => {
            proof {
                lemma_uidx(sv0, user_id@);
                assert(uidx(sv0, user_id@) == ui as int);
            }
            let username = copy_bytes(server.users[ui].username.as_slice());
            let text = crate::frames::build_disconnected_text(username.as_slice());
            disconnect_cascade(server, user_id, text.as_slice())
        },
    }
}

/// What QUIT does: on `SECURE_DELETE`, wipe the private history and strip the
/// user's lines from the joined channels' histories; then disconnect.
pub open spec fn spec_quit(sv: ServerStateView, uid: Seq<u8>, arg1: Option<Seq<u8>>) -> Effect {
    let secure = arg1 matches Some(a) && contains_seq(a, ascii("SECURE_DELETE"@));
    let svq = if secure && has_user(sv, uid) {
        let ui = uidx(sv, uid);
        let username = sv.users[ui].username;
        ServerStateView {
            users: sv.users.update(ui, (UserView { messages: Seq::empty(), ..sv.users[ui] })),
            channels: Seq::new(
                sv.channels.len(),
                |i: int|
                    if sv.channels[i].users.contains(uid) {
                        ChannelView {
                            messages: strip_msgs(sv.channels[i].messages, username),
                            ..sv.channels[i]
                        }
                    } else {
                        sv.channels[i]
                    },
            ),
            ..sv
        }
    } else {
        sv
    };
    spec_disconnect(svq, uid)
}

impl MessageHandler {
    /// QUIT: optional secure deletion of everything the user wrote, then the
    /// disconnect cascade.
    pub fn handle_quit(
        &self,
        server: &mut ServerState,
        arg1: Option<&Vec<u8>>,
    ) -> (r: Result<Vec<Frame>, HandlerError>)
        requires
            wf(old(server)@),
        ensures
            (r matches Ok(frames) ==> final(server)@ == spec_quit(
                old(server)@,
                self.user_id@,
                oviewv(arg1),
            ).sv && fv(frames@) == spec_quit(old(server)@, self.user_id@, oviewv(arg1)).frames),
            r is Ok,
    {
        let ghost sv0 = server@;
        let secure = match arg1 {
            Some(a) => {
                proof {
                    reveal_strlit("SECURE_DELETE");
                    assert(("SECURE_DELETE").is_ascii());
                }
                let pat = "SECURE_DELETE".as_bytes();
                proof {
                    broadcast use vstd::string::is_ascii_spec_bytes;

                    assert(pat@ =~= ascii("SECURE_DELETE"@));
                }
                contains_bytes(a.as_slice(), pat)
            },
            None => false,
        };
        if secure {
            match server.find_user(self.user_id.as_slice()) {
                None => {},
                Some(ui) => {
                    proof {
                        lemma_uidx(sv0, self.user_id@);
                        assert(uidx(sv0, self.user_id@) == ui as int);
                    }
                    let username = copy_bytes(server.users[ui].username.as_slice());
                    wipe_user_messages(server, ui);
                    let ghost svw = server@;
                    // Strip the user's lines from each joined channel history.
                    let n = server.channels.len();
                    let mut ci: usize = 0;
                    while ci < n
                        invariant
                            n == svw.channels.len(),
                            ci <= n,
                            username@ == sv0.users[ui as int].username,
                            server@.users == svw.users,
                            server@.jwt_secret == svw.jwt_secret,
                            server@.message_ttl == svw.message_ttl,
                            server@.session_timeout == svw.session_timeout,
                            server@.channels.len() == svw.channels.len(),
                            forall|j: int|
                                ci <= j < svw.channels.len() ==> server@.channels[j]
                                    == svw.channels[j],
                            forall|j: int|
                                0 <= j < ci ==> server@.channels[j] == (
                                if svw.channels[j].users.contains(self.user_id@) {
                                    ChannelView {
                                        messages: strip_msgs(svw.channels[j].messages, username@),
                                        ..svw.channels[j]
                                    }
                                } else {
                                    svw.channels[j]
                                }),
                        decreases n - ci,
                    {
                        let ghost svpre = server@;
                        proof {
                            assert(server@.channels[ci as int] == svw.channels[ci as int]);
                        }
                        let member = vec_contains_name(
                            &server.channels[ci].users,
                            self.user_id.as_slice(),
                        );
                        if member {
                            proof {
                                assert(svw.channels[ci as int].users.contains(self.user_id@));
                            }
                            strip_sender(&mut server.channels[ci].messages, username.as_slice());
                            proof {
                                assert(server@.channels[ci as int] =~~= (ChannelView {
                                    messages: strip_msgs(svw.channels[ci as int].messages, username@),
                                    ..svw.channels[ci as int]
                                }));
                            }
                        } else {
                            proof {
                                assert(!svw.channels[ci as int].users.contains(self.user_id@));
                            }
                        }
                        proof {
                            assert forall|j: int| 0 <= j < ci + 1 implies server@.channels[j] == (
                            if svw.channels[j].users.contains(self.user_id@) {
                                ChannelView {
                                    messages: strip_msgs(svw.channels[j].messages, username@),
                                    ..svw.channels[j]
                                }
                            } else {
                                svw.channels[j]
                            }) by {
                                if j < ci as int {
                                    assert(server@.channels[j] == svpre.channels[j]);
                                }
                            }
                        }
                        ci = ci + 1;
                    }
                    proof {
                        let svq = spec_quit_strip(sv0, self.user_id@);
                        assert(server@ =~~= svq);
                    }
                },
            }
        }
        let ghost svq = server@;
        proof {
            if secure && has_user(sv0, self.user_id@) {
                assert(svq == spec_quit_strip(sv0, self.user_id@));
            } else {
                assert(svq == sv0);
            }
            assert(wf_quit_pre(sv0, svq, self.user_id@));
        }
        let out = disconnect_user_from(server, self.user_id.as_slice(), Ghost(sv0));
        proof {
            assert(server@ =~~= spec_quit(sv0, self.user_id@, oviewv(arg1)).sv);
            assert(fv(out@) =~~= spec_quit(sv0, self.user_id@, oviewv(arg1)).frames);
        }
        Ok(out)
    }
}

/// The stripped directory a secure QUIT produces before the disconnect.
pub open spec fn spec_quit_strip(sv: ServerStateView, uid: Seq<u8>) -> ServerStateView {
    let ui = uidx(sv, uid);
    let username = sv.users[ui].username;
    ServerStateView {
        users: sv.users.update(ui, (UserView { messages: Seq::empty(), ..sv.users[ui] })),
        channels: Seq::new(
            sv.channels.len(),
            |i: int|
                if sv.channels[i].users.contains(uid) {
                    ChannelView {
                        messages: strip_msgs(sv.channels[i].messages, username),
                        ..sv.channels[i]
                    }
                } else {
                    sv.channels[i]
                },
        ),
        ..sv
    }
}

/// What `handle_quit` knows about the stripped state before disconnecting.
pub open spec fn wf_quit_pre(sv0: ServerStateView, svq: ServerStateView, uid: Seq<u8>) -> bool {
    &&& wf(sv0)
    &&& (svq == sv0 || (has_user(sv0, uid) && svq == spec_quit_strip(sv0, uid)))
}

/// `disconnect_user`, callable on a directory that a secure QUIT has just
/// stripped (membership structure untouched, only histories changed).
fn disconnect_user_from(
    server: &mut ServerState,
    user_id: &[u8],
    Ghost(sv0): Ghost<ServerStateView>,
) -> (r: Vec<Frame>)
    requires
        wf_quit_pre(sv0, old(server)@, user_id@),
    ensures
        final(server)@ == spec_disconnect(old(server)@, user_id@).sv,
        fv(r@) == spec_disconnect(old(server)@, user_id@).frames,
{
    proof {
        let svq = old(server)@;
        if svq != sv0 {
            assert(wf(svq)) by {
                lemma_strip_wf(sv0, user_id@);
            }
        }
    }
    disconnect_user(server, user_id)
}

/// Stripping histories preserves the directory invariant.
pub proof fn lemma_strip_wf(sv: ServerStateView, uid: Seq<u8>)
    requires
        wf(sv),
        has_user(sv, uid),
    ensures
        wf(spec_quit_strip(sv, uid)),
{
    let svq = spec_quit_strip(sv, uid);
    lemma_uidx(sv, uid);
    assert(same_ids(sv.users, svq.users));
    assert(same_names(sv.channels, svq.channels));
    assert(distinct_ids(svq.users)) by {
        assert forall|i: int, j: int| 0 <= i < j < svq.users.len() implies (
        #[trigger] svq.users[i]).id != (#[trigger] svq.users[j]).id by {
            assert(sv.users[i].id != sv.users[j].id);
        }
    }
    assert(distinct_names(svq.channels)) by {
        assert forall|i: int, j: int| 0 <= i < j < svq.channels.len() implies (
        #[trigger] svq.channels[i]).name != (#[trigger] svq.channels[j]).name by {
            assert(sv.channels[i].name != sv.channels[j].name);
        }
    }
    assert forall|k: int| 0 <= k < svq.channels.len() implies wf_channel(
        svq,
        #[trigger] svq.channels[k],
    ) by {
        assert(wf_channel(sv, sv.channels[k]));
        assert(svq.channels[k].users == sv.channels[k].users);
        assert forall|m: int| 0 <= m < svq.channels[k].users.len() implies has_user(
            svq,
            #[trigger] svq.channels[k].users[m],
        ) by {
            lemma_has_user_carry(sv, svq, sv.channels[k].users[m]);
        }
        lemma_strip_len(sv.channels[k].messages, sv.users[uidx(sv, uid)].username);
    }
    assert forall|k: int| 0 <= k < svq.users.len() implies wf_user(
        svq,
        #[trigger] svq.users[k],
    ) by {
        assert(wf_user(sv, sv.users[k]));
        assert(svq.users[k].channels == sv.users[k].channels);
        assert(svq.users[k].id == sv.users[k].id);
        assert(svq.users[k].session == sv.users[k].session);
        assert forall|m: int| 0 <= m < svq.users[k].channels.len() implies has_channel(
            svq,
            #[trigger] svq.users[k].channels[m],
        ) by {
            lemma_has_chan_carry(sv, svq, sv.users[k].channels[m]);
        }
    }
    assert forall|a: int, b: int|
        0 <= a < svq.channels.len() && 0 <= b < svq.users.len() implies ((
    #[trigger] svq.channels[a]).users.contains(svq.users[b].id) <==> (
    #[trigger] svq.users[b]).channels.contains(svq.channels[a].name)) by {
        assert(svq.channels[a].users == sv.channels[a].users);
        assert(svq.users[b].id == sv.users[b].id);
        assert(svq.users[b].channels == sv.users[b].channels);
        assert(svq.channels[a].name == sv.channels[a].name);
        assert(wf(sv));
    }
}

/// Moves all frames of `more` to the end of `out`.
pub fn append_frames(out: &mut Vec<Frame>, more: &mut Vec<Frame>)
    ensures
        fv(final(out)@) == fv(old(out)@) + fv(old(more)@),
        final(more)@.len() == 0,
{
    let ghost a = out@;
    let ghost b = more@;
    out.append(more);
    proof {
        assert(fv(out@) =~= fv(a) + fv(b));
    }
}

// ---------------------------------------------------------------------------
// Command dispatch.
// ---------------------------------------------------------------------------

/// Touching a session clock preserves the directory invariant.
pub proof fn lemma_touch_wf(sv: ServerStateView, uid: Seq<u8>, now: u64)
    requires
        wf(sv),
    ensures
        wf(spec_touch(sv, uid, now)),
{
    let svt = spec_touch(sv, uid, now);
    if has_user(sv, uid) {
        lemma_uidx(sv, uid);
        assert(same_ids(sv.users, svt.users));
        assert(same_names(sv.channels, svt.channels));
        assert(distinct_ids(svt.users)) by {
            assert forall|i: int, j: int| 0 <= i < j < svt.users.len() implies (
            #[trigger] svt.users[i]).id != (#[trigger] svt.users[j]).id by {
                assert(sv.users[i].id != sv.users[j].id);
            }
        }
        assert forall|k: int| 0 <= k < svt.channels.len() implies wf_channel(
            svt,
            #[trigger] svt.channels[k],
        ) by {
            assert(wf_channel(sv, sv.channels[k]));
            assert forall|m: int| 0 <= m < svt.channels[k].users.len() implies has_user(
                svt,
                #[trigger] svt.channels[k].users[m],
            ) by {
                lemma_has_user_carry(sv, svt, sv.channels[k].users[m]);
            }
        }
        assert forall|k: int| 0 <= k < svt.users.len() implies wf_user(
            svt,
            #[trigger] svt.users[k],
        ) by {
            assert(wf_user(sv, sv.users[k]));
            assert(svt.users[k].channels == sv.users[k].channels);
            assert(svt.users[k].id == sv.users[k].id);
            assert forall|m: int| 0 <= m < svt.users[k].channels.len() implies has_channel(
                svt,
                #[trigger] svt.users[k].channels[m],
            ) by {
                lemma_has_chan_carry(sv, svt, sv.users[k].channels[m]);
            }
        }
        assert forall|a: int, b: int|
            0 <= a < svt.channels.len() && 0 <= b < svt.users.len() implies ((
        #[trigger] svt.channels[a]).users.contains(svt.users[b].id) <==> (
        #[trigger] svt.users[b]).channels.contains(svt.channels[a].name)) by {
            assert(svt.channels[a] == sv.channels[a]);
            assert(svt.users[b].id == sv.users[b].id);
            assert(svt.users[b].channels == sv.users[b].channels);
            assert(wf(sv));
        }
    }
}

pub open spec fn spec_join_full(
    sv: ServerStateView,
    uid: Seq<u8>,
    arg1: Option<Seq<u8>>,
    now: u64,
) -> CmdResult {
    match arg1 {
        None => CmdResult {
            sv,
            frames: seq![
                FrameView {
                    to: uid,
                    bytes: crate::frames::error_frame(ascii("Not enough parameters for JOIN"@)),
                },
            ],
            err: None,
        },
        Some(chan) => if has_user(sv, uid) {
            let e = spec_join(sv, uid, chan, now);
            CmdResult { sv: e.sv, frames: e.frames, err: None }
        } else {
            CmdResult { sv, frames: Seq::empty(), err: Some(HandlerErrorView::UserNotFound) }
        },
    }
}

pub open spec fn spec_part_full(
    sv: ServerStateView,
    uid: Seq<u8>,
    arg1: Option<Seq<u8>>,
    now: u64,
) -> CmdResult {
    match arg1 {
        None => CmdResult {
            sv,
            frames: seq![
                FrameView {
                    to: uid,
                    bytes: crate::frames::error_frame(ascii("Not enough parameters for PART"@)),
                },
            ],
            err: None,
        },
        Some(chan) => if has_user(sv, uid) {
            let e = spec_part(sv, uid, chan, now);
            CmdResult { sv: e.sv, frames: e.frames, err: None }
        } else {
            CmdResult { sv, frames: Seq::empty(), err: Some(HandlerErrorView::UserNotFound) }
        },
    }
}

pub open spec fn spec_list_full(sv: ServerStateView, uid: Seq<u8>) -> CmdResult {
    CmdResult {
        sv,
        frames: seq![
            FrameView {
                to: uid,
                bytes: list_body(sv.channels, uid) + crate::frames::list_end(uid),
            },
        ],
        err: None,
    }
}

pub open spec fn spec_who_full(sv: ServerStateView, uid: Seq<u8>, arg1: Option<Seq<u8>>) -> CmdResult {
    match arg1 {
        None => CmdResult {
            sv,
            frames: seq![
                FrameView {
                    to: uid,
                    bytes: crate::frames::error_frame(ascii("Not enough parameters for WHO"@)),
                },
            ],
            err: None,
        },
        Some(chan) => CmdResult {
            sv,
            frames: if has_channel(sv, chan) {
                seq![
                    FrameView {
                        to: uid,
                        bytes: who_body(sv, the_chan(sv, chan).users, uid, chan)
                            + crate::frames::who_end(uid, chan),
                    },
                ]
            } else {
                seq![
                    FrameView {
                        to: uid,
                        bytes: crate::frames::error_frame(
                            ascii("Channel "@) + chan + ascii(" not found"@),
                        ),
                    },
                ]
            },
            err: None,
        },
    }
}

/// What one command line does to the directory: parse, refresh the caller's
/// activity, then apply the verb.
pub open spec fn spec_handle_message(
    sv: ServerStateView,
    uid: Seq<u8>,
    line: Seq<u8>,
    now: u64,
) -> CmdResult {
    let p = spec_parts(line);
    let svt = spec_touch(sv, uid, now);
    let v = upper(p.verb);
    if v == ascii("JOIN"@) {
        spec_join_full(svt, uid, p.arg1, now)
    } else if v == ascii("PART"@) {
        spec_part_full(svt, uid, p.arg1, now)
    } else if v == ascii("PRIVMSG"@) {
        spec_privmsg(svt, uid, p.arg1, p.rest, now)
    } else if v == ascii("LIST"@) {
        spec_list_full(svt, uid)
    } else if v == ascii("WHO"@) {
        spec_who_full(svt, uid, p.arg1)
    } else if v == ascii("QUIT"@) {
        let e = spec_quit(svt, uid, p.arg1);
        CmdResult { sv: e.sv, frames: e.frames, err: None }
    } else if v == ascii("SECURECLEAR"@) {
        let e = spec_secure_clear(svt, uid);
        CmdResult { sv: e.sv, frames: e.frames, err: None }
    } else {
        CmdResult {
            sv: svt,
            frames: seq![
                FrameView {
                    to: uid,
                    bytes: crate::frames::error_frame(ascii("Unknown command: "@) + p.verb),
                },
            ],
            err: None,
        }
    }
}

impl MessageHandler {
    /// Parses one command line, refreshes the caller's activity clock, and
    /// dispatches on the upper-cased verb.
    #[verifier::rlimit(60)]
    pub fn handle_message(
        &self,
        server: &mut ServerState,
        command: &[u8],
        now: u64,
    ) -> (r: Result<Vec<Frame>, HandlerError>)
        requires
            wf(old(server)@),
        ensures
            final(server)@ == spec_handle_message(old(server)@, self.user_id@, command@, now).sv,
            wf(final(server)@),
            (r matches Ok(frames) ==> spec_handle_message(
                old(server)@,
                self.user_id@,
                command@,
                now,
            ).err is None && fv(frames@) == spec_handle_message(
                old(server)@,
                self.user_id@,
                command@,
                now,
            ).frames),
            (r matches Err(e) ==> spec_handle_message(
                old(server)@,
                self.user_id@,
                command@,
                now,
            ).err == Some(e@)),
    {
        let parts = parse_parts(command);
        let ghost sv0 = server@;
        // Refresh the caller's activity clock before dispatch.
        match server.find_user(self.user_id.as_slice()) {
            Some(ui) => {
                proof {
                    lemma_uidx(sv0, self.user_id@);
                    assert(uidx(sv0, self.user_id@) == ui as int);
                }
                match &mut server.users[ui].session {
                    Some(s) => s.update_activity(now),
                    None => {},
                }
            },
            None => {},
        }
        proof {
            assert(server@ =~~= spec_touch(sv0, self.user_id@, now));
            lemma_touch_wf(sv0, self.user_id@, now);
        }
        let up = to_upper(parts.verb.as_slice());
        proof {
            reveal_strlit("JOIN");
            reveal_strlit("PART");
            reveal_strlit("PRIVMSG");
            reveal_strlit("LIST");
            reveal_strlit("WHO");
            reveal_strlit("QUIT");
            reveal_strlit("SECURECLEAR");
            assert(("JOIN").is_ascii());
            assert(("PART").is_ascii());
            assert(("PRIVMSG").is_ascii());
            assert(("LIST").is_ascii());
            assert(("WHO").is_ascii());
            assert(("QUIT").is_ascii());
            assert(("SECURECLEAR").is_ascii());
        }
        let r = if eq_lit(up.as_slice(), "JOIN") {
            self.handle_join(server, parts.arg1.as_ref(), now)
        } else if eq_lit(up.as_slice(), "PART") {
            self.handle_leave(server, parts.arg1.as_ref(), now)
        } else if eq_lit(up.as_slice(), "PRIVMSG") {
            self.handle_privmsg(server, parts.arg1.as_ref(), parts.rest.as_ref(), now)
        } else if eq_lit(up.as_slice(), "LIST") {
            Ok(self.handle_list(server))
        } else if eq_lit(up.as_slice(), "WHO") {
            Ok(self.handle_who(server, parts.arg1.as_ref()))
        } else if eq_lit(up.as_slice(), "QUIT") {
            self.handle_quit(server, parts.arg1.as_ref())
        } else if eq_lit(up.as_slice(), "SECURECLEAR") {
            Ok(self.handle_secure_clear(server))
        } else {
            Ok(self.handle_unknown(parts.verb.as_slice()))
        };
        proof {
            crate::laws::lemma_handle_message_wf(sv0, self.user_id@, command@, now);
        }
        r
    }
}

} // verus!
