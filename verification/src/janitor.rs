//! The background sweeper: evicts expired messages, expires idle sessions,
//! and reaps long-empty channels. One call handles one tick; the caller
//! sleeps between ticks and delivers the returned notices.

use vstd::prelude::*;

use crate::bytes::{ascii, copy_bytes};
use crate::handler::{
    broadcast_frames, disconnect_cascade, distinct_ids, distinct_names, fv, has_user,
    spec_disconnect_with, the_user, uidx, Effect, Frame, FrameView, ServerState, ServerStateView,
    lemma_uidx, lemma_uidx_carry, same_ids, same_names,
};
use crate::models::{secure_delete_message, ChannelView, ChatMessage, ChatMessageView, UserView};
use crate::session::spec_duration_since;

verus! {

/// The channel views of a channel vector.
pub open spec fn chanv(s: Seq<crate::models::Channel>) -> Seq<ChannelView> {
    Seq::new(s.len(), |i: int| s[i]@)
}

/// Seconds an empty channel may stay around before it is reaped.
pub const EMPTY_CHANNEL_GRACE: u64 = 86400;

/// The entries of `s` that are still fresh at `now` under `ttl`.
pub open spec fn keep_fresh(s: Seq<ChatMessageView>, now: u64, ttl: u64) -> Seq<ChatMessageView>
    decreases s.len(),
{
    if s.len() == 0 {
        Seq::empty()
    } else {
        let r = keep_fresh(s.drop_last(), now, ttl);
        if spec_duration_since(now, s.last().timestamp) < ttl {
            r.push(s.last())
        } else {
            r
        }
    }
}

pub proof fn lemma_keep_fresh_len(s: Seq<ChatMessageView>, now: u64, ttl: u64)
    ensures
        keep_fresh(s, now, ttl).len() <= s.len(),
    decreases s.len(),
{
    if s.len() > 0 {
        lemma_keep_fresh_len(s.drop_last(), now, ttl);
    }
}

/// Every kept entry is fresh.
pub proof fn lemma_keep_fresh_fresh(s: Seq<ChatMessageView>, now: u64, ttl: u64)
    ensures
        forall|i: int|
            0 <= i < keep_fresh(s, now, ttl).len() ==> spec_duration_since(
                now,
                #[trigger] keep_fresh(s, now, ttl)[i].timestamp,
            ) < ttl,
    decreases s.len(),
{
    if s.len() > 0 {
        lemma_keep_fresh_fresh(s.drop_last(), now, ttl);
        let k = keep_fresh(s, now, ttl);
        let r = keep_fresh(s.drop_last(), now, ttl);
        assert forall|i: int|
            0 <= i < k.len() implies spec_duration_since(now, #[trigger] k[i].timestamp)
            < ttl by {
            if spec_duration_since(now, s.last().timestamp) < ttl {
                assert(k == r.push(s.last()));
                if i < r.len() {
                    assert(k[i] == r[i]);
                }
            } else {
                assert(k == r);
            }
        }
    }
}

/// Removes, after wiping, every expired entry of `messages`.
pub fn sweep_messages(messages: &mut Vec<ChatMessage>, now: u64, ttl: u64)
    ensures
        crate::handler::mv(final(messages)@) == keep_fresh(
            crate::handler::mv(old(messages)@),
            now,
            ttl,
        ),
{
    let ghost orig = messages@;
    let mut kept: Vec<ChatMessage> = Vec::new();
    let n = messages.len();
    let mut i: usize = 0;
    while i < n
        invariant
            n == orig.len(),
            i <= n,
            messages@ == orig.skip(i as int),
            crate::handler::mv(kept@) == keep_fresh(
                crate::handler::mv(orig.take(i as int)),
                now,
                ttl,
            ),
        decreases n - i,
    {
        proof {
            assert(crate::handler::mv(orig.take(i + 1)).drop_last() =~= crate::handler::mv(
                orig.take(i as int),
            ));
            assert(crate::handler::mv(orig.take(i + 1)).last() == orig[i as int]@);
        }
        let mut m = messages.remove(0);
        proof {
            assert(m == orig[i as int]);
            assert(orig.skip(i as int).remove(0) =~= orig.skip(i + 1));
        }
        let fresh = crate::session::duration_since(now, m.timestamp) < ttl;
        if fresh {
            let ghost kept0 = kept@;
            kept.push(m);
            proof {
                assert(crate::handler::mv(kept@) =~= crate::handler::mv(kept0).push(
                    orig[i as int]@,
                ));
            }
        } else {
            secure_delete_message(&mut m);
        }
        i = i + 1;
    }
    proof {
        assert(orig.take(n as int) =~= orig);
    }
    *messages = kept;
}

/// A channel after one TTL sweep.
pub open spec fn swept_chan(c: ChannelView, now: u64, ttl: u64) -> ChannelView {
    ChannelView { messages: keep_fresh(c.messages, now, ttl), ..c }
}

/// One sweep notice addressed to each listed member, in list order.
pub open spec fn member_notices(members: Seq<Seq<u8>>, bytes: Seq<u8>) -> Seq<FrameView>
    decreases members.len(),
{
    if members.len() == 0 {
        Seq::empty()
    } else {
        member_notices(members.drop_last(), bytes).push(
            FrameView { to: members.last(), bytes },
        )
    }
}

/// The notices of the channel sweep, channel by channel.
pub open spec fn sweep_chan_frames(channels: Seq<ChannelView>, now: u64, ttl: u64) -> Seq<
    FrameView,
>
    decreases channels.len(),
{
    if channels.len() == 0 {
        Seq::empty()
    } else {
        let rest = sweep_chan_frames(channels.drop_last(), now, ttl);
        let c = channels.last();
        let removed = c.messages.len() - keep_fresh(c.messages, now, ttl).len();
        if removed > 0 {
            rest + member_notices(
                c.users,
                crate::frames::channel_sweep_notice(removed as nat),
            )
        } else {
            rest
        }
    }
}

/// A user record after one TTL sweep of the private history.
pub open spec fn swept_user(u: UserView, now: u64, ttl: u64) -> UserView {
    UserView { messages: keep_fresh(u.messages, now, ttl), ..u }
}

/// The notices of the private-history sweep, user by user.
pub open spec fn sweep_user_frames(users: Seq<UserView>, now: u64, ttl: u64) -> Seq<FrameView>
    decreases users.len(),
{
    if users.len() == 0 {
        Seq::empty()
    } else {
        let rest = sweep_user_frames(users.drop_last(), now, ttl);
        let u = users.last();
        let removed = u.messages.len() - keep_fresh(u.messages, now, ttl).len();
        if removed > 0 {
            rest.push(
                FrameView {
                    to: u.id,
                    bytes: crate::frames::private_sweep_notice(removed as nat),
                },
            )
        } else {
            rest
        }
    }
}

/// Ids of the users whose sessions have been idle past the timeout.
pub open spec fn expired_ids(users: Seq<UserView>, now: u64, timeout: u64) -> Seq<Seq<u8>>
    decreases users.len(),
{
    if users.len() == 0 {
        Seq::empty()
    } else {
        let rest = expired_ids(users.drop_last(), now, timeout);
        let u = users.last();
        match u.session {
            Some(s) => if spec_duration_since(now, s.last_activity) > timeout {
                rest.push(u.id)
            } else {
                rest
            },
            None => rest,
        }
    }
}

/// The inactivity expiries, in id order: a notice to the user, then the
/// disconnect cascade.
pub open spec fn expire_upto(sv: ServerStateView, ids: Seq<Seq<u8>>, k: int) -> Effect
    decreases k,
{
    if k <= 0 {
        Effect { sv, frames: Seq::empty() }
    } else {
        let e = expire_upto(sv, ids, k - 1);
        let uid = ids[k - 1];
        let notice = FrameView { to: uid, bytes: crate::frames::inactivity_notice() };
        let d = spec_disconnect_with(
            e.sv,
            uid,
            crate::frames::inactive_text(the_user(e.sv, uid).username),
        );
        Effect { sv: d.sv, frames: e.frames.push(notice) + d.frames }
    }
}

/// The channels that survive reaping: non-empty, or recently active.
pub open spec fn reap_channels(channels: Seq<ChannelView>, now: u64) -> Seq<ChannelView>
    decreases channels.len(),
{
    if channels.len() == 0 {
        Seq::empty()
    } else {
        let rest = reap_channels(channels.drop_last(), now);
        let c = channels.last();
        if c.users.len() == 0 && spec_duration_since(now, c.last_activity)
            > EMPTY_CHANNEL_GRACE {
            rest
        } else {
            rest.push(c)
        }
    }
}

/// One janitor pass over the directory.
pub open spec fn spec_janitor_tick(sv: ServerStateView, now: u64) -> Effect {
    let ttl = sv.message_ttl;
    let timeout = sv.session_timeout;
    let sv1 = ServerStateView {
        channels: Seq::new(sv.channels.len(), |i: int| swept_chan(sv.channels[i], now, ttl)),
        ..sv
    };
    let f1 = sweep_chan_frames(sv.channels, now, ttl);
    let sv2 = ServerStateView {
        users: Seq::new(sv1.users.len(), |i: int| swept_user(sv1.users[i], now, ttl)),
        ..sv1
    };
    let f2 = sweep_user_frames(sv1.users, now, ttl);
    let ids = expired_ids(sv2.users, now, timeout);
    let e3 = expire_upto(sv2, ids, ids.len() as int);
    let sv4 = ServerStateView { channels: reap_channels(e3.sv.channels, now), ..e3.sv };
    Effect { sv: sv4, frames: f1 + f2 + e3.frames }
}

/// Runs one janitor pass: sweep channel histories, sweep private histories,
/// expire idle sessions, and reap long-empty channels. Returns the notices
/// to deliver.
#[verifier::rlimit(80)]
pub fn janitor_tick(server: &mut ServerState, now: u64) -> (r: Vec<Frame>)
    requires
        distinct_ids(old(server)@.users),
        distinct_names(old(server)@.channels),
    ensures
        final(server)@ == spec_janitor_tick(old(server)@, now).sv,
        fv(r@) == spec_janitor_tick(old(server)@, now).frames,
        crate::handler::wf(old(server)@) ==> crate::handler::wf(final(server)@),
{
    proof {
        if crate::handler::wf(old(server)@) {
            crate::laws::lemma_janitor_wf(old(server)@, now);
        }
    }
    let ghost sv0 = server@;
    let ttl = server.message_ttl;
    let timeout = server.session_timeout;
    let mut out: Vec<Frame> = Vec::new();
    // Phase 1: sweep the channel histories.
    let n = server.channels.len();
    let mut ci: usize = 0;
    while ci < n
        invariant
            n == sv0.channels.len(),
            ci <= n,
            ttl == sv0.message_ttl,
            server@.users == sv0.users,
            server@.jwt_secret == sv0.jwt_secret,
            server@.message_ttl == sv0.message_ttl,
            server@.session_timeout == sv0.session_timeout,
            server@.channels.len() == n,
            forall|j: int| ci <= j < n ==> server@.channels[j] == sv0.channels[j],
            forall|j: int|
                0 <= j < ci ==> server@.channels[j] == swept_chan(sv0.channels[j], now, ttl),
            fv(out@) == sweep_chan_frames(sv0.channels.take(ci as int), now, ttl),
        decreases n - ci,
    {
        let ghost svpre = server@;
        proof {
            assert(sv0.channels.take(ci + 1).drop_last() =~= sv0.channels.take(ci as int));
            assert(sv0.channels.take(ci + 1).last() == sv0.channels[ci as int]);
        }
        let before = server.channels[ci].messages.len();
        sweep_messages(&mut server.channels[ci].messages, now, ttl);
        let after = server.channels[ci].messages.len();
        proof {
            assert(crate::handler::mv(server.channels@[ci as int].messages@) =~~= server@.channels[ci
                as int].messages);
            assert(server@.channels[ci as int] =~~= swept_chan(sv0.channels[ci as int], now, ttl));
            assert(forall|j: int|
                0 <= j < n && j != ci ==> server@.channels[j] == svpre.channels[j]);
            lemma_keep_fresh_len(sv0.channels[ci as int].messages, now, ttl);
            assert(before == sv0.channels[ci as int].messages.len());
            assert(after == keep_fresh(sv0.channels[ci as int].messages, now, ttl).len());
            assert(after <= before);
        }
        let ghost svmid = server@;
        let removed = before - after;
        if removed > 0 {
            let bytes = crate::frames::build_channel_sweep_notice(removed as u64);
            proof {
                assert(bytes@ == crate::frames::channel_sweep_notice(
                    (sv0.channels[ci as int].messages.len() - keep_fresh(
                        sv0.channels[ci as int].messages,
                        now,
                        ttl,
                    ).len()) as nat,
                ));
            }
            let ghost base = fv(out@);
            let ghost members = sv0.channels[ci as int].users;
            proof {
                assert(server@.channels[ci as int].users == members);
            }
            let mn = server.channels[ci].users.len();
            let mut mj: usize = 0;
            while mj < mn
                invariant
                    ci < n,
                    server@ == svmid,
                    ci < server@.channels.len(),
                    server@.channels[ci as int].users == members,
                    mn == members.len(),
                    mj <= mn,
                    fv(out@) == base + member_notices(members.take(mj as int), bytes@),
                decreases mn - mj,
            {
                proof {
                    assert(members.take(mj + 1).drop_last() =~= members.take(mj as int));
                    assert(members.take(mj + 1).last() == members[mj as int]);
                    assert(server.channels@[ci as int].users@[mj as int]@ == members[mj as int]);
                }
                let to = copy_bytes(server.channels[ci].users[mj].as_slice());
                let b2 = copy_bytes(bytes.as_slice());
                let ghost out0 = out@;
                out.push(Frame { to, bytes: b2 });
                proof {
                    crate::handler::lemma_fv_push(out0, out@.last());
                    assert(fv(out@) =~= base + member_notices(members.take(mj + 1), bytes@));
                }
                mj = mj + 1;
            }
            proof {
                assert(members.take(mn as int) =~= members);
                assert(fv(out@) =~= sweep_chan_frames(sv0.channels.take(ci + 1), now, ttl));
            }
        } else {
            proof {
                assert(fv(out@) =~= sweep_chan_frames(sv0.channels.take(ci + 1), now, ttl));
            }
        }
        proof {
            assert forall|j: int| 0 <= j < ci + 1 implies server@.channels[j] == swept_chan(
                sv0.channels[j],
                now,
                ttl,
            ) by {
                if j < ci as int {
                    assert(server@.channels[j] == svpre.channels[j]);
                } else {
                    assert(server@.channels[j] == svmid.channels[j]);
                }
            }
        }
        ci = ci + 1;
    }
    proof {
        assert(sv0.channels.take(n as int) =~= sv0.channels);
    }
    let ghost sv1 = server@;
    let ghost f1 = fv(out@);
    proof {
        assert(sv1 =~~= (ServerStateView {
            channels: Seq::new(sv0.channels.len(), |i: int| swept_chan(sv0.channels[i], now, ttl)),
            ..sv0
        }));
    }
    // Phase 2: sweep the private histories.
    let un = server.users.len();
    let mut ui: usize = 0;
    while ui < un
        invariant
            un == sv1.users.len(),
            ui <= un,
            ttl == sv0.message_ttl,
            server@.channels == sv1.channels,
            server@.jwt_secret == sv1.jwt_secret,
            server@.message_ttl == sv1.message_ttl,
            server@.session_timeout == sv1.session_timeout,
            server@.users.len() == un,
            forall|j: int| ui <= j < un ==> server@.users[j] == sv1.users[j],
            forall|j: int| 0 <= j < ui ==> server@.users[j] == swept_user(sv1.users[j], now, ttl),
            fv(out@) == f1 + sweep_user_frames(sv1.users.take(ui as int), now, ttl),
        decreases un - ui,
    {
        let ghost svpre = server@;
        proof {
            assert(sv1.users.take(ui + 1).drop_last() =~= sv1.users.take(ui as int));
            assert(sv1.users.take(ui + 1).last() == sv1.users[ui as int]);
        }
        let before = server.users[ui].messages.len();
        sweep_messages(&mut server.users[ui].messages, now, ttl);
        let after = server.users[ui].messages.len();
        proof {
            assert(server@.users[ui as int] =~~= swept_user(sv1.users[ui as int], now, ttl));
            assert(forall|j: int| 0 <= j < un && j != ui ==> server@.users[j] == svpre.users[j]);
            lemma_keep_fresh_len(sv1.users[ui as int].messages, now, ttl);
            assert(before == sv1.users[ui as int].messages.len());
            assert(after == keep_fresh(sv1.users[ui as int].messages, now, ttl).len());
            assert(after <= before);
        }
        let removed = before - after;
        if removed > 0 {
            let bytes = crate::frames::build_private_sweep_notice(removed as u64);
            let to = copy_bytes(server.users[ui].id.as_slice());
            let ghost out0 = out@;
            out.push(Frame { to, bytes });
            proof {
                crate::handler::lemma_fv_push(out0, out@.last());
                assert(server@.users[ui as int].id == sv1.users[ui as int].id);
                assert(fv(out@) =~= f1 + sweep_user_frames(sv1.users.take(ui + 1), now, ttl));
            }
        } else {
            proof {
                assert(fv(out@) =~= f1 + sweep_user_frames(sv1.users.take(ui + 1), now, ttl));
            }
        }
        proof {
            assert forall|j: int| 0 <= j < ui + 1 implies server@.users[j] == swept_user(
                sv1.users[j],
                now,
                ttl,
            ) by {
                if j < ui as int {
                    assert(server@.users[j] == svpre.users[j]);
                }
            }
        }
        ui = ui + 1;
    }
    proof {
        assert(sv1.users.take(un as int) =~= sv1.users);
    }
    let ghost sv2 = server@;
    let ghost f2 = fv(out@);
    proof {
        assert(sv2 =~~= (ServerStateView {
            users: Seq::new(sv1.users.len(), |i: int| swept_user(sv1.users[i], now, ttl)),
            ..sv1
        }));
    }
    // Phase 3: expire idle sessions.
    let mut expired: Vec<Vec<u8>> = Vec::new();
    let en = server.users.len();
    let mut ek: usize = 0;
    while ek < en
        invariant
            en == sv2.users.len(),
            ek <= en,
            timeout == sv2.session_timeout,
            server@ == sv2,
            expired.deep_view() == expired_ids(sv2.users.take(ek as int), now, timeout),
        decreases en - ek,
    {
        proof {
            assert(sv2.users.take(ek + 1).drop_last() =~= sv2.users.take(ek as int));
            assert(sv2.users.take(ek + 1).last() == sv2.users[ek as int]);
        }
        let idle = match &server.users[ek].session {
            Some(s) => s.is_expired(timeout, now),
            None => false,
        };
        if idle {
            let id = copy_bytes(server.users[ek].id.as_slice());
            expired.push(id);
            proof {
                assert(expired.deep_view() =~~= expired_ids(
                    sv2.users.take(ek + 1),
                    now,
                    timeout,
                ));
            }
        } else {
            proof {
                assert(expired.deep_view() =~~= expired_ids(
                    sv2.users.take(ek + 1),
                    now,
                    timeout,
                ));
            }
        }
        ek = ek + 1;
    }
    proof {
        assert(sv2.users.take(en as int) =~= sv2.users);
    }
    let ghost ids = expired.deep_view();
    proof {
        assert(distinct_ids(sv2.users)) by {
            assert forall|a: int, b: int| 0 <= a < b < sv2.users.len() implies (
            #[trigger] sv2.users[a]).id != (#[trigger] sv2.users[b]).id by {
                assert(sv2.users[a].id == sv0.users[a].id);
                assert(sv2.users[b].id == sv0.users[b].id);
            }
        }
        assert(distinct_names(sv2.channels)) by {
            assert forall|a: int, b: int| 0 <= a < b < sv2.channels.len() implies (
            #[trigger] sv2.channels[a]).name != (#[trigger] sv2.channels[b]).name by {
                assert(sv2.channels[a].name == sv0.channels[a].name);
                assert(sv2.channels[b].name == sv0.channels[b].name);
            }
        }
    }
    let dn = expired.len();
    let mut dk: usize = 0;
    while dk < dn
        invariant
            dn == ids.len(),
            dk <= dn,
            ids == expired.deep_view(),
            expired@.len() == dn,
            server@ == expire_upto(sv2, ids, dk as int).sv,
            fv(out@) == f2 + expire_upto(sv2, ids, dk as int).frames,
            distinct_ids(server@.users),
            distinct_names(server@.channels),
        decreases dn - dk,
    {
        let ghost epre = expire_upto(sv2, ids, dk as int);
        let uid: &Vec<u8> = &expired[dk];
        proof {
            assert(expired.deep_view()[dk as int] =~= expired@[dk as int]@);
            assert(uid@ == ids[dk as int]);
        }
        let notice = crate::frames::build_inactivity_notice();
        let ghost out0 = out@;
        out.push(Frame { to: copy_bytes(uid.as_slice()), bytes: notice });
        proof {
            crate::handler::lemma_fv_push(out0, out@.last());
        }
        match server.find_user(uid.as_slice()) {
            None => {
                proof {
                    assert(!has_user(epre.sv, uid@));
                    assert(expire_upto(sv2, ids, dk + 1).sv == epre.sv);
                    assert(fv(out@) =~= f2 + expire_upto(sv2, ids, dk + 1).frames);
                }
            },
            Some(wi) => {
                proof {
                    lemma_uidx(epre.sv, uid@);
                    assert(uidx(epre.sv, uid@) == wi as int);
                }
                let username = copy_bytes(server.users[wi].username.as_slice());
                let text = crate::frames::build_inactive_text(username.as_slice());
                let ghost out1 = out@;
                let mut dframes = disconnect_cascade(server, uid.as_slice(), text.as_slice());
                let ghost dg = fv(dframes@);
                crate::handler::append_frames(&mut out, &mut dframes);
                proof {
                    assert(text@ == crate::frames::inactive_text(
                        the_user(epre.sv, uid@).username,
                    ));
                    assert(fv(out@) =~= fv(out1) + dg);
                    assert(fv(out@) =~= f2 + expire_upto(sv2, ids, dk + 1).frames);
                    assert(server@ == expire_upto(sv2, ids, dk + 1).sv);
                }
            },
        }
        dk = dk + 1;
    }
    let ghost e3 = expire_upto(sv2, ids, ids.len() as int);
    // Phase 4: reap long-empty channels.
    let ghost chpre = server@.channels;
    let mut keptc: Vec<crate::models::Channel> = Vec::new();
    let rn = server.channels.len();
    let mut rk: usize = 0;
    while rk < rn
        invariant
            rn == chpre.len(),
            rk <= rn,
            server@.channels == chpre.skip(rk as int),
            chanv(keptc@) == reap_channels(chpre.take(rk as int), now),
            server@.users == e3.sv.users,
            server@.jwt_secret == e3.sv.jwt_secret,
            server@.message_ttl == e3.sv.message_ttl,
            server@.session_timeout == e3.sv.session_timeout,
            fv(out@) == f2 + e3.frames,
        decreases rn - rk,
    {
        proof {
            assert(chpre.take(rk + 1).drop_last() =~= chpre.take(rk as int));
            assert(chpre.take(rk + 1).last() == chpre[rk as int]);
            assert(chpre.skip(rk as int).remove(0) =~= chpre.skip(rk + 1));
        }
        proof {
            assert(server@.channels[0] == chpre.skip(rk as int)[0]);
        }
        let mut c = server.channels.remove(0);
        proof {
            assert(c@ == chpre[rk as int]);
            assert(server@.channels =~~= chpre.skip(rk + 1));
        }
        let reap = c.users.is_empty() && crate::session::duration_since(now, c.last_activity)
            > EMPTY_CHANNEL_GRACE;
        if reap {
            // Wipe the dying history before the storage is released.
            let cm = c.messages.len();
            let mut wk: usize = 0;
            while wk < cm
                invariant
                    wk <= cm,
                    c.messages@.len() == cm,
                decreases cm - wk,
            {
                secure_delete_message(&mut c.messages[wk]);
                wk = wk + 1;
            }
            proof {
                assert(chanv(keptc@) =~= reap_channels(chpre.take(rk + 1), now));
            }
        } else {
            keptc.push(c);
            proof {
                assert(chanv(keptc@) =~= reap_channels(chpre.take(rk + 1), now));
            }
        }
        rk = rk + 1;
    }
    proof {
        assert(chpre.take(rn as int) =~= chpre);
    }
    server.channels = keptc;
    proof {
        assert(server@.channels =~~= chanv(keptc@));
        assert(server@ =~~= spec_janitor_tick(sv0, now).sv);
        assert(fv(out@) =~~= spec_janitor_tick(sv0, now).frames);
    }
    out
}

} // verus!
