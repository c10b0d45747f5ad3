//! Laws the server keeps, stated and proved over the command and janitor
//! specifications.

use vstd::prelude::*;

use crate::handler::{
    broadcast_frames, cidx, distinct, distinct_ids, distinct_names, has_channel, has_user,
    lemma_cidx, lemma_cidx_carry, lemma_touch_wf, lemma_uidx, lemma_uidx_carry, same_ids,
    same_names, spec_privmsg, spec_touch, the_chan, the_user, uidx, wf, wf_channel, wf_user,
    FrameView, ServerStateView,
};
use crate::janitor::{
    expire_upto, expired_ids, lemma_keep_fresh_fresh, reap_channels, spec_janitor_tick, swept_chan,
    swept_user,
};
use crate::models::{ChannelView, UserView};
use crate::session::spec_duration_since;

verus! {

/// How many of the frames are addressed to `to`.
pub open spec fn frames_to(frames: Seq<FrameView>, to: Seq<u8>) -> nat
    decreases frames.len(),
{
    if frames.len() == 0 {
        0
    } else {
        frames_to(frames.drop_last(), to) + (if frames.last().to == to {
            1nat
        } else {
            0nat
        })
    }
}

/// A broadcast reaches a listed member exactly once, never the excluded user,
/// and nobody outside the member list.
pub proof fn lemma_broadcast_count(
    sv: ServerStateView,
    members: Seq<Seq<u8>>,
    chan: Seq<u8>,
    text: Seq<u8>,
    exclude: Option<Seq<u8>>,
    m: Seq<u8>,
)
    requires
        distinct(members),
    ensures
        members.contains(m) && exclude != Some(m) && has_user(sv, m) ==> frames_to(
            broadcast_frames(sv, members, chan, text, exclude),
            m,
        ) == 1,
        !members.contains(m) ==> frames_to(broadcast_frames(sv, members, chan, text, exclude), m)
            == 0,
        exclude == Some(m) ==> frames_to(broadcast_frames(sv, members, chan, text, exclude), m)
            == 0,
    decreases members.len(),
{
    if members.len() == 0 {
    } else {
        let rest = members.drop_last();
        assert(distinct(rest)) by {
            assert(forall|i: int| 0 <= i < rest.len() ==> rest[i] == members[i]);
        }
        lemma_broadcast_count(sv, rest, chan, text, exclude, m);
        let last = members.last();
        let fs = broadcast_frames(sv, members, chan, text, exclude);
        let fr = broadcast_frames(sv, rest, chan, text, exclude);
        if members.contains(m) {
            let w = choose|w: int| 0 <= w < members.len() && members[w] == m;
            if w < members.len() - 1 {
                assert(rest[w] == m);
                assert(rest.contains(m));
                assert(last != m) by {
                    assert(members[w] != members[members.len() - 1]);
                }
            } else {
                assert(last == m);
                if rest.contains(m) {
                    let v = choose|v: int| 0 <= v < rest.len() && rest[v] == m;
                    assert(members[v] == members[members.len() - 1]);
                    assert(false);
                }
            }
        } else {
            assert(last != m) by {
                if last == m {
                    assert(members[members.len() - 1] == m);
                }
            }
            if rest.contains(m) {
                let v = choose|v: int| 0 <= v < rest.len() && rest[v] == m;
                assert(members[v] == m);
                assert(false);
            }
        }
        if exclude == Some(last) || !has_user(sv, last) {
            assert(fs == fr);
        } else {
            assert(fs == fr.push(
                FrameView {
                    to: last,
                    bytes: crate::frames::chan_privmsg_frame(chan, the_user(sv, last).username, text),
                },
            ));
            assert(fs.drop_last() =~= fr);
        }
    }
}

/// A message to a channel reaches every other listed member exactly once and
/// the sender not at all.
pub proof fn lemma_privmsg_fanout(
    sv: ServerStateView,
    uid: Seq<u8>,
    chan: Seq<u8>,
    msg: Seq<u8>,
    now: u64,
    m: Seq<u8>,
)
    requires
        wf(sv),
        has_user(sv, uid),
        chan.len() > 0 && chan[0] == 0x23,
        the_user(spec_touch(sv, uid, now), uid).channels.contains(chan),
    ensures
        ({
            let res = spec_privmsg(sv, uid, Some(chan), Some(msg), now);
            let svt = spec_touch(sv, uid, now);
            let members = the_chan(svt, chan).users;
            &&& (members.contains(m) && m != uid && has_user(sv, m) ==> frames_to(res.frames, m)
                == 1)
            &&& frames_to(res.frames, uid) == 0
        }),
{
    let svt = spec_touch(sv, uid, now);
    lemma_touch_wf(sv, uid, now);
    lemma_uidx_carry(sv, svt, uid);
    let u = the_user(svt, uid);
    assert(has_channel(svt, chan)) by {
        lemma_uidx(svt, uid);
        assert(wf_user(svt, svt.users[uidx(svt, uid)]));
        let k = choose|k: int| 0 <= k < u.channels.len() && (#[trigger] u.channels[k]) == chan;
        assert(has_channel(svt, u.channels[k]));
    }
    lemma_cidx(svt, chan);
    let ci = cidx(svt, chan);
    let c = svt.channels[ci];
    let c2 = ChannelView {
        messages: crate::handler::cap_push(
            c.messages,
            crate::handler::chat_msg(u.username, msg, now),
        ),
        last_activity: now,
        ..c
    };
    let svs = ServerStateView { channels: svt.channels.update(ci, c2), ..svt };
    assert(same_names(svt.channels, svs.channels));
    lemma_cidx_carry(svt, svs, chan);
    assert(the_chan(svs, chan) == c2);
    let members = c.users;
    assert(c2.users == members);
    assert(distinct(members)) by {
        assert(wf_channel(svt, svt.channels[ci]));
    }
    let res = spec_privmsg(sv, uid, Some(chan), Some(msg), now);
    assert(res.frames == broadcast_frames(
        svs,
        members,
        chan,
        crate::frames::formatted_msg(u.username, msg),
        Some(uid),
    ));
    let text = crate::frames::formatted_msg(u.username, msg);
    lemma_broadcast_count(svs, members, chan, text, Some(uid), m);
    if members.contains(m) && m != uid && has_user(sv, m) {
        lemma_uidx_carry(sv, svt, m);
        assert(same_ids(svt.users, svs.users));
        lemma_uidx_carry(svt, svs, m);
        assert(has_user(svs, m));
        assert(Some(uid) != Some::<Seq<u8>>(m));
    }
    lemma_broadcast_count(svs, members, chan, text, Some(uid), uid);
}

/// After one janitor pass at `now`, every message left in any channel or
/// private history is younger than the message TTL.
pub proof fn lemma_janitor_fresh(sv: ServerStateView, now: u64)
    ensures
        ({
            let after = spec_janitor_tick(sv, now).sv;
            &&& forall|ci: int, k: int|
                0 <= ci < after.channels.len() && 0 <= k < after.channels[ci].messages.len()
                    ==> spec_duration_since(
                    now,
                    (#[trigger] after.channels[ci].messages[k]).timestamp,
                ) < sv.message_ttl
            &&& forall|ui: int, k: int|
                0 <= ui < after.users.len() && 0 <= k < after.users[ui].messages.len()
                    ==> spec_duration_since(now, (#[trigger] after.users[ui].messages[k]).timestamp)
                    < sv.message_ttl
        }),
{
    let ttl = sv.message_ttl;
    let timeout = sv.session_timeout;
    let sv1 = ServerStateView {
        channels: Seq::new(sv.channels.len(), |i: int| swept_chan(sv.channels[i], now, ttl)),
        ..sv
    };
    let sv2 = ServerStateView {
        users: Seq::new(sv1.users.len(), |i: int| swept_user(sv1.users[i], now, ttl)),
        ..sv1
    };
    assert(all_chan_fresh(sv2.channels, now, ttl)) by {
        assert forall|ci: int, k: int|
            0 <= ci < sv2.channels.len() && 0 <= k < sv2.channels[ci].messages.len()
            implies spec_duration_since(now, (#[trigger] sv2.channels[ci].messages[k]).timestamp)
            < ttl by {
            lemma_keep_fresh_fresh(sv.channels[ci].messages, now, ttl);
        }
    }
    assert(all_user_fresh(sv2.users, now, ttl)) by {
        assert forall|ui: int, k: int|
            0 <= ui < sv2.users.len() && 0 <= k < sv2.users[ui].messages.len()
            implies spec_duration_since(now, (#[trigger] sv2.users[ui].messages[k]).timestamp)
            < ttl by {
            lemma_keep_fresh_fresh(sv1.users[ui].messages, now, ttl);
        }
    }
    let ids = expired_ids(sv2.users, now, timeout);
    lemma_expire_keeps_fresh(sv2, ids, ids.len() as int, now, ttl);
    let e3 = expire_upto(sv2, ids, ids.len() as int);
    lemma_reap_keeps_fresh(e3.sv.channels, now, ttl);
    let after = spec_janitor_tick(sv, now).sv;
    assert(after.channels == reap_channels(e3.sv.channels, now));
    assert(after.users == e3.sv.users);
}

/// Every channel history holds only fresh messages.
pub open spec fn all_chan_fresh(channels: Seq<ChannelView>, now: u64, ttl: u64) -> bool {
    forall|ci: int, k: int|
        0 <= ci < channels.len() && 0 <= k < channels[ci].messages.len() ==> spec_duration_since(
            now,
            (#[trigger] channels[ci].messages[k]).timestamp,
        ) < ttl
}

/// Every private history holds only fresh messages.
pub open spec fn all_user_fresh(users: Seq<UserView>, now: u64, ttl: u64) -> bool {
    forall|ui: int, k: int|
        0 <= ui < users.len() && 0 <= k < users[ui].messages.len() ==> spec_duration_since(
            now,
            (#[trigger] users[ui].messages[k]).timestamp,
        ) < ttl
}

/// Session expiry only removes records and memberships; it adds no message.
pub proof fn lemma_expire_keeps_fresh(
    sv: ServerStateView,
    ids: Seq<Seq<u8>>,
    k: int,
    now: u64,
    ttl: u64,
)
    requires
        all_chan_fresh(sv.channels, now, ttl),
        all_user_fresh(sv.users, now, ttl),
    ensures
        all_chan_fresh(expire_upto(sv, ids, k).sv.channels, now, ttl),
        all_user_fresh(expire_upto(sv, ids, k).sv.users, now, ttl),
    decreases k,
{
    if k <= 0 {
    } else {
        lemma_expire_keeps_fresh(sv, ids, k - 1, now, ttl);
        let e = expire_upto(sv, ids, k - 1);
        let uid = ids[k - 1];
        let d = crate::handler::spec_disconnect_with(
            e.sv,
            uid,
            crate::frames::inactive_text(the_user(e.sv, uid).username),
        );
        lemma_disconnect_keeps_fresh(
            e.sv,
            uid,
            crate::frames::inactive_text(the_user(e.sv, uid).username),
            now,
            ttl,
        );
    }
}

/// The disconnect cascade never adds a message.
pub proof fn lemma_disconnect_keeps_fresh(
    sv: ServerStateView,
    uid: Seq<u8>,
    text: Seq<u8>,
    now: u64,
    ttl: u64,
)
    requires
        all_chan_fresh(sv.channels, now, ttl),
        all_user_fresh(sv.users, now, ttl),
    ensures
        all_chan_fresh(crate::handler::spec_disconnect_with(sv, uid, text).sv.channels, now, ttl),
        all_user_fresh(crate::handler::spec_disconnect_with(sv, uid, text).sv.users, now, ttl),
{
    if has_user(sv, uid) {
        lemma_disc_upto_keeps_fresh(sv, uid, text, sv.channels.len() as int, now, ttl);
        let e = crate::handler::spec_disc_upto(sv, uid, text, sv.channels.len() as int);
        let d = crate::handler::spec_disconnect_with(sv, uid, text);
        assert(d.sv.channels == e.sv.channels);
        assert forall|ui: int, k: int|
            0 <= ui < d.sv.users.len() && 0 <= k < d.sv.users[ui].messages.len()
            implies spec_duration_since(now, (#[trigger] d.sv.users[ui].messages[k]).timestamp)
            < ttl by {
            let w = uidx(sv, uid);
            let u0 = if ui < w {
                ui
            } else {
                ui + 1
            };
            assert(d.sv.users[ui] == e.sv.users[u0]);
        }
    }
}

/// Leaving channels touches only member lists.
pub proof fn lemma_disc_upto_keeps_fresh(
    sv: ServerStateView,
    uid: Seq<u8>,
    text: Seq<u8>,
    k: int,
    now: u64,
    ttl: u64,
)
    requires
        k <= sv.channels.len(),
        all_chan_fresh(sv.channels, now, ttl),
        all_user_fresh(sv.users, now, ttl),
    ensures
        all_chan_fresh(crate::handler::spec_disc_upto(sv, uid, text, k).sv.channels, now, ttl),
        all_user_fresh(crate::handler::spec_disc_upto(sv, uid, text, k).sv.users, now, ttl),
        crate::handler::spec_disc_upto(sv, uid, text, k).sv.users == sv.users,
        crate::handler::spec_disc_upto(sv, uid, text, k).sv.channels.len() == sv.channels.len(),
    decreases k,
{
    if k <= 0 {
    } else {
        lemma_disc_upto_keeps_fresh(sv, uid, text, k - 1, now, ttl);
        let e = crate::handler::spec_disc_upto(sv, uid, text, k - 1);
        let cur = crate::handler::spec_disc_upto(sv, uid, text, k);
        let c = e.sv.channels[k - 1];
        if c.users.contains(uid) {
            let c2 = ChannelView { users: crate::handler::remove_name(c.users, uid), ..c };
            assert(cur.sv.channels == e.sv.channels.update(k - 1, c2));
            assert forall|ci: int, q: int|
                0 <= ci < cur.sv.channels.len() && 0 <= q < cur.sv.channels[ci].messages.len()
                implies spec_duration_since(
                now,
                (#[trigger] cur.sv.channels[ci].messages[q]).timestamp,
            ) < ttl by {
                if ci != k - 1 {
                    assert(cur.sv.channels[ci] == e.sv.channels[ci]);
                } else {
                    assert(cur.sv.channels[ci].messages == c.messages);
                }
            }
        } else {
            assert(cur == e);
        }
    }
}

/// Reaping filters channels; the survivors keep their histories.
pub proof fn lemma_reap_keeps_fresh(channels: Seq<ChannelView>, now: u64, ttl: u64)
    requires
        all_chan_fresh(channels, now, ttl),
    ensures
        all_chan_fresh(reap_channels(channels, now), now, ttl),
    decreases channels.len(),
{
    if channels.len() == 0 {
    } else {
        assert(all_chan_fresh(channels.drop_last(), now, ttl)) by {
            assert(forall|i: int|
                0 <= i < channels.len() - 1 ==> #[trigger] channels.drop_last()[i] == channels[i]);
        }
        lemma_reap_keeps_fresh(channels.drop_last(), now, ttl);
        let r = reap_channels(channels, now);
        let rr = reap_channels(channels.drop_last(), now);
        let c = channels.last();
        if c.users.len() == 0 && spec_duration_since(now, c.last_activity)
            > crate::janitor::EMPTY_CHANNEL_GRACE {
        } else {
            assert(r == rr.push(c));
            assert forall|ci: int, k: int|
                0 <= ci < r.len() && 0 <= k < r[ci].messages.len() implies spec_duration_since(
                now,
                (#[trigger] r[ci].messages[k]).timestamp,
            ) < ttl by {
                if ci < r.len() - 1 {
                    assert(r[ci] == rr[ci]);
                } else {
                    assert(r[ci] == c);
                    assert(c == channels[channels.len() - 1]);
                }
            }
        }
    }
}

/// Removing a freshly appended name undoes the append.
pub proof fn lemma_remove_pushed(s: Seq<Seq<u8>>, x: Seq<u8>)
    requires
        !s.contains(x),
    ensures
        crate::handler::remove_name(s.push(x), x) == s,
{
    let t = s.push(x);
    assert(t[t.len() - 1] == x);
    assert(t.contains(x));
    t.index_of_first_ensures(x);
    let i = t.index_of_first(x)->0;
    assert(t[i] == x);
    if i < s.len() {
        assert(s[i] == x);
        assert(s.contains(x));
        assert(false);
    }
    assert(i == s.len());
    assert(t.remove(i) =~= s);
}

/// JOIN then PART of the same channel returns the directory to its pre-JOIN
/// shape for that user: the user records are restored exactly; a channel the
/// JOIN created disappears again; an existing channel keeps its name, topic,
/// member list and creation time (only its history and activity stamp moved).
pub proof fn lemma_join_part_round_trip(
    sv: ServerStateView,
    uid: Seq<u8>,
    chan: Seq<u8>,
    t1: u64,
    t2: u64,
)
    requires
        wf(sv),
        has_user(sv, uid),
        !the_user(sv, uid).channels.contains(chan),
    ensures
        ({
            let svj = crate::handler::spec_join(sv, uid, chan, t1).sv;
            let svp = crate::handler::spec_part(svj, uid, chan, t2).sv;
            &&& svp.users == sv.users
            &&& (!has_channel(sv, chan) ==> svp.channels == sv.channels)
            &&& (has_channel(sv, chan) && the_chan(sv, chan).users.len() == 0 ==> svp.channels
                == sv.channels.remove(cidx(sv, chan)))
            &&& (has_channel(sv, chan) && the_chan(sv, chan).users.len() > 0 ==> {
                &&& svp.channels.len() == sv.channels.len()
                &&& (forall|i: int|
                    0 <= i < sv.channels.len() && i != cidx(sv, chan)
                        ==> #[trigger] svp.channels[i] == sv.channels[i])
                &&& svp.channels[cidx(sv, chan)].name == the_chan(sv, chan).name
                &&& svp.channels[cidx(sv, chan)].topic == the_chan(sv, chan).topic
                &&& svp.channels[cidx(sv, chan)].users == the_chan(sv, chan).users
                &&& svp.channels[cidx(sv, chan)].created_at == the_chan(sv, chan).created_at
            })
            &&& svp.jwt_secret == sv.jwt_secret
            &&& svp.message_ttl == sv.message_ttl
            &&& svp.session_timeout == sv.session_timeout
        }),
{
    lemma_uidx(sv, uid);
    let ui = uidx(sv, uid);
    let u = sv.users[ui];
    // Unfold the join.
    let sv1 = if has_channel(sv, chan) {
        sv
    } else {
        ServerStateView {
            channels: sv.channels.push(crate::handler::new_channel(chan, t1)),
            ..sv
        }
    };
    assert(distinct_names(sv1.channels)) by {
        if !has_channel(sv, chan) {
            assert forall|i: int, j: int| 0 <= i < j < sv1.channels.len() implies (
            #[trigger] sv1.channels[i]).name != (#[trigger] sv1.channels[j]).name by {
                if j < sv1.channels.len() - 1 {
                    assert(sv.channels[i].name != sv.channels[j].name);
                } else {
                    assert(sv1.channels[i].name == sv.channels[i].name);
                    assert(sv1.channels[j].name == chan);
                }
            }
        }
    }
    assert(has_channel(sv1, chan)) by {
        if !has_channel(sv, chan) {
            assert(sv1.channels[sv1.channels.len() - 1].name == chan);
        }
    }
    lemma_cidx(sv1, chan);
    let ci = cidx(sv1, chan);
    let c = sv1.channels[ci];
    // The joining user was no member: either the channel is fresh, or the
    // membership symmetry says so.
    assert(!c.users.contains(uid)) by {
        if has_channel(sv, chan) {
            assert(wf(sv));
            assert(sv.channels[ci].users.contains(sv.users[ui].id) <==> sv.users[ui].channels.contains(
                sv.channels[ci].name,
            ));
        }
    }
    let c2 = ChannelView { users: c.users.push(uid), last_activity: t1, ..c };
    let sv2 = ServerStateView { channels: sv1.channels.update(ci, c2), ..sv1 };
    assert(same_ids(sv.users, sv2.users));
    lemma_uidx_carry(sv, sv2, uid);
    assert(uidx(sv2, uid) == ui);
    assert(sv2.users[ui] == u);
    assert(!u.channels.contains(chan));
    let u2 = UserView { channels: u.channels.push(chan), ..u };
    let sv3 = ServerStateView { users: sv2.users.update(ui, u2), ..sv2 };
    let text = crate::frames::joined_text(u.username, chan);
    let c3 = ChannelView {
        messages: crate::handler::cap_push(c2.messages, crate::handler::system_msg(text, t1)),
        last_activity: t1,
        ..c2
    };
    let svj = ServerStateView { channels: sv3.channels.update(ci, c3), ..sv3 };
    assert(crate::handler::spec_join(sv, uid, chan, t1).sv == svj);
    // Unfold the part.
    assert(distinct_names(svj.channels)) by {
        assert forall|i: int, j: int| 0 <= i < j < svj.channels.len() implies (
        #[trigger] svj.channels[i]).name != (#[trigger] svj.channels[j]).name by {
            assert(svj.channels[i].name == sv1.channels[i].name);
            assert(svj.channels[j].name == sv1.channels[j].name);
        }
    }
    assert(svj.channels[ci].name == chan);
    assert(has_channel(svj, chan));
    lemma_cidx(svj, chan);
    assert(cidx(svj, chan) == ci);
    assert(the_chan(svj, chan) == c3);
    lemma_remove_pushed(c.users, uid);
    assert(crate::handler::remove_name(c3.users, uid) == c.users);
    let cp2 = ChannelView {
        users: c.users,
        last_activity: t2,
        ..c3
    };
    assert(same_ids(sv.users, svj.users));
    lemma_uidx_carry(sv, svj, uid);
    assert(uidx(svj, uid) == ui);
    let e1 = if cp2.users.len() == 0 {
        crate::handler::Effect {
            sv: ServerStateView { channels: svj.channels.remove(ci), ..svj },
            frames: Seq::empty(),
        }
    } else {
        let ptext = crate::frames::left_text(the_user(svj, uid).username, chan);
        let svb = ServerStateView { channels: svj.channels.update(ci, cp2), ..svj };
        let c4 = ChannelView {
            messages: crate::handler::cap_push(
                cp2.messages,
                crate::handler::system_msg(ptext, t2),
            ),
            last_activity: t2,
            ..cp2
        };
        crate::handler::Effect {
            sv: ServerStateView { channels: svb.channels.update(ci, c4), ..svb },
            frames: broadcast_frames(svb, cp2.users, chan, ptext, None),
        }
    };
    assert(crate::handler::spec_part(svj, uid, chan, t2).sv == (ServerStateView {
        users: e1.sv.users.update(
            uidx(e1.sv, uid),
            (UserView {
                channels: crate::handler::remove_name(e1.sv.users[uidx(e1.sv, uid)].channels, chan),
                ..e1.sv.users[uidx(e1.sv, uid)]
            }),
        ),
        ..e1.sv
    })) by {
        assert(e1.sv.users == svj.users);
    }
    assert(same_ids(sv.users, e1.sv.users));
    lemma_uidx_carry(sv, e1.sv, uid);
    assert(uidx(e1.sv, uid) == ui);
    assert(e1.sv.users[ui] == u2);
    lemma_remove_pushed(u.channels, chan);
    assert(crate::handler::remove_name(u2.channels, chan) == u.channels);
    let svp = crate::handler::spec_part(svj, uid, chan, t2).sv;
    assert(svp.users =~= sv.users) by {
        assert(svp.users == e1.sv.users.update(ui, (UserView { channels: u.channels, ..u2 })));
        assert((UserView { channels: u.channels, ..u2 }) =~~= u);
        assert(e1.sv.users == sv.users.update(ui, u2));
    }
    // Channel bookkeeping, by the three cases.
    if !has_channel(sv, chan) {
        assert(ci == sv.channels.len());
        assert(c.users.len() == 0);
        assert(cp2.users.len() == 0);
        assert(svp.channels =~= sv.channels) by {
            assert(svp.channels == svj.channels.remove(ci));
            assert forall|i: int| 0 <= i < sv.channels.len() implies svj.channels.remove(ci)[i]
                == sv.channels[i] by {
                assert(svj.channels[i] == sv1.channels[i]);
            }
        }
    } else {
        assert(ci == cidx(sv, chan)) by {
            lemma_cidx(sv, chan);
            assert(sv.channels[cidx(sv, chan)].name == chan);
        }
        if the_chan(sv, chan).users.len() == 0 {
            assert(cp2.users.len() == 0);
            assert(svp.channels =~= sv.channels.remove(ci)) by {
                assert(svp.channels == svj.channels.remove(ci));
                assert forall|i: int| 0 <= i < svp.channels.len() implies svj.channels.remove(
                    ci,
                )[i] == sv.channels.remove(ci)[i] by {
                    if i < ci {
                        assert(svj.channels[i] == sv.channels[i]);
                    } else {
                        assert(svj.channels[i + 1] == sv.channels[i + 1]);
                    }
                }
            }
        } else {
            assert(cp2.users.len() > 0);
            assert(svp.channels.len() == sv.channels.len());
            assert forall|i: int|
                0 <= i < sv.channels.len() && i != ci implies #[trigger] svp.channels[i]
                == sv.channels[i] by {}
            assert(svp.channels[ci].users == the_chan(sv, chan).users);
            assert(svp.channels[ci].name == the_chan(sv, chan).name);
            assert(svp.channels[ci].topic == the_chan(sv, chan).topic);
            assert(svp.channels[ci].created_at == the_chan(sv, chan).created_at);
        }
    }
}

// ---------------------------------------------------------------------------
// Preservation of the directory invariant across the commands.
// ---------------------------------------------------------------------------

/// `b` has the same users, ids, memberships and channel names as `a`; only
/// histories, sessions and activity stamps may differ, within the caps.
pub open spec fn same_structure(a: ServerStateView, b: ServerStateView) -> bool {
    &&& a.users.len() == b.users.len()
    &&& a.channels.len() == b.channels.len()
    &&& forall|i: int|
        0 <= i < a.users.len() ==> (#[trigger] b.users[i]).id == a.users[i].id && b.users[i].channels
            == a.users[i].channels && b.users[i].messages.len()
            <= crate::models::HISTORY_CAP as int && (b.users[i].session matches Some(s) ==> s.user_id
            == b.users[i].id)
    &&& forall|ci: int|
        0 <= ci < a.channels.len() ==> (#[trigger] b.channels[ci]).name == a.channels[ci].name
            && b.channels[ci].users == a.channels[ci].users && b.channels[ci].messages.len()
            <= crate::models::HISTORY_CAP as int
}

/// A directory that differs from a well-formed one only in histories,
/// sessions and stamps is well-formed.
pub proof fn lemma_wf_same_structure(a: ServerStateView, b: ServerStateView)
    requires
        wf(a),
        same_structure(a, b),
    ensures
        wf(b),
{
    assert(distinct_ids(b.users)) by {
        assert forall|i: int, j: int| 0 <= i < j < b.users.len() implies (
        #[trigger] b.users[i]).id != (#[trigger] b.users[j]).id by {
            assert(a.users[i].id != a.users[j].id);
        }
    }
    assert(distinct_names(b.channels)) by {
        assert forall|i: int, j: int| 0 <= i < j < b.channels.len() implies (
        #[trigger] b.channels[i]).name != (#[trigger] b.channels[j]).name by {
            assert(a.channels[i].name != a.channels[j].name);
        }
    }
    assert forall|k: int| 0 <= k < b.channels.len() implies wf_channel(
        b,
        #[trigger] b.channels[k],
    ) by {
        assert(wf_channel(a, a.channels[k]));
        assert(b.channels[k].users == a.channels[k].users);
        assert forall|m: int| 0 <= m < b.channels[k].users.len() implies has_user(
            b,
            #[trigger] b.channels[k].users[m],
        ) by {
            assert(has_user(a, a.channels[k].users[m]));
            let w = choose|w: int|
                0 <= w < a.users.len() && (#[trigger] a.users[w]).id == a.channels[k].users[m];
            assert(b.users[w].id == a.channels[k].users[m]);
        }
    }
    assert forall|k: int| 0 <= k < b.users.len() implies wf_user(b, #[trigger] b.users[k]) by {
        assert(wf_user(a, a.users[k]));
        assert(b.users[k].channels == a.users[k].channels);
        assert forall|m: int| 0 <= m < b.users[k].channels.len() implies has_channel(
            b,
            #[trigger] b.users[k].channels[m],
        ) by {
            assert(has_channel(a, a.users[k].channels[m]));
            let w = choose|w: int|
                0 <= w < a.channels.len() && (#[trigger] a.channels[w]).name == a.users[k].channels[m];
            assert(b.channels[w].name == a.users[k].channels[m]);
        }
    }
    assert forall|x: int, y: int|
        0 <= x < b.channels.len() && 0 <= y < b.users.len() implies ((
    #[trigger] b.channels[x]).users.contains(b.users[y].id) <==> (
    #[trigger] b.users[y]).channels.contains(b.channels[x].name)) by {
        assert(b.channels[x].users == a.channels[x].users);
        assert(b.users[y].id == a.users[y].id);
        assert(b.users[y].channels == a.users[y].channels);
        assert(b.channels[x].name == a.channels[x].name);
        assert(wf(a));
    }
}

/// SECURECLEAR preserves the directory invariant.
pub proof fn lemma_secure_clear_wf(sv: ServerStateView, uid: Seq<u8>)
    requires
        wf(sv),
    ensures
        wf(crate::handler::spec_secure_clear(sv, uid).sv),
{
    let b = crate::handler::spec_secure_clear(sv, uid).sv;
    if has_user(sv, uid) {
        lemma_uidx(sv, uid);
        assert(same_structure(sv, b)) by {
            assert forall|i: int|
                0 <= i < sv.users.len() implies (#[trigger] b.users[i]).id == sv.users[i].id
                && b.users[i].channels == sv.users[i].channels && b.users[i].messages.len()
                <= crate::models::HISTORY_CAP as int && (b.users[i].session matches Some(s)
                ==> s.user_id == b.users[i].id) by {
                assert(wf_user(sv, sv.users[i]));
            }
        }
        lemma_wf_same_structure(sv, b);
    }
}

/// PRIVMSG preserves the directory invariant.
pub proof fn lemma_privmsg_wf(
    sv: ServerStateView,
    uid: Seq<u8>,
    arg1: Option<Seq<u8>>,
    rest: Option<Seq<u8>>,
    now: u64,
)
    requires
        wf(sv),
    ensures
        wf(spec_privmsg(sv, uid, arg1, rest, now).sv),
{
    let b = spec_privmsg(sv, uid, arg1, rest, now).sv;
    if arg1 is None || rest is None {
        assert(b == sv);
    } else if !has_user(sv, uid) {
        assert(b == sv);
    } else {
        let target = arg1->0;
        let msg = rest->0;
        let svt = spec_touch(sv, uid, now);
        lemma_touch_wf(sv, uid, now);
        lemma_uidx(sv, uid);
        let username = the_user(svt, uid).username;
        if target.len() > 0 && target[0] == 0x23 {
            if !the_user(svt, uid).channels.contains(target) {
                assert(b == svt);
            } else {
                if has_channel(svt, target) {
                    lemma_cidx(svt, target);
                    let ci = cidx(svt, target);
                    assert(same_structure(svt, b)) by {
                        assert forall|k: int|
                            0 <= k < svt.channels.len() implies (#[trigger] b.channels[k]).name
                            == svt.channels[k].name && b.channels[k].users == svt.channels[k].users
                            && b.channels[k].messages.len()
                            <= crate::models::HISTORY_CAP as int by {
                            assert(wf_channel(svt, svt.channels[k]));
                            if k == ci {
                                crate::handler::lemma_cap_push_len(
                                    svt.channels[k].messages,
                                    crate::handler::chat_msg(username, msg, now),
                                );
                            }
                        }
                        assert forall|i: int|
                            0 <= i < svt.users.len() implies (#[trigger] b.users[i]).id
                            == svt.users[i].id && b.users[i].channels == svt.users[i].channels
                            && b.users[i].messages.len() <= crate::models::HISTORY_CAP as int && (
                        b.users[i].session matches Some(s) ==> s.user_id == b.users[i].id) by {
                            assert(wf_user(svt, svt.users[i]));
                        }
                    }
                    lemma_wf_same_structure(svt, b);
                } else {
                    assert(b == svt);
                }
            }
        } else {
            match crate::handler::ufind(svt.users, target) {
                None => {
                    assert(b == svt);
                },
                Some(ri) => {
                    let rid = svt.users[ri].id;
                    assert(same_structure(svt, b)) by {
                        let m = crate::handler::chat_msg(
                            the_user(svt, uid).username,
                            msg,
                            now,
                        );
                        assert forall|i: int|
                            0 <= i < svt.users.len() implies (#[trigger] b.users[i]).id
                            == svt.users[i].id && b.users[i].channels == svt.users[i].channels
                            && b.users[i].messages.len() <= crate::models::HISTORY_CAP as int && (
                        b.users[i].session matches Some(s) ==> s.user_id == b.users[i].id) by {
                            assert(wf_user(svt, svt.users[i]));
                            crate::handler::lemma_cap_push_u(svt.users[i].messages);
                            if has_user(svt, uid) {
                                let sv1 = crate::handler::user_history_push(
                                    svt,
                                    uidx(svt, uid),
                                    m,
                                );
                                crate::handler::lemma_cap_push_u(sv1.users[i].messages);
                            }
                        }
                    }
                    lemma_wf_same_structure(svt, b);
                },
            }
        }
    }
}

/// Removing the first occurrence keeps the others: distinctness survives,
/// the removed name is gone, every other name stays.
pub proof fn lemma_remove_name_props(s: Seq<Seq<u8>>, x: Seq<u8>)
    requires
        distinct(s),
    ensures
        distinct(crate::handler::remove_name(s, x)),
        !crate::handler::remove_name(s, x).contains(x),
        forall|y: Seq<u8>|
            y != x ==> (#[trigger] crate::handler::remove_name(s, x).contains(y) <==> s.contains(
                y,
            )),
        crate::handler::remove_name(s, x).len() <= s.len(),
{
    s.index_of_first_ensures(x);
    let r = crate::handler::remove_name(s, x);
    match s.index_of_first(x) {
        None => {
            assert(r == s);
            assert(!s.contains(x));
        },
        Some(i) => {
            assert(r == s.remove(i));
            assert(s[i] == x);
            assert(distinct(r)) by {
                assert forall|a: int, b: int| 0 <= a < b < r.len() implies r[a] != r[b] by {
                    let a0 = if a < i {
                        a
                    } else {
                        a + 1
                    };
                    let b0 = if b < i {
                        b
                    } else {
                        b + 1
                    };
                    assert(r[a] == s[a0]);
                    assert(r[b] == s[b0]);
                }
            }
            assert(!r.contains(x)) by {
                if r.contains(x) {
                    let w = choose|w: int| 0 <= w < r.len() && r[w] == x;
                    let w0 = if w < i {
                        w
                    } else {
                        w + 1
                    };
                    assert(r[w] == s[w0]);
                    assert(s[w0] == s[i] && w0 != i);
                    assert(false);
                }
            }
            assert forall|y: Seq<u8>|
                y != x implies (#[trigger] r.contains(y) <==> s.contains(y)) by {
                if r.contains(y) {
                    let w = choose|w: int| 0 <= w < r.len() && r[w] == y;
                    let w0 = if w < i {
                        w
                    } else {
                        w + 1
                    };
                    assert(s[w0] == y);
                }
                if s.contains(y) {
                    let w = choose|w: int| 0 <= w < s.len() && s[w] == y;
                    assert(w != i);
                    if w < i {
                        assert(r[w] == y);
                    } else {
                        assert(r[w - 1] == y);
                    }
                }
            }
        },
    }
}

/// The shape of the directory after the cascade has visited the first `k`
/// channels: the visited prefix lost the leaving user, the rest is untouched,
/// and the users are untouched throughout.
pub proof fn lemma_disc_upto_shape(sv: ServerStateView, uid: Seq<u8>, text: Seq<u8>, k: int)
    requires
        0 <= k <= sv.channels.len(),
    ensures
        ({
            let e = crate::handler::spec_disc_upto(sv, uid, text, k).sv;
            &&& e.users == sv.users
            &&& e.channels.len() == sv.channels.len()
            &&& e.jwt_secret == sv.jwt_secret
            &&& e.message_ttl == sv.message_ttl
            &&& e.session_timeout == sv.session_timeout
            &&& forall|i: int|
                0 <= i < k ==> #[trigger] e.channels[i] == (if sv.channels[i].users.contains(uid) {
                    ChannelView {
                        users: crate::handler::remove_name(sv.channels[i].users, uid),
                        ..sv.channels[i]
                    }
                } else {
                    sv.channels[i]
                })
            &&& forall|i: int| k <= i < sv.channels.len() ==> #[trigger] e.channels[i] == sv.channels[i]
        }),
    decreases k,
{
    if k > 0 {
        lemma_disc_upto_shape(sv, uid, text, k - 1);
    }
}

/// Disconnecting a user preserves the directory invariant.
pub proof fn lemma_disconnect_wf(sv: ServerStateView, uid: Seq<u8>, text: Seq<u8>)
    requires
        wf(sv),
    ensures
        wf(crate::handler::spec_disconnect_with(sv, uid, text).sv),
{
    if !has_user(sv, uid) {
        return ;
    }
    lemma_uidx(sv, uid);
    let ui = uidx(sv, uid);
    lemma_disc_upto_shape(sv, uid, text, sv.channels.len() as int);
    let e = crate::handler::spec_disc_upto(sv, uid, text, sv.channels.len() as int).sv;
    let b = crate::handler::spec_disconnect_with(sv, uid, text).sv;
    assert(b.users == e.users.remove(ui));
    assert(b.channels == e.channels);
    // Users: a well-formed list with one record removed.
    assert(distinct_ids(b.users)) by {
        assert forall|x: int, y: int| 0 <= x < y < b.users.len() implies (
        #[trigger] b.users[x]).id != (#[trigger] b.users[y]).id by {
            let x0 = if x < ui {
                x
            } else {
                x + 1
            };
            let y0 = if y < ui {
                y
            } else {
                y + 1
            };
            assert(b.users[x] == sv.users[x0]);
            assert(b.users[y] == sv.users[y0]);
        }
    }
    assert(distinct_names(b.channels)) by {
        assert forall|x: int, y: int| 0 <= x < y < b.channels.len() implies (
        #[trigger] b.channels[x]).name != (#[trigger] b.channels[y]).name by {
            assert(b.channels[x].name == sv.channels[x].name);
            assert(b.channels[y].name == sv.channels[y].name);
        }
    }
    // Each remaining user record: same channels, all of which still exist.
    assert forall|x: int| 0 <= x < b.users.len() implies wf_user(b, #[trigger] b.users[x]) by {
        let x0 = if x < ui {
            x
        } else {
            x + 1
        };
        assert(b.users[x] == sv.users[x0]);
        assert(wf_user(sv, sv.users[x0]));
        assert forall|m: int| 0 <= m < b.users[x].channels.len() implies has_channel(
            b,
            #[trigger] b.users[x].channels[m],
        ) by {
            assert(has_channel(sv, sv.users[x0].channels[m]));
            let w = choose|w: int|
                0 <= w < sv.channels.len() && (#[trigger] sv.channels[w]).name == sv.users[x0].channels[m];
            assert(b.channels[w].name == sv.users[x0].channels[m]);
        }
    }
    // Each channel: the leaving user is gone, everyone else stays and exists.
    assert forall|x: int| 0 <= x < b.channels.len() implies wf_channel(
        b,
        #[trigger] b.channels[x],
    ) by {
        assert(wf_channel(sv, sv.channels[x]));
        lemma_remove_name_props(sv.channels[x].users, uid);
        assert(distinct(b.channels[x].users));
        assert forall|m: int| 0 <= m < b.channels[x].users.len() implies has_user(
            b,
            #[trigger] b.channels[x].users[m],
        ) by {
            let mm = b.channels[x].users[m];
            assert(b.channels[x].users.contains(mm));
            assert(mm != uid) by {
                if sv.channels[x].users.contains(uid) {
                    assert(!crate::handler::remove_name(sv.channels[x].users, uid).contains(uid));
                } else {
                    if mm == uid {
                        assert(sv.channels[x].users.contains(uid));
                    }
                }
            }
            assert(sv.channels[x].users.contains(mm)) by {
                if sv.channels[x].users.contains(uid) {
                    assert(crate::handler::remove_name(sv.channels[x].users, uid).contains(mm));
                }
            }
            assert(has_user(sv, mm));
            let w = choose|w: int| 0 <= w < sv.users.len() && (#[trigger] sv.users[w]).id == mm;
            assert(w != ui) by {
                assert(sv.users[ui].id == uid);
            }
            if w < ui {
                assert(b.users[w] == sv.users[w]);
            } else {
                assert(b.users[w - 1] == sv.users[w]);
            }
        }
        assert(b.channels[x].messages.len() <= crate::models::HISTORY_CAP as int) by {
            if sv.channels[x].users.contains(uid) {
                assert(b.channels[x].messages == sv.channels[x].messages);
            }
        }
    }
    // Symmetry for the remaining pairs.
    assert forall|x: int, y: int|
        0 <= x < b.channels.len() && 0 <= y < b.users.len() implies ((
    #[trigger] b.channels[x]).users.contains(b.users[y].id) <==> (
    #[trigger] b.users[y]).channels.contains(b.channels[x].name)) by {
        let y0 = if y < ui {
            y
        } else {
            y + 1
        };
        assert(b.users[y] == sv.users[y0]);
        assert(b.users[y].id != uid) by {
            assert(sv.users[ui].id == uid);
            assert(y0 != ui);
        }
        assert(wf_channel(sv, sv.channels[x]));
        lemma_remove_name_props(sv.channels[x].users, uid);
        assert(b.channels[x].users.contains(sv.users[y0].id) <==> sv.channels[x].users.contains(
            sv.users[y0].id,
        ));
        assert(b.channels[x].name == sv.channels[x].name);
        assert(wf(sv));
        assert(sv.channels[x].users.contains(sv.users[y0].id) <==> sv.users[y0].channels.contains(
            sv.channels[x].name,
        ));
    }
}

/// PART preserves the directory invariant.
#[verifier::rlimit(100)]
pub proof fn lemma_part_wf(sv: ServerStateView, uid: Seq<u8>, chan: Seq<u8>, now: u64)
    requires
        wf(sv),
        has_user(sv, uid),
    ensures
        wf(crate::handler::spec_part(sv, uid, chan, now).sv),
{
    lemma_uidx(sv, uid);
    let ui = uidx(sv, uid);
    let u = sv.users[ui];
    let b = crate::handler::spec_part(sv, uid, chan, now).sv;
    if !has_channel(sv, chan) {
        // The user cannot list a channel that does not exist, so nothing
        // changes.
        assert(!u.channels.contains(chan)) by {
            if u.channels.contains(chan) {
                let k = choose|k: int|
                    0 <= k < u.channels.len() && (#[trigger] u.channels[k]) == chan;
                assert(wf_user(sv, sv.users[ui]));
                assert(has_channel(sv, u.channels[k]));
            }
        }
        u.channels.index_of_first_ensures(chan);
        assert(crate::handler::remove_name(u.channels, chan) == u.channels);
        assert(b =~~= sv) by {
            assert(b.users =~= sv.users.update(ui, (UserView { channels: u.channels, ..u })));
            assert((UserView { channels: u.channels, ..u }) =~~= u);
            assert(sv.users.update(ui, u) =~= sv.users);
        }
        return ;
    }
    lemma_cidx(sv, chan);
    let ci = cidx(sv, chan);
    let c = sv.channels[ci];
    lemma_remove_name_props(c.users, uid);
    let c2u = crate::handler::remove_name(c.users, uid);
    let u2 = UserView { channels: crate::handler::remove_name(u.channels, chan), ..u };
    lemma_remove_name_props(u.channels, chan);
    if c2u.len() == 0 {
        // The channel empties and disappears; no user but the leaver could
        // have listed it.
        assert(b.channels == sv.channels.remove(ci));
        assert(b.users == sv.users.update(ui, u2));
        assert(distinct_ids(b.users)) by {
            assert forall|x: int, y: int| 0 <= x < y < b.users.len() implies (
            #[trigger] b.users[x]).id != (#[trigger] b.users[y]).id by {
                assert(b.users[x].id == sv.users[x].id);
                assert(b.users[y].id == sv.users[y].id);
            }
        }
        assert(distinct_names(b.channels)) by {
            assert forall|x: int, y: int| 0 <= x < y < b.channels.len() implies (
            #[trigger] b.channels[x]).name != (#[trigger] b.channels[y]).name by {
                let x0 = if x < ci {
                    x
                } else {
                    x + 1
                };
                let y0 = if y < ci {
                    y
                } else {
                    y + 1
                };
                assert(b.channels[x] == sv.channels[x0]);
                assert(b.channels[y] == sv.channels[y0]);
            }
        }
        // Only the leaver could be a member of the dying channel.
        assert forall|y: int|
            0 <= y < sv.users.len() && y != ui implies !(#[trigger] sv.users[y]).channels.contains(
            chan,
        ) by {
            assert(sv.channels[ci].users.contains(sv.users[y].id) <==> sv.users[y].channels.contains(
                sv.channels[ci].name,
            ));
            if sv.users[y].channels.contains(chan) {
                assert(c.users.contains(sv.users[y].id));
                assert(sv.users[y].id != uid) by {
                    assert(sv.users[ui].id != sv.users[y].id || y == ui);
                }
                assert(c2u.contains(sv.users[y].id));
                assert(false);
            }
        }
        assert forall|x: int| 0 <= x < b.users.len() implies wf_user(b, #[trigger] b.users[x]) by {
            let uu = if x == ui {
                u2
            } else {
                sv.users[x]
            };
            assert(b.users[x] == uu);
            assert(wf_user(sv, sv.users[x]));
            assert(distinct(uu.channels));
            assert forall|m: int| 0 <= m < uu.channels.len() implies has_channel(
                b,
                #[trigger] uu.channels[m],
            ) by {
                let nm = uu.channels[m];
                assert(uu.channels.contains(nm));
                assert(nm != chan) by {
                    if x == ui {
                        assert(!u2.channels.contains(chan));
                    } else {
                        assert(!sv.users[x].channels.contains(chan));
                    }
                }
                assert(sv.users[x].channels.contains(nm)) by {
                    if x == ui {
                        assert(u2.channels.contains(nm));
                    }
                }
                assert(has_channel(sv, nm));
                let w = choose|w: int|
                    0 <= w < sv.channels.len() && (#[trigger] sv.channels[w]).name == nm;
                assert(w != ci) by {
                    assert(sv.channels[ci].name == chan);
                }
                if w < ci {
                    assert(b.channels[w] == sv.channels[w]);
                } else {
                    assert(b.channels[w - 1] == sv.channels[w]);
                }
            }
        }
        assert forall|x: int| 0 <= x < b.channels.len() implies wf_channel(
            b,
            #[trigger] b.channels[x],
        ) by {
            let x0 = if x < ci {
                x
            } else {
                x + 1
            };
            assert(b.channels[x] == sv.channels[x0]);
            assert(wf_channel(sv, sv.channels[x0]));
            assert forall|m: int| 0 <= m < b.channels[x].users.len() implies has_user(
                b,
                #[trigger] b.channels[x].users[m],
            ) by {
                assert(has_user(sv, sv.channels[x0].users[m]));
                let w = choose|w: int|
                    0 <= w < sv.users.len() && (#[trigger] sv.users[w]).id == sv.channels[x0].users[m];
                assert(b.users[w].id == sv.channels[x0].users[m]);
            }
        }
        assert forall|x: int, y: int|
            0 <= x < b.channels.len() && 0 <= y < b.users.len() implies ((
        #[trigger] b.channels[x]).users.contains(b.users[y].id) <==> (
        #[trigger] b.users[y]).channels.contains(b.channels[x].name)) by {
            let x0 = if x < ci {
                x
            } else {
                x + 1
            };
            assert(b.channels[x] == sv.channels[x0]);
            assert(b.users[y].id == sv.users[y].id);
            assert(sv.channels[x0].users.contains(sv.users[y].id) <==> sv.users[y].channels.contains(
                sv.channels[x0].name,
            ));
            if y == ui {
                assert(sv.channels[x0].name != chan) by {
                    assert(sv.channels[ci].name == chan && x0 != ci);
                }
                assert(u2.channels.contains(sv.channels[x0].name) <==> u.channels.contains(
                    sv.channels[x0].name,
                ));
            }
        }
        return ;
    }
    // The channel stays: both sides of the membership are dropped.
    let text = crate::frames::left_text(the_user(sv, uid).username, chan);
    let c4 = ChannelView {
        messages: crate::handler::cap_push(
            (ChannelView { users: c2u, last_activity: now, ..c }).messages,
            crate::handler::system_msg(text, now),
        ),
        last_activity: now,
        ..(ChannelView { users: c2u, last_activity: now, ..c })
    };
    assert(b.channels == sv.channels.update(ci, c4));
    assert(b.users == sv.users.update(ui, u2));
    assert(distinct_ids(b.users)) by {
        assert forall|x: int, y: int| 0 <= x < y < b.users.len() implies (
        #[trigger] b.users[x]).id != (#[trigger] b.users[y]).id by {
            assert(b.users[x].id == sv.users[x].id);
            assert(b.users[y].id == sv.users[y].id);
        }
    }
    assert(distinct_names(b.channels)) by {
        assert forall|x: int, y: int| 0 <= x < y < b.channels.len() implies (
        #[trigger] b.channels[x]).name != (#[trigger] b.channels[y]).name by {
            assert(b.channels[x].name == sv.channels[x].name);
            assert(b.channels[y].name == sv.channels[y].name);
        }
    }
    assert forall|x: int| 0 <= x < b.channels.len() implies wf_channel(
        b,
        #[trigger] b.channels[x],
    ) by {
        assert(wf_channel(sv, sv.channels[x]));
        if x == ci {
            assert(b.channels[x] == c4);
            assert(distinct(c4.users));
            crate::handler::lemma_cap_push_len(c.messages, crate::handler::system_msg(text, now));
            assert forall|m: int| 0 <= m < c4.users.len() implies has_user(
                b,
                #[trigger] c4.users[m],
            ) by {
                assert(c4.users.contains(c4.users[m]));
                assert(c.users.contains(c4.users[m])) by {
                    if c4.users[m] == uid {
                        assert(!c2u.contains(uid));
                        assert(false);
                    }
                }
                assert(has_user(sv, c4.users[m]));
                let w = choose|w: int|
                    0 <= w < sv.users.len() && (#[trigger] sv.users[w]).id == c4.users[m];
                assert(b.users[w].id == c4.users[m]);
            }
        } else {
            assert(b.channels[x] == sv.channels[x]);
            assert forall|m: int| 0 <= m < b.channels[x].users.len() implies has_user(
                b,
                #[trigger] b.channels[x].users[m],
            ) by {
                assert(has_user(sv, sv.channels[x].users[m]));
                let w = choose|w: int|
                    0 <= w < sv.users.len() && (#[trigger] sv.users[w]).id == sv.channels[x].users[m];
                assert(b.users[w].id == sv.channels[x].users[m]);
            }
        }
    }
    assert forall|x: int| 0 <= x < b.users.len() implies wf_user(b, #[trigger] b.users[x]) by {
        let uu = if x == ui {
            u2
        } else {
            sv.users[x]
        };
        assert(b.users[x] == uu);
        assert(wf_user(sv, sv.users[x]));
        assert(distinct(uu.channels));
        assert forall|m: int| 0 <= m < uu.channels.len() implies has_channel(
            b,
            #[trigger] uu.channels[m],
        ) by {
            assert(uu.channels.contains(uu.channels[m]));
            assert(sv.users[x].channels.contains(uu.channels[m])) by {
                if x == ui {
                    assert(u2.channels.contains(uu.channels[m]));
                }
            }
            assert(has_channel(sv, uu.channels[m]));
            let w = choose|w: int|
                0 <= w < sv.channels.len() && (#[trigger] sv.channels[w]).name == uu.channels[m];
            assert(b.channels[w].name == uu.channels[m]) by {
                if w == ci {
                    assert(c4.name == c.name);
                }
            }
        }
    }
    assert forall|x: int, y: int|
        0 <= x < b.channels.len() && 0 <= y < b.users.len() implies ((
    #[trigger] b.channels[x]).users.contains(b.users[y].id) <==> (
    #[trigger] b.users[y]).channels.contains(b.channels[x].name)) by {
        assert(sv.channels[x].users.contains(sv.users[y].id) <==> sv.users[y].channels.contains(
            sv.channels[x].name,
        ));
        assert(b.users[y].id == sv.users[y].id);
        if x == ci && y == ui {
            assert(!c4.users.contains(uid));
            assert(!u2.channels.contains(chan));
            assert(b.channels[x].name == chan);
            assert(b.users[y].id == uid);
        } else if x == ci {
            assert(b.users[y] == sv.users[y]);
            assert(sv.users[y].id != uid) by {
                assert(sv.users[ui].id == uid);
            }
            assert(c4.users.contains(sv.users[y].id) <==> c.users.contains(sv.users[y].id));
            assert(b.channels[x].name == sv.channels[x].name);
        } else if y == ui {
            assert(b.channels[x] == sv.channels[x]);
            assert(sv.channels[x].name != chan) by {
                assert(sv.channels[ci].name == chan);
            }
            assert(u2.channels.contains(sv.channels[x].name) <==> u.channels.contains(
                sv.channels[x].name,
            ));
        } else {
            assert(b.channels[x] == sv.channels[x]);
            assert(b.users[y] == sv.users[y]);
        }
    }
}

/// QUIT preserves the directory invariant.
pub proof fn lemma_quit_wf(sv: ServerStateView, uid: Seq<u8>, arg1: Option<Seq<u8>>)
    requires
        wf(sv),
    ensures
        wf(crate::handler::spec_quit(sv, uid, arg1).sv),
{
    let secure = arg1 matches Some(a) && crate::bytes::contains_seq(
        a,
        crate::bytes::ascii("SECURE_DELETE"@),
    );
    let svq = if secure && has_user(sv, uid) {
        crate::handler::spec_quit_strip(sv, uid)
    } else {
        sv
    };
    if secure && has_user(sv, uid) {
        crate::handler::lemma_strip_wf(sv, uid);
        assert(svq == crate::handler::spec_quit_strip(sv, uid));
    }
    assert(wf(svq));
    lemma_disconnect_wf(
        svq,
        uid,
        crate::frames::disconnected_text(the_user(svq, uid).username),
    );
    assert(crate::handler::spec_quit(sv, uid, arg1).sv == crate::handler::spec_disconnect_with(
        svq,
        uid,
        crate::frames::disconnected_text(the_user(svq, uid).username),
    ).sv);
}

/// Every command line leaves the directory invariant intact: whatever a
/// handler does — join, part, message fan-out, secure clearing, a quit
/// cascade — the membership symmetry and the closedness of all references
/// survive.
pub proof fn lemma_handle_message_wf(sv: ServerStateView, uid: Seq<u8>, line: Seq<u8>, now: u64)
    requires
        wf(sv),
    ensures
        wf(crate::handler::spec_handle_message(sv, uid, line, now).sv),
{
    let p = crate::handler::spec_parts(line);
    let svt = spec_touch(sv, uid, now);
    lemma_touch_wf(sv, uid, now);
    let v = crate::bytes::upper(p.verb);
    if v == crate::bytes::ascii("JOIN"@) {
        match p.arg1 {
            None => {},
            Some(chan) => {
                if has_user(svt, uid) {
                    crate::handler::lemma_join_wf(svt, uid, chan, now);
                }
            },
        }
    } else if v == crate::bytes::ascii("PART"@) {
        match p.arg1 {
            None => {},
            Some(chan) => {
                if has_user(svt, uid) {
                    lemma_part_wf(svt, uid, chan, now);
                }
            },
        }
    } else if v == crate::bytes::ascii("PRIVMSG"@) {
        lemma_privmsg_wf(svt, uid, p.arg1, p.rest, now);
    } else if v == crate::bytes::ascii("LIST"@) {
    } else if v == crate::bytes::ascii("WHO"@) {
    } else if v == crate::bytes::ascii("QUIT"@) {
        lemma_quit_wf(svt, uid, p.arg1);
    } else if v == crate::bytes::ascii("SECURECLEAR"@) {
        lemma_secure_clear_wf(svt, uid);
    } else {
    }
}

/// Registration preserves the directory invariant: any earlier record under
/// the same id is cascaded out first, and the fresh record starts with no
/// memberships.
pub proof fn lemma_register_wf(
    sv: ServerStateView,
    claims: crate::models::TokenClaimsView,
    pic: Seq<u8>,
    session_id: Seq<u8>,
    key: Seq<u8>,
    now: u64,
)
    requires
        wf(sv),
    ensures
        wf(crate::facade::spec_register(sv, claims, pic, session_id, key, now).sv),
{
    let uid = claims.sub;
    let text = crate::frames::disconnected_text(the_user(sv, uid).username);
    lemma_disconnect_wf(sv, uid, text);
    let d = crate::handler::spec_disconnect(sv, uid).sv;
    assert(d == crate::handler::spec_disconnect_with(sv, uid, text).sv);
    let b = crate::facade::spec_register(sv, claims, pic, session_id, key, now).sv;
    // After the cascade the id is free and no channel lists it.
    assert(!has_user(d, uid)) by {
        if has_user(sv, uid) {
            lemma_uidx(sv, uid);
            let ui = uidx(sv, uid);
            if has_user(d, uid) {
                let w = choose|w: int| 0 <= w < d.users.len() && (#[trigger] d.users[w]).id == uid;
                let e = crate::handler::spec_disc_upto(sv, uid, text, sv.channels.len() as int);
                lemma_disc_upto_shape(sv, uid, text, sv.channels.len() as int);
                let w0 = if w < ui {
                    w
                } else {
                    w + 1
                };
                assert(d.users[w] == sv.users[w0]);
                assert(sv.users[w0].id == uid && sv.users[ui].id == uid && w0 != ui);
                assert(false);
            }
        } else {
            assert(d == sv);
        }
    }
    assert forall|x: int| 0 <= x < d.channels.len() implies !(#[trigger] d.channels[x]).users.contains(
        uid,
    ) by {
        if has_user(sv, uid) {
            lemma_disc_upto_shape(sv, uid, text, sv.channels.len() as int);
            lemma_remove_name_props(sv.channels[x].users, uid);
            assert(wf_channel(sv, sv.channels[x]));
            if !sv.channels[x].users.contains(uid) {
                assert(d.channels[x] == sv.channels[x]);
            }
        } else {
            assert(d == sv);
            assert(wf_channel(sv, sv.channels[x]));
            if sv.channels[x].users.contains(uid) {
                assert(has_user(sv, uid));
            }
        }
    }
    let nu = b.users[b.users.len() - 1];
    assert(nu.id == uid && nu.channels.len() == 0);
    assert(distinct_ids(b.users)) by {
        assert forall|x: int, y: int| 0 <= x < y < b.users.len() implies (
        #[trigger] b.users[x]).id != (#[trigger] b.users[y]).id by {
            if y < b.users.len() - 1 {
                assert(d.users[x].id != d.users[y].id);
            } else {
                assert(b.users[x] == d.users[x]);
                if d.users[x].id == uid {
                    assert(has_user(d, uid));
                }
            }
        }
    }
    assert forall|x: int| 0 <= x < b.channels.len() implies wf_channel(
        b,
        #[trigger] b.channels[x],
    ) by {
        assert(b.channels[x] == d.channels[x]);
        assert(wf_channel(d, d.channels[x]));
        assert forall|m: int| 0 <= m < b.channels[x].users.len() implies has_user(
            b,
            #[trigger] b.channels[x].users[m],
        ) by {
            assert(has_user(d, d.channels[x].users[m]));
            let w = choose|w: int|
                0 <= w < d.users.len() && (#[trigger] d.users[w]).id == d.channels[x].users[m];
            assert(b.users[w].id == d.channels[x].users[m]);
        }
    }
    assert forall|x: int| 0 <= x < b.users.len() implies wf_user(b, #[trigger] b.users[x]) by {
        if x < b.users.len() - 1 {
            assert(b.users[x] == d.users[x]);
            assert(wf_user(d, d.users[x]));
            assert forall|m: int| 0 <= m < b.users[x].channels.len() implies has_channel(
                b,
                #[trigger] b.users[x].channels[m],
            ) by {
                assert(has_channel(d, d.users[x].channels[m]));
                let w = choose|w: int|
                    0 <= w < d.channels.len() && (#[trigger] d.channels[w]).name == d.users[x].channels[m];
                assert(b.channels[w].name == d.users[x].channels[m]);
            }
        } else {
            assert(b.users[x] == nu);
        }
    }
    assert forall|x: int, y: int|
        0 <= x < b.channels.len() && 0 <= y < b.users.len() implies ((
    #[trigger] b.channels[x]).users.contains(b.users[y].id) <==> (
    #[trigger] b.users[y]).channels.contains(b.channels[x].name)) by {
        assert(b.channels[x] == d.channels[x]);
        if y < b.users.len() - 1 {
            assert(b.users[y] == d.users[y]);
            assert(wf(d));
        } else {
            assert(b.users[y] == nu);
            assert(!d.channels[x].users.contains(uid));
            assert(!nu.channels.contains(d.channels[x].name));
        }
    }
}

/// Reaped channel lists: the survivors all come from the original list, and
/// every non-empty channel survives.
pub proof fn lemma_reap_props(s: Seq<ChannelView>, now: u64)
    ensures
        forall|i: int|
            0 <= i < reap_channels(s, now).len() ==> s.contains(#[trigger] reap_channels(s, now)[i]),
        forall|j: int|
            0 <= j < s.len() && (#[trigger] s[j]).users.len() > 0 ==> reap_channels(
                s,
                now,
            ).contains(s[j]),
        distinct_names(s) ==> distinct_names(reap_channels(s, now)),
    decreases s.len(),
{
    if s.len() == 0 {
    } else {
        lemma_reap_props(s.drop_last(), now);
        let r = reap_channels(s, now);
        let rr = reap_channels(s.drop_last(), now);
        let c = s.last();
        assert(forall|i: int| 0 <= i < s.len() - 1 ==> #[trigger] s.drop_last()[i] == s[i]);
        assert forall|i: int| 0 <= i < rr.len() implies s.contains(#[trigger] rr[i]) by {
            assert(s.drop_last().contains(rr[i]));
            let w = choose|w: int| 0 <= w < s.drop_last().len() && s.drop_last()[w] == rr[i];
            assert(s[w] == rr[i]);
        }
        if c.users.len() == 0 && spec_duration_since(now, c.last_activity)
            > crate::janitor::EMPTY_CHANNEL_GRACE {
            assert(r == rr);
            assert forall|j: int|
                0 <= j < s.len() && (#[trigger] s[j]).users.len() > 0 implies r.contains(s[j]) by {
                assert(j < s.len() - 1);
                assert(s.drop_last()[j] == s[j]);
                assert(rr.contains(s.drop_last()[j]));
            }
        } else {
            assert(r == rr.push(c));
            assert(r[r.len() - 1] == c);
            assert forall|i: int| 0 <= i < r.len() implies s.contains(#[trigger] r[i]) by {
                if i < r.len() - 1 {
                    assert(r[i] == rr[i]);
                    assert(s.contains(rr[i]));
                } else {
                    assert(s[s.len() - 1] == c);
                }
            }
            assert forall|j: int|
                0 <= j < s.len() && (#[trigger] s[j]).users.len() > 0 implies r.contains(s[j]) by {
                if j < s.len() - 1 {
                    assert(s.drop_last()[j] == s[j]);
                    assert(rr.contains(s.drop_last()[j]));
                    let w = choose|w: int| 0 <= w < rr.len() && rr[w] == s[j];
                    assert(r[w] == s[j]);
                }
            }
            if distinct_names(s) {
                assert(distinct_names(rr)) by {
                    assert(distinct_names(s.drop_last())) by {
                        assert forall|a: int, b2: int|
                            0 <= a < b2 < s.drop_last().len() implies (
                        #[trigger] s.drop_last()[a]).name != (#[trigger] s.drop_last()[b2]).name by {
                            assert(s[a].name != s[b2].name);
                        }
                    }
                }
                assert forall|a: int, b2: int| 0 <= a < b2 < r.len() implies (
                #[trigger] r[a]).name != (#[trigger] r[b2]).name by {
                    if b2 < r.len() - 1 {
                        assert(r[a] == rr[a] && r[b2] == rr[b2]);
                    } else {
                        assert(r[a] == rr[a]);
                        assert(s.contains(rr[a]));
                        let w = choose|w: int| 0 <= w < s.len() && s[w] == rr[a];
                        if w == s.len() - 1 {
                            assert(s.drop_last().contains(rr[a]));
                            let w2 = choose|w2: int|
                                0 <= w2 < s.drop_last().len() && s.drop_last()[w2] == rr[a];
                            assert(s[w2] == s[s.len() - 1] && w2 != s.len() - 1);
                            assert(s[w2].name == s[s.len() - 1].name);
                            assert(false);
                        }
                        assert(s[w].name != s[s.len() - 1].name);
                    }
                }
            }
        }
    }
}

/// The inactivity expiries preserve the directory invariant.
pub proof fn lemma_expire_wf(sv: ServerStateView, ids: Seq<Seq<u8>>, k: int)
    requires
        wf(sv),
    ensures
        wf(expire_upto(sv, ids, k).sv),
    decreases k,
{
    if k <= 0 {
    } else {
        lemma_expire_wf(sv, ids, k - 1);
        let e = expire_upto(sv, ids, k - 1);
        lemma_disconnect_wf(
            e.sv,
            ids[k - 1],
            crate::frames::inactive_text(the_user(e.sv, ids[k - 1]).username),
        );
    }
}

/// One janitor pass preserves the directory invariant: sweeping histories,
/// expiring idle sessions and reaping long-empty channels all keep the
/// membership symmetry and the closedness of all references.
pub proof fn lemma_janitor_wf(sv: ServerStateView, now: u64)
    requires
        wf(sv),
    ensures
        wf(spec_janitor_tick(sv, now).sv),
{
    let ttl = sv.message_ttl;
    let sv1 = ServerStateView {
        channels: Seq::new(sv.channels.len(), |i: int| swept_chan(sv.channels[i], now, ttl)),
        ..sv
    };
    let sv2 = ServerStateView {
        users: Seq::new(sv1.users.len(), |i: int| swept_user(sv1.users[i], now, ttl)),
        ..sv1
    };
    assert(wf(sv2)) by {
        assert(same_structure(sv, sv2)) by {
            assert forall|i: int|
                0 <= i < sv.users.len() implies (#[trigger] sv2.users[i]).id == sv.users[i].id
                && sv2.users[i].channels == sv.users[i].channels && sv2.users[i].messages.len()
                <= crate::models::HISTORY_CAP as int && (sv2.users[i].session matches Some(s)
                ==> s.user_id == sv2.users[i].id) by {
                assert(wf_user(sv, sv.users[i]));
                crate::janitor::lemma_keep_fresh_len(sv.users[i].messages, now, ttl);
            }
            assert forall|ci: int|
                0 <= ci < sv.channels.len() implies (#[trigger] sv2.channels[ci]).name
                == sv.channels[ci].name && sv2.channels[ci].users == sv.channels[ci].users
                && sv2.channels[ci].messages.len() <= crate::models::HISTORY_CAP as int by {
                assert(wf_channel(sv, sv.channels[ci]));
                crate::janitor::lemma_keep_fresh_len(sv.channels[ci].messages, now, ttl);
            }
        }
        lemma_wf_same_structure(sv, sv2);
    }
    let ids = expired_ids(sv2.users, now, sv.session_timeout);
    lemma_expire_wf(sv2, ids, ids.len() as int);
    let e3 = expire_upto(sv2, ids, ids.len() as int);
    let b = spec_janitor_tick(sv, now).sv;
    assert(b.channels == reap_channels(e3.sv.channels, now));
    assert(b.users == e3.sv.users);
    lemma_reap_props(e3.sv.channels, now);
    assert(distinct_names(b.channels));
    assert(distinct_ids(b.users));
    assert forall|x: int| 0 <= x < b.channels.len() implies wf_channel(
        b,
        #[trigger] b.channels[x],
    ) by {
        assert(e3.sv.channels.contains(b.channels[x]));
        let w = choose|w: int| 0 <= w < e3.sv.channels.len() && e3.sv.channels[w] == b.channels[x];
        assert(wf_channel(e3.sv, e3.sv.channels[w]));
    }
    assert forall|x: int| 0 <= x < b.users.len() implies wf_user(b, #[trigger] b.users[x]) by {
        assert(wf_user(e3.sv, e3.sv.users[x]));
        assert forall|m: int| 0 <= m < b.users[x].channels.len() implies has_channel(
            b,
            #[trigger] b.users[x].channels[m],
        ) by {
            assert(has_channel(e3.sv, e3.sv.users[x].channels[m]));
            let w = choose|w: int|
                0 <= w < e3.sv.channels.len() && (#[trigger] e3.sv.channels[w]).name
                    == e3.sv.users[x].channels[m];
            // The listed channel has this user as a member, so it is not
            // empty and survives the reaping.
            assert(e3.sv.channels[w].users.contains(e3.sv.users[x].id)) by {
                assert(wf(e3.sv));
            }
            assert(e3.sv.channels[w].users.len() > 0);
            assert(b.channels.contains(e3.sv.channels[w]));
            let w2 = choose|w2: int|
                0 <= w2 < b.channels.len() && b.channels[w2] == e3.sv.channels[w];
            assert(b.channels[w2].name == e3.sv.users[x].channels[m]);
        }
    }
    assert forall|x: int, y: int|
        0 <= x < b.channels.len() && 0 <= y < b.users.len() implies ((
    #[trigger] b.channels[x]).users.contains(b.users[y].id) <==> (
    #[trigger] b.users[y]).channels.contains(b.channels[x].name)) by {
        assert(e3.sv.channels.contains(b.channels[x]));
        let w = choose|w: int| 0 <= w < e3.sv.channels.len() && e3.sv.channels[w] == b.channels[x];
        assert(b.users[y] == e3.sv.users[y]);
        assert(wf(e3.sv));
        assert(e3.sv.channels[w].users.contains(e3.sv.users[y].id) <==> e3.sv.users[y].channels.contains(
            e3.sv.channels[w].name,
        ));
    }
}

/// Refreshing a caller's activity clock never moves any surviving session
/// backwards: the touched session jumps to `now`, all others are untouched.
pub proof fn lemma_touch_activity(sv: ServerStateView, uid: Seq<u8>, now: u64, x: Seq<u8>)
    requires
        distinct_ids(sv.users),
        has_user(sv, x),
        (the_user(sv, x).session matches Some(s) ==> s.last_activity <= now),
    ensures
        has_user(spec_touch(sv, uid, now), x),
        ({
            let after = the_user(spec_touch(sv, uid, now), x).session;
            let before = the_user(sv, x).session;
            before matches Some(s1) ==> after matches Some(s2) && s2.last_activity
                >= s1.last_activity
        }),
{
    let svt = spec_touch(sv, uid, now);
    if has_user(sv, uid) {
        lemma_uidx(sv, uid);
        assert(same_ids(sv.users, svt.users));
        lemma_uidx_carry(sv, svt, x);
        lemma_uidx(sv, x);
        if uidx(sv, x) != uidx(sv, uid) {
            assert(svt.users[uidx(sv, x)] == sv.users[uidx(sv, x)]);
        }
    }
}

/// `b` carries the same users with the same sessions as `a`, position by
/// position.
pub open spec fn sessions_same(a: ServerStateView, b: ServerStateView) -> bool {
    &&& a.users.len() == b.users.len()
    &&& forall|i: int|
        0 <= i < a.users.len() ==> (#[trigger] b.users[i]).id == a.users[i].id && b.users[i].session
            == a.users[i].session
}

/// JOIN leaves every session untouched.
pub proof fn lemma_join_sessions(sv: ServerStateView, uid: Seq<u8>, chan: Seq<u8>, now: u64)
    requires
        distinct_ids(sv.users),
        has_user(sv, uid),
    ensures
        sessions_same(sv, crate::handler::spec_join(sv, uid, chan, now).sv),
{
    lemma_uidx(sv, uid);
    let b = crate::handler::spec_join(sv, uid, chan, now).sv;
    let sv1 = if has_channel(sv, chan) {
        sv
    } else {
        ServerStateView {
            channels: sv.channels.push(crate::handler::new_channel(chan, now)),
            ..sv
        }
    };
    let ci = cidx(sv1, chan);
    let c = sv1.channels[ci];
    let c2 = ChannelView {
        users: if c.users.contains(uid) {
            c.users
        } else {
            c.users.push(uid)
        },
        last_activity: now,
        ..c
    };
    let sv2 = ServerStateView { channels: sv1.channels.update(ci, c2), ..sv1 };
    lemma_uidx_carry(sv, sv2, uid);
    let ui = uidx(sv2, uid);
    assert forall|i: int|
        0 <= i < sv.users.len() implies (#[trigger] b.users[i]).id == sv.users[i].id
        && b.users[i].session == sv.users[i].session by {
        if i != ui {
            assert(b.users[i] == sv.users[i]);
        }
    }
}

/// PART leaves every session untouched.
pub proof fn lemma_part_sessions(sv: ServerStateView, uid: Seq<u8>, chan: Seq<u8>, now: u64)
    requires
        distinct_ids(sv.users),
        has_user(sv, uid),
    ensures
        sessions_same(sv, crate::handler::spec_part(sv, uid, chan, now).sv),
{
    lemma_uidx(sv, uid);
    let b = crate::handler::spec_part(sv, uid, chan, now).sv;
    let e1sv = if !has_channel(sv, chan) {
        sv
    } else {
        let ci = cidx(sv, chan);
        let c = sv.channels[ci];
        let c2 = ChannelView {
            users: crate::handler::remove_name(c.users, uid),
            last_activity: now,
            ..c
        };
        if c2.users.len() == 0 {
            ServerStateView { channels: sv.channels.remove(ci), ..sv }
        } else {
            let text = crate::frames::left_text(the_user(sv, uid).username, chan);
            let svb = ServerStateView { channels: sv.channels.update(ci, c2), ..sv };
            let c3 = ChannelView {
                messages: crate::handler::cap_push(
                    c2.messages,
                    crate::handler::system_msg(text, now),
                ),
                last_activity: now,
                ..c2
            };
            ServerStateView { channels: svb.channels.update(ci, c3), ..svb }
        }
    };
    assert(e1sv.users == sv.users);
    lemma_uidx_carry(sv, e1sv, uid);
    let ui = uidx(e1sv, uid);
    assert forall|i: int|
        0 <= i < sv.users.len() implies (#[trigger] b.users[i]).id == sv.users[i].id
        && b.users[i].session == sv.users[i].session by {
        if i != ui {
            assert(b.users[i] == sv.users[i]);
        }
    }
}

/// Touching a session already stamped at `now` changes nothing.
pub proof fn lemma_touch_idempotent(sv: ServerStateView, uid: Seq<u8>, now: u64)
    requires
        distinct_ids(sv.users),
        has_user(sv, uid) ==> match the_user(sv, uid).session {
            Some(s) => s.last_activity == now,
            None => true,
        },
    ensures
        sessions_same(sv, spec_touch(sv, uid, now)),
{
    if has_user(sv, uid) {
        lemma_uidx(sv, uid);
        let ui = uidx(sv, uid);
        let svt = spec_touch(sv, uid, now);
        assert forall|i: int|
            0 <= i < sv.users.len() implies (#[trigger] svt.users[i]).id == sv.users[i].id
            && svt.users[i].session == sv.users[i].session by {
            if i != ui {
                assert(svt.users[i] == sv.users[i]);
            } else {
                match sv.users[ui].session {
                    Some(s) => {
                        assert(svt.users[ui].session =~~= sv.users[ui].session);
                    },
                    None => {},
                }
            }
        }
    }
}

/// No command moves a surviving session's activity clock backwards: the
/// caller's session jumps to `now`, every other session is untouched, and a
/// record either survives with its stamp intact or is removed entirely.
#[verifier::rlimit(100)]
pub proof fn lemma_dispatch_activity(
    sv: ServerStateView,
    uid: Seq<u8>,
    line: Seq<u8>,
    now: u64,
    x: Seq<u8>,
)
    requires
        wf(sv),
        has_user(sv, x),
        (the_user(sv, x).session matches Some(s1) ==> s1.last_activity <= now),
    ensures
        ({
            let aft = crate::handler::spec_handle_message(sv, uid, line, now).sv;
            match the_user(sv, x).session {
                Some(s1) => has_user(aft, x) ==> match the_user(aft, x).session {
                    Some(s2) => s2.last_activity >= s1.last_activity,
                    None => false,
                },
                None => true,
            }
        }),
{
    let aft = crate::handler::spec_handle_message(sv, uid, line, now).sv;
    let p = crate::handler::spec_parts(line);
    let svt = spec_touch(sv, uid, now);
    lemma_touch_wf(sv, uid, now);
    lemma_touch_activity(sv, uid, now, x);
    lemma_uidx_carry(sv, svt, x);
    let v = crate::bytes::upper(p.verb);
    if !has_user(aft, x) || the_user(sv, x).session is None {
        return ;
    }
    // The touched directory already satisfies the claim; each verb's effect
    // keeps every surviving session as it is.
    if v == crate::bytes::ascii("JOIN"@) || v == crate::bytes::ascii("PART"@) {
        let chan = p.arg1;
        match chan {
            None => {
                assert(aft == svt);
            },
            Some(c) => {
                if has_user(svt, uid) {
                    if v == crate::bytes::ascii("JOIN"@) {
                        lemma_join_sessions(svt, uid, c, now);
                    } else {
                        lemma_part_sessions(svt, uid, c, now);
                    }
                    lemma_sessions_same_user(svt, aft, x);
                } else {
                    assert(aft == svt);
                }
            },
        }
    } else if v == crate::bytes::ascii("PRIVMSG"@) {
        lemma_privmsg_sessions(svt, uid, p.arg1, p.rest, now, x);
    } else if v == crate::bytes::ascii("LIST"@) || v == crate::bytes::ascii("WHO"@) {
        assert(aft == svt);
    } else if v == crate::bytes::ascii("QUIT"@) {
        lemma_quit_sessions(svt, uid, p.arg1, x);
    } else if v == crate::bytes::ascii("SECURECLEAR"@) {
        let b = crate::handler::spec_secure_clear(svt, uid).sv;
        if has_user(svt, uid) {
            lemma_uidx(svt, uid);
            let ui = uidx(svt, uid);
            assert(sessions_same(svt, b)) by {
                assert forall|i: int|
                    0 <= i < svt.users.len() implies (#[trigger] b.users[i]).id == svt.users[i].id
                    && b.users[i].session == svt.users[i].session by {
                    if i != ui {
                        assert(b.users[i] == svt.users[i]);
                    }
                }
            }
            lemma_sessions_same_user(svt, aft, x);
        } else {
            assert(aft == svt);
        }
    } else {
        assert(aft == svt);
    }
}

/// Carries the claim of one user through a session-preserving step.
pub proof fn lemma_sessions_same_user(a: ServerStateView, b: ServerStateView, x: Seq<u8>)
    requires
        distinct_ids(a.users),
        has_user(a, x),
        sessions_same(a, b),
    ensures
        has_user(b, x),
        the_user(b, x).session == the_user(a, x).session,
{
    lemma_uidx(a, x);
    let i = uidx(a, x);
    assert(b.users[i].id == x);
    assert(has_user(b, x));
    assert(distinct_ids(b.users)) by {
        assert forall|c: int, d: int| 0 <= c < d < b.users.len() implies (
        #[trigger] b.users[c]).id != (#[trigger] b.users[d]).id by {
            assert(a.users[c].id != a.users[d].id);
        }
    }
    lemma_uidx(b, x);
    assert(uidx(b, x) == i);
}

/// PRIVMSG keeps every surviving session, up to the sender's refresh at the
/// same instant.
pub proof fn lemma_privmsg_sessions(
    sv: ServerStateView,
    uid: Seq<u8>,
    arg1: Option<Seq<u8>>,
    rest: Option<Seq<u8>>,
    now: u64,
    x: Seq<u8>,
)
    requires
        wf(sv),
        has_user(sv, x),
        has_user(sv, uid) ==> match the_user(sv, uid).session {
            Some(s) => s.last_activity == now,
            None => true,
        },
    ensures
        has_user(spec_privmsg(sv, uid, arg1, rest, now).sv, x),
        the_user(spec_privmsg(sv, uid, arg1, rest, now).sv, x).session == the_user(sv, x).session,
{
    let b = spec_privmsg(sv, uid, arg1, rest, now).sv;
    if arg1 is None || rest is None {
        assert(b == sv);
        return ;
    }
    if !has_user(sv, uid) {
        assert(b == sv);
        return ;
    }
    let svt = spec_touch(sv, uid, now);
    lemma_touch_idempotent(sv, uid, now);
    assert(sessions_same(sv, svt));
    lemma_touch_wf(sv, uid, now);
    lemma_uidx_carry(sv, svt, x);
    lemma_uidx_carry(sv, svt, uid);
    let target = arg1->0;
    let msg = rest->0;
    if target.len() > 0 && target[0] == 0x23 {
        if !the_user(svt, uid).channels.contains(target) {
            assert(b == svt);
            lemma_sessions_same_user(sv, svt, x);
        } else {
            // The channel store touches no user record at all.
            assert(b.users == svt.users);
            lemma_sessions_same_user(sv, b, x);
        }
    } else {
        match crate::handler::ufind(svt.users, target) {
            None => {
                assert(b == svt);
                lemma_sessions_same_user(sv, svt, x);
            },
            Some(ri) => {
                let rid = svt.users[ri].id;
                assert(sessions_same(svt, b)) by {
                    let m = crate::handler::chat_msg(the_user(svt, uid).username, msg, now);
                    let sv1 = if has_user(svt, uid) {
                        crate::handler::user_history_push(svt, uidx(svt, uid), m)
                    } else {
                        svt
                    };
                    assert forall|i: int|
                        0 <= i < svt.users.len() implies (#[trigger] b.users[i]).id
                        == svt.users[i].id && b.users[i].session == svt.users[i].session by {
                        if has_user(svt, uid) && i != uidx(svt, uid) {
                            assert(sv1.users[i] == svt.users[i]);
                        }
                        if has_user(sv1, rid) && i != uidx(sv1, rid) {
                            assert(b.users[i] == sv1.users[i]);
                        }
                    }
                }
                assert(sessions_same(sv, b)) by {
                    assert forall|i: int|
                        0 <= i < sv.users.len() implies (#[trigger] b.users[i]).id
                        == sv.users[i].id && b.users[i].session == sv.users[i].session by {}
                }
                lemma_sessions_same_user(sv, b, x);
            },
        }
    }
}

/// QUIT keeps the sessions of everyone who stays connected.
pub proof fn lemma_quit_sessions(
    sv: ServerStateView,
    uid: Seq<u8>,
    arg1: Option<Seq<u8>>,
    x: Seq<u8>,
)
    requires
        wf(sv),
        has_user(sv, x),
    ensures
        ({
            let b = crate::handler::spec_quit(sv, uid, arg1).sv;
            has_user(b, x) ==> the_user(b, x).session == the_user(sv, x).session
        }),
{
    let b = crate::handler::spec_quit(sv, uid, arg1).sv;
    if !has_user(b, x) {
        return ;
    }
    let secure = arg1 matches Some(a) && crate::bytes::contains_seq(
        a,
        crate::bytes::ascii("SECURE_DELETE"@),
    );
    let svq = if secure && has_user(sv, uid) {
        crate::handler::spec_quit_strip(sv, uid)
    } else {
        sv
    };
    if secure && has_user(sv, uid) {
        crate::handler::lemma_strip_wf(sv, uid);
        lemma_uidx(sv, uid);
    }
    assert(wf(svq));
    assert(sessions_same(sv, svq)) by {
        if secure && has_user(sv, uid) {
            let ui = uidx(sv, uid);
            assert forall|i: int|
                0 <= i < sv.users.len() implies (#[trigger] svq.users[i]).id == sv.users[i].id
                && svq.users[i].session == sv.users[i].session by {
                if i != ui {
                    assert(svq.users[i] == sv.users[i]);
                }
            }
        }
    }
    lemma_sessions_same_user(sv, svq, x);
    let text = crate::frames::disconnected_text(the_user(svq, uid).username);
    assert(b == crate::handler::spec_disconnect_with(svq, uid, text).sv);
    if !has_user(svq, uid) {
        assert(b == svq);
    } else {
        lemma_uidx(svq, uid);
        let ui = uidx(svq, uid);
        lemma_disc_upto_shape(svq, uid, text, svq.channels.len() as int);
        let e = crate::handler::spec_disc_upto(svq, uid, text, svq.channels.len() as int);
        assert(b.users == svq.users.remove(ui));
        lemma_uidx(svq, x);
        let xi = uidx(svq, x);
        assert(distinct_ids(b.users)) by {
            assert forall|c: int, d: int| 0 <= c < d < b.users.len() implies (
            #[trigger] b.users[c]).id != (#[trigger] b.users[d]).id by {
                let c0 = if c < ui {
                    c
                } else {
                    c + 1
                };
                let d0 = if d < ui {
                    d
                } else {
                    d + 1
                };
                assert(b.users[c] == svq.users[c0]);
                assert(b.users[d] == svq.users[d0]);
            }
        }
        let w = choose|w: int| 0 <= w < b.users.len() && (#[trigger] b.users[w]).id == x;
        lemma_uidx(b, x);
        assert(uidx(b, x) == w);
        let w0 = if w < ui {
            w
        } else {
            w + 1
        };
        assert(b.users[w] == svq.users[w0]);
        assert(svq.users[w0].id == x);
        assert(w0 == xi);
    }
}

/// Dispatch refreshes the caller: after any command that leaves the caller's
/// record in place, the caller's session stamp equals the dispatch time.
pub proof fn lemma_dispatch_refreshes_caller(
    sv: ServerStateView,
    uid: Seq<u8>,
    line: Seq<u8>,
    now: u64,
)
    requires
        wf(sv),
        has_user(sv, uid),
        the_user(sv, uid).session is Some,
    ensures
        ({
            let aft = crate::handler::spec_handle_message(sv, uid, line, now).sv;
            has_user(aft, uid) ==> match the_user(aft, uid).session {
                Some(s2) => s2.last_activity == now,
                None => false,
            }
        }),
{
    let aft = crate::handler::spec_handle_message(sv, uid, line, now).sv;
    if !has_user(aft, uid) {
        return ;
    }
    let p = crate::handler::spec_parts(line);
    let svt = spec_touch(sv, uid, now);
    lemma_touch_wf(sv, uid, now);
    lemma_uidx(sv, uid);
    lemma_uidx_carry(sv, svt, uid);
    assert(the_user(svt, uid).session matches Some(s) && s.last_activity == now) by {
        assert(svt.users[uidx(sv, uid)].session matches Some(s) && s.last_activity == now);
    }
    let v = crate::bytes::upper(p.verb);
    if v == crate::bytes::ascii("JOIN"@) || v == crate::bytes::ascii("PART"@) {
        match p.arg1 {
            None => {
                assert(aft == svt);
            },
            Some(c) => {
                if has_user(svt, uid) {
                    if v == crate::bytes::ascii("JOIN"@) {
                        lemma_join_sessions(svt, uid, c, now);
                    } else {
                        lemma_part_sessions(svt, uid, c, now);
                    }
                    lemma_sessions_same_user(svt, aft, uid);
                } else {
                    assert(aft == svt);
                }
            },
        }
    } else if v == crate::bytes::ascii("PRIVMSG"@) {
        lemma_privmsg_sessions(svt, uid, p.arg1, p.rest, now, uid);
    } else if v == crate::bytes::ascii("LIST"@) || v == crate::bytes::ascii("WHO"@) {
        assert(aft == svt);
    } else if v == crate::bytes::ascii("QUIT"@) {
        // QUIT removes the caller's record, so survival is impossible.
        let secure = p.arg1 matches Some(a) && crate::bytes::contains_seq(
            a,
            crate::bytes::ascii("SECURE_DELETE"@),
        );
        let svq = if secure && has_user(svt, uid) {
            crate::handler::spec_quit_strip(svt, uid)
        } else {
            svt
        };
        if secure && has_user(svt, uid) {
            crate::handler::lemma_strip_wf(svt, uid);
            lemma_uidx(svt, uid);
        }
        assert(wf(svq));
        assert(has_user(svq, uid)) by {
            lemma_uidx(svt, uid);
            let ui = uidx(svt, uid);
            assert(svq.users[ui].id == uid);
        }
        lemma_uidx(svq, uid);
        let ui = uidx(svq, uid);
        let text = crate::frames::disconnected_text(the_user(svq, uid).username);
        lemma_disc_upto_shape(svq, uid, text, svq.channels.len() as int);
        assert(aft.users == svq.users.remove(ui));
        assert(!has_user(aft, uid)) by {
            if has_user(aft, uid) {
                let w = choose|w: int| 0 <= w < aft.users.len() && (#[trigger] aft.users[w]).id
                    == uid;
                let w0 = if w < ui {
                    w
                } else {
                    w + 1
                };
                assert(aft.users[w] == svq.users[w0]);
                assert(svq.users[w0].id == uid && svq.users[ui].id == uid && w0 != ui);
                assert(false);
            }
        }
        assert(false);
    } else if v == crate::bytes::ascii("SECURECLEAR"@) {
        let b = crate::handler::spec_secure_clear(svt, uid).sv;
        if has_user(svt, uid) {
            lemma_uidx(svt, uid);
            let ui = uidx(svt, uid);
            assert(sessions_same(svt, b)) by {
                assert forall|i: int|
                    0 <= i < svt.users.len() implies (#[trigger] b.users[i]).id == svt.users[i].id
                    && b.users[i].session == svt.users[i].session by {
                    if i != ui {
                        assert(b.users[i] == svt.users[i]);
                    }
                }
            }
            lemma_sessions_same_user(svt, aft, uid);
        } else {
            assert(aft == svt);
        }
    } else {
        assert(aft == svt);
    }
}

} // verus!