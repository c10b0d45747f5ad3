//! Per-connection session state: identity, activity clock, encryption key
//! and the monotonic nonce counter.

use vstd::prelude::*;

verus! {

/// Session information bound to one authenticated user.
pub struct Session {
    pub id: Vec<u8>,
    pub user_id: Vec<u8>,
    pub started_at: u64,
    pub last_activity: u64,
    pub encryption_key: [u8; 32],
    pub nonce_counter: u64,
}

#[verifier::ext_equal]
pub struct SessionView {
    pub id: Seq<u8>,
    pub user_id: Seq<u8>,
    pub started_at: u64,
    pub last_activity: u64,
    pub encryption_key: Seq<u8>,
    pub nonce_counter: u64,
}

impl View for Session {
    type V = SessionView;

    open spec fn view(&self) -> SessionView {
        SessionView {
            id: self.id@,
            user_id: self.user_id@,
            started_at: self.started_at,
            last_activity: self.last_activity,
            encryption_key: self.encryption_key@,
            nonce_counter: self.nonce_counter,
        }
    }
}

impl Session {
    /// Creates a session that starts, and was last active, at `now`.
    pub fn new(id: Vec<u8>, user_id: Vec<u8>, encryption_key: [u8; 32], now: u64) -> (s: Session)
        ensures
            s@.id == id@,
            s@.user_id == user_id@,
            s@.started_at == now,
            s@.last_activity == now,
            s@.encryption_key == encryption_key@,
            s@.nonce_counter == 0,
    {
        Session {
            id,
            user_id,
            started_at: now,
            last_activity: now,
            encryption_key,
            nonce_counter: 0,
        }
    }

    /// Marks the session as active at `now`.
    pub fn update_activity(&mut self, now: u64)
        ensures
            final(self)@ == (SessionView { last_activity: now, ..old(self)@ }),
            old(self).last_activity <= now ==> final(self).last_activity
                >= old(self).last_activity,
    {
        self.last_activity = now;
    }

    /// Whether the session has been idle longer than `timeout_secs` at `now`.
    pub fn is_expired(&self, timeout_secs: u64, now: u64) -> (r: bool)
        ensures
            r == (spec_duration_since(now, self.last_activity) > timeout_secs),
    {
        duration_since(now, self.last_activity) > timeout_secs
    }

    /// Advances the nonce counter and returns its new value.
    pub fn increment_nonce(&mut self) -> (n: u64)
        requires
            old(self).nonce_counter < u64::MAX,
        ensures
            final(self)@ == (SessionView {
                nonce_counter: (old(self).nonce_counter + 1) as u64,
                ..old(self)@
            }),
            n == old(self).nonce_counter + 1,
    {
        self.nonce_counter = self.nonce_counter + 1;
        self.nonce_counter
    }

    /// Seconds since the session began, as observed at `now`.
    pub fn duration(&self, now: u64) -> (d: u64)
        ensures
            d == spec_duration_since(now, self.started_at),
    {
        duration_since(now, self.started_at)
    }

    /// Seconds since the last activity, as observed at `now`.
    pub fn idle_time(&self, now: u64) -> (d: u64)
        ensures
            d == spec_duration_since(now, self.last_activity),
    {
        duration_since(now, self.last_activity)
    }
}

/// Elapsed seconds from `earlier` to `now`; zero when the clock readings are
/// out of order.
pub open spec fn spec_duration_since(now: u64, earlier: u64) -> u64 {
    if now >= earlier {
        (now - earlier) as u64
    } else {
        0
    }
}

/// Executable counterpart of [`spec_duration_since`].
pub fn duration_since(now: u64, earlier: u64) -> (d: u64)
    ensures
        d == spec_duration_since(now, earlier),
{
    if now >= earlier {
        now - earlier
    } else {
        0
    }
}

/// Activity stamps never move backwards: refreshing a session at a later
/// clock reading can only raise `last_activity`.
pub proof fn lemma_activity_monotonic(s: Session, t1: u64, t2: u64)
    requires
        s.last_activity <= t1,
        t1 <= t2,
    ensures
        (SessionView { last_activity: t2, ..s@ }).last_activity >= s@.last_activity,
{
}

} // verus!
