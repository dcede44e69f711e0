//! How long a session lives on the leader.
//!
//! A session is live until its time to live has passed since its last use; in
//! the grace window after that its retries are refused, because whether the
//! first attempt took effect can no longer be told; past both it is a new
//! session. The table is this leader's own: a new leader starts it over, which
//! lets sessions live longer.
use vstd::prelude::*;

use crate::state_machine::sorted::{SessionKey, SortKey, SortedMap};
use crate::client::handle;
use crate::consensus::node;
use crate::state_machine::sorted;

verus! {

/// How many sessions one collection may name, so that it fits a log entry.
pub const SESSION_GC_BATCH: usize = 1_000;

/// Where a session is in its life.
#[derive(Clone, Copy, Debug, PartialEq, Eq, Structural)]
pub enum SessionBand {
    /// Within its time to live: propose; the state machine deduplicates.
    Live,
    /// In the grace window: refuse.
    Grace,
    /// Past both: a new session.
    Fresh,
}

/// The sessions of a leader.
pub struct Sessions {
    /// Milliseconds a session lives after its last use; 0: for ever.
    pub ttl_ms: u64,
    /// Milliseconds after that in which its retries are refused.
    pub grace_ms: u64,
    /// Sessions that may exist at once; 0: any number.
    pub max_sessions: u64,
    /// When each session was last used.
    pub last_used: SortedMap<SessionKey, u64>,
    /// When to sweep the table next.
    pub next_sweep: u64,
    /// When to propose the next collection.
    pub next_gc: u64,
}

/// The sessions of a leader as a mathematical value.
#[verifier::ext_equal]
pub struct SessionsModel {
    pub ttl_ms: u64,
    pub grace_ms: u64,
    pub max_sessions: u64,
    pub used: Seq<(SessionKey, u64)>,
    pub next_sweep: u64,
    pub next_gc: u64,
}

impl View for Sessions {
    type V = SessionsModel;

    open spec fn view(&self) -> SessionsModel {
        SessionsModel {
            ttl_ms: self.ttl_ms,
            grace_ms: self.grace_ms,
            max_sessions: self.max_sessions,
            used: self.last_used.list(),
            next_sweep: self.next_sweep,
            next_gc: self.next_gc,
        }
    }
}

/// The time from one instant to a later one; 0 if it is not later.
pub open spec fn elapsed(last: u64, now: u64) -> u64 {
    if now >= last {
        (now - last) as u64
    } else {
        0
    }
}

/// The uses that are at most `window` old, in order.
pub open spec fn recent(s: Seq<(SessionKey, u64)>, now: u64, window: u64) -> Seq<(SessionKey, u64)>
    decreases s.len(),
{
    if s.len() == 0 {
        s
    } else {
        let rest = recent(s.drop_last(), now, window);
        if elapsed(s.last().1, now) <= window {
            rest.push(s.last())
        } else {
            rest
        }
    }
}

/// The sessions whose use is more than `window` old, in order.
pub open spec fn stale(s: Seq<(SessionKey, u64)>, now: u64, window: u64) -> Seq<SessionKey>
    decreases s.len(),
{
    if s.len() == 0 {
        Seq::empty()
    } else {
        let rest = stale(s.drop_last(), now, window);
        if elapsed(s.last().1, now) > window {
            rest.push(s.last().0)
        } else {
            rest
        }
    }
}

impl SessionsModel {
    /// When each session was last used.
    pub open spec fn table(self) -> Map<SessionKey, u64> {
        sorted::as_map::<SessionKey, u64>(self.used)
    }

    /// Whether the table is in order.
    pub open spec fn wf(self) -> bool {
        sorted::keys_ascend::<SessionKey, u64>(self.used)
    }

    /// The time to live and the grace window together.
    pub open spec fn window(self) -> u64 {
        handle::capped_add(self.ttl_ms, self.grace_ms)
    }

    /// Where a session is in its life. Without a clock sessions never expire.
    pub open spec fn band(self, clock: Option<u64>, session: SessionKey) -> SessionBand {
        match clock {
            None => SessionBand::Live,
            Some(now) => if self.ttl_ms == 0 {
                SessionBand::Live
            } else if !self.table().dom().contains(session) {
                SessionBand::Fresh
            } else {
                let age = elapsed(self.table()[session], now);
                if age <= self.ttl_ms {
                    SessionBand::Live
                } else if age <= self.window() {
                    SessionBand::Grace
                } else {
                    SessionBand::Fresh
                }
            },
        }
    }

    /// The sessions after one more use. Now and then the table is swept, so that
    /// it is bounded by the window and not by the number of writes.
    pub open spec fn noted(self, clock: Option<u64>, session: SessionKey) -> SessionsModel {
        match clock {
            None => self,
            Some(now) => if self.ttl_ms == 0 {
                self
            } else {
                let window = node::max(self.window(), 1);
                let swept = if now >= self.next_sweep {
                    SessionsModel {
                        used: recent(self.used, now, window),
                        next_sweep: handle::capped_add(now, window),
                        ..self
                    }
                } else {
                    self
                };
                SessionsModel {
                    used: sorted::put::<SessionKey, u64>(swept.used, session, now),
                    ..swept
                }
            },
        }
    }

    /// Whether a collection is due.
    pub open spec fn collection_due(self, clock: Option<u64>, leader: bool) -> bool {
        clock is Some && self.ttl_ms > 0 && leader && clock->0 >= self.next_gc
    }

    /// The sessions that a collection names.
    pub open spec fn collectable(self, now: u64) -> Seq<SessionKey> {
        let all = stale(self.used, now, self.window());
        if all.len() <= SESSION_GC_BATCH {
            all
        } else {
            all.subrange(0, SESSION_GC_BATCH as int)
        }
    }

    /// The sessions after a collection was considered.
    pub open spec fn considered(self, clock: Option<u64>, leader: bool) -> SessionsModel {
        if self.collection_due(clock, leader) {
            SessionsModel {
                next_gc: handle::capped_add(clock->0, node::max(self.ttl_ms, 1)),
                ..self
            }
        } else {
            self
        }
    }
}

/// A table without the given sessions.
pub open spec fn forgotten(s: Seq<(SessionKey, u64)>, gone: Seq<SessionKey>) -> Seq<
    (SessionKey, u64),
>
    decreases gone.len(),
{
    if gone.len() == 0 {
        s
    } else {
        sorted::take_out::<SessionKey, u64>(forgotten(s, gone.drop_last()), gone.last())
    }
}

/// What is kept of a table is in order, and all of it recent.
pub proof fn lemma_recent(s: Seq<(SessionKey, u64)>, now: u64, window: u64)
    requires
        sorted::keys_ascend::<SessionKey, u64>(s),
    ensures
        sorted::keys_ascend::<SessionKey, u64>(recent(s, now, window)),
        forall|i: int|
            0 <= i < recent(s, now, window).len() ==> s.contains(
                #[trigger] recent(s, now, window)[i],
            ) && elapsed(recent(s, now, window)[i].1, now) <= window,
        forall|i: int|
            0 <= i < s.len() && elapsed(s[i].1, now) <= window ==> recent(s, now, window).contains(
                #[trigger] s[i],
            ),
    decreases s.len(),
{
    let out = recent(s, now, window);
    if s.len() > 0 {
        let init = s.drop_last();
        let rest = recent(init, now, window);
        assert forall|i: int, j: int| 0 <= i < j < init.len() implies SessionKey::before(
            (#[trigger] init[i]).0,
            (#[trigger] init[j]).0,
        ) by {
            assert(SessionKey::before(s[i].0, s[j].0));
        }
        lemma_recent(init, now, window);
        assert forall|i: int| 0 <= i < out.len() implies s.contains(#[trigger] out[i]) && elapsed(
            out[i].1,
            now,
        ) <= window by {
            if i < rest.len() {
                assert(rest[i] == out[i]);
                assert(init.contains(rest[i]));
                let k = choose|k: int| 0 <= k < init.len() && init[k] == rest[i];
                assert(s[k] == out[i]);
            } else {
                assert(s[s.len() - 1] == out[i]);
            }
        }
        assert forall|i: int, j: int| 0 <= i < j < out.len() implies SessionKey::before(
            (#[trigger] out[i]).0,
            (#[trigger] out[j]).0,
        ) by {
            assert(rest[i] == out[i]);
            if j < rest.len() {
                assert(rest[j] == out[j]);
            } else {
                assert(init.contains(rest[i]));
                let k = choose|k: int| 0 <= k < init.len() && init[k] == rest[i];
                assert(s[k] == out[i]);
                assert(SessionKey::before(s[k].0, s[s.len() - 1].0));
            }
        }
        assert forall|i: int| 0 <= i < s.len() && elapsed(s[i].1, now) <= window implies out.contains(
            #[trigger] s[i],
        ) by {
            if i < init.len() {
                assert(init[i] == s[i]);
                assert(rest.contains(init[i]));
                let k = choose|k: int| 0 <= k < rest.len() && rest[k] == init[i];
                assert(out[k] == s[i]);
            } else {
                assert(out[out.len() - 1] == s[i]);
            }
        }
    }
}

/// The table after a sweep: the sessions with a recent use, unchanged.
/// What is kept of a table are its recent uses.
pub proof fn lemma_recent_map(s: Seq<(SessionKey, u64)>, now: u64, window: u64, session: SessionKey)
    requires
        sorted::keys_ascend::<SessionKey, u64>(s),
    ensures
        sorted::as_map::<SessionKey, u64>(recent(s, now, window)).dom().contains(session)
            <==> sorted::as_map::<SessionKey, u64>(s).dom().contains(session) && elapsed(
            sorted::as_map::<SessionKey, u64>(s)[session],
            now,
        ) <= window,
        sorted::as_map::<SessionKey, u64>(recent(s, now, window)).dom().contains(session)
            ==> sorted::as_map::<SessionKey, u64>(recent(s, now, window))[session]
            == sorted::as_map::<SessionKey, u64>(s)[session],
{
    let t = recent(s, now, window);
    lemma_recent(s, now, window);
    if sorted::has_key::<SessionKey, u64>(t, session) {
        let i = choose|i: int| 0 <= i < t.len() && (#[trigger] t[i]).0 == session;
        assert(s.contains(t[i]));
        let k = choose|k: int| 0 <= k < s.len() && s[k] == t[i];
        assert(s[k].0 == session);
        let j = choose|j: int| 0 <= j < s.len() && (#[trigger] s[j]).0 == session;
        sorted::lemma_unique::<SessionKey, u64>(s, j, k);
    }
    if sorted::has_key::<SessionKey, u64>(s, session) {
        let j = choose|j: int| 0 <= j < s.len() && (#[trigger] s[j]).0 == session;
        if elapsed(s[j].1, now) <= window {
            assert(t.contains(s[j]));
            let i = choose|i: int| 0 <= i < t.len() && t[i] == s[j];
            assert(t[i].0 == session);
        }
    }
}

impl Sessions {
    /// An empty table.
    pub fn new(ttl_ms: u64, grace_ms: u64, max_sessions: u64) -> (r: Sessions)
        ensures
            r@ == (SessionsModel {
                ttl_ms,
                grace_ms,
                max_sessions,
                used: Seq::empty(),
                next_sweep: 0,
                next_gc: 0,
            }),
            r@.wf(),
    {
        Sessions {
            ttl_ms,
            grace_ms,
            max_sessions,
            last_used: SortedMap::new(),
            next_sweep: 0,
            next_gc: 0,
        }
    }

    /// Where a session is in its life.
    pub fn session_band(&self, clock: Option<u64>, session: SessionKey) -> (r: SessionBand)
        requires
            self@.wf(),
        ensures
            r == self@.band(clock, session),
    {
        let now: u64 = match clock {
            None => {
                return SessionBand::Live;
            },
            Some(now) => now,
        };
        if self.ttl_ms == 0 {
            return SessionBand::Live;
        }
        match self.last_used.get(&session) {
            None => SessionBand::Fresh,
            Some(last) => {
                let age: u64 = now.saturating_sub(*last);
                if age <= self.ttl_ms {
                    SessionBand::Live
                } else if age <= self.ttl_ms.saturating_add(self.grace_ms) {
                    SessionBand::Grace
                } else {
                    SessionBand::Fresh
                }
            },
        }
    }

    fn sweep(&mut self, now: u64, window: u64)
        requires
            old(self)@.wf(),
        ensures
            final(self)@ == (SessionsModel { used: recent(old(self)@.used, now, window), ..old(
                self,
            )@ }),
            final(self)@.wf(),
    {
        let ghost s = self@.used;
        let mut kept: Vec<(SessionKey, u64)> = Vec::new();
        let n: usize = self.last_used.items.len();
        let mut i: usize = 0;
        assert(kept@ =~= recent(s.subrange(0, 0), now, window));
        while i < n
            invariant
                i <= n,
                n == self.last_used.items@.len(),
                s == self.last_used.list(),
                kept@ == recent(s.subrange(0, i as int), now, window),
            decreases n - i,
        {
            let ghost next = s.subrange(0, i + 1);
            assert(next.drop_last() =~= s.subrange(0, i as int));
            assert(next.last() == s[i as int]);
            let (session, last) = self.last_used.items[i];
            if now.saturating_sub(last) <= window {
                kept.push((session, last));
            }
            i = i + 1;
        }
        assert(s.subrange(0, n as int) =~= s);
        self.last_used = SortedMap { items: kept };
        proof {
            lemma_recent(s, now, window);
            assert(self.last_used.list() =~= recent(s, now, window));
        }
    }

    /// Record a use of a session.
    pub fn note_session(&mut self, clock: Option<u64>, session: SessionKey)
        requires
            old(self)@.wf(),
        ensures
            final(self)@ == old(self)@.noted(clock, session),
            final(self)@.wf(),
    {
        let now: u64 = match clock {
            None => {
                return ;
            },
            Some(now) => now,
        };
        if self.ttl_ms == 0 {
            return ;
        }
        let sum: u64 = self.ttl_ms.saturating_add(self.grace_ms);
        let window: u64 = if sum >= 1 {
            sum
        } else {
            1
        };
        if now >= self.next_sweep {
            self.sweep(now, window);
            self.next_sweep = now.saturating_add(window);
        }
        self.last_used.insert(session, now);
    }

    /// The sessions to collect now: those whose use is past the time to live and
    /// the grace window, when a collection is due on the leader. Nothing is
    /// proposed where nothing has expired.
    pub fn maybe_collect(&mut self, clock: Option<u64>, leader: bool) -> (r: Option<
        Vec<SessionKey>,
    >)
        requires
            old(self)@.wf(),
        ensures
            final(self)@ == old(self)@.considered(clock, leader),
            final(self)@.wf(),
            match r {
                Some(sessions) => {
                    &&& old(self)@.collection_due(clock, leader)
                    &&& sessions@ == old(self)@.collectable(clock->0)
                    &&& sessions@.len() > 0
                },
                None => old(self)@.collection_due(clock, leader) ==> old(self)@.collectable(
                    clock->0,
                ).len() == 0,
            },
    {
        let now: u64 = match clock {
            None => {
                return None;
            },
            Some(now) => now,
        };
        if self.ttl_ms == 0 || !leader {
            return None;
        }
        if now < self.next_gc {
            return None;
        }
        self.next_gc = now.saturating_add(self.ttl_ms);
        let window: u64 = self.ttl_ms.saturating_add(self.grace_ms);
        let ghost s = self@.used;
        let mut found: Vec<SessionKey> = Vec::new();
        let n: usize = self.last_used.items.len();
        let mut i: usize = 0;
        assert(found@ =~= stale(s.subrange(0, 0), now, window));
        while i < n
            invariant
                i <= n,
                n == self.last_used.items@.len(),
                s == self.last_used.list(),
                ({
                    let all = stale(s.subrange(0, i as int), now, window);
                    found@ == if all.len() <= SESSION_GC_BATCH {
                        all
                    } else {
                        all.subrange(0, SESSION_GC_BATCH as int)
                    }
                }),
            decreases n - i,
        {
            let ghost next = s.subrange(0, i + 1);
            assert(next.drop_last() =~= s.subrange(0, i as int));
            assert(next.last() == s[i as int]);
            let (session, last) = self.last_used.items[i];
            if now.saturating_sub(last) > window && found.len() < SESSION_GC_BATCH {
                found.push(session);
            }
            assert({
                let all = stale(next, now, window);
                found@ =~= if all.len() <= SESSION_GC_BATCH {
                    all
                } else {
                    all.subrange(0, SESSION_GC_BATCH as int)
                }
            });
            i = i + 1;
        }
        assert(s.subrange(0, n as int) =~= s);
        if found.len() == 0 {
            None
        } else {
            Some(found)
        }
    }

    /// Forget sessions whose collection was proposed, so that the next round
    /// does not name them again.
    pub fn forget(&mut self, sessions: &Vec<SessionKey>)
        requires
            old(self)@.wf(),
        ensures
            final(self)@ == (SessionsModel { used: forgotten(old(self)@.used, sessions@), ..old(
                self,
            )@ }),
            final(self)@.wf(),
    {
        let ghost m = self@;
        let n: usize = sessions.len();
        let mut i: usize = 0;
        assert(sessions@.subrange(0, 0) =~= Seq::empty());
        while i < n
            invariant
                i <= n,
                n == sessions@.len(),
                self@ == (SessionsModel {
                    used: forgotten(m.used, sessions@.subrange(0, i as int)),
                    ..m
                }),
                self@.wf(),
            decreases n - i,
        {
            let ghost next = sessions@.subrange(0, i + 1);
            assert(next.drop_last() =~= sessions@.subrange(0, i as int));
            assert(next.last() == sessions@[i as int]);
            self.last_used.remove(&sessions[i]);
            i = i + 1;
        }
        assert(sessions@.subrange(0, n as int) =~= sessions@);
    }
}

// ---------------------------------------------------------------------------
// Laws
// ---------------------------------------------------------------------------
/// A use opens the bands anew: live for the time to live, refused for the grace
/// window after it, fresh from then on.
pub proof fn law_bands_follow_the_last_use(
    m: SessionsModel,
    now: u64,
    session: SessionKey,
    later: u64,
)
    requires
        m.wf(),
        m.ttl_ms > 0,
        now <= later,
    ensures
        ({
            let band = m.noted(Some(now), session).band(Some(later), session);
            &&& later - now <= m.ttl_ms ==> band == SessionBand::Live
            &&& m.ttl_ms < later - now <= m.ttl_ms + m.grace_ms ==> band == SessionBand::Grace
            &&& m.ttl_ms + m.grace_ms < later - now ==> band == SessionBand::Fresh
        }),
{
    let window = node::max(m.window(), 1);
    lemma_recent(m.used, now, window);
    sorted::lemma_put::<SessionKey, u64>(m.used, session, now);
    sorted::lemma_put::<SessionKey, u64>(recent(m.used, now, window), session, now);
}

/// A use of one session, and the sweep it may cause, leave the band of every
/// other session as it is, now and later.
pub proof fn law_sweep_changes_no_band(
    m: SessionsModel,
    now: u64,
    session: SessionKey,
    other: SessionKey,
    later: u64,
)
    requires
        m.wf(),
        other != session,
        now <= later,
    ensures
        m.noted(Some(now), session).band(Some(later), other) == m.band(Some(later), other),
{
    if m.ttl_ms > 0 {
        let window = node::max(m.window(), 1);
        let swept = if now >= m.next_sweep {
            recent(m.used, now, window)
        } else {
            m.used
        };
        lemma_recent(m.used, now, window);
        lemma_recent_map(m.used, now, window, other);
        sorted::lemma_put::<SessionKey, u64>(swept, session, now);
        assert(m.noted(Some(now), session).table() == sorted::as_map::<SessionKey, u64>(
            swept,
        ).insert(session, now));
    }
}

proof fn lemma_stale(s: Seq<(SessionKey, u64)>, now: u64, window: u64, i: int)
    requires
        0 <= i < stale(s, now, window).len(),
    ensures
        exists|k: int|
            0 <= k < s.len() && (#[trigger] s[k]).0 == stale(s, now, window)[i] && elapsed(
                s[k].1,
                now,
            ) > window,
    decreases s.len(),
{
    if s.len() > 0 {
        let init = s.drop_last();
        let rest = stale(init, now, window);
        if i < rest.len() {
            lemma_stale(init, now, window, i);
            let k = choose|k: int|
                0 <= k < init.len() && (#[trigger] init[k]).0 == rest[i] && elapsed(init[k].1, now)
                    > window;
            assert(s[k] == init[k]);
        } else {
            assert(s[s.len() - 1].0 == stale(s, now, window)[i]);
        }
    }
}

/// Only sessions past the grace window are collected: at the time of the
/// collection, and at any later one, a retry would count as a new session.
pub proof fn law_only_past_grace_is_collected(m: SessionsModel, now: u64, i: int, later: u64)
    requires
        m.wf(),
        m.ttl_ms > 0,
        0 <= i < m.collectable(now).len(),
        now <= later,
    ensures
        m.band(Some(later), m.collectable(now)[i]) == SessionBand::Fresh,
{
    let session = m.collectable(now)[i];
    lemma_stale(m.used, now, m.window(), i);
    assert(stale(m.used, now, m.window())[i] == session);
    let k = choose|k: int|
        0 <= k < m.used.len() && (#[trigger] m.used[k]).0 == session && elapsed(m.used[k].1, now)
            > m.window();
    let j = choose|j: int| 0 <= j < m.used.len() && (#[trigger] m.used[j]).0 == session;
    assert(m.used[k].0 == session);
    sorted::lemma_unique::<SessionKey, u64>(m.used, j, k);
}

} // verus!
