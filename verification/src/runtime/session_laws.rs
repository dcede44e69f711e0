//! How long a session lives, to the millisecond, and what is collected.
use vstd::prelude::*;

use crate::runtime::session::{SessionBand, SessionsModel};
use crate::state_machine::sorted::SessionKey;
use crate::consensus::node;
use crate::runtime::request_laws;
use crate::runtime::session;
use crate::state_machine::sorted;

verus! {

/// How long ago a moment was; nothing where it is still to come.
pub open spec fn age(last: u64, now: u64) -> int {
    if last <= now {
        now - last
    } else {
        0
    }
}

/// Whether a use lies beyond the time to live and the grace window together.
pub open spec fn outlived(m: SessionsModel, last: u64, now: u64) -> bool {
    m.ttl_ms + m.grace_ms < age(last, now)
}

/// Without a clock, or without a time to live, every session is live and nothing is
/// noted. Otherwise a session that was never used is fresh; one that was is live for
/// the time to live, in the grace window for as long as that lasts, and fresh again
/// after it.
pub proof fn law_band_goes_by_age(m: SessionsModel, now: u64, session: SessionKey)
    ensures
        m.band(None, session) == SessionBand::Live,
        m.ttl_ms == 0 ==> m.band(Some(now), session) == SessionBand::Live,
        m.ttl_ms > 0 && !m.table().dom().contains(session) ==> m.band(Some(now), session)
            == SessionBand::Fresh,
        m.ttl_ms > 0 && m.table().dom().contains(session) ==> {
            let band = m.band(Some(now), session);
            let old = age(m.table()[session], now);
            &&& band == SessionBand::Live <==> old <= m.ttl_ms
            &&& band == SessionBand::Grace <==> m.ttl_ms < old <= m.ttl_ms + m.grace_ms
            &&& band == SessionBand::Fresh <==> old > m.ttl_ms + m.grace_ms
        },
{
}

/// A use is noted at its moment. Between sweeps nothing else changes in the table; at a
/// sweep only sessions that have outlived everything go, and the next sweep is at least
/// a whole window later. Without a clock or a time to live nothing is noted.
pub proof fn law_use_is_noted_at_its_moment(
    m: SessionsModel,
    now: u64,
    session: SessionKey,
    other: SessionKey,
)
    requires
        m.wf(),
    ensures
        m.noted(None, session) == m,
        m.ttl_ms == 0 ==> m.noted(Some(now), session) == m,
        m.ttl_ms > 0 ==> {
            let n = m.noted(Some(now), session);
            &&& n.wf()
            &&& n.table().dom().contains(session) && n.table()[session] == now
            &&& now < m.next_sweep ==> n.table() == m.table().insert(session, now)
                && n.next_sweep == m.next_sweep
            &&& other != session && n.table().dom().contains(other) ==> m.table().dom().contains(
                other,
            ) && n.table()[other] == m.table()[other]
            &&& other != session && m.table().dom().contains(other) && !n.table().dom().contains(
                other,
            ) ==> outlived(m, m.table()[other], now)
            &&& now >= m.next_sweep && m.ttl_ms + m.grace_ms <= u64::MAX ==> request_laws::is_due(
                n.next_sweep,
                now,
                (m.ttl_ms + m.grace_ms) as u64,
            )
            &&& n == (SessionsModel { used: n.used, next_sweep: n.next_sweep, ..m })
        },
{
    if m.ttl_ms > 0 {
        let window = node::max(m.window(), 1);
        let kept = session::recent(m.used, now, window);
        session::lemma_recent(m.used, now, window);
        session::lemma_recent_map(m.used, now, window, other);
        sorted::lemma_put::<SessionKey, u64>(m.used, session, now);
        sorted::lemma_put::<SessionKey, u64>(kept, session, now);
    }
}

proof fn lemma_stale_filter(s: Seq<(SessionKey, u64)>, now: u64, window: u64)
    ensures
        session::stale(s, now, window) == s.filter(
            |x: (SessionKey, u64)| age(x.1, now) > window,
        ).map_values(|x: (SessionKey, u64)| x.0),
    decreases s.len(),
{
    reveal(Seq::filter);
    if s.len() > 0 {
        lemma_stale_filter(s.drop_last(), now, window);
    }
}

/// A collection names, in order, the sessions that have outlived everything, a thousand
/// at most.
pub proof fn law_outlived_sessions_are_collected(m: SessionsModel, now: u64)
    requires
        m.ttl_ms + m.grace_ms <= u64::MAX,
    ensures
        ({
            let all = m.used.filter(
                |x: (SessionKey, u64)| age(x.1, now) > m.ttl_ms + m.grace_ms,
            ).map_values(|x: (SessionKey, u64)| x.0);
            &&& all.len() <= 1_000 ==> m.collectable(now) == all
            &&& all.len() > 1_000 ==> m.collectable(now) == all.subrange(0, 1_000)
        }),
{
    let window = m.window();
    lemma_stale_filter(m.used, now, window);
    let a = |x: (SessionKey, u64)| age(x.1, now) > window;
    let b = |x: (SessionKey, u64)| age(x.1, now) > m.ttl_ms + m.grace_ms;
    assert(a =~= b);
}

/// A collection is due only for a leader with a clock and a time to live, once the time
/// for it has come; the next is then a time to live later. Otherwise nothing changes.
pub proof fn law_collections_are_a_life_apart(m: SessionsModel, clock: Option<u64>, leader: bool)
    ensures
        m.collection_due(clock, leader) <==> leader && m.ttl_ms > 0 && clock is Some && m.next_gc
            <= clock->0,
        !m.collection_due(clock, leader) ==> m.considered(clock, leader) == m,
        m.collection_due(clock, leader) ==> request_laws::is_due(
            m.considered(clock, leader).next_gc,
            clock->0,
            m.ttl_ms,
        ) && m.considered(clock, leader) == (SessionsModel {
            next_gc: m.considered(clock, leader).next_gc,
            ..m
        }),
{
}

/// Sessions that are forgotten are gone from the table, and no others.
pub proof fn law_forgotten_sessions_are_gone(
    s: Seq<(SessionKey, u64)>,
    gone: Seq<SessionKey>,
    session: SessionKey,
)
    requires
        sorted::keys_ascend::<SessionKey, u64>(s),
    ensures
        ({
            let before = sorted::as_map::<SessionKey, u64>(s);
            let left = sorted::as_map::<SessionKey, u64>(session::forgotten(s, gone));
            &&& sorted::keys_ascend::<SessionKey, u64>(session::forgotten(s, gone))
            &&& left.dom().contains(session) <==> before.dom().contains(session) && !gone.contains(
                session,
            )
            &&& left.dom().contains(session) ==> left[session] == before[session]
        }),
    decreases gone.len(),
{
    if gone.len() > 0 {
        let init = gone.drop_last();
        law_forgotten_sessions_are_gone(s, init, session);
        sorted::lemma_take_out::<SessionKey, u64>(session::forgotten(s, init), gone.last());
        assert(gone =~= init.push(gone.last()));
        if gone.contains(session) && session != gone.last() {
            let k = choose|k: int| 0 <= k < gone.len() && gone[k] == session;
            assert(init[k] == session);
        }
        if init.contains(session) {
            let k = choose|k: int| 0 <= k < init.len() && init[k] == session;
            assert(gone[k] == session);
        }
        assert(gone[gone.len() - 1] == gone.last());
    }
}

} // verus!
