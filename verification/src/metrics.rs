//! The node's gauges and counters, rendered as Prometheus text.
use vstd::prelude::*;
use vstd::string::*;

use crate::text::push_decimal;
use crate::text;

verus! {

/// The node's gauges and counters.
#[derive(Clone, Copy, Debug, PartialEq, Eq)]
pub struct Metrics {
    /// The current term.
    pub term: u64,
    /// The current leader's id; 0 when none is known.
    pub leader_id: u64,
    /// The highest committed log index.
    pub commit_index: u64,
    /// The highest applied log index.
    pub applied_index: u64,
    /// 1 if this node is the leader, else 0.
    pub is_leader: u64,
    /// Outbound messages dropped because the transport failed to send them.
    pub dropped_sends: u64,
    /// Linearizable reads that timed out after their retry.
    pub read_index_timeout_total: u64,
    /// Linearizable reads that wait for confirmation or apply.
    pub read_index_pending: u64,
    /// Bytes the log occupies on disk.
    pub wal_bytes: u64,
    /// Milliseconds the most recent local snapshot took.
    pub snapshot_last_duration_ms: u64,
    /// Bytes of the most recent local snapshot.
    pub snapshot_last_size_bytes: u64,
    /// Snapshots created locally.
    pub snapshots_created_total: u64,
    /// Snapshots received from a leader and installed.
    pub snapshots_installed_total: u64,
    /// Entries committed but not yet applied.
    pub apply_lag: u64,
    /// Bytes committed but not yet applied.
    pub apply_backlog_bytes: u64,
    /// Proposals turned away because the backlog was too deep.
    pub proposal_busy_total: u64,
    /// Local snapshots that exceeded their duration budget.
    pub snapshot_slow_total: u64,
}

/// The registry with everything at zero.
pub open spec fn zero_metrics() -> Metrics {
    Metrics {
        term: 0,
        leader_id: 0,
        commit_index: 0,
        applied_index: 0,
        is_leader: 0,
        dropped_sends: 0,
        read_index_timeout_total: 0,
        read_index_pending: 0,
        wal_bytes: 0,
        snapshot_last_duration_ms: 0,
        snapshot_last_size_bytes: 0,
        snapshots_created_total: 0,
        snapshots_installed_total: 0,
        apply_lag: 0,
        apply_backlog_bytes: 0,
        proposal_busy_total: 0,
        snapshot_slow_total: 0,
    }
}

/// A counter after one more event; it starts over after `u64::MAX`.
pub open spec fn bumped(v: u64) -> u64 {
    if v == u64::MAX {
        0
    } else {
        (v + 1) as u64
    }
}

fn bump(v: u64) -> (r: u64)
    ensures
        r == bumped(v),
{
    if v == u64::MAX {
        0
    } else {
        v + 1
    }
}

/// The text of one sample of the given kind.
pub open spec fn sample_text(kind: Seq<char>, name: Seq<char>, help: Seq<char>, value: u64) -> Seq<
    char,
> {
    "# HELP "@ + name + " "@ + help + "\n"@ + "# TYPE "@ + name + kind + name + " "@
        + text::decimal(value as nat) + "\n"@
}

/// The text of a gauge.
pub open spec fn gauge_text(name: Seq<char>, help: Seq<char>, value: u64) -> Seq<char> {
    sample_text(" gauge\n"@, name, help, value)
}

/// The text of a counter.
pub open spec fn counter_text(name: Seq<char>, help: Seq<char>, value: u64) -> Seq<char> {
    sample_text(" counter\n"@, name, help, value)
}

fn sample(out: &mut String, kind: &str, name: &str, help: &str, value: u64)
    ensures
        final(out)@ == old(out)@ + sample_text(kind@, name@, help@, value),
{
    out.append("# HELP ");
    out.append(name);
    out.append(" ");
    out.append(help);
    out.append("\n");
    out.append("# TYPE ");
    out.append(name);
    out.append(kind);
    out.append(name);
    out.append(" ");
    push_decimal(out, value);
    out.append("\n");
    assert(out@ =~= old(out)@ + sample_text(kind@, name@, help@, value));
}

fn gauge(out: &mut String, name: &str, help: &str, value: u64)
    ensures
        final(out)@ == old(out)@ + gauge_text(name@, help@, value),
{
    sample(out, " gauge\n", name, help, value);
}

fn counter(out: &mut String, name: &str, help: &str, value: u64)
    ensures
        final(out)@ == old(out)@ + counter_text(name@, help@, value),
{
    sample(out, " counter\n", name, help, value);
}

impl Default for Metrics {
    fn default() -> (r: Self)
        ensures
            r == zero_metrics(),
    {
        Metrics {
            term: 0,
            leader_id: 0,
            commit_index: 0,
            applied_index: 0,
            is_leader: 0,
            dropped_sends: 0,
            read_index_timeout_total: 0,
            read_index_pending: 0,
            wal_bytes: 0,
            snapshot_last_duration_ms: 0,
            snapshot_last_size_bytes: 0,
            snapshots_created_total: 0,
            snapshots_installed_total: 0,
            apply_lag: 0,
            apply_backlog_bytes: 0,
            proposal_busy_total: 0,
            snapshot_slow_total: 0,
        }
    }
}

impl Metrics {
    /// A registry with everything at zero.
    pub fn new() -> (r: Self)
        ensures
            r == zero_metrics(),
    {
        Metrics::default()
    }

    /// Record the current term.
    pub fn set_term(&mut self, value: u64)
        ensures
            *final(self) == (Metrics { term: value, ..*old(self) }),
    {
        self.term = value;
    }

    /// Record the current leader's id (0 = unknown).
    pub fn set_leader_id(&mut self, value: u64)
        ensures
            *final(self) == (Metrics { leader_id: value, ..*old(self) }),
    {
        self.leader_id = value;
    }

    /// Record the highest committed log index.
    pub fn set_commit_index(&mut self, value: u64)
        ensures
            *final(self) == (Metrics { commit_index: value, ..*old(self) }),
    {
        self.commit_index = value;
    }

    /// Record the highest applied log index.
    pub fn set_applied_index(&mut self, value: u64)
        ensures
            *final(self) == (Metrics { applied_index: value, ..*old(self) }),
    {
        self.applied_index = value;
    }

    /// Record how many outbound messages were dropped.
    pub fn set_dropped_sends(&mut self, value: u64)
        ensures
            *final(self) == (Metrics { dropped_sends: value, ..*old(self) }),
    {
        self.dropped_sends = value;
    }

    /// Record how many linearizable reads are waiting.
    pub fn set_read_index_pending(&mut self, value: u64)
        ensures
            *final(self) == (Metrics { read_index_pending: value, ..*old(self) }),
    {
        self.read_index_pending = value;
    }

    /// Record the size of the log on disk.
    pub fn set_wal_bytes(&mut self, value: u64)
        ensures
            *final(self) == (Metrics { wal_bytes: value, ..*old(self) }),
    {
        self.wal_bytes = value;
    }

    /// Record whether this node is the leader.
    pub fn set_is_leader(&mut self, value: bool)
        ensures
            *final(self) == (Metrics { is_leader: if value { 1 } else { 0 }, ..*old(self) }),
    {
        self.is_leader = if value {
            1
        } else {
            0
        };
    }

    /// Record how long the most recent local snapshot took, and its size.
    pub fn set_snapshot_last(&mut self, duration_ms: u64, size_bytes: u64)
        ensures
            *final(self) == (Metrics {
                snapshot_last_duration_ms: duration_ms,
                snapshot_last_size_bytes: size_bytes,
                ..*old(self)
            }),
    {
        self.snapshot_last_duration_ms = duration_ms;
        self.snapshot_last_size_bytes = size_bytes;
    }

    /// Record the entries and bytes that are committed but not applied.
    pub fn set_apply_backlog(&mut self, entries: u64, bytes: u64)
        ensures
            *final(self) == (Metrics {
                apply_lag: entries,
                apply_backlog_bytes: bytes,
                ..*old(self)
            }),
    {
        self.apply_lag = entries;
        self.apply_backlog_bytes = bytes;
    }

    /// Count a linearizable read that timed out after its retry.
    pub fn inc_read_index_timeout(&mut self)
        ensures
            *final(self) == (Metrics {
                read_index_timeout_total: bumped(old(self).read_index_timeout_total),
                ..*old(self)
            }),
    {
        self.read_index_timeout_total = bump(self.read_index_timeout_total);
    }

    /// Count a snapshot created locally.
    pub fn inc_snapshots_created(&mut self)
        ensures
            *final(self) == (Metrics {
                snapshots_created_total: bumped(old(self).snapshots_created_total),
                ..*old(self)
            }),
    {
        self.snapshots_created_total = bump(self.snapshots_created_total);
    }

    /// Count a snapshot received from a leader and installed.
    pub fn inc_snapshots_installed(&mut self)
        ensures
            *final(self) == (Metrics {
                snapshots_installed_total: bumped(old(self).snapshots_installed_total),
                ..*old(self)
            }),
    {
        self.snapshots_installed_total = bump(self.snapshots_installed_total);
    }

    /// Count a proposal turned away by a deep backlog.
    pub fn inc_proposal_busy(&mut self)
        ensures
            *final(self) == (Metrics {
                proposal_busy_total: bumped(old(self).proposal_busy_total),
                ..*old(self)
            }),
    {
        self.proposal_busy_total = bump(self.proposal_busy_total);
    }

    /// Count a local snapshot that exceeded its duration budget.
    pub fn inc_snapshot_slow(&mut self)
        ensures
            *final(self) == (Metrics {
                snapshot_slow_total: bumped(old(self).snapshot_slow_total),
                ..*old(self)
            }),
    {
        self.snapshot_slow_total = bump(self.snapshot_slow_total);
    }

    /// Entries committed but not yet applied.
    pub fn apply_lag(&self) -> (r: u64)
        ensures
            r == self.apply_lag,
    {
        self.apply_lag
    }

    /// Bytes committed but not yet applied.
    pub fn apply_backlog_bytes(&self) -> (r: u64)
        ensures
            r == self.apply_backlog_bytes,
    {
        self.apply_backlog_bytes
    }

    /// Proposals turned away by a deep backlog.
    pub fn proposal_busy_total(&self) -> (r: u64)
        ensures
            r == self.proposal_busy_total,
    {
        self.proposal_busy_total
    }

    /// Local snapshots that exceeded their duration budget.
    pub fn snapshot_slow_total(&self) -> (r: u64)
        ensures
            r == self.snapshot_slow_total,
    {
        self.snapshot_slow_total
    }

    /// The size of the log on disk.
    pub fn wal_bytes(&self) -> (r: u64)
        ensures
            r == self.wal_bytes,
    {
        self.wal_bytes
    }

    /// The highest committed log index.
    pub fn commit_index(&self) -> (r: u64)
        ensures
            r == self.commit_index,
    {
        self.commit_index
    }

    /// The highest applied log index.
    pub fn applied_index(&self) -> (r: u64)
        ensures
            r == self.applied_index,
    {
        self.applied_index
    }

    /// Snapshots created locally.
    pub fn snapshots_created_total(&self) -> (r: u64)
        ensures
            r == self.snapshots_created_total,
    {
        self.snapshots_created_total
    }

    /// Snapshots received from a leader and installed.
    pub fn snapshots_installed_total(&self) -> (r: u64)
        ensures
            r == self.snapshots_installed_total,
    {
        self.snapshots_installed_total
    }

    /// Milliseconds the most recent local snapshot took.
    pub fn snapshot_last_duration_ms(&self) -> (r: u64)
        ensures
            r == self.snapshot_last_duration_ms,
    {
        self.snapshot_last_duration_ms
    }

    /// Bytes of the most recent local snapshot.
    pub fn snapshot_last_size_bytes(&self) -> (r: u64)
        ensures
            r == self.snapshot_last_size_bytes,
    {
        self.snapshot_last_size_bytes
    }

    /// The current leader's id (0 = unknown).
    pub fn leader_id(&self) -> (r: u64)
        ensures
            r == self.leader_id,
    {
        self.leader_id
    }

    /// Outbound messages dropped by a failed send.
    pub fn dropped_sends(&self) -> (r: u64)
        ensures
            r == self.dropped_sends,
    {
        self.dropped_sends
    }

    /// Whether this node believes it is the leader.
    pub fn is_leader(&self) -> (r: bool)
        ensures
            r == (self.is_leader == 1),
    {
        self.is_leader == 1
    }

    /// Whether a leader is known, so that the node can serve or redirect.
    pub fn is_ready(&self) -> (r: bool)
        ensures
            r == (self.leader_id != 0),
    {
        self.leader_id != 0
    }

    /// What [`Metrics::render`] returns: every sample in order.
    pub open spec fn rendered(self) -> Seq<char> {
        Seq::<char>::empty()
            + gauge_text(
            "arachne_term"@,
            "Current raft term."@,
            self.term,
        )
            + gauge_text(
            "arachne_leader_id"@,
            "Current leader raft id (0 = unknown)."@,
            self.leader_id,
        )
            + gauge_text(
            "arachne_commit_index"@,
            "Highest committed log index."@,
            self.commit_index,
        )
            + gauge_text(
            "arachne_applied_index"@,
            "Highest applied log index."@,
            self.applied_index,
        )
            + gauge_text(
            "arachne_is_leader"@,
            "1 if this node is the leader, else 0."@,
            self.is_leader,
        )
            + gauge_text(
            "arachne_dropped_sends"@,
            "Outbound raft messages dropped due to a failed transport send."@,
            self.dropped_sends,
        )
            + counter_text(
            "arachne_read_index_timeout_total"@,
            "ReadIndex reads that timed out after one retry."@,
            self.read_index_timeout_total,
        )
            + gauge_text(
            "arachne_read_index_pending"@,
            "ReadIndex reads currently pending confirmation or apply."@,
            self.read_index_pending,
        )
            + gauge_text(
            "arachne_wal_bytes"@,
            "Bytes the durable WAL occupies on disk."@,
            self.wal_bytes,
        )
            + gauge_text(
            "arachne_snapshot_last_duration_ms"@,
            "Wall-clock milliseconds the most recent local snapshot took."@,
            self.snapshot_last_duration_ms,
        )
            + gauge_text(
            "arachne_snapshot_last_size_bytes"@,
            "Size in bytes of the most recent locally created snapshot."@,
            self.snapshot_last_size_bytes,
        )
            + counter_text(
            "arachne_snapshots_created_total"@,
            "Snapshots created locally."@,
            self.snapshots_created_total,
        )
            + counter_text(
            "arachne_snapshots_installed_total"@,
            "Snapshots received from a leader and installed."@,
            self.snapshots_installed_total,
        )
            + gauge_text(
            "arachne_apply_lag"@,
            "Entries committed but not yet applied to the state machine."@,
            self.apply_lag,
        )
            + gauge_text(
            "arachne_apply_backlog_bytes"@,
            "Bytes committed but not yet applied (the proposal backpressure signal)."@,
            self.apply_backlog_bytes,
        )
            + counter_text(
            "arachne_proposal_busy_total"@,
            "Proposals rejected with Busy because the apply backlog was too deep."@,
            self.proposal_busy_total,
        )
            + counter_text(
            "arachne_snapshot_slow_total"@,
            "Local snapshots that exceeded the 1s budget (they block apply)."@,
            self.snapshot_slow_total,
        )
    }

    /// Every sample in the Prometheus text exposition format.
    pub fn render(&self) -> (s: String)
        ensures
            s@ == self.rendered(),
    {
        let mut out = String::new();
        assert(out@ =~= Seq::<char>::empty());
        gauge(
            &mut out,
            "arachne_term",
            "Current raft term.",
            self.term,
        );
        gauge(
            &mut out,
            "arachne_leader_id",
            "Current leader raft id (0 = unknown).",
            self.leader_id,
        );
        gauge(
            &mut out,
            "arachne_commit_index",
            "Highest committed log index.",
            self.commit_index,
        );
        gauge(
            &mut out,
            "arachne_applied_index",
            "Highest applied log index.",
            self.applied_index,
        );
        gauge(
            &mut out,
            "arachne_is_leader",
            "1 if this node is the leader, else 0.",
            self.is_leader,
        );
        gauge(
            &mut out,
            "arachne_dropped_sends",
            "Outbound raft messages dropped due to a failed transport send.",
            self.dropped_sends,
        );
        counter(
            &mut out,
            "arachne_read_index_timeout_total",
            "ReadIndex reads that timed out after one retry.",
            self.read_index_timeout_total,
        );
        gauge(
            &mut out,
            "arachne_read_index_pending",
            "ReadIndex reads currently pending confirmation or apply.",
            self.read_index_pending,
        );
        gauge(
            &mut out,
            "arachne_wal_bytes",
            "Bytes the durable WAL occupies on disk.",
            self.wal_bytes,
        );
        gauge(
            &mut out,
            "arachne_snapshot_last_duration_ms",
            "Wall-clock milliseconds the most recent local snapshot took.",
            self.snapshot_last_duration_ms,
        );
        gauge(
            &mut out,
            "arachne_snapshot_last_size_bytes",
            "Size in bytes of the most recent locally created snapshot.",
            self.snapshot_last_size_bytes,
        );
        counter(
            &mut out,
            "arachne_snapshots_created_total",
            "Snapshots created locally.",
            self.snapshots_created_total,
        );
        counter(
            &mut out,
            "arachne_snapshots_installed_total",
            "Snapshots received from a leader and installed.",
            self.snapshots_installed_total,
        );
        gauge(
            &mut out,
            "arachne_apply_lag",
            "Entries committed but not yet applied to the state machine.",
            self.apply_lag,
        );
        gauge(
            &mut out,
            "arachne_apply_backlog_bytes",
            "Bytes committed but not yet applied (the proposal backpressure signal).",
            self.apply_backlog_bytes,
        );
        counter(
            &mut out,
            "arachne_proposal_busy_total",
            "Proposals rejected with Busy because the apply backlog was too deep.",
            self.proposal_busy_total,
        );
        counter(
            &mut out,
            "arachne_snapshot_slow_total",
            "Local snapshots that exceeded the 1s budget (they block apply).",
            self.snapshot_slow_total,
        );
        out
    }
}

// ---------------------------------------------------------------------------
// Laws
// ---------------------------------------------------------------------------
/// What a sample is.
pub enum SampleKind {
    Gauge,
    Counter,
}

/// One sample of the registry.
#[verifier::ext_equal]
pub struct Sample {
    pub kind: SampleKind,
    pub name: Seq<char>,
    pub help: Seq<char>,
    pub value: u64,
}

impl Sample {
    /// The lines of a sample.
    pub open spec fn text(self) -> Seq<char> {
        match self.kind {
            SampleKind::Gauge => gauge_text(self.name, self.help, self.value),
            SampleKind::Counter => counter_text(self.name, self.help, self.value),
        }
    }
}

/// The lines of samples, one after the other.
pub open spec fn sample_lines(samples: Seq<Sample>) -> Seq<char>
    decreases samples.len(),
{
    if samples.len() == 0 {
        Seq::empty()
    } else {
        sample_lines(samples.drop_last()) + samples.last().text()
    }
}

/// The samples of the registry, in order.
pub open spec fn samples(m: Metrics) -> Seq<Sample> {
    seq![
        Sample {
            kind: SampleKind::Gauge,
            name: "arachne_term"@,
            help: "Current raft term."@,
            value: m.term,
        },
        Sample {
            kind: SampleKind::Gauge,
            name: "arachne_leader_id"@,
            help: "Current leader raft id (0 = unknown)."@,
            value: m.leader_id,
        },
        Sample {
            kind: SampleKind::Gauge,
            name: "arachne_commit_index"@,
            help: "Highest committed log index."@,
            value: m.commit_index,
        },
        Sample {
            kind: SampleKind::Gauge,
            name: "arachne_applied_index"@,
            help: "Highest applied log index."@,
            value: m.applied_index,
        },
        Sample {
            kind: SampleKind::Gauge,
            name: "arachne_is_leader"@,
            help: "1 if this node is the leader, else 0."@,
            value: m.is_leader,
        },
        Sample {
            kind: SampleKind::Gauge,
            name: "arachne_dropped_sends"@,
            help: "Outbound raft messages dropped due to a failed transport send."@,
            value: m.dropped_sends,
        },
        Sample {
            kind: SampleKind::Counter,
            name: "arachne_read_index_timeout_total"@,
            help: "ReadIndex reads that timed out after one retry."@,
            value: m.read_index_timeout_total,
        },
        Sample {
            kind: SampleKind::Gauge,
            name: "arachne_read_index_pending"@,
            help: "ReadIndex reads currently pending confirmation or apply."@,
            value: m.read_index_pending,
        },
        Sample {
            kind: SampleKind::Gauge,
            name: "arachne_wal_bytes"@,
            help: "Bytes the durable WAL occupies on disk."@,
            value: m.wal_bytes,
        },
        Sample {
            kind: SampleKind::Gauge,
            name: "arachne_snapshot_last_duration_ms"@,
            help: "Wall-clock milliseconds the most recent local snapshot took."@,
            value: m.snapshot_last_duration_ms,
        },
        Sample {
            kind: SampleKind::Gauge,
            name: "arachne_snapshot_last_size_bytes"@,
            help: "Size in bytes of the most recent locally created snapshot."@,
            value: m.snapshot_last_size_bytes,
        },
        Sample {
            kind: SampleKind::Counter,
            name: "arachne_snapshots_created_total"@,
            help: "Snapshots created locally."@,
            value: m.snapshots_created_total,
        },
        Sample {
            kind: SampleKind::Counter,
            name: "arachne_snapshots_installed_total"@,
            help: "Snapshots received from a leader and installed."@,
            value: m.snapshots_installed_total,
        },
        Sample {
            kind: SampleKind::Gauge,
            name: "arachne_apply_lag"@,
            help: "Entries committed but not yet applied to the state machine."@,
            value: m.apply_lag,
        },
        Sample {
            kind: SampleKind::Gauge,
            name: "arachne_apply_backlog_bytes"@,
            help: "Bytes committed but not yet applied (the proposal backpressure signal)."@,
            value: m.apply_backlog_bytes,
        },
        Sample {
            kind: SampleKind::Counter,
            name: "arachne_proposal_busy_total"@,
            help: "Proposals rejected with Busy because the apply backlog was too deep."@,
            value: m.proposal_busy_total,
        },
        Sample {
            kind: SampleKind::Counter,
            name: "arachne_snapshot_slow_total"@,
            help: "Local snapshots that exceeded the 1s budget (they block apply)."@,
            value: m.snapshot_slow_total,
        },
    ]
}

/// The place of the sample with a given name.
pub open spec fn place(name: Seq<char>) -> int {
    let n = name.len();
    let c = name[8];
    if n == 12 {
        0
    } else if n == 17 && c == 'l' {
        1
    } else if n == 20 && c == 'c' {
        2
    } else if n == 21 && c == 'a' {
        3
    } else if n == 17 && c == 'i' {
        4
    } else if n == 21 && c == 'd' {
        5
    } else if n == 32 && c == 'r' {
        6
    } else if n == 26 && c == 'r' {
        7
    } else if n == 17 && c == 'w' {
        8
    } else if n == 33 && c == 's' && name[32] == 's' {
        9
    } else if n == 32 && c == 's' {
        10
    } else if n == 31 && c == 's' {
        11
    } else if n == 33 && c == 's' && name[32] == 'l' {
        12
    } else if n == 17 && c == 'a' {
        13
    } else if n == 27 && c == 'a' {
        14
    } else if n == 27 && c == 'p' {
        15
    } else if n == 27 && c == 's' {
        16
    } else {
        -1
    }
}

/// Whether a name ends as counters' names do.
pub open spec fn is_total(name: Seq<char>) -> bool {
    name.len() >= 6 && name.subrange(name.len() - 6, name.len() as int) == "_total"@
}

/// The registry is rendered as its samples, each once: their names are distinct,
/// and the counters are those whose names say that they are totals.
pub proof fn law_each_sample_is_rendered_once(m: Metrics)
    ensures
        m.rendered() == sample_lines(samples(m)),
        samples(m).len() == 17,
        forall|i: int, j: int|
            0 <= i < j < 17 ==> (#[trigger] samples(m)[i]).name != (#[trigger] samples(m)[j]).name,
        forall|i: int|
            0 <= i < 17 ==> ((#[trigger] samples(m)[i]).kind is Counter <==> is_total(
                samples(m)[i].name,
            )),
{
    let s = samples(m);
    lemma_samples_in_order(m);
    assert forall|i: int, j: int| 0 <= i < j < 17 implies (#[trigger] s[i]).name != (
    #[trigger] s[j]).name by {
        lemma_place(m, i);
        lemma_place(m, j);
    }
    assert forall|i: int| 0 <= i < 17 implies ((#[trigger] s[i]).kind is Counter <==> is_total(
        s[i].name,
    )) by {
        lemma_kind(m, i);
    }
}

proof fn lemma_kind(m: Metrics, i: int)
    requires
        0 <= i < 17,
    ensures
        samples(m)[i].kind is Counter <==> is_total(samples(m)[i].name),
{
    let s = samples(m);
    reveal_strlit("_total");
    if i == 0 {
        reveal_strlit("arachne_term");
        assert(s[i].name.subrange(6, 12)[0] != "_total"@[0]);
    } else if i == 1 {
        reveal_strlit("arachne_leader_id");
        assert(s[i].name.subrange(11, 17)[0] != "_total"@[0]);
    } else if i == 2 {
        reveal_strlit("arachne_commit_index");
        assert(s[i].name.subrange(14, 20)[1] != "_total"@[1]);
    } else if i == 3 {
        reveal_strlit("arachne_applied_index");
        assert(s[i].name.subrange(15, 21)[1] != "_total"@[1]);
    } else if i == 4 {
        reveal_strlit("arachne_is_leader");
        assert(s[i].name.subrange(11, 17)[0] != "_total"@[0]);
    } else if i == 5 {
        reveal_strlit("arachne_dropped_sends");
        assert(s[i].name.subrange(15, 21)[1] != "_total"@[1]);
    } else if i == 6 {
        reveal_strlit("arachne_read_index_timeout_total");
        assert(s[i].name.subrange(26, 32) =~= "_total"@);
    } else if i == 7 {
        reveal_strlit("arachne_read_index_pending");
        assert(s[i].name.subrange(20, 26)[0] != "_total"@[0]);
    } else if i == 8 {
        reveal_strlit("arachne_wal_bytes");
        assert(s[i].name.subrange(11, 17)[1] != "_total"@[1]);
    } else if i == 9 {
        reveal_strlit("arachne_snapshot_last_duration_ms");
        assert(s[i].name.subrange(27, 33)[0] != "_total"@[0]);
    } else if i == 10 {
        reveal_strlit("arachne_snapshot_last_size_bytes");
        assert(s[i].name.subrange(26, 32)[1] != "_total"@[1]);
    } else if i == 11 {
        reveal_strlit("arachne_snapshots_created_total");
        assert(s[i].name.subrange(25, 31) =~= "_total"@);
    } else if i == 12 {
        reveal_strlit("arachne_snapshots_installed_total");
        assert(s[i].name.subrange(27, 33) =~= "_total"@);
    } else if i == 13 {
        reveal_strlit("arachne_apply_lag");
        assert(s[i].name.subrange(11, 17)[0] != "_total"@[0]);
    } else if i == 14 {
        reveal_strlit("arachne_apply_backlog_bytes");
        assert(s[i].name.subrange(21, 27)[1] != "_total"@[1]);
    } else if i == 15 {
        reveal_strlit("arachne_proposal_busy_total");
        assert(s[i].name.subrange(21, 27) =~= "_total"@);
    } else if i == 16 {
        reveal_strlit("arachne_snapshot_slow_total");
        assert(s[i].name.subrange(21, 27) =~= "_total"@);
    }
}

proof fn lemma_place(m: Metrics, i: int)
    requires
        0 <= i < 17,
    ensures
        place(samples(m)[i].name) == i,
{
    let s = samples(m);
    reveal_strlit("arachne_term");
    reveal_strlit("arachne_leader_id");
    reveal_strlit("arachne_commit_index");
    reveal_strlit("arachne_applied_index");
    reveal_strlit("arachne_is_leader");
    reveal_strlit("arachne_dropped_sends");
    reveal_strlit("arachne_read_index_timeout_total");
    reveal_strlit("arachne_read_index_pending");
    reveal_strlit("arachne_wal_bytes");
    reveal_strlit("arachne_snapshot_last_duration_ms");
    reveal_strlit("arachne_snapshot_last_size_bytes");
    reveal_strlit("arachne_snapshots_created_total");
    reveal_strlit("arachne_snapshots_installed_total");
    reveal_strlit("arachne_apply_lag");
    reveal_strlit("arachne_apply_backlog_bytes");
    reveal_strlit("arachne_proposal_busy_total");
    reveal_strlit("arachne_snapshot_slow_total");
    assert(place(s[0].name) == 0);
    assert(place(s[1].name) == 1);
    assert(place(s[2].name) == 2);
    assert(place(s[3].name) == 3);
    assert(place(s[4].name) == 4);
    assert(place(s[5].name) == 5);
    assert(place(s[6].name) == 6);
    assert(place(s[7].name) == 7);
    assert(place(s[8].name) == 8);
    assert(place(s[9].name) == 9);
    assert(place(s[10].name) == 10);
    assert(place(s[11].name) == 11);
    assert(place(s[12].name) == 12);
    assert(place(s[13].name) == 13);
    assert(place(s[14].name) == 14);
    assert(place(s[15].name) == 15);
    assert(place(s[16].name) == 16);
}

proof fn lemma_samples_in_order(m: Metrics)
    ensures
        m.rendered() == sample_lines(samples(m)),
{
    let s = samples(m);
    assert(s.subrange(0, 17) =~= s);
    assert(s.subrange(0, 0) =~= Seq::empty());
    lemma_lines_step(s, 0);
    lemma_lines_step(s, 1);
    lemma_lines_step(s, 2);
    lemma_lines_step(s, 3);
    lemma_lines_step(s, 4);
    lemma_lines_step(s, 5);
    lemma_lines_step(s, 6);
    lemma_lines_step(s, 7);
    lemma_lines_step(s, 8);
    lemma_lines_step(s, 9);
    lemma_lines_step(s, 10);
    lemma_lines_step(s, 11);
    lemma_lines_step(s, 12);
    lemma_lines_step(s, 13);
    lemma_lines_step(s, 14);
    lemma_lines_step(s, 15);
    lemma_lines_step(s, 16);
}

proof fn lemma_lines_step(s: Seq<Sample>, j: int)
    requires
        0 <= j < s.len(),
    ensures
        sample_lines(s.subrange(0, j + 1)) == sample_lines(s.subrange(0, j)) + s[j].text(),
{
    assert(s.subrange(0, j + 1).drop_last() =~= s.subrange(0, j));
}

/// Every number is shown under its own name.
pub proof fn law_every_number_is_shown_under_its_name(m: Metrics)
    ensures
        samples(m).len() == 17,
        samples(m)[0].name == "arachne_term"@ && samples(m)[0].value == m.term,
        samples(m)[1].name == "arachne_leader_id"@ && samples(m)[1].value == m.leader_id,
        samples(m)[2].name == "arachne_commit_index"@ && samples(m)[2].value == m.commit_index,
        samples(m)[3].name == "arachne_applied_index"@ && samples(m)[3].value == m.applied_index,
        samples(m)[4].name == "arachne_is_leader"@ && samples(m)[4].value == m.is_leader,
        samples(m)[5].name == "arachne_dropped_sends"@ && samples(m)[5].value == m.dropped_sends,
        samples(m)[6].name == "arachne_read_index_timeout_total"@ && samples(m)[6].value == m.read_index_timeout_total,
        samples(m)[7].name == "arachne_read_index_pending"@ && samples(m)[7].value == m.read_index_pending,
        samples(m)[8].name == "arachne_wal_bytes"@ && samples(m)[8].value == m.wal_bytes,
        samples(m)[9].name == "arachne_snapshot_last_duration_ms"@ && samples(m)[9].value == m.snapshot_last_duration_ms,
        samples(m)[10].name == "arachne_snapshot_last_size_bytes"@ && samples(m)[10].value == m.snapshot_last_size_bytes,
        samples(m)[11].name == "arachne_snapshots_created_total"@ && samples(m)[11].value == m.snapshots_created_total,
        samples(m)[12].name == "arachne_snapshots_installed_total"@ && samples(m)[12].value == m.snapshots_installed_total,
        samples(m)[13].name == "arachne_apply_lag"@ && samples(m)[13].value == m.apply_lag,
        samples(m)[14].name == "arachne_apply_backlog_bytes"@ && samples(m)[14].value == m.apply_backlog_bytes,
        samples(m)[15].name == "arachne_proposal_busy_total"@ && samples(m)[15].value == m.proposal_busy_total,
        samples(m)[16].name == "arachne_snapshot_slow_total"@ && samples(m)[16].value == m.snapshot_slow_total,
{
}

/// A sample is three lines: what it means, what kind it is, and its value in digits.
pub proof fn law_sample_is_three_lines(name: Seq<char>, help: Seq<char>, value: u64)
    ensures
        gauge_text(name, help, value) == "# HELP "@ + name + " "@ + help + "\n"@ + "# TYPE "@ + name
            + " gauge\n"@ + name + " "@ + text::decimal(value as nat) + "\n"@,
        counter_text(name, help, value) == "# HELP "@ + name + " "@ + help + "\n"@ + "# TYPE "@
            + name + " counter\n"@ + name + " "@ + text::decimal(value as nat) + "\n"@,
{
}

/// A counter counts by one, and starts over only after the largest number there is; a
/// new registry has counted nothing.
pub proof fn law_counters_count_by_one(v: u64)
    ensures
        v < u64::MAX ==> bumped(v) == v + 1,
        bumped(u64::MAX) == 0,
        forall|i: int| 0 <= i < 17 ==> (#[trigger] samples(zero_metrics())[i]).value == 0,
{
}

} // verus!
