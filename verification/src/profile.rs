//! Named tuning presets and the check that a tuning is sound.
use vstd::prelude::*;
use vstd::string::*;

use crate::storage::wal_model::FsyncPolicy;
use crate::text::{push_decimal, same_text};
use crate::text;

verus! {

/// A named tuning preset.
#[derive(Clone, Copy, Debug, PartialEq, Eq, Structural)]
pub enum Profile {
    /// A low-latency local network.
    Lan,
    /// A wide-area network.
    Wan,
}

/// Every tuning knob of a node. A deployment starts from a preset, overrides
/// what it wants and calls [`ProfileConfig::validate`] once.
#[derive(Clone, Copy, Debug, PartialEq, Eq)]
pub struct ProfileConfig {
    /// Milliseconds between a leader's heartbeats.
    pub heartbeat_interval_ms: u64,
    /// Milliseconds without a leader after which an election starts.
    pub election_timeout_ms: u64,
    /// Milliseconds an outbound call may take.
    pub rpc_timeout_ms: u64,
    /// Bytes in flight to one follower.
    pub max_inflight_bytes: u64,
    /// Messages in flight to one follower.
    pub max_inflight_msgs: u64,
    /// Log growth that triggers a snapshot and compaction.
    pub snapshot_threshold_bytes: u64,
    /// Log bytes kept after compaction for slow followers.
    pub wal_trailing_keep_bytes: u64,
    /// Size of a log segment before the next one is started.
    pub wal_segment_bytes: u64,
    /// Milliseconds a linearizable read waits; twice the election timeout.
    pub read_index_timeout_ms: u64,
    /// Committed bytes that may wait to be applied before proposals are turned
    /// away.
    pub proposal_queue_bytes: u64,
    /// Milliseconds a session lives after its last use.
    pub session_ttl_ms: u64,
    /// Milliseconds after its end in which a session's retry is refused.
    pub session_grace_period_ms: u64,
    /// Sessions that may exist at once.
    pub max_sessions: u64,
    /// Bytes of a value.
    pub max_value_bytes: u64,
    /// Bytes of a key.
    pub max_key_bytes: u64,
    /// Bytes per second of a snapshot transfer.
    pub snapshot_transfer_rate_bps: u64,
    /// When appended entries are synced.
    pub fsync_policy: FsyncPolicy,
}

/// Errors from naming a profile or validating a tuning.
#[derive(Debug, PartialEq, Eq)]
pub enum ProfileError {
    /// The name is not one of a profile.
    UnknownProfile {
        /// The name, trimmed and in lower case.
        value: String,
    },
    /// The heartbeat interval must be positive.
    HeartbeatNotPositive,
    /// The election timeout must be at least five heartbeats.
    ElectionTooShort { heartbeat: u64, election: u64 },
    /// The call timeout must be positive.
    RpcNotPositive,
    /// The call timeout must be shorter than the election timeout.
    RpcTooLong { rpc: u64, election: u64 },
}

impl ProfileError {
    /// The text of [`ProfileError::message`].
    pub open spec fn text(self) -> Seq<char> {
        match self {
            ProfileError::UnknownProfile { value } => "unknown profile `"@ + value@
                + "` (expected `lan` or `wan`)"@,
            ProfileError::HeartbeatNotPositive => "heartbeat_interval_ms must be > 0"@,
            ProfileError::ElectionTooShort { heartbeat, election } => "election_timeout_ms ("@
                + text::decimal(election as nat) + ") must be >= 5 * heartbeat_interval_ms ("@
                + text::decimal(heartbeat as nat) + ")"@,
            ProfileError::RpcNotPositive => "rpc_timeout_ms must be > 0"@,
            ProfileError::RpcTooLong { rpc, election } => "rpc_timeout_ms ("@ + text::decimal(
                rpc as nat,
            ) + ") must be < election_timeout_ms ("@ + text::decimal(election as nat) + ")"@,
        }
    }

    /// A description of the error.
    pub fn message(&self) -> (s: String)
        ensures
            s@ == self.text(),
    {
        let mut s = String::new();
        match self {
            ProfileError::UnknownProfile { value } => {
                s.append("unknown profile `");
                s.append(value.as_str());
                s.append("` (expected `lan` or `wan`)");
            },
            ProfileError::HeartbeatNotPositive => s.append("heartbeat_interval_ms must be > 0"),
            ProfileError::ElectionTooShort { heartbeat, election } => {
                s.append("election_timeout_ms (");
                push_decimal(&mut s, *election);
                s.append(") must be >= 5 * heartbeat_interval_ms (");
                push_decimal(&mut s, *heartbeat);
                s.append(")");
            },
            ProfileError::RpcNotPositive => s.append("rpc_timeout_ms must be > 0"),
            ProfileError::RpcTooLong { rpc, election } => {
                s.append("rpc_timeout_ms (");
                push_decimal(&mut s, *rpc);
                s.append(") must be < election_timeout_ms (");
                push_decimal(&mut s, *election);
                s.append(")");
            },
        }
        assert(s@ =~= self.text());
        s
    }
}

/// Whether a character has the Unicode property White_Space.
pub open spec fn is_white_space(c: char) -> bool {
    let n = c as u32;
    ||| 0x09 <= n <= 0x0d
    ||| n == 0x20
    ||| n == 0x85
    ||| n == 0xa0
    ||| n == 0x1680
    ||| 0x2000 <= n <= 0x200a
    ||| n == 0x2028
    ||| n == 0x2029
    ||| n == 0x202f
    ||| n == 0x205f
    ||| n == 0x3000
}

fn white_space(c: char) -> (r: bool)
    ensures
        r == is_white_space(c),
{
    let n: u32 = c as u32;
    (0x09 <= n && n <= 0x0d) || n == 0x20 || n == 0x85 || n == 0xa0 || n == 0x1680 || (0x2000 <= n
        && n <= 0x200a) || n == 0x2028 || n == 0x2029 || n == 0x202f || n == 0x205f || n == 0x3000
}

/// A text without the white space in front of it.
pub open spec fn trimmed_start(s: Seq<char>) -> Seq<char>
    decreases s.len(),
{
    if s.len() > 0 && is_white_space(s[0]) {
        trimmed_start(s.drop_first())
    } else {
        s
    }
}

/// A text without the white space behind it.
pub open spec fn trimmed_end(s: Seq<char>) -> Seq<char>
    decreases s.len(),
{
    if s.len() > 0 && is_white_space(s.last()) {
        trimmed_end(s.drop_last())
    } else {
        s
    }
}

fn trim(s: &str) -> (r: &str)
    ensures
        r@ == trimmed_end(trimmed_start(s@)),
{
    let n: usize = s.unicode_len();
    let mut from: usize = 0;
    assert(s@.subrange(0, n as int) =~= s@);
    while from < n && white_space(s.get_char(from))
        invariant
            from <= n,
            n == s@.len(),
            trimmed_start(s@) == trimmed_start(s@.subrange(from as int, n as int)),
        decreases n - from,
    {
        assert(s@.subrange(from as int, n as int).drop_first() =~= s@.subrange(
            from + 1,
            n as int,
        ));
        from = from + 1;
    }
    let ghost rest = s@.subrange(from as int, n as int);
    assert(trimmed_start(s@) == rest);
    let mut to: usize = n;
    while to > from && white_space(s.get_char(to - 1))
        invariant
            from <= to <= n,
            n == s@.len(),
            trimmed_end(rest) == trimmed_end(s@.subrange(from as int, to as int)),
        decreases to,
    {
        assert(s@.subrange(from as int, to as int).drop_last() =~= s@.subrange(
            from as int,
            to - 1,
        ));
        to = to - 1;
    }
    s.substring_char(from, to)
}

/// A character with an ASCII capital letter turned into its small one.
pub open spec fn lower(c: char) -> char {
    if 'A' <= c && c <= 'Z' {
        (c as u32 + 32) as char
    } else {
        c
    }
}

/// A text with its ASCII capital letters turned into small ones.
pub open spec fn lowered(s: Seq<char>) -> Seq<char> {
    Seq::new(s.len(), |i: int| lower(s[i]))
}

/// The small letter at each place of the alphabet.
proof fn lemma_letter(k: int)
    requires
        0 <= k < 26,
    ensures
        "abcdefghijklmnopqrstuvwxyz"@.len() == 26,
        "abcdefghijklmnopqrstuvwxyz"@[k] == (k + 97) as char,
{
    reveal_strlit("abcdefghijklmnopqrstuvwxyz");
    let letters = "abcdefghijklmnopqrstuvwxyz"@;
    if k == 0 {
        assert(letters[0] == 'a');
    } else if k == 1 {
        assert(letters[1] == 'b');
    } else if k == 2 {
        assert(letters[2] == 'c');
    } else if k == 3 {
        assert(letters[3] == 'd');
    } else if k == 4 {
        assert(letters[4] == 'e');
    } else if k == 5 {
        assert(letters[5] == 'f');
    } else if k == 6 {
        assert(letters[6] == 'g');
    } else if k == 7 {
        assert(letters[7] == 'h');
    } else if k == 8 {
        assert(letters[8] == 'i');
    } else if k == 9 {
        assert(letters[9] == 'j');
    } else if k == 10 {
        assert(letters[10] == 'k');
    } else if k == 11 {
        assert(letters[11] == 'l');
    } else if k == 12 {
        assert(letters[12] == 'm');
    } else if k == 13 {
        assert(letters[13] == 'n');
    } else if k == 14 {
        assert(letters[14] == 'o');
    } else if k == 15 {
        assert(letters[15] == 'p');
    } else if k == 16 {
        assert(letters[16] == 'q');
    } else if k == 17 {
        assert(letters[17] == 'r');
    } else if k == 18 {
        assert(letters[18] == 's');
    } else if k == 19 {
        assert(letters[19] == 't');
    } else if k == 20 {
        assert(letters[20] == 'u');
    } else if k == 21 {
        assert(letters[21] == 'v');
    } else if k == 22 {
        assert(letters[22] == 'w');
    } else if k == 23 {
        assert(letters[23] == 'x');
    } else if k == 24 {
        assert(letters[24] == 'y');
    } else if k == 25 {
        assert(letters[25] == 'z');
    }
}

fn lower_case(s: &str) -> (r: String)
    ensures
        r@ == lowered(s@),
{
    let n: usize = s.unicode_len();
    let mut r = String::new();
    let mut i: usize = 0;
    assert(r@ =~= lowered(s@.subrange(0, 0)));
    while i < n
        invariant
            i <= n,
            n == s@.len(),
            r@ == lowered(s@.subrange(0, i as int)),
        decreases n - i,
    {
        let ghost before = r@;
        let c: char = s.get_char(i);
        let code: u32 = c as u32;
        if 65 <= code && code <= 90 {
            let k: usize = (code - 65) as usize;
            proof {
                lemma_letter(k as int);
            }
            r.append("abcdefghijklmnopqrstuvwxyz".substring_char(k, k + 1));
        } else {
            r.append(s.substring_char(i, i + 1));
        }
        assert(r@ =~= before.push(lower(c)));
        assert(r@ =~= lowered(s@.subrange(0, i + 1)));
        i = i + 1;
    }
    assert(s@.subrange(0, n as int) =~= s@);
    r
}

/// The tuning of a preset.
pub open spec fn preset(p: Profile) -> ProfileConfig {
    match p {
        Profile::Lan => ProfileConfig {
            heartbeat_interval_ms: 100,
            election_timeout_ms: 1_000,
            rpc_timeout_ms: 500,
            max_inflight_bytes: 4_194_304,
            max_inflight_msgs: 256,
            snapshot_threshold_bytes: 67_108_864,
            wal_trailing_keep_bytes: 67_108_864,
            wal_segment_bytes: 134_217_728,
            read_index_timeout_ms: 2_000,
            proposal_queue_bytes: 67_108_864,
            session_ttl_ms: 60_000,
            session_grace_period_ms: 60_000,
            max_sessions: 10_000,
            max_value_bytes: 1_048_576,
            max_key_bytes: 4_096,
            snapshot_transfer_rate_bps: 33_554_432,
            fsync_policy: FsyncPolicy::Always,
        },
        Profile::Wan => ProfileConfig {
            heartbeat_interval_ms: 500,
            election_timeout_ms: 2_500,
            rpc_timeout_ms: 2_000,
            max_inflight_bytes: 1_048_576,
            max_inflight_msgs: 256,
            snapshot_threshold_bytes: 16_777_216,
            wal_trailing_keep_bytes: 16_777_216,
            wal_segment_bytes: 134_217_728,
            read_index_timeout_ms: 5_000,
            proposal_queue_bytes: 67_108_864,
            session_ttl_ms: 60_000,
            session_grace_period_ms: 60_000,
            max_sessions: 10_000,
            max_value_bytes: 1_048_576,
            max_key_bytes: 4_096,
            snapshot_transfer_rate_bps: 8_388_608,
            fsync_policy: FsyncPolicy::Always,
        },
    }
}

impl Profile {
    /// The tuning of this preset.
    pub fn config(self) -> (r: ProfileConfig)
        ensures
            r == preset(self),
    {
        match self {
            Profile::Lan => ProfileConfig::lan(),
            Profile::Wan => ProfileConfig::wan(),
        }
    }

    /// The profile with the given name, whatever the case of its letters and
    /// the white space around it.
    pub fn parse_name(name: &str) -> (r: Result<Profile, ProfileError>)
        ensures
            ({
                let word = lowered(trimmed_end(trimmed_start(name@)));
                match r {
                    Ok(Profile::Lan) => word == "lan"@,
                    Ok(Profile::Wan) => word == "wan"@,
                    Err(ProfileError::UnknownProfile { value }) => value@ == word && word != "lan"@
                        && word != "wan"@,
                    Err(_) => false,
                }
            }),
    {
        let word = lower_case(trim(name));
        proof {
            reveal_strlit("lan");
            reveal_strlit("wan");
        }
        if same_text(word.as_str(), "lan") {
            Ok(Profile::Lan)
        } else if same_text(word.as_str(), "wan") {
            assert("lan"@[0] != "wan"@[0]);
            Ok(Profile::Wan)
        } else {
            Err(ProfileError::UnknownProfile { value: word })
        }
    }
}

impl ProfileConfig {
    /// The preset for a local network.
    pub fn lan() -> (r: Self)
        ensures
            r == preset(Profile::Lan),
    {
        ProfileConfig {
            heartbeat_interval_ms: 100,
            election_timeout_ms: 1_000,
            rpc_timeout_ms: 500,
            max_inflight_bytes: 4_194_304,
            max_inflight_msgs: 256,
            snapshot_threshold_bytes: 67_108_864,
            wal_trailing_keep_bytes: 67_108_864,
            wal_segment_bytes: 134_217_728,
            read_index_timeout_ms: 2_000,
            proposal_queue_bytes: 67_108_864,
            session_ttl_ms: 60_000,
            session_grace_period_ms: 60_000,
            max_sessions: 10_000,
            max_value_bytes: 1_048_576,
            max_key_bytes: 4_096,
            snapshot_transfer_rate_bps: 33_554_432,
            fsync_policy: FsyncPolicy::Always,
        }
    }

    /// The preset for a wide-area network.
    pub fn wan() -> (r: Self)
        ensures
            r == preset(Profile::Wan),
    {
        ProfileConfig {
            heartbeat_interval_ms: 500,
            election_timeout_ms: 2_500,
            rpc_timeout_ms: 2_000,
            max_inflight_bytes: 1_048_576,
            max_inflight_msgs: 256,
            snapshot_threshold_bytes: 16_777_216,
            wal_trailing_keep_bytes: 16_777_216,
            wal_segment_bytes: 134_217_728,
            read_index_timeout_ms: 5_000,
            proposal_queue_bytes: 67_108_864,
            session_ttl_ms: 60_000,
            session_grace_period_ms: 60_000,
            max_sessions: 10_000,
            max_value_bytes: 1_048_576,
            max_key_bytes: 4_096,
            snapshot_transfer_rate_bps: 8_388_608,
            fsync_policy: FsyncPolicy::Always,
        }
    }

    /// Whether the timings keep a node live: heartbeats come, an election
    /// window holds at least five of them, and a call ends before the window
    /// does.
    pub open spec fn sound(self) -> bool {
        &&& 0 < self.heartbeat_interval_ms
        &&& 5 * self.heartbeat_interval_ms <= self.election_timeout_ms
        &&& 0 < self.rpc_timeout_ms < self.election_timeout_ms
    }

    /// Check the timings; the first broken rule is the error.
    pub fn validate(&self) -> (r: Result<(), ProfileError>)
        ensures
            r is Ok <==> self.sound(),
            match r {
                Ok(_) => true,
                Err(ProfileError::HeartbeatNotPositive) => self.heartbeat_interval_ms == 0,
                Err(ProfileError::ElectionTooShort { heartbeat, election }) => {
                    &&& heartbeat == self.heartbeat_interval_ms
                    &&& election == self.election_timeout_ms
                    &&& 0 < heartbeat
                    &&& election < 5 * heartbeat
                },
                Err(ProfileError::RpcNotPositive) => {
                    &&& 0 < self.heartbeat_interval_ms
                    &&& 5 * self.heartbeat_interval_ms <= self.election_timeout_ms
                    &&& self.rpc_timeout_ms == 0
                },
                Err(ProfileError::RpcTooLong { rpc, election }) => {
                    &&& rpc == self.rpc_timeout_ms
                    &&& election == self.election_timeout_ms
                    &&& 0 < self.heartbeat_interval_ms
                    &&& 5 * self.heartbeat_interval_ms <= election
                    &&& election <= rpc
                },
                Err(ProfileError::UnknownProfile { .. }) => false,
            },
    {
        let heartbeat: u64 = self.heartbeat_interval_ms;
        let election: u64 = self.election_timeout_ms;
        if heartbeat == 0 {
            return Err(ProfileError::HeartbeatNotPositive);
        }
        if election / 5 < heartbeat {
            return Err(ProfileError::ElectionTooShort { heartbeat, election });
        }
        if self.rpc_timeout_ms == 0 {
            return Err(ProfileError::RpcNotPositive);
        }
        if self.rpc_timeout_ms >= election {
            return Err(ProfileError::RpcTooLong { rpc: self.rpc_timeout_ms, election });
        }
        Ok(())
    }
}

/// Both presets are sound, a read waits two election windows, and the log kept
/// for slow followers is as long as the growth that triggers a snapshot.
pub proof fn law_presets_are_sound(p: Profile)
    ensures
        preset(p).sound(),
        preset(p).read_index_timeout_ms == 2 * preset(p).election_timeout_ms,
        preset(p).wal_trailing_keep_bytes == preset(p).snapshot_threshold_bytes,
{
}

/// The presets differ in how far the nodes are apart: timings, batches and the growth
/// that triggers a snapshot. What a node may hold is the same in both, and every append
/// is synced.
pub proof fn law_presets_differ_by_distance()
    ensures
        ({
            let lan = preset(Profile::Lan);
            let wan = preset(Profile::Wan);
            &&& lan.heartbeat_interval_ms == 100 && lan.election_timeout_ms == 1_000
            &&& wan.heartbeat_interval_ms == 500 && wan.election_timeout_ms == 2_500
            &&& lan.rpc_timeout_ms == 500 && wan.rpc_timeout_ms == 2_000
            &&& lan.max_inflight_bytes == 4 * wan.max_inflight_bytes
            &&& wan.max_inflight_bytes == 1_048_576
            &&& lan.snapshot_threshold_bytes == 4 * wan.snapshot_threshold_bytes
            &&& wan.snapshot_threshold_bytes == 16_777_216
            &&& lan.snapshot_transfer_rate_bps == 4 * wan.snapshot_transfer_rate_bps
            &&& wan.snapshot_transfer_rate_bps == 8_388_608
            &&& wan == (ProfileConfig {
                heartbeat_interval_ms: wan.heartbeat_interval_ms,
                election_timeout_ms: wan.election_timeout_ms,
                rpc_timeout_ms: wan.rpc_timeout_ms,
                read_index_timeout_ms: wan.read_index_timeout_ms,
                max_inflight_bytes: wan.max_inflight_bytes,
                snapshot_threshold_bytes: wan.snapshot_threshold_bytes,
                wal_trailing_keep_bytes: wan.wal_trailing_keep_bytes,
                snapshot_transfer_rate_bps: wan.snapshot_transfer_rate_bps,
                ..lan
            })
            &&& lan.max_inflight_msgs == 256
            &&& lan.wal_segment_bytes == 134_217_728
            &&& lan.proposal_queue_bytes == 67_108_864
            &&& lan.session_ttl_ms == 60_000 && lan.session_grace_period_ms == 60_000
            &&& lan.max_sessions == 10_000
            &&& lan.max_value_bytes == 1_048_576 && lan.max_key_bytes == 4_096
            &&& lan.fsync_policy == FsyncPolicy::Always
        }),
{
}

/// Only white space is taken from the front of a text and from its end, and all of it.
pub proof fn law_trimming_takes_the_white_space_around(s: Seq<char>)
    ensures
        ({
            let t = trimmed_start(s);
            &&& t.len() <= s.len()
            &&& t == s.subrange(s.len() - t.len(), s.len() as int)
            &&& forall|i: int| 0 <= i < s.len() - t.len() ==> is_white_space(#[trigger] s[i])
            &&& t.len() > 0 ==> !is_white_space(t[0])
        }),
        ({
            let t = trimmed_end(s);
            &&& t.len() <= s.len()
            &&& t == s.subrange(0, t.len() as int)
            &&& forall|i: int| t.len() <= i < s.len() ==> is_white_space(#[trigger] s[i])
            &&& t.len() > 0 ==> !is_white_space(t.last())
        }),
    decreases s.len(),
{
    let n = s.len() as int;
    if n > 0 && is_white_space(s[0]) {
        let rest = s.drop_first();
        law_trimming_takes_the_white_space_around(rest);
        let t = trimmed_start(s);
        assert(rest.subrange(rest.len() - t.len(), rest.len() as int) =~= s.subrange(
            n - t.len(),
            n,
        ));
        assert forall|i: int| 0 <= i < n - t.len() implies is_white_space(#[trigger] s[i]) by {
            if i > 0 {
                assert(s[i] == rest[i - 1]);
            }
        }
    } else {
        assert(s.subrange(0, n) =~= s);
    }
    if n > 0 && is_white_space(s.last()) {
        let rest = s.drop_last();
        law_trimming_takes_the_white_space_around(rest);
        let t = trimmed_end(s);
        assert(rest.subrange(0, t.len() as int) =~= s.subrange(0, t.len() as int));
        assert forall|i: int| t.len() <= i < n implies is_white_space(#[trigger] s[i]) by {
            if i < n - 1 {
                assert(s[i] == rest[i]);
            }
        }
    } else {
        assert(s.subrange(0, n) =~= s);
    }
}

/// Lowering turns each capital letter into the small one, 32 places on, and leaves every
/// other character alone.
pub proof fn law_lowering_changes_capitals_only(s: Seq<char>, i: int)
    requires
        0 <= i < s.len(),
    ensures
        lowered(s).len() == s.len(),
        65 <= s[i] as u32 <= 90 ==> lowered(s)[i] as u32 == s[i] as u32 + 32,
        !(65 <= s[i] as u32 <= 90) ==> lowered(s)[i] == s[i],
{
}

} // verus!
