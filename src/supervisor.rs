//! The decisions of the process supervisor for one language: when a server may be
//! spawned, how a crash schedules the next attempt, and when the language is given
//! up until a manual retry.
//!
//! The caller performs each decided action (spawning the process, tearing down a
//! connection) and reports what happened.
use vstd::prelude::*;

verus! {

/// The first restart delay, in milliseconds.
pub const BACKOFF_BASE_MS: u64 = 1000;

/// The longest restart delay, in milliseconds.
pub const BACKOFF_CAP_MS: u64 = 30000;

/// The lifecycle state of a language's server connection.
#[derive(Clone, Copy, Debug, PartialEq, Eq, Structural)]
pub enum ConnectionState {
    /// No server was ever started for the language.
    Absent,
    /// A process was spawned as connection `0` and has not yet reported ready.
    Starting(u64),
    /// Connection `0` is live.
    Running(u64),
    /// The last connection died; a restart is due at the backoff deadline.
    Crashed,
    /// The last connection was shut down on request.
    Stopped,
}

/// What `ensure_running` decided.
#[derive(Clone, Copy, Debug, PartialEq, Eq, Structural)]
pub enum EnsureOutcome {
    /// Connection `0` is live: use it.
    Existing(u64),
    /// Connection `0` is being started: wait for it, spawn nothing.
    Starting(u64),
    /// Spawn a process now, as connection `0`.
    Spawn(u64),
    /// No process may be spawned before this deadline (milliseconds).
    Deferred(u64),
    /// The language has failed to start too often and is disabled until a manual
    /// retry.
    StartupFailed,
}

/// The supervisor of one language's server.
#[derive(Clone, Copy, Debug, PartialEq, Eq, Structural)]
pub struct ServerSupervisor {
    /// The current connection's lifecycle state.
    pub state: ConnectionState,
    /// Consecutive failures (crashes or failed starts) since the server last
    /// reported ready.
    pub attempts: u32,
    /// No process may be spawned before this time (milliseconds).
    pub deadline: u64,
    /// After this many consecutive failures the language is disabled.
    pub max_failures: u32,
    /// Whether the language is disabled until a manual retry.
    pub disabled: bool,
    /// The identity that the next connection will get.
    pub next_conn: u64,
}

/// The restart delay after `attempts` consecutive failures: 1 s, doubling with
/// each further failure, capped at 30 s.
pub open spec fn backoff_ms(attempts: nat) -> nat
    decreases attempts,
{
    if attempts <= 1 {
        BACKOFF_BASE_MS as nat
    } else {
        let d = 2 * backoff_ms((attempts - 1) as nat);
        if d < BACKOFF_CAP_MS {
            d
        } else {
            BACKOFF_CAP_MS as nat
        }
    }
}

/// `a + b`, or `u64::MAX` where the sum does not fit.
pub open spec fn add_capped(a: u64, b: nat) -> u64 {
    if a + b <= u64::MAX {
        (a + b) as u64
    } else {
        u64::MAX
    }
}

/// The decision of `ensure_running` at time `now`.
pub open spec fn ensure_outcome(s: ServerSupervisor, now: u64) -> EnsureOutcome {
    match s.state {
        ConnectionState::Running(c) => EnsureOutcome::Existing(c),
        ConnectionState::Starting(c) => EnsureOutcome::Starting(c),
        _ => if s.disabled {
            EnsureOutcome::StartupFailed
        } else if now < s.deadline {
            EnsureOutcome::Deferred(s.deadline)
        } else if s.next_conn < u64::MAX {
            EnsureOutcome::Spawn(s.next_conn)
        } else {
            EnsureOutcome::StartupFailed
        },
    }
}

/// The supervisor after `ensure_running` at time `now`: a decided spawn makes the
/// new connection the starting one; nothing else changes.
pub open spec fn ensure_next(s: ServerSupervisor, now: u64) -> ServerSupervisor {
    match ensure_outcome(s, now) {
        EnsureOutcome::Spawn(c) => ServerSupervisor {
            state: ConnectionState::Starting(c),
            next_conn: (c + 1) as u64,
            ..s
        },
        _ => s,
    }
}

/// The supervisor after connection `conn` failed (its process exited, or it could
/// not be started) at time `now`: the failure is counted, the next spawn waits for
/// the backoff, and the language is disabled once the failures reach the limit. A
/// report about any other connection changes nothing.
pub open spec fn after_failure(s: ServerSupervisor, conn: u64, now: u64) -> ServerSupervisor {
    if s.state == ConnectionState::Running(conn) || s.state == ConnectionState::Starting(conn) {
        let attempts = if s.attempts < u32::MAX {
            (s.attempts + 1) as u32
        } else {
            s.attempts
        };
        ServerSupervisor {
            state: ConnectionState::Crashed,
            attempts,
            deadline: add_capped(now, backoff_ms(attempts as nat)),
            disabled: s.disabled || attempts >= s.max_failures,
            ..s
        }
    } else {
        s
    }
}

/// The supervisor as a manual retry leaves it before deciding: enabled again, its
/// failure count started over, its backoff deadline kept.
pub open spec fn retried(s: ServerSupervisor) -> ServerSupervisor {
    ServerSupervisor { disabled: false, attempts: 0, ..s }
}

impl ServerSupervisor {
    /// A supervisor with no server yet, which disables the language after
    /// `max_failures` consecutive failures.
    pub fn new(max_failures: u32) -> (r: ServerSupervisor)
        ensures
            r == (ServerSupervisor {
                state: ConnectionState::Absent,
                attempts: 0,
                deadline: 0,
                max_failures,
                disabled: false,
                next_conn: 0,
            }),
    {
        ServerSupervisor {
            state: ConnectionState::Absent,
            attempts: 0,
            deadline: 0,
            max_failures,
            disabled: false,
            next_conn: 0,
        }
    }

    /// The restart delay after `attempts` consecutive failures.
    pub fn backoff_delay(attempts: u32) -> (r: u64)
        ensures
            r as nat == backoff_ms(attempts as nat),
            r <= BACKOFF_CAP_MS,
    {
        let mut d: u64 = BACKOFF_BASE_MS;
        let mut k: u32 = 1;
        while k < attempts
            invariant
                1 <= k,
                attempts >= 1 ==> k <= attempts,
                attempts < 1 ==> k == 1,
                d as nat == backoff_ms(k as nat),
                d <= BACKOFF_CAP_MS,
            decreases attempts - k,
        {
            k = k + 1;
            d = if 2 * d < BACKOFF_CAP_MS {
                2 * d
            } else {
                BACKOFF_CAP_MS
            };
        }
        assert(attempts <= 1 ==> backoff_ms(attempts as nat) == BACKOFF_BASE_MS);
        d
    }

    /// Decides, at time `now`, whether a server process is to be spawned. A live or
    /// starting connection is reused, so no second process is ever spawned beside
    /// it; before the backoff deadline the spawn is deferred.
    pub fn ensure_running(&mut self, now: u64) -> (r: EnsureOutcome)
        ensures
            r == ensure_outcome(*old(self), now),
            *final(self) == ensure_next(*old(self), now),
    {
        match self.state {
            ConnectionState::Running(c) => EnsureOutcome::Existing(c),
            ConnectionState::Starting(c) => EnsureOutcome::Starting(c),
            _ => {
                if self.disabled {
                    EnsureOutcome::StartupFailed
                } else if now < self.deadline {
                    EnsureOutcome::Deferred(self.deadline)
                } else if self.next_conn < u64::MAX {
                    let c = self.next_conn;
                    self.state = ConnectionState::Starting(c);
                    self.next_conn = c + 1;
                    EnsureOutcome::Spawn(c)
                } else {
                    EnsureOutcome::StartupFailed
                }
            },
        }
    }

    /// Connection `conn` reported ready: it is live, and the failure count starts
    /// over. A report about any other connection changes nothing.
    pub fn on_started(&mut self, conn: u64)
        ensures
            *final(self) == if old(self).state == ConnectionState::Starting(conn) {
                ServerSupervisor { state: ConnectionState::Running(conn), attempts: 0, ..*old(self) }
            } else {
                *old(self)
            },
    {
        if self.state == ConnectionState::Starting(conn) {
            self.state = ConnectionState::Running(conn);
            self.attempts = 0;
        }
    }

    /// Connection `conn` died, or could not be started, at time `now`. Returns
    /// whether it was the current connection, whose dependent state the caller
    /// must then purge.
    pub fn on_failure(&mut self, conn: u64, now: u64) -> (r: bool)
        ensures
            r == (old(self).state == ConnectionState::Running(conn) || old(self).state
                == ConnectionState::Starting(conn)),
            *final(self) == after_failure(*old(self), conn, now),
    {
        if self.state == ConnectionState::Running(conn) || self.state == ConnectionState::Starting(
            conn,
        ) {
            if self.attempts < u32::MAX {
                self.attempts = self.attempts + 1;
            }
            let delay = Self::backoff_delay(self.attempts);
            self.deadline = now.saturating_add(delay);
            self.state = ConnectionState::Crashed;
            self.disabled = self.disabled || self.attempts >= self.max_failures;
            true
        } else {
            false
        }
    }

    /// The connection was shut down on request. Returns the connection to tear
    /// down, if one was live or starting.
    pub fn stop(&mut self) -> (r: Option<u64>)
        ensures
            r == match old(self).state {
                ConnectionState::Running(c) => Some(c),
                ConnectionState::Starting(c) => Some(c),
                _ => None::<u64>,
            },
            *final(self) == if r is Some {
                ServerSupervisor { state: ConnectionState::Stopped, ..*old(self) }
            } else {
                *old(self)
            },
    {
        match self.state {
            ConnectionState::Running(c) | ConnectionState::Starting(c) => {
                self.state = ConnectionState::Stopped;
                Some(c)
            },
            _ => None,
        }
    }

    /// A manual retry at time `now`: the language is enabled again and its failure
    /// count starts over, but the backoff deadline still holds, so a retry before
    /// it is deferred rather than spawning.
    pub fn manual_retry(&mut self, now: u64) -> (r: EnsureOutcome)
        ensures
            r == ensure_outcome(retried(*old(self)), now),
            *final(self) == ensure_next(retried(*old(self)), now),
    {
        self.disabled = false;
        self.attempts = 0;
        self.ensure_running(now)
    }
}

/// Crash recovery: when the live connection's process dies at time `now`, a
/// restart is scheduled after exactly the backoff for the new failure count, and
/// until that deadline neither an automatic nor a manual retry spawns a process.
pub proof fn lemma_crash_defers_restart(s: ServerSupervisor, conn: u64, now: u64, t: u64)
    requires
        s.state == ConnectionState::Running(conn),
        s.attempts < u32::MAX,
        now <= t,
        t < add_capped(now, backoff_ms((s.attempts + 1) as nat)),
    ensures
        after_failure(s, conn, now).state == ConnectionState::Crashed,
        after_failure(s, conn, now).deadline == add_capped(now, backoff_ms((s.attempts + 1) as nat)),
        !(ensure_outcome(after_failure(s, conn, now), t) is Spawn),
        ensure_next(after_failure(s, conn, now), t) == after_failure(s, conn, now),
        !(ensure_outcome(retried(after_failure(s, conn, now)), t) is Spawn),
        ensure_next(retried(after_failure(s, conn, now)), t) == retried(after_failure(s, conn, now)),
{
}

/// Connection identities are never reused: a spawn takes the next identity and
/// moves the counter past it, and nothing else changes the counter.
pub proof fn lemma_spawn_takes_fresh_identity(s: ServerSupervisor, now: u64)
    ensures
        ensure_outcome(s, now) matches EnsureOutcome::Spawn(c) ==> c == s.next_conn
            && ensure_next(s, now).next_conn == c + 1,
        !(ensure_outcome(s, now) is Spawn) ==> ensure_next(s, now).next_conn == s.next_conn,
{
}

/// The failure that brings the count to the limit disables the language: from
/// then on no spawn is decided, whatever the time, until a manual retry.
pub proof fn lemma_failures_disable(s: ServerSupervisor, conn: u64, now: u64, t: u64)
    requires
        s.state == ConnectionState::Running(conn) || s.state == ConnectionState::Starting(conn),
        s.attempts < u32::MAX,
        s.attempts + 1 >= s.max_failures,
    ensures
        after_failure(s, conn, now).disabled,
        ensure_outcome(after_failure(s, conn, now), t) == EnsureOutcome::StartupFailed,
        ensure_next(after_failure(s, conn, now), t) == after_failure(s, conn, now),
{
}

/// While a connection is live or starting, `ensure_running` never spawns a second
/// process, whatever the time.
pub proof fn lemma_no_double_spawn(s: ServerSupervisor, now: u64)
    requires
        (s.state is Running) || (s.state is Starting),
    ensures
        !(ensure_outcome(s, now) is Spawn),
        ensure_next(s, now) == s,
{
}

} // verus!
