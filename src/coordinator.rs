//! The façade that the editor calls on document lifecycle events.
//!
//! It owns every (document, connection) sync state, drives the transition table of
//! `sync_state`, and turns each transition's message into a notification that
//! carries the document's content or edit.
use vstd::prelude::*;
use crate::sync_state::{SyncEvent, SyncMessage, SyncState, transition};

verus! {

/// An incremental edit: the byte range `start..end` of the previous content is
/// replaced by `text`.
#[derive(Debug)]
pub struct TextChange {
    pub start: usize,
    pub end: usize,
    pub text: String,
}

impl TextChange {
    /// A copy of this edit.
    pub fn copy(&self) -> (r: TextChange)
        ensures
            r == *self,
    {
        TextChange { start: self.start, end: self.end, text: self.text.clone() }
    }
}

/// A document-lifecycle notification for one server connection.
#[derive(Debug)]
pub enum Notification {
    /// The full content of the document, announced at `version`.
    DidOpen { doc: u64, version: u64, text: String },
    /// One incremental edit, announcing the document's new version.
    DidChange { doc: u64, version: u64, change: TextChange },
    /// The document is no longer open.
    DidClose { doc: u64 },
}

/// The sync state of one (document, connection) pair that the server knows of.
#[derive(Debug)]
struct TrackedPair {
    doc: u64,
    conn: u64,
    state: SyncState,
}

/// `n` is the notification that message `m` about document `doc` becomes, given
/// the document's current `text` and the edit `change` that caused it: an open
/// carries the whole current text at version 0, a change carries the edit and the
/// new version.
pub open spec fn carries(
    n: Option<Notification>,
    m: Option<SyncMessage>,
    doc: u64,
    text: Seq<char>,
    change: Option<TextChange>,
) -> bool {
    match m {
        None => n is None,
        Some(SyncMessage::Open) => n matches Some(Notification::DidOpen { doc: d, version: v, text: t })
            && d == doc && v == 0 && t@ == text,
        Some(SyncMessage::Change(v)) => change is Some && n == Some(
            Notification::DidChange { doc, version: v, change: change->0 },
        ),
        Some(SyncMessage::Close) => n == Some(Notification::DidClose { doc }),
    }
}

/// Every sync state that the servers hold, and which documents have the
/// integration turned off.
pub struct SyncCoordinator {
    entries: Vec<TrackedPair>,
    disabled: Vec<u64>,
}

impl SyncCoordinator {
    /// No two entries are for the same pair, no entry is closed, and no document
    /// is listed twice as disabled.
    pub closed spec fn wf(&self) -> bool {
        &&& forall|i: int, j: int|
            0 <= i < j < self.entries@.len() ==> !(self.entries@[i].doc == self.entries@[j].doc
                && self.entries@[i].conn == self.entries@[j].conn)
        &&& forall|i: int| 0 <= i < self.entries@.len() ==> self.entries@[i].state != SyncState::Closed
        &&& self.disabled@.no_duplicates()
    }

    /// Whether the table holds an entry for the pair `(doc, conn)`.
    pub closed spec fn tracks(&self, doc: u64, conn: u64) -> bool {
        exists|i: int|
            0 <= i < self.entries@.len() && self.entries@[i].doc == doc && self.entries@[i].conn
                == conn
    }

    /// The sync state of `(doc, conn)`: closed where the table holds no entry.
    pub closed spec fn state_of(&self, doc: u64, conn: u64) -> SyncState {
        if self.tracks(doc, conn) {
            self.entries@[choose|i: int|
                0 <= i < self.entries@.len() && self.entries@[i].doc == doc
                    && self.entries@[i].conn == conn].state
        } else {
            SyncState::Closed
        }
    }

    /// Whether the integration is enabled for `doc`.
    pub closed spec fn enabled(&self, doc: u64) -> bool {
        !self.disabled@.contains(doc)
    }

    /// How many pairs the table tracks.
    pub closed spec fn tracked_count(&self) -> nat {
        self.entries@.len()
    }

    proof fn lemma_state_at(&self, i: int)
        requires
            self.wf(),
            0 <= i < self.entries@.len(),
        ensures
            self.tracks(self.entries@[i].doc, self.entries@[i].conn),
            self.state_of(self.entries@[i].doc, self.entries@[i].conn) == self.entries@[i].state,
    {
        let doc = self.entries@[i].doc;
        let conn = self.entries@[i].conn;
        let j = choose|j: int|
            0 <= j < self.entries@.len() && self.entries@[j].doc == doc && self.entries@[j].conn
                == conn;
        if j != i {
            if j < i {
                assert(!(self.entries@[j].doc == self.entries@[i].doc && self.entries@[j].conn
                    == self.entries@[i].conn));
            } else {
                assert(!(self.entries@[i].doc == self.entries@[j].doc && self.entries@[i].conn
                    == self.entries@[j].conn));
            }
        }
    }

    /// A table with no entries, and the integration enabled for every document.
    pub fn new() -> (r: SyncCoordinator)
        ensures
            r.wf(),
            forall|doc: u64, conn: u64| #[trigger] r.state_of(doc, conn) == SyncState::Closed,
            forall|doc: u64| #[trigger] r.enabled(doc),
            r.tracked_count() == 0,
    {
        SyncCoordinator { entries: Vec::new(), disabled: Vec::new() }
    }

    fn find(&self, doc: u64, conn: u64) -> (r: Option<usize>)
        requires
            self.wf(),
        ensures
            r is Some ==> r->0 < self.entries@.len() && self.entries@[r->0 as int].doc == doc
                && self.entries@[r->0 as int].conn == conn,
            r is None ==> !self.tracks(doc, conn),
    {
        let mut i: usize = 0;
        while i < self.entries.len()
            invariant
                0 <= i <= self.entries@.len(),
                forall|k: int|
                    0 <= k < i ==> !(self.entries@[k].doc == doc && self.entries@[k].conn == conn),
            decreases self.entries@.len() - i,
        {
            if self.entries[i].doc == doc && self.entries[i].conn == conn {
                return Some(i);
            }
            i = i + 1;
        }
        None
    }

    /// The sync state of the pair `(doc, conn)`.
    pub fn state(&self, doc: u64, conn: u64) -> (r: SyncState)
        requires
            self.wf(),
        ensures
            r == self.state_of(doc, conn),
    {
        match self.find(doc, conn) {
            Some(i) => {
                proof {
                    self.lemma_state_at(i as int);
                }
                self.entries[i].state
            },
            None => SyncState::Closed,
        }
    }

    /// Whether the integration is enabled for `doc`.
    pub fn is_enabled(&self, doc: u64) -> (r: bool)
        ensures
            r == self.enabled(doc),
    {
        let mut i: usize = 0;
        while i < self.disabled.len()
            invariant
                0 <= i <= self.disabled@.len(),
                forall|k: int| 0 <= k < i ==> self.disabled@[k] != doc,
            decreases self.disabled@.len() - i,
        {
            if self.disabled[i] == doc {
                return false;
            }
            i = i + 1;
        }
        true
    }
}


impl SyncCoordinator {
    proof fn lemma_untracked(&self, doc: u64, conn: u64)
        requires
            forall|k: int|
                0 <= k < self.entries@.len() ==> !(self.entries@[k].doc == doc
                    && self.entries@[k].conn == conn),
        ensures
            self.state_of(doc, conn) == SyncState::Closed,
    {
    }

    /// Records `ns` as the sync state of `(doc, conn)`; a closed pair leaves the table.
    fn store(&mut self, doc: u64, conn: u64, ns: SyncState)
        requires
            old(self).wf(),
        ensures
            final(self).wf(),
            final(self).disabled == old(self).disabled,
            forall|d: u64| #[trigger] final(self).enabled(d) == old(self).enabled(d),
            forall|d: u64, c: u64|
                #[trigger] final(self).state_of(d, c) == if d == doc && c == conn {
                    ns
                } else {
                    old(self).state_of(d, c)
                },
    {
        let ghost pre = *self;
        match self.find(doc, conn) {
            Some(i) => {
                if ns == SyncState::Closed {
                    self.entries.remove(i);
                    assert forall|d: u64, c: u64|
                        #[trigger] self.state_of(d, c) == if d == doc && c == conn {
                            ns
                        } else {
                            pre.state_of(d, c)
                        } by {
                        if d == doc && c == conn {
                            assert forall|k: int|
                                0 <= k < self.entries@.len() implies !(self.entries@[k].doc == d
                                && self.entries@[k].conn == c) by {
                                if k < i {
                                    assert(self.entries@[k] == pre.entries@[k]);
                                } else {
                                    assert(self.entries@[k] == pre.entries@[k + 1]);
                                }
                            }
                            self.lemma_untracked(d, c);
                        } else if pre.tracks(d, c) {
                            let j = choose|j: int|
                                0 <= j < pre.entries@.len() && pre.entries@[j].doc == d
                                    && pre.entries@[j].conn == c;
                            pre.lemma_state_at(j);
                            let k = if j < i { j } else { j - 1 };
                            assert(self.entries@[k] == pre.entries@[j]);
                            self.lemma_state_at(k);
                        } else {
                            assert forall|k: int|
                                0 <= k < self.entries@.len() implies !(self.entries@[k].doc == d
                                && self.entries@[k].conn == c) by {
                                if k < i {
                                    assert(self.entries@[k] == pre.entries@[k]);
                                } else {
                                    assert(self.entries@[k] == pre.entries@[k + 1]);
                                }
                            }
                            self.lemma_untracked(d, c);
                        }
                    }
                } else {
                    self.entries.set(i, TrackedPair { doc, conn, state: ns });
                    assert forall|d: u64, c: u64|
                        #[trigger] self.state_of(d, c) == if d == doc && c == conn {
                            ns
                        } else {
                            pre.state_of(d, c)
                        } by {
                        if d == doc && c == conn {
                            self.lemma_state_at(i as int);
                        } else if pre.tracks(d, c) {
                            let j = choose|j: int|
                                0 <= j < pre.entries@.len() && pre.entries@[j].doc == d
                                    && pre.entries@[j].conn == c;
                            pre.lemma_state_at(j);
                            self.lemma_state_at(j);
                        } else {
                            assert forall|k: int|
                                0 <= k < self.entries@.len() implies !(self.entries@[k].doc == d
                                && self.entries@[k].conn == c) by {
                                if k != i {
                                    assert(self.entries@[k] == pre.entries@[k]);
                                }
                            }
                            self.lemma_untracked(d, c);
                        }
                    }
                }
            },
            None => {
                if ns != SyncState::Closed {
                    self.entries.push(TrackedPair { doc, conn, state: ns });
                    let ghost n = pre.entries@.len() as int;
                    assert forall|d: u64, c: u64|
                        #[trigger] self.state_of(d, c) == if d == doc && c == conn {
                            ns
                        } else {
                            pre.state_of(d, c)
                        } by {
                        if d == doc && c == conn {
                            self.lemma_state_at(n);
                        } else if pre.tracks(d, c) {
                            let j = choose|j: int|
                                0 <= j < pre.entries@.len() && pre.entries@[j].doc == d
                                    && pre.entries@[j].conn == c;
                            pre.lemma_state_at(j);
                            assert(self.entries@[j] == pre.entries@[j]);
                            self.lemma_state_at(j);
                        } else {
                            assert forall|k: int|
                                0 <= k < self.entries@.len() implies !(self.entries@[k].doc == d
                                && self.entries@[k].conn == c) by {
                                if k < n {
                                    assert(self.entries@[k] == pre.entries@[k]);
                                }
                            }
                            self.lemma_untracked(d, c);
                        }
                    }
                } else {
                    assert forall|d: u64, c: u64|
                        #[trigger] self.state_of(d, c) == if d == doc && c == conn {
                            ns
                        } else {
                            pre.state_of(d, c)
                        } by {
                        if d == doc && c == conn {
                            self.lemma_untracked(d, c);
                        }
                    }
                }
            },
        }
    }
}


impl SyncCoordinator {
    /// Records whether the integration is enabled for `doc`; the sync states are
    /// left to the events that follow (see `on_toggle` and `fan_out`).
    pub fn set_integration(&mut self, doc: u64, enabled: bool)
        requires
            old(self).wf(),
        ensures
            final(self).wf(),
            forall|d: u64, c: u64| #[trigger] final(self).state_of(d, c) == old(self).state_of(d, c),
            final(self).tracked_count() == old(self).tracked_count(),
            forall|d: u64|
                #[trigger] final(self).enabled(d) == if d == doc {
                    enabled
                } else {
                    old(self).enabled(d)
                },
    {
        let ghost pre = self.disabled@;
        let mut i: usize = 0;
        while i < self.disabled.len()
            invariant
                0 <= i <= self.disabled@.len(),
                self.disabled@ == pre,
                forall|k: int| 0 <= k < i ==> self.disabled@[k] != doc,
            ensures
                0 <= i <= self.disabled@.len(),
                self.disabled@ == pre,
                forall|k: int| 0 <= k < i ==> self.disabled@[k] != doc,
                i < self.disabled@.len() ==> self.disabled@[i as int] == doc,
            decreases self.disabled@.len() - i,
        {
            if self.disabled[i] == doc {
                break;
            }
            i = i + 1;
        }
        if i < self.disabled.len() {
            if enabled {
                self.disabled.remove(i);
                assert forall|d: u64| #[trigger] self.disabled@.contains(d) == (d != doc
                    && pre.contains(d)) by {
                    if self.disabled@.contains(d) {
                        let k = choose|k: int| 0 <= k < self.disabled@.len() && self.disabled@[k] == d;
                        if k < i {
                            assert(pre[k] == d);
                            assert(pre[i as int] == doc);
                        } else {
                            assert(pre[k + 1] == d);
                            assert(pre[i as int] == doc);
                        }
                    }
                    if d != doc && pre.contains(d) {
                        let k = choose|k: int| 0 <= k < pre.len() && pre[k] == d;
                        if k < i {
                            assert(self.disabled@[k] == d);
                        } else {
                            assert(k != i);
                            assert(self.disabled@[k - 1] == d);
                        }
                    }
                }
                assert forall|a: int, b: int|
                    0 <= a < self.disabled@.len() && 0 <= b < self.disabled@.len() && a != b
                        implies self.disabled@[a] != self.disabled@[b] by {
                    let a0 = if a < i { a } else { a + 1 };
                    let b0 = if b < i { b } else { b + 1 };
                    assert(self.disabled@[a] == pre[a0]);
                    assert(self.disabled@[b] == pre[b0]);
                }
            } else {
                assert(pre.contains(doc) && pre[i as int] == doc);
            }
        } else if !enabled {
            self.disabled.push(doc);
            assert forall|d: u64| #[trigger] self.disabled@.contains(d) == (d == doc
                || pre.contains(d)) by {
                if pre.contains(d) {
                    let k = choose|k: int| 0 <= k < pre.len() && pre[k] == d;
                    assert(self.disabled@[k] == d);
                }
                if d == doc {
                    assert(self.disabled@[pre.len() as int] == d);
                }
            }
            assert forall|a: int, b: int|
                0 <= a < self.disabled@.len() && 0 <= b < self.disabled@.len() && a != b
                    implies self.disabled@[a] != self.disabled@[b] by {
                if a < pre.len() && b < pre.len() {
                } else if a < pre.len() {
                    assert(pre[a] != doc);
                } else if b < pre.len() {
                    assert(pre[b] != doc);
                }
            }
        }
    }

    fn lifecycle_notification(m: Option<SyncMessage>, doc: u64, text: &String) -> (r: Option<
        Notification,
    >)
        requires
            !(m matches Some(SyncMessage::Change(_))),
        ensures
            carries(r, m, doc, text@, None),
    {
        match m {
            Some(SyncMessage::Open) => Some(
                Notification::DidOpen { doc, version: 0, text: text.clone() },
            ),
            Some(SyncMessage::Close) => Some(Notification::DidClose { doc }),
            _ => None,
        }
    }

    /// The editor opened `doc`, whose current content is `text`, and it applies to
    /// connection `conn`. A document whose integration is enabled is sent in full;
    /// one whose integration is off is only recorded as out of sync.
    pub fn on_open(&mut self, doc: u64, conn: u64, text: &String) -> (r: Option<Notification>)
        requires
            old(self).wf(),
        ensures
            final(self).wf(),
            final(self).state_of(doc, conn) == transition(
                old(self).state_of(doc, conn),
                SyncEvent::Open { enabled: old(self).enabled(doc) },
            ).0,
            carries(
                r,
                transition(
                    old(self).state_of(doc, conn),
                    SyncEvent::Open { enabled: old(self).enabled(doc) },
                ).1,
                doc,
                text@,
                None,
            ),
            forall|d: u64, c: u64|
                !(d == doc && c == conn) ==> #[trigger] final(self).state_of(d, c) == old(
                    self,
                ).state_of(d, c),
            forall|d: u64| #[trigger] final(self).enabled(d) == old(self).enabled(d),
    {
        let enabled = self.is_enabled(doc);
        let step = self.state(doc, conn).apply(SyncEvent::Open { enabled });
        self.store(doc, conn, step.0);
        Self::lifecycle_notification(step.1, doc, text)
    }

    /// The buffer of `doc` was edited by `change`. A synced pair is sent the edit
    /// with the next version; any other pair sends nothing, the edit staying in the
    /// buffer until the next full-content open.
    pub fn on_edit(&mut self, doc: u64, conn: u64, change: &TextChange) -> (r: Option<
        Notification,
    >)
        requires
            old(self).wf(),
        ensures
            final(self).wf(),
            final(self).state_of(doc, conn) == transition(
                old(self).state_of(doc, conn),
                SyncEvent::Edit,
            ).0,
            carries(
                r,
                transition(old(self).state_of(doc, conn), SyncEvent::Edit).1,
                doc,
                Seq::empty(),
                Some(*change),
            ),
            forall|d: u64, c: u64|
                !(d == doc && c == conn) ==> #[trigger] final(self).state_of(d, c) == old(
                    self,
                ).state_of(d, c),
            forall|d: u64| #[trigger] final(self).enabled(d) == old(self).enabled(d),
    {
        let step = self.state(doc, conn).apply(SyncEvent::Edit);
        self.store(doc, conn, step.0);
        match step.1 {
            Some(SyncMessage::Change(version)) => Some(
                Notification::DidChange { doc, version, change: change.copy() },
            ),
            _ => None,
        }
    }

    /// The editor closed `doc`. A synced pair is sent a close; every pair leaves
    /// the table.
    pub fn on_close(&mut self, doc: u64, conn: u64) -> (r: Option<Notification>)
        requires
            old(self).wf(),
        ensures
            final(self).wf(),
            final(self).state_of(doc, conn) == transition(
                old(self).state_of(doc, conn),
                SyncEvent::Close,
            ).0,
            carries(
                r,
                transition(old(self).state_of(doc, conn), SyncEvent::Close).1,
                doc,
                Seq::empty(),
                None,
            ),
            forall|d: u64, c: u64|
                !(d == doc && c == conn) ==> #[trigger] final(self).state_of(d, c) == old(
                    self,
                ).state_of(d, c),
            forall|d: u64| #[trigger] final(self).enabled(d) == old(self).enabled(d),
    {
        let step = self.state(doc, conn).apply(SyncEvent::Close);
        self.store(doc, conn, step.0);
        Self::lifecycle_notification(step.1, doc, &String::new())
    }

    /// The integration was turned on or off for `doc`, whose current content is
    /// `text`. Turning it off sends nothing and leaves a synced pair stale;
    /// turning it back on re-opens a stale pair with the full current content.
    pub fn on_toggle(&mut self, doc: u64, conn: u64, enabled: bool, text: &String) -> (r: Option<
        Notification,
    >)
        requires
            old(self).wf(),
        ensures
            final(self).wf(),
            final(self).state_of(doc, conn) == transition(
                old(self).state_of(doc, conn),
                if enabled {
                    SyncEvent::Enable
                } else {
                    SyncEvent::Disable
                },
            ).0,
            carries(
                r,
                transition(
                    old(self).state_of(doc, conn),
                    if enabled {
                        SyncEvent::Enable
                    } else {
                        SyncEvent::Disable
                    },
                ).1,
                doc,
                text@,
                None,
            ),
            forall|d: u64, c: u64|
                !(d == doc && c == conn) ==> #[trigger] final(self).state_of(d, c) == old(
                    self,
                ).state_of(d, c),
            forall|d: u64|
                #[trigger] final(self).enabled(d) == if d == doc {
                    enabled
                } else {
                    old(self).enabled(d)
                },
    {
        self.set_integration(doc, enabled);
        let event = if enabled {
            SyncEvent::Enable
        } else {
            SyncEvent::Disable
        };
        let step = self.state(doc, conn).apply(event);
        self.store(doc, conn, step.0);
        Self::lifecycle_notification(step.1, doc, text)
    }
}


impl SyncCoordinator {
    /// Connection `conn` was torn down: every pair keyed to it leaves the table (it
    /// is not marked stale, since the connection itself is gone). Returns how many
    /// pairs were dropped.
    pub fn purge_connection(&mut self, conn: u64) -> (r: usize)
        requires
            old(self).wf(),
        ensures
            final(self).wf(),
            forall|d: u64| #[trigger] final(self).state_of(d, conn) == SyncState::Closed,
            forall|d: u64, c: u64|
                c != conn ==> #[trigger] final(self).state_of(d, c) == old(self).state_of(d, c),
            forall|d: u64| #[trigger] final(self).enabled(d) == old(self).enabled(d),
            final(self).tracked_count() + r == old(self).tracked_count(),
    {
        let ghost pre = *self;
        let mut kept: Vec<TrackedPair> = Vec::new();
        let ghost mut from: Seq<int> = Seq::empty();
        let mut i: usize = 0;
        while i < self.entries.len()
            invariant
                *self == pre,
                0 <= i <= self.entries@.len(),
                kept@.len() == from.len(),
                kept@.len() <= i,
                forall|k: int|
                    0 <= k < kept@.len() ==> 0 <= #[trigger] from[k] < i && kept@[k]
                        == self.entries@[from[k]] && kept@[k].conn != conn,
                forall|a: int, b: int| 0 <= a < b < from.len() ==> from[a] < from[b],
                forall|j: int|
                    0 <= j < i && self.entries@[j].conn != conn ==> exists|k: int|
                        0 <= k < from.len() && #[trigger] from[k] == j,
            decreases self.entries@.len() - i,
        {
            let e = &self.entries[i];
            if e.conn != conn {
                kept.push(TrackedPair { doc: e.doc, conn: e.conn, state: e.state });
                proof {
                    let ghost prev = from;
                    from = from.push(i as int);
                    assert forall|j: int|
                        0 <= j < i + 1 && self.entries@[j].conn != conn implies exists|k: int|
                        0 <= k < from.len() && #[trigger] from[k] == j by {
                        if j == i {
                            assert(from[from.len() - 1] == j);
                        } else {
                            let k = choose|k: int| 0 <= k < prev.len() && #[trigger] prev[k] == j;
                            assert(from[k] == j);
                        }
                    }
                }
            }
            i = i + 1;
        }
        let dropped = self.entries.len() - kept.len();
        self.entries = kept;
        proof {
            assert forall|a: int, b: int|
                0 <= a < b < self.entries@.len() implies !(self.entries@[a].doc
                == self.entries@[b].doc && self.entries@[a].conn == self.entries@[b].conn) by {
                assert(from[a] < from[b]);
            }
            assert forall|k: int| 0 <= k < self.entries@.len() implies self.entries@[k].state
                != SyncState::Closed && self.entries@[k].conn != conn by {
                assert(self.entries@[k] == pre.entries@[from[k]]);
            }
            assert(self.wf());
            assert forall|d: u64, c: u64|
                #[trigger] self.state_of(d, c) == if c == conn {
                    SyncState::Closed
                } else {
                    pre.state_of(d, c)
                } by {
                if c == conn {
                    self.lemma_untracked(d, c);
                } else if pre.tracks(d, c) {
                    let j = choose|j: int|
                        0 <= j < pre.entries@.len() && pre.entries@[j].doc == d
                            && pre.entries@[j].conn == c;
                    pre.lemma_state_at(j);
                    let k = choose|k: int| 0 <= k < from.len() && #[trigger] from[k] == j;
                    self.lemma_state_at(k);
                } else {
                    assert forall|k: int|
                        0 <= k < self.entries@.len() implies !(self.entries@[k].doc == d
                        && self.entries@[k].conn == c) by {
                        assert(self.entries@[k] == pre.entries@[from[k]]);
                    }
                    self.lemma_untracked(d, c);
                }
            }
        }
        dropped
    }
}


/// `after` is `before` with `event` applied to the pairs of document `doc` and each
/// of the connections `conns`, and `sent` holds one notification, tagged with its
/// connection, for each transition that asked for one (with the document's current
/// `text`, or the edit `change`).
pub open spec fn fanned_out(
    before: SyncCoordinator,
    after: SyncCoordinator,
    doc: u64,
    conns: Seq<u64>,
    event: SyncEvent,
    text: Seq<char>,
    change: TextChange,
    sent: Seq<(u64, Notification)>,
) -> bool {
    &&& forall|c: u64|
        conns.contains(c) ==> #[trigger] after.state_of(doc, c) == transition(
            before.state_of(doc, c),
            event,
        ).0
    &&& forall|d: u64, c: u64|
        !(d == doc && conns.contains(c)) ==> #[trigger] after.state_of(d, c) == before.state_of(d, c)
    &&& forall|k: int|
        0 <= k < sent.len() ==> conns.contains(#[trigger] sent[k].0) && carries(
            Some(sent[k].1),
            transition(before.state_of(doc, sent[k].0), event).1,
            doc,
            text,
            Some(change),
        )
    &&& forall|c: u64|
        conns.contains(c) && (#[trigger] transition(before.state_of(doc, c), event).1) is Some
            ==> exists|k: int| 0 <= k < sent.len() && sent[k].0 == c
    &&& forall|a: int, b: int| 0 <= a < b < sent.len() ==> sent[a].0 != sent[b].0
}

impl SyncCoordinator {
    fn drive(&mut self, doc: u64, conn: u64, event: SyncEvent, text: &String, change: &TextChange) -> (r:
        Option<Notification>)
        requires
            old(self).wf(),
        ensures
            final(self).wf(),
            final(self).state_of(doc, conn) == transition(old(self).state_of(doc, conn), event).0,
            carries(r, transition(old(self).state_of(doc, conn), event).1, doc, text@, Some(*change)),
            forall|d: u64, c: u64|
                !(d == doc && c == conn) ==> #[trigger] final(self).state_of(d, c) == old(
                    self,
                ).state_of(d, c),
            forall|d: u64| #[trigger] final(self).enabled(d) == old(self).enabled(d),
    {
        let step = self.state(doc, conn).apply(event);
        self.store(doc, conn, step.0);
        match step.1 {
            Some(SyncMessage::Open) => Some(Notification::DidOpen { doc, version: 0, text: text.clone() }),
            Some(SyncMessage::Change(version)) => Some(
                Notification::DidChange { doc, version, change: change.copy() },
            ),
            Some(SyncMessage::Close) => Some(Notification::DidClose { doc }),
            None => None,
        }
    }

    /// Applies `event` to document `doc` on every connection of `conns` (the
    /// connections that serve the document's language, each once), and returns the
    /// notification, if any, that each connection must be sent.
    pub fn fan_out(
        &mut self,
        doc: u64,
        conns: &Vec<u64>,
        event: SyncEvent,
        text: &String,
        change: &TextChange,
    ) -> (r: Vec<(u64, Notification)>)
        requires
            old(self).wf(),
            conns@.no_duplicates(),
        ensures
            final(self).wf(),
            fanned_out(*old(self), *final(self), doc, conns@, event, text@, *change, r@),
            forall|d: u64| #[trigger] final(self).enabled(d) == old(self).enabled(d),
    {
        let ghost pre = *self;
        let mut sent: Vec<(u64, Notification)> = Vec::new();
        let mut i: usize = 0;
        while i < conns.len()
            invariant
                self.wf(),
                conns@.no_duplicates(),
                0 <= i <= conns@.len(),
                fanned_out(pre, *self, doc, conns@.take(i as int), event, text@, *change, sent@),
                forall|d: u64| #[trigger] self.enabled(d) == pre.enabled(d),
            decreases conns@.len() - i,
        {
            let c = conns[i];
            let ghost mid = *self;
            let ghost done = conns@.take(i as int);
            let ghost next = conns@.take(i + 1);
            let ghost before_sent = sent@;
            assert(next == done.push(c));
            assert(!done.contains(c)) by {
                if done.contains(c) {
                    let j = choose|j: int| 0 <= j < done.len() && done[j] == c;
                    assert(conns@[j] == conns@[i as int]);
                }
            }
            assert(mid.state_of(doc, c) == pre.state_of(doc, c));
            let n = self.drive(doc, c, event, text, change);
            match n {
                Some(n) => {
                    sent.push((c, n));
                },
                None => {},
            }
            proof {
                assert forall|x: u64| next.contains(x) implies #[trigger] self.state_of(doc, x)
                    == transition(pre.state_of(doc, x), event).0 by {
                    if x != c {
                        assert(done.contains(x)) by {
                            let j = choose|j: int| 0 <= j < next.len() && next[j] == x;
                            assert(done[j] == x);
                        }
                    }
                }
                assert forall|d: u64, x: u64|
                    !(d == doc && next.contains(x)) implies #[trigger] self.state_of(d, x)
                    == pre.state_of(d, x) by {
                    if d == doc {
                        assert(!done.contains(x)) by {
                            if done.contains(x) {
                                let j = choose|j: int| 0 <= j < done.len() && done[j] == x;
                                assert(next[j] == x);
                            }
                        }
                        assert(x != c) by {
                            assert(next[i as int] == c);
                        }
                    }
                }
                assert forall|k: int| 0 <= k < sent@.len() implies next.contains(
                    #[trigger] sent@[k].0,
                ) && carries(
                    Some(sent@[k].1),
                    transition(pre.state_of(doc, sent@[k].0), event).1,
                    doc,
                    text@,
                    Some(*change),
                ) by {
                    if k < before_sent.len() {
                        assert(sent@[k] == before_sent[k]);
                        let x = sent@[k].0;
                        let j = choose|j: int| 0 <= j < done.len() && done[j] == x;
                        assert(next[j] == x);
                    } else {
                        assert(next[i as int] == c);
                    }
                }
                assert forall|x: u64|
                    next.contains(x) && (#[trigger] transition(pre.state_of(doc, x), event).1) is Some
                        implies exists|k: int| 0 <= k < sent@.len() && sent@[k].0 == x by {
                    if x == c {
                        assert(sent@[sent@.len() - 1].0 == c);
                    } else {
                        assert(done.contains(x)) by {
                            let j = choose|j: int| 0 <= j < next.len() && next[j] == x;
                            assert(done[j] == x);
                        }
                        let k = choose|k: int| 0 <= k < before_sent.len() && before_sent[k].0 == x;
                        assert(sent@[k] == before_sent[k]);
                    }
                }
                assert forall|a: int, b: int| 0 <= a < b < sent@.len() implies sent@[a].0
                    != sent@[b].0 by {
                    if b >= before_sent.len() {
                        assert(sent@[a] == before_sent[a]);
                        let x = before_sent[a].0;
                        assert(done.contains(x));
                    } else {
                        assert(sent@[a] == before_sent[a]);
                        assert(sent@[b] == before_sent[b]);
                    }
                }
            }
            i = i + 1;
        }
        assert(conns@.take(i as int) =~= conns@);
        sent
    }
}

} // verus!
