//! The per-(document, connection) synchronization state machine.
//!
//! A language server may only be sent an incremental change for a document whose
//! content it is known to hold; every way back into that state goes through a
//! full-content open.
use vstd::prelude::*;

verus! {

/// What a language server knows of one document.
#[derive(Clone, Copy, Debug, PartialEq, Eq, Structural)]
pub enum SyncState {
    /// The server has no knowledge of the document.
    Closed,
    /// The server holds the document's content as of this many change notifications
    /// since the last open.
    Synced(u64),
    /// The server may hold outdated content; no incremental change may be sent
    /// until a full-content open has been sent again.
    Stale,
}

/// A document lifecycle event, as seen by one (document, connection) pair.
#[derive(Clone, Copy, Debug, PartialEq, Eq, Structural)]
pub enum SyncEvent {
    /// The editor opened the document; `enabled` tells whether the integration is
    /// enabled for it at that moment.
    Open { enabled: bool },
    /// The buffer was edited locally.
    Edit,
    /// The editor closed the document.
    Close,
    /// The integration was turned off for the document.
    Disable,
    /// The integration was turned back on for the document.
    Enable,
}

/// The message that a transition asks to send to the server.
#[derive(Clone, Copy, Debug, PartialEq, Eq, Structural)]
pub enum SyncMessage {
    /// A full-content open; it always announces version 0.
    Open,
    /// An incremental change announcing the given new version.
    Change(u64),
    /// A close notification.
    Close,
}

/// The transition table of one (document, connection) pair: the next state and the
/// message, if any, that must be sent to reach it.
///
/// A version counter that cannot grow any more forces the document out of sync, so
/// that the next enable re-opens it with its full content.
pub open spec fn transition(s: SyncState, e: SyncEvent) -> (SyncState, Option<SyncMessage>) {
    match s {
        SyncState::Closed => match e {
            SyncEvent::Open { enabled } => if enabled {
                (SyncState::Synced(0), Some(SyncMessage::Open))
            } else {
                (SyncState::Stale, None)
            },
            _ => (SyncState::Closed, None),
        },
        SyncState::Synced(v) => match e {
            SyncEvent::Edit => if v < u64::MAX {
                (SyncState::Synced((v + 1) as u64), Some(SyncMessage::Change((v + 1) as u64)))
            } else {
                (SyncState::Stale, None)
            },
            SyncEvent::Close => (SyncState::Closed, Some(SyncMessage::Close)),
            SyncEvent::Disable => (SyncState::Stale, None),
            _ => (s, None),
        },
        SyncState::Stale => match e {
            SyncEvent::Enable => (SyncState::Synced(0), Some(SyncMessage::Open)),
            SyncEvent::Close => (SyncState::Closed, None),
            _ => (SyncState::Stale, None),
        },
    }
}

/// The state reached from `s0` after `evs`, and the message (or none) that each
/// event produced, in order.
pub open spec fn run(s0: SyncState, evs: Seq<SyncEvent>) -> (SyncState, Seq<Option<SyncMessage>>)
    decreases evs.len(),
{
    if evs.len() == 0 {
        (s0, Seq::empty())
    } else {
        let prev = run(s0, evs.drop_last());
        let step = transition(prev.0, evs.last());
        (step.0, prev.1.push(step.1))
    }
}

/// How many change notifications a message sequence holds.
pub open spec fn count_changes(ms: Seq<Option<SyncMessage>>) -> nat
    decreases ms.len(),
{
    if ms.len() == 0 {
        0
    } else {
        count_changes(ms.drop_last()) + match ms.last() {
            Some(SyncMessage::Change(_)) => 1nat,
            _ => 0nat,
        }
    }
}

/// The open at index `i` licenses what is sent up to index `j` (exclusive): it was
/// an open, and between the two no event turned the integration off and no other
/// open or close was sent.
pub open spec fn licensed_by(
    evs: Seq<SyncEvent>,
    outs: Seq<Option<SyncMessage>>,
    i: int,
    j: int,
) -> bool {
    &&& 0 <= i < j <= outs.len()
    &&& outs[i] == Some(SyncMessage::Open)
    &&& forall|k: int|
        i < k < j ==> {
            &&& evs[k] != SyncEvent::Disable
            &&& outs[k] != Some(SyncMessage::Open)
            &&& outs[k] != Some(SyncMessage::Close)
        }
}

/// Every change or close in `outs` follows exactly one open with no toggle-off in
/// between, and each change announces the number of changes sent since that open.
pub open spec fn messages_well_ordered(evs: Seq<SyncEvent>, outs: Seq<Option<SyncMessage>>) -> bool {
    forall|j: int|
        0 <= j < outs.len() && (outs[j] == Some(SyncMessage::Close) || outs[j] is Some && outs[j]->0 is Change)
            ==> exists|i: int|
            #![trigger outs[i]]
            {
                &&& licensed_by(evs, outs, i, j)
                &&& (outs[j] is Some && outs[j]->0 is Change) ==> outs[j]->0->Change_0 == count_changes(
                    outs.subrange(i + 1, j + 1),
                )
            }
}

impl SyncState {
    /// Applies one event: returns the next state and the message to send, if any.
    pub fn apply(self, event: SyncEvent) -> (r: (SyncState, Option<SyncMessage>))
        ensures
            r == transition(self, event),
    {
        match self {
            SyncState::Closed => match event {
                SyncEvent::Open { enabled } => if enabled {
                    (SyncState::Synced(0), Some(SyncMessage::Open))
                } else {
                    (SyncState::Stale, None)
                },
                _ => (SyncState::Closed, None),
            },
            SyncState::Synced(v) => match event {
                SyncEvent::Edit => if v < u64::MAX {
                    (SyncState::Synced(v + 1), Some(SyncMessage::Change(v + 1)))
                } else {
                    (SyncState::Stale, None)
                },
                SyncEvent::Close => (SyncState::Closed, Some(SyncMessage::Close)),
                SyncEvent::Disable => (SyncState::Stale, None),
                _ => (self, None),
            },
            SyncState::Stale => match event {
                SyncEvent::Enable => (SyncState::Synced(0), Some(SyncMessage::Open)),
                SyncEvent::Close => (SyncState::Closed, None),
                _ => (SyncState::Stale, None),
            },
        }
    }

    /// Replays `events` from this state: the final state and the message (or none)
    /// that each event produced, in order.
    pub fn replay(self, events: &Vec<SyncEvent>) -> (r: (SyncState, Vec<Option<SyncMessage>>))
        ensures
            r.0 == run(self, events@).0,
            r.1@ == run(self, events@).1,
    {
        let mut state = self;
        let mut outs: Vec<Option<SyncMessage>> = Vec::new();
        let mut i: usize = 0;
        while i < events.len()
            invariant
                0 <= i <= events@.len(),
                state == run(self, events@.take(i as int)).0,
                outs@ == run(self, events@.take(i as int)).1,
            decreases events@.len() - i,
        {
            let ghost before = events@.take(i as int);
            let step = state.apply(events[i]);
            state = step.0;
            outs.push(step.1);
            i = i + 1;
            proof {
                assert(events@.take(i as int).drop_last() =~= before);
            }
        }
        proof {
            assert(events@.take(i as int) =~= events@);
        }
        (state, outs)
    }

    /// Whether an incremental change may be sent for the document in this state.
    pub fn accepts_changes(self) -> (r: bool)
        ensures
            r == (self is Synced),
    {
        match self {
            SyncState::Synced(_) => true,
            _ => false,
        }
    }
}


proof fn lemma_run_len(s0: SyncState, evs: Seq<SyncEvent>)
    ensures
        run(s0, evs).1.len() == evs.len(),
    decreases evs.len(),
{
    if evs.len() > 0 {
        lemma_run_len(s0, evs.drop_last());
    }
}

proof fn lemma_count_push(outs: Seq<Option<SyncMessage>>, a: int)
    requires
        0 <= a <= outs.len() - 1,
    ensures
        count_changes(outs.subrange(a, outs.len() as int)) == count_changes(
            outs.drop_last().subrange(a, outs.len() - 1),
        ) + match outs.last() {
            Some(SyncMessage::Change(_)) => 1nat,
            _ => 0nat,
        },
{
    let whole = outs.subrange(a, outs.len() as int);
    assert(whole.drop_last() =~= outs.drop_last().subrange(a, outs.len() - 1));
    assert(whole.last() == outs.last());
}

proof fn lemma_license_extends(
    evs: Seq<SyncEvent>,
    outs: Seq<Option<SyncMessage>>,
    i: int,
)
    requires
        evs.len() == outs.len() > 0,
        licensed_by(evs.drop_last(), outs.drop_last(), i, outs.len() - 1),
        evs.last() != SyncEvent::Disable,
        outs.last() != Some(SyncMessage::Open),
        outs.last() != Some(SyncMessage::Close),
    ensures
        licensed_by(evs, outs, i, outs.len() as int),
{
    let n = outs.len() - 1;
    assert forall|k: int| i < k < outs.len() implies {
        &&& evs[k] != SyncEvent::Disable
        &&& outs[k] != Some(SyncMessage::Open)
        &&& outs[k] != Some(SyncMessage::Close)
    } by {
        if k < n {
            assert(evs[k] == evs.drop_last()[k]);
            assert(outs[k] == outs.drop_last()[k]);
        }
    }
}

/// What holds of every run from a closed document: the messages so far are well
/// ordered, and a synced state is licensed by an open since which exactly its
/// version's worth of changes were sent.
proof fn lemma_run_invariant(evs: Seq<SyncEvent>)
    ensures
        run(SyncState::Closed, evs).1.len() == evs.len(),
        messages_well_ordered(evs, run(SyncState::Closed, evs).1),
        run(SyncState::Closed, evs).0 is Synced ==> exists|i: int|
            #![trigger run(SyncState::Closed, evs).1[i]]
            {
                &&& licensed_by(evs, run(SyncState::Closed, evs).1, i, evs.len() as int)
                &&& run(SyncState::Closed, evs).0->Synced_0 == count_changes(
                    run(SyncState::Closed, evs).1.subrange(i + 1, evs.len() as int),
                )
            },
    decreases evs.len(),
{
    lemma_run_len(SyncState::Closed, evs);
    if evs.len() == 0 {
        return;
    }
    let p = evs.drop_last();
    lemma_run_invariant(p);
    let prev = run(SyncState::Closed, p);
    let e = evs.last();
    let step = transition(prev.0, e);
    let outs = run(SyncState::Closed, evs).1;
    let n = p.len() as int;
    assert(outs == prev.1.push(step.1));
    assert(outs.drop_last() =~= prev.1);
    assert(evs.drop_last() == p);
    assert forall|j: int|
        0 <= j < outs.len() && (outs[j] == Some(SyncMessage::Close) || outs[j] is Some
            && outs[j]->0 is Change) implies exists|i: int|
        #![trigger outs[i]]
        {
            &&& licensed_by(evs, outs, i, j)
            &&& (outs[j] is Some && outs[j]->0 is Change) ==> outs[j]->0->Change_0
                == count_changes(outs.subrange(i + 1, j + 1))
        } by {
        if j < n {
            assert(outs[j] == prev.1[j]);
            let i = choose|i: int|
                #![trigger prev.1[i]]
                {
                    &&& licensed_by(p, prev.1, i, j)
                    &&& (prev.1[j] is Some && prev.1[j]->0 is Change) ==> prev.1[j]->0->Change_0
                        == count_changes(prev.1.subrange(i + 1, j + 1))
                };
            assert(outs.subrange(i + 1, j + 1) =~= prev.1.subrange(i + 1, j + 1));
            assert forall|k: int| i < k < j implies {
                &&& evs[k] != SyncEvent::Disable
                &&& outs[k] != Some(SyncMessage::Open)
                &&& outs[k] != Some(SyncMessage::Close)
            } by {
                assert(evs[k] == p[k]);
                assert(outs[k] == prev.1[k]);
            }
            assert(outs[i] == prev.1[i]);
            assert(licensed_by(evs, outs, i, j));
        } else {
            assert(j == n);
            assert(prev.0 is Synced);
            let i = choose|i: int|
                #![trigger prev.1[i]]
                {
                    &&& licensed_by(p, prev.1, i, n)
                    &&& prev.0->Synced_0 == count_changes(prev.1.subrange(i + 1, n))
                };
            assert forall|k: int| i < k < j implies {
                &&& evs[k] != SyncEvent::Disable
                &&& outs[k] != Some(SyncMessage::Open)
                &&& outs[k] != Some(SyncMessage::Close)
            } by {
                assert(evs[k] == p[k]);
                assert(outs[k] == prev.1[k]);
            }
            assert(outs[i] == prev.1[i]);
            assert(licensed_by(evs, outs, i, j));
            lemma_count_push(outs.subrange(0, n + 1), i + 1);
            assert(outs.subrange(0, n + 1) =~= outs);
            assert(outs.drop_last().subrange(i + 1, n) =~= prev.1.subrange(i + 1, n));
        }
    }
    let s = step.0;
    if s is Synced {
        if step.1 == Some(SyncMessage::Open) {
            assert(licensed_by(evs, outs, n, n + 1));
            assert(outs.subrange(n + 1, n + 1) =~= Seq::<Option<SyncMessage>>::empty());
            assert(outs[n] == Some(SyncMessage::Open));
        } else {
            assert(prev.0 is Synced);
            let i = choose|i: int|
                #![trigger prev.1[i]]
                {
                    &&& licensed_by(p, prev.1, i, n)
                    &&& prev.0->Synced_0 == count_changes(prev.1.subrange(i + 1, n))
                };
            lemma_license_extends(evs, outs, i);
            lemma_count_push(outs, i + 1);
            assert(outs.drop_last().subrange(i + 1, n) =~= prev.1.subrange(i + 1, n));
            assert(outs[i] == prev.1[i]);
        }
    }
}

/// For every sequence of open, edit, close and toggle events on one document
/// against one connection, starting from a closed document, each change or close
/// sent is preceded by exactly one open (which announces version 0) with no
/// toggle-off in between, and each change announces how many changes were sent
/// since that open.
pub proof fn lemma_messages_follow_open(evs: Seq<SyncEvent>)
    ensures
        messages_well_ordered(evs, run(SyncState::Closed, evs).1),
{
    lemma_run_invariant(evs);
}


/// The events of a toggle cycle: the integration is turned off, the buffer is
/// edited `n` times, and the integration is turned back on.
pub open spec fn toggle_cycle(n: nat) -> Seq<SyncEvent> {
    seq![SyncEvent::Disable] + Seq::new(n, |_k: int| SyncEvent::Edit) + seq![SyncEvent::Enable]
}

proof fn lemma_disabled_edits(v: u64, n: nat)
    ensures
        run(
            SyncState::Synced(v),
            seq![SyncEvent::Disable] + Seq::new(n, |_k: int| SyncEvent::Edit),
        ) == (SyncState::Stale, Seq::new(n + 1, |_k: int| None::<SyncMessage>)),
    decreases n,
{
    let evs = seq![SyncEvent::Disable] + Seq::new(n, |_k: int| SyncEvent::Edit);
    if n == 0 {
        assert(evs =~= seq![SyncEvent::Disable]);
        assert(evs.drop_last() =~= Seq::<SyncEvent>::empty());
        assert(run(SyncState::Synced(v), evs.drop_last()) == (SyncState::Synced(v), Seq::<Option<SyncMessage>>::empty()));
        assert(Seq::new(1, |_k: int| None::<SyncMessage>) =~= Seq::<Option<SyncMessage>>::empty().push(None));
    } else {
        lemma_disabled_edits(v, (n - 1) as nat);
        assert(evs.drop_last() =~= seq![SyncEvent::Disable] + Seq::new((n - 1) as nat, |_k: int| SyncEvent::Edit));
        assert(evs.last() == SyncEvent::Edit);
        assert(run(SyncState::Synced(v), evs) == (SyncState::Stale, Seq::new(n, |_k: int| None::<SyncMessage>).push(None)));
        assert(Seq::new(n + 1, |_k: int| None::<SyncMessage>) =~= Seq::new(n, |_k: int| None::<SyncMessage>).push(None));
    }
}

/// Turning the integration off for a synced document, editing it any number of
/// times, and turning it back on sends nothing until the re-enable, which sends
/// exactly one full-content open, and leaves the document synced at version 0:
/// none of the edits made meanwhile is believed to have been reported.
pub proof fn lemma_toggle_cycle_reopens(v: u64, n: nat)
    ensures
        run(SyncState::Synced(v), toggle_cycle(n)) == (
            SyncState::Synced(0),
            Seq::new(n + 1, |_k: int| None::<SyncMessage>).push(Some(SyncMessage::Open)),
        ),
{
    lemma_disabled_edits(v, n);
    let evs = toggle_cycle(n);
    assert(evs.drop_last() =~= seq![SyncEvent::Disable] + Seq::new(n, |_k: int| SyncEvent::Edit));
    assert(evs.last() == SyncEvent::Enable);
}


/// A change is only ever sent for a synced document, announcing the version after
/// the one it was synced at, and the document is then synced at that version.
pub proof fn lemma_change_only_when_synced(s: SyncState, e: SyncEvent)
    ensures
        transition(s, e).1 matches Some(SyncMessage::Change(w)) ==> s matches SyncState::Synced(v)
            && w == v + 1 && transition(s, e).0 == SyncState::Synced(w),
{
}

/// A document only enters the synced state by a full-content open, which announces
/// version 0; staying synced needs no message but a change.
pub proof fn lemma_sync_entered_by_open(s: SyncState, e: SyncEvent)
    ensures
        (transition(s, e).0 is Synced && !(s is Synced)) ==> transition(s, e).1 == Some(
            SyncMessage::Open,
        ) && transition(s, e).0 == SyncState::Synced(0),
        transition(s, e).1 == Some(SyncMessage::Open) ==> !(s is Synced),
{
}

} // verus!
