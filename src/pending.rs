//! The requests that one connection has sent and not yet seen resolved.
//!
//! Ids are allocated from a per-connection counter, so no two outstanding requests
//! share one; a request leaves the table exactly once, by its response, by timing
//! out, or by the connection's teardown.
use vstd::prelude::*;

verus! {

/// A request waiting for its response.
#[derive(Debug)]
pub struct PendingRequest {
    /// The request id, unique on its connection.
    pub id: u64,
    /// The request's method name.
    pub method: String,
    /// The time (milliseconds) at which the request times out.
    pub deadline: u64,
}

/// The outstanding requests of one connection.
pub struct PendingTable {
    requests: Vec<PendingRequest>,
    next_id: u64,
    timeout_ms: u64,
}

/// The table after the response to `id` arrived: the request leaves it, and is
/// handed to its waiter if it was outstanding.
pub open spec fn resolve(m: Map<u64, PendingRequest>, id: u64) -> (Map<u64, PendingRequest>, Option<PendingRequest>) {
    if m.contains_key(id) {
        (m.remove(id), Some(m[id]))
    } else {
        (m, None)
    }
}

impl PendingTable {
    /// Ids are unique and all below the next id to allocate.
    pub closed spec fn wf(&self) -> bool {
        &&& forall|i: int, j: int|
            0 <= i < j < self.requests@.len() ==> self.requests@[i].id != self.requests@[j].id
        &&& forall|i: int| 0 <= i < self.requests@.len() ==> self.requests@[i].id < self.next_id
    }

    /// The outstanding requests, by id.
    pub closed spec fn view(&self) -> Map<u64, PendingRequest> {
        Map::new(
            |id: u64| exists|i: int| 0 <= i < self.requests@.len() && self.requests@[i].id == id,
            |id: u64|
                self.requests@[choose|i: int|
                    0 <= i < self.requests@.len() && self.requests@[i].id == id],
        )
    }

    /// The id that the next request will get.
    pub closed spec fn next(&self) -> u64 {
        self.next_id
    }

    /// How long a request may wait for its response, in milliseconds.
    pub closed spec fn timeout(&self) -> u64 {
        self.timeout_ms
    }

    proof fn lemma_entry(&self, i: int)
        requires
            self.wf(),
            0 <= i < self.requests@.len(),
        ensures
            self@.contains_key(self.requests@[i].id),
            self@[self.requests@[i].id] == self.requests@[i],
    {
        let id = self.requests@[i].id;
        let j = choose|j: int| 0 <= j < self.requests@.len() && self.requests@[j].id == id;
        if j != i {
            if j < i {
                assert(self.requests@[j].id != self.requests@[i].id);
            } else {
                assert(self.requests@[i].id != self.requests@[j].id);
            }
        }
    }

    /// An empty table whose requests time out after `timeout_ms`.
    pub fn new(timeout_ms: u64) -> (r: PendingTable)
        ensures
            r.wf(),
            r@ == Map::<u64, PendingRequest>::empty(),
            r.next() == 0,
            r.timeout() == timeout_ms,
    {
        let r = PendingTable { requests: Vec::new(), next_id: 0, timeout_ms };
        assert(r@ =~= Map::<u64, PendingRequest>::empty());
        r
    }

    /// How many requests are outstanding.
    pub fn len(&self) -> (r: usize)
        requires
            self.wf(),
        ensures
            r == self@.dom().len(),
    {
        proof {
            self.lemma_dom_len();
        }
        self.requests.len()
    }

    proof fn lemma_dom_len(&self)
        requires
            self.wf(),
        ensures
            self@.dom().len() == self.requests@.len(),
            self@.dom() == self.requests@.map_values(|r: PendingRequest| r.id).to_set(),
    {
        let ids = self.requests@.map_values(|r: PendingRequest| r.id);
        assert forall|id: u64| self@.dom().contains(id) == ids.to_set().contains(id) by {
            if self@.dom().contains(id) {
                let i = choose|i: int| 0 <= i < self.requests@.len() && self.requests@[i].id == id;
                assert(ids[i] == id);
            }
            if ids.to_set().contains(id) {
                let i = choose|i: int| 0 <= i < ids.len() && ids[i] == id;
                assert(self.requests@[i].id == id);
            }
        }
        assert(self@.dom() =~= ids.to_set());
        assert(ids.no_duplicates());
        ids.unique_seq_to_set();
    }

    /// Registers a request for `method` sent at time `now`, and returns its id: the
    /// next one of the counter, which no outstanding request holds. `None` once the
    /// counter is spent.
    pub fn register(&mut self, method: String, now: u64) -> (r: Option<u64>)
        requires
            old(self).wf(),
        ensures
            final(self).wf(),
            final(self).timeout() == old(self).timeout(),
            old(self).next() < u64::MAX ==> r == Some(old(self).next()),
            old(self).next() == u64::MAX ==> r is None,
            r is None ==> *final(self) == *old(self),
            r is Some ==> {
                &&& !old(self)@.contains_key(r->0)
                &&& final(self).next() == r->0 + 1
                &&& final(self)@ == old(self)@.insert(
                    r->0,
                    PendingRequest { id: r->0, method, deadline: now.saturating_add(old(self).timeout()) },
                )
            },
    {
        if self.next_id == u64::MAX {
            return None;
        }
        let id = self.next_id;
        let ghost pre = *self;
        let deadline = now.saturating_add(self.timeout_ms);
        let ghost req = PendingRequest { id, method, deadline };
        self.requests.push(PendingRequest { id, method, deadline });
        self.next_id = id + 1;
        proof {
            let n = pre.requests@.len() as int;
            assert(self.requests@[n] == req);
            assert forall|i: int| 0 <= i < n implies self.requests@[i] == pre.requests@[i] by {}
            assert(!pre@.contains_key(id));
            self.lemma_entry(n);
            assert forall|k: u64| #[trigger] self@.contains_key(k) == pre@.insert(id, req).contains_key(k) by {
                if pre@.contains_key(k) {
                    let i = choose|i: int| 0 <= i < n && pre.requests@[i].id == k;
                    assert(self.requests@[i].id == k);
                }
            }
            assert forall|k: u64| self@.contains_key(k) implies #[trigger] self@[k] == pre@.insert(id, req)[k] by {
                if k != id {
                    let i = choose|i: int| 0 <= i < self.requests@.len() && self.requests@[i].id == k;
                    self.lemma_entry(i);
                    pre.lemma_entry(i);
                }
            }
            assert(self@ =~= pre@.insert(id, req));
        }
        Some(id)
    }

    /// The response to `id` arrived: the waiting request leaves the table and is
    /// returned, to be handed to its one waiter. A response to an unknown or
    /// already resolved id finds nothing and changes nothing.
    pub fn on_response(&mut self, id: u64) -> (r: Option<PendingRequest>)
        requires
            old(self).wf(),
        ensures
            final(self).wf(),
            final(self).next() == old(self).next(),
            final(self).timeout() == old(self).timeout(),
            (final(self)@, r) == resolve(old(self)@, id),
    {
        let ghost pre = *self;
        let mut i: usize = 0;
        while i < self.requests.len()
            invariant
                *self == pre,
                pre == *old(self),
                pre.wf(),
                0 <= i <= self.requests@.len(),
                forall|k: int| 0 <= k < i ==> self.requests@[k].id != id,
            decreases self.requests@.len() - i,
        {
            if self.requests[i].id == id {
                let req = self.requests.remove(i);
                proof {
                    pre.lemma_entry(i as int);
                    assert forall|a: int, b: int|
                        0 <= a < b < self.requests@.len() implies self.requests@[a].id
                        != self.requests@[b].id by {
                        let a0 = if a < i { a } else { a + 1 };
                        let b0 = if b < i { b } else { b + 1 };
                        assert(self.requests@[a] == pre.requests@[a0]);
                        assert(self.requests@[b] == pre.requests@[b0]);
                    }
                    assert forall|a: int| 0 <= a < self.requests@.len() implies self.requests@[a].id
                        < self.next_id by {
                        let a0 = if a < i { a } else { a + 1 };
                        assert(self.requests@[a] == pre.requests@[a0]);
                    }
                    assert forall|k: u64| #[trigger] self@.contains_key(k) == pre@.remove(id).contains_key(k) by {
                        if self@.contains_key(k) {
                            let a = choose|a: int| 0 <= a < self.requests@.len() && self.requests@[a].id == k;
                            let a0 = if a < i { a } else { a + 1 };
                            assert(self.requests@[a] == pre.requests@[a0]);
                            assert(a0 != i);
                        }
                        if pre@.remove(id).contains_key(k) {
                            let a0 = choose|a: int| 0 <= a < pre.requests@.len() && pre.requests@[a].id == k;
                            let a = if a0 < i { a0 } else { a0 - 1 };
                            assert(self.requests@[a] == pre.requests@[a0]);
                        }
                    }
                    assert forall|k: u64| self@.contains_key(k) implies #[trigger] self@[k] == pre@.remove(id)[k] by {
                        let a = choose|a: int| 0 <= a < self.requests@.len() && self.requests@[a].id == k;
                        let a0 = if a < i { a } else { a + 1 };
                        assert(self.requests@[a] == pre.requests@[a0]);
                        self.lemma_entry(a);
                        pre.lemma_entry(a0);
                    }
                    assert(self@ =~= pre@.remove(id));
                }
                return Some(req);
            }
            i = i + 1;
        }
        None
    }
}

impl PendingTable {
    /// At time `now`, every request whose deadline has passed is resolved with
    /// `Timeout`: it leaves the table and its id is returned. The rest keep waiting.
    pub fn expire(&mut self, now: u64) -> (r: Vec<u64>)
        requires
            old(self).wf(),
        ensures
            final(self).wf(),
            final(self).next() == old(self).next(),
            final(self).timeout() == old(self).timeout(),
            forall|id: u64|
                #[trigger] final(self)@.contains_key(id) == (old(self)@.contains_key(id)
                    && old(self)@[id].deadline > now),
            forall|id: u64|
                #[trigger] final(self)@.contains_key(id) ==> final(self)@[id] == old(self)@[id],
            forall|id: u64|
                #[trigger] r@.contains(id) == (old(self)@.contains_key(id) && old(self)@[id].deadline
                    <= now),
            r@.no_duplicates(),
    {
        let ghost pre = *self;
        let mut kept: Vec<PendingRequest> = Vec::new();
        let mut expired: Vec<u64> = Vec::new();
        let ghost mut from: Seq<int> = Seq::empty();
        let ghost mut gone: Seq<int> = Seq::empty();
        let mut i: usize = 0;
        while i < self.requests.len()
            invariant
                *self == pre,
                pre.wf(),
                0 <= i <= self.requests@.len(),
                kept@.len() == from.len(),
                expired@.len() == gone.len(),
                forall|k: int|
                    0 <= k < kept@.len() ==> 0 <= #[trigger] from[k] < i && kept@[k]
                        == self.requests@[from[k]] && kept@[k].deadline > now,
                forall|a: int, b: int| 0 <= a < b < from.len() ==> from[a] < from[b],
                forall|k: int|
                    0 <= k < expired@.len() ==> 0 <= #[trigger] gone[k] < i && expired@[k]
                        == self.requests@[gone[k]].id && self.requests@[gone[k]].deadline <= now,
                forall|a: int, b: int| 0 <= a < b < gone.len() ==> gone[a] < gone[b],
                forall|j: int|
                    0 <= j < i && self.requests@[j].deadline > now ==> exists|k: int|
                        0 <= k < from.len() && #[trigger] from[k] == j,
                forall|j: int|
                    0 <= j < i && self.requests@[j].deadline <= now ==> exists|k: int|
                        0 <= k < gone.len() && #[trigger] gone[k] == j,
            decreases self.requests@.len() - i,
        {
            let e = &self.requests[i];
            if e.deadline > now {
                kept.push(PendingRequest { id: e.id, method: e.method.clone(), deadline: e.deadline });
                proof {
                    let ghost prev = from;
                    from = from.push(i as int);
                    assert forall|j: int|
                        0 <= j < i + 1 && self.requests@[j].deadline > now implies exists|k: int|
                        0 <= k < from.len() && #[trigger] from[k] == j by {
                        if j == i {
                            assert(from[from.len() - 1] == j);
                        } else {
                            let k = choose|k: int| 0 <= k < prev.len() && #[trigger] prev[k] == j;
                            assert(from[k] == j);
                        }
                    }
                }
            } else {
                expired.push(e.id);
                proof {
                    let ghost prev = gone;
                    gone = gone.push(i as int);
                    assert forall|j: int|
                        0 <= j < i + 1 && self.requests@[j].deadline <= now implies exists|k: int|
                        0 <= k < gone.len() && #[trigger] gone[k] == j by {
                        if j == i {
                            assert(gone[gone.len() - 1] == j);
                        } else {
                            let k = choose|k: int| 0 <= k < prev.len() && #[trigger] prev[k] == j;
                            assert(gone[k] == j);
                        }
                    }
                }
            }
            i = i + 1;
        }
        self.requests = kept;
        proof {
            assert forall|a: int, b: int|
                0 <= a < b < self.requests@.len() implies self.requests@[a].id
                != self.requests@[b].id by {
                assert(from[a] < from[b]);
            }
            assert forall|a: int| 0 <= a < self.requests@.len() implies self.requests@[a].id
                < self.next_id by {
                assert(self.requests@[a] == pre.requests@[from[a]]);
            }
            assert(self.wf());
            assert forall|id: u64|
                #[trigger] self@.contains_key(id) == (pre@.contains_key(id) && pre@[id].deadline
                    > now) by {
                if self@.contains_key(id) {
                    let a = choose|a: int| 0 <= a < self.requests@.len() && self.requests@[a].id == id;
                    pre.lemma_entry(from[a]);
                }
                if pre@.contains_key(id) && pre@[id].deadline > now {
                    let j = choose|j: int| 0 <= j < pre.requests@.len() && pre.requests@[j].id == id;
                    pre.lemma_entry(j);
                    let k = choose|k: int| 0 <= k < from.len() && #[trigger] from[k] == j;
                    assert(self.requests@[k].id == id);
                }
            }
            assert forall|id: u64| #[trigger] self@.contains_key(id) implies self@[id] == pre@[id] by {
                let a = choose|a: int| 0 <= a < self.requests@.len() && self.requests@[a].id == id;
                self.lemma_entry(a);
                pre.lemma_entry(from[a]);
            }
            assert forall|id: u64|
                #[trigger] expired@.contains(id) == (pre@.contains_key(id) && pre@[id].deadline
                    <= now) by {
                if expired@.contains(id) {
                    let k = choose|k: int| 0 <= k < expired@.len() && expired@[k] == id;
                    pre.lemma_entry(gone[k]);
                }
                if pre@.contains_key(id) && pre@[id].deadline <= now {
                    let j = choose|j: int| 0 <= j < pre.requests@.len() && pre.requests@[j].id == id;
                    pre.lemma_entry(j);
                    let k = choose|k: int| 0 <= k < gone.len() && #[trigger] gone[k] == j;
                    assert(expired@[k] == id);
                }
            }
            assert forall|a: int, b: int|
                0 <= a < expired@.len() && 0 <= b < expired@.len() && a != b implies expired@[a]
                != expired@[b] by {
                if a < b {
                    assert(gone[a] < gone[b]);
                } else {
                    assert(gone[b] < gone[a]);
                }
            }
        }
        expired
    }

    /// The connection was torn down: every outstanding request is resolved with
    /// `ConnectionLost`. Returns their ids; the table is left empty.
    pub fn tear_down(&mut self) -> (r: Vec<u64>)
        requires
            old(self).wf(),
        ensures
            final(self).wf(),
            final(self).next() == old(self).next(),
            final(self).timeout() == old(self).timeout(),
            final(self)@ == Map::<u64, PendingRequest>::empty(),
            forall|id: u64| #[trigger] r@.contains(id) == old(self)@.contains_key(id),
            r@.no_duplicates(),
    {
        let ghost pre = *self;
        let mut ids: Vec<u64> = Vec::new();
        let mut i: usize = 0;
        while i < self.requests.len()
            invariant
                *self == pre,
                pre.wf(),
                0 <= i <= self.requests@.len(),
                ids@.len() == i,
                forall|k: int| 0 <= k < i ==> ids@[k] == #[trigger] self.requests@[k].id,
            decreases self.requests@.len() - i,
        {
            ids.push(self.requests[i].id);
            i = i + 1;
        }
        self.requests = Vec::new();
        proof {
            assert(self@ =~= Map::<u64, PendingRequest>::empty());
            assert forall|id: u64| #[trigger] ids@.contains(id) == pre@.contains_key(id) by {
                if ids@.contains(id) {
                    let k = choose|k: int| 0 <= k < ids@.len() && ids@[k] == id;
                    pre.lemma_entry(k);
                }
                if pre@.contains_key(id) {
                    let j = choose|j: int| 0 <= j < pre.requests@.len() && pre.requests@[j].id == id;
                    assert(ids@[j] == id);
                }
            }
            assert forall|a: int, b: int|
                0 <= a < ids@.len() && 0 <= b < ids@.len() && a != b implies ids@[a] != ids@[b] by {
                assert(ids@[a] == pre.requests@[a].id);
                assert(ids@[b] == pre.requests@[b].id);
            }
        }
        ids
    }
}

/// Request/response correlation: the response to an outstanding request is handed
/// over exactly once, as that request, and leaves every other outstanding request
/// waiting; a second response with the same id finds nothing.
pub proof fn lemma_response_delivered_once(m: Map<u64, PendingRequest>, id: u64)
    requires
        m.contains_key(id),
    ensures
        resolve(m, id).1 == Some(m[id]),
        forall|other: u64|
            other != id ==> (#[trigger] resolve(m, id).0.contains_key(other) == m.contains_key(other)
                && (m.contains_key(other) ==> resolve(m, id).0[other] == m[other])),
        resolve(resolve(m, id).0, id).1 is None,
        resolve(resolve(m, id).0, id).0 == resolve(m, id).0,
{
}

} // verus!
