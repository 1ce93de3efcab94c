//! One live server connection: its ordered queue of outbound frames, the inbound
//! byte stream it reads frames from, and its table of outstanding requests.
use vstd::prelude::*;
use crate::framing::{encode_frame, frame, frame_len, frame_payload, frame_status, FrameDecoder, FrameStatus, FramingError};
use crate::pending::{PendingRequest, PendingTable, resolve};

verus! {

/// The state that one connection to a server process owns.
pub struct ConnectionActor {
    outbox: Vec<Vec<u8>>,
    inbound: FrameDecoder,
    pending: PendingTable,
    lost: bool,
}

impl ConnectionActor {
    /// The frames queued for writing, oldest first.
    pub closed spec fn queued(&self) -> Seq<Seq<u8>> {
        self.outbox@.map_values(|f: Vec<u8>| f@)
    }

    /// The bytes received and not yet read as a frame.
    pub closed spec fn received(&self) -> Seq<u8> {
        self.inbound@
    }

    /// The outstanding requests, by id.
    pub closed spec fn requests(&self) -> Map<u64, PendingRequest> {
        self.pending@
    }

    /// The id that the next request will get.
    pub closed spec fn next_id(&self) -> u64 {
        self.pending.next()
    }

    /// How long a request may wait for its response, in milliseconds.
    pub closed spec fn timeout(&self) -> u64 {
        self.pending.timeout()
    }

    /// Whether the connection was torn down.
    pub closed spec fn is_lost(&self) -> bool {
        self.lost
    }

    /// The table of outstanding requests is well formed.
    pub closed spec fn wf(&self) -> bool {
        self.pending.wf()
    }

    /// A fresh connection whose requests time out after `timeout_ms`.
    pub fn new(timeout_ms: u64) -> (r: ConnectionActor)
        ensures
            r.wf(),
            r.queued() == Seq::<Seq<u8>>::empty(),
            r.received() == Seq::<u8>::empty(),
            r.requests() == Map::<u64, PendingRequest>::empty(),
            r.next_id() == 0,
            !r.is_lost(),
    {
        let r = ConnectionActor {
            outbox: Vec::new(),
            inbound: FrameDecoder::new(),
            pending: PendingTable::new(timeout_ms),
            lost: false,
        };
        assert(r.queued() =~= Seq::<Seq<u8>>::empty());
        r
    }

    /// Queues `payload` as a notification: its frame goes after every frame queued
    /// before it, so each document's messages leave in the order they were sent.
    pub fn send_notification(&mut self, payload: &[u8])
        ensures
            final(self).queued() == old(self).queued().push(frame(payload@)),
            final(self).received() == old(self).received(),
            final(self).requests() == old(self).requests(),
            final(self).next_id() == old(self).next_id(),
            final(self).is_lost() == old(self).is_lost(),
            final(self).wf() == old(self).wf(),
    {
        let f = encode_frame(payload);
        self.outbox.push(f);
        assert(self.queued() =~= old(self).queued().push(frame(payload@)));
    }

    /// Registers a request for `method` at time `now` and returns the id that its
    /// payload must carry; the payload is then queued with `send_notification`.
    /// `None` once the id counter is spent.
    pub fn begin_request(&mut self, method: String, now: u64) -> (r: Option<u64>)
        requires
            old(self).wf(),
        ensures
            final(self).wf(),
            final(self).queued() == old(self).queued(),
            final(self).received() == old(self).received(),
            final(self).is_lost() == old(self).is_lost(),
            old(self).next_id() < u64::MAX ==> r == Some(old(self).next_id()),
            r is Some ==> !old(self).requests().contains_key(r->0) && final(self).requests()
                == old(self).requests().insert(
                r->0,
                PendingRequest { id: r->0, method, deadline: now.saturating_add(old(self).timeout()) },
            ),
            r is None ==> final(self).requests() == old(self).requests(),
    {
        self.pending.register(method, now)
    }

    /// Takes every queued frame, oldest first, leaving the queue empty.
    pub fn take_outbox(&mut self) -> (r: Vec<Vec<u8>>)
        ensures
            r@.map_values(|f: Vec<u8>| f@) == old(self).queued(),
            final(self).queued() == Seq::<Seq<u8>>::empty(),
            final(self).received() == old(self).received(),
            final(self).requests() == old(self).requests(),
            final(self).next_id() == old(self).next_id(),
            final(self).is_lost() == old(self).is_lost(),
            final(self).wf() == old(self).wf(),
    {
        let mut r: Vec<Vec<u8>> = Vec::new();
        core::mem::swap(&mut self.outbox, &mut r);
        assert(self.queued() =~= Seq::<Seq<u8>>::empty());
        r
    }

    /// Appends bytes read from the server's output.
    pub fn receive(&mut self, bytes: &[u8])
        ensures
            final(self).received() == old(self).received() + bytes@,
            final(self).queued() == old(self).queued(),
            final(self).requests() == old(self).requests(),
            final(self).next_id() == old(self).next_id(),
            final(self).is_lost() == old(self).is_lost(),
            final(self).wf() == old(self).wf(),
    {
        self.inbound.feed(bytes);
    }

    /// Reads the next inbound message. A malformed frame loses the rest of the
    /// stream, so the connection is torn down: its outstanding requests are all
    /// resolved as lost and their ids are returned in the error.
    pub fn next_inbound(&mut self) -> (r: Result<Option<Vec<u8>>, Vec<u64>>)
        requires
            old(self).wf(),
        ensures
            final(self).wf(),
            final(self).queued() == old(self).queued(),
            final(self).next_id() == old(self).next_id(),
            match frame_status(old(self).received()) {
                FrameStatus::Malformed => r is Err && final(self).is_lost() && final(self).requests()
                    == Map::<u64, PendingRequest>::empty() && (forall|id: u64| #[trigger] r->Err_0@.contains(id)
                    == old(self).requests().contains_key(id)),
                FrameStatus::Incomplete => r matches Ok(None) && final(self).received() == old(
                    self,
                ).received() && final(self).requests() == old(self).requests() && final(self).is_lost()
                    == old(self).is_lost(),
                FrameStatus::Complete => r matches Ok(Some(p)) && p@ == frame_payload(
                    old(self).received(),
                ) && final(self).received() == old(self).received().skip(
                    frame_len(old(self).received()) as int,
                ) && final(self).requests() == old(self).requests() && final(self).is_lost() == old(
                    self,
                ).is_lost(),
            },
    {
        match self.inbound.next_frame() {
            Ok(m) => Ok(m),
            Err(FramingError) => Err(self.tear_down()),
        }
    }

    /// The response to request `id` arrived: the request is resolved and returned,
    /// once; a response to an unknown or already resolved id is discarded.
    pub fn on_response(&mut self, id: u64) -> (r: Option<PendingRequest>)
        requires
            old(self).wf(),
        ensures
            final(self).wf(),
            (final(self).requests(), r) == resolve(old(self).requests(), id),
            final(self).queued() == old(self).queued(),
            final(self).received() == old(self).received(),
            final(self).next_id() == old(self).next_id(),
            final(self).is_lost() == old(self).is_lost(),
    {
        self.pending.on_response(id)
    }

    /// At time `now`, resolves every request past its deadline as timed out and
    /// returns their ids. The connection itself stays up.
    pub fn expire(&mut self, now: u64) -> (r: Vec<u64>)
        requires
            old(self).wf(),
        ensures
            final(self).wf(),
            forall|id: u64|
                #[trigger] final(self).requests().contains_key(id) == (old(self).requests().contains_key(id)
                    && old(self).requests()[id].deadline > now),
            forall|id: u64|
                #[trigger] final(self).requests().contains_key(id) ==> final(self).requests()[id]
                    == old(self).requests()[id],
            forall|id: u64|
                #[trigger] r@.contains(id) == (old(self).requests().contains_key(id)
                    && old(self).requests()[id].deadline <= now),
            final(self).queued() == old(self).queued(),
            final(self).received() == old(self).received(),
            final(self).is_lost() == old(self).is_lost(),
    {
        self.pending.expire(now)
    }

    /// Tears the connection down: every outstanding request is resolved as lost,
    /// and their ids are returned.
    pub fn tear_down(&mut self) -> (r: Vec<u64>)
        requires
            old(self).wf(),
        ensures
            final(self).wf(),
            final(self).is_lost(),
            final(self).requests() == Map::<u64, PendingRequest>::empty(),
            forall|id: u64| #[trigger] r@.contains(id) == old(self).requests().contains_key(id),
            r@.no_duplicates(),
            final(self).queued() == old(self).queued(),
            final(self).received() == old(self).received(),
            final(self).next_id() == old(self).next_id(),
    {
        self.lost = true;
        self.pending.tear_down()
    }
}

} // verus!
