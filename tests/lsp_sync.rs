use fresh::connection::ConnectionActor;
use fresh::coordinator::{Notification, SyncCoordinator, TextChange};
use fresh::framing::{decode_frame, encode_frame, FrameDecoder};
use fresh::supervisor::{ConnectionState, EnsureOutcome, ServerSupervisor};
use fresh::sync_state::{SyncEvent, SyncMessage, SyncState};

fn change(start: usize, end: usize, text: &str) -> TextChange {
    TextChange { start, end, text: text.to_string() }
}

fn open_text(n: &Option<Notification>) -> Option<(u64, u64, String)> {
    match n {
        Some(Notification::DidOpen { doc, version, text }) => Some((*doc, *version, text.clone())),
        _ => None,
    }
}

fn change_version(n: &Option<Notification>) -> Option<u64> {
    match n {
        Some(Notification::DidChange { version, .. }) => Some(*version),
        _ => None,
    }
}

#[test]
fn toggle_scenario_sends_two_opens_and_three_changes() {
    let mut c = SyncCoordinator::new();
    let (doc, conn) = (1u64, 7u64);
    let mut sent: Vec<Notification> = Vec::new();

    let n = c.on_open(doc, conn, &"fn main() {}".to_string());
    assert_eq!(open_text(&n), Some((1, 0, "fn main() {}".to_string())));
    assert_eq!(c.state(doc, conn), SyncState::Synced(0));
    sent.extend(n);

    let n = c.on_edit(doc, conn, &change(0, 0, "a"));
    assert_eq!(change_version(&n), Some(1));
    sent.extend(n);
    let n = c.on_edit(doc, conn, &change(1, 1, "b"));
    assert_eq!(change_version(&n), Some(2));
    sent.extend(n);
    assert_eq!(c.state(doc, conn), SyncState::Synced(2));

    let n = c.on_toggle(doc, conn, false, &"abfn main() {}".to_string());
    assert!(n.is_none());
    assert_eq!(c.state(doc, conn), SyncState::Stale);

    let n = c.on_edit(doc, conn, &change(2, 2, "c"));
    assert!(n.is_none());
    assert_eq!(c.state(doc, conn), SyncState::Stale);

    let n = c.on_toggle(doc, conn, true, &"abcfn main() {}".to_string());
    assert_eq!(open_text(&n), Some((1, 0, "abcfn main() {}".to_string())));
    assert_eq!(c.state(doc, conn), SyncState::Synced(0));
    sent.extend(n);

    let n = c.on_edit(doc, conn, &change(3, 3, "d"));
    assert_eq!(change_version(&n), Some(1));
    assert_eq!(c.state(doc, conn), SyncState::Synced(1));
    sent.extend(n);

    assert_eq!(sent.len(), 5);
    let opens = sent.iter().filter(|m| matches!(m, Notification::DidOpen { .. })).count();
    assert_eq!(opens, 2);
}

#[test]
fn replayed_toggle_scenario_matches_the_table() {
    let events = vec![
        SyncEvent::Open { enabled: true },
        SyncEvent::Edit,
        SyncEvent::Edit,
        SyncEvent::Disable,
        SyncEvent::Edit,
        SyncEvent::Enable,
        SyncEvent::Edit,
    ];
    let (state, outs) = SyncState::Closed.replay(&events);
    assert_eq!(state, SyncState::Synced(1));
    assert_eq!(
        outs,
        vec![
            Some(SyncMessage::Open),
            Some(SyncMessage::Change(1)),
            Some(SyncMessage::Change(2)),
            None,
            None,
            Some(SyncMessage::Open),
            Some(SyncMessage::Change(1)),
        ]
    );
}

#[test]
fn toggle_cycle_with_many_edits_reopens_once() {
    let mut events = vec![SyncEvent::Disable];
    for _ in 0..5 {
        events.push(SyncEvent::Edit);
    }
    events.push(SyncEvent::Enable);
    let (state, outs) = SyncState::Synced(9).replay(&events);
    assert_eq!(state, SyncState::Synced(0));
    assert_eq!(outs.iter().filter(|m| m.is_some()).count(), 1);
    assert_eq!(outs.last(), Some(&Some(SyncMessage::Open)));
}

#[test]
fn close_and_reopen_resets_versions() {
    let events = vec![
        SyncEvent::Open { enabled: true },
        SyncEvent::Edit,
        SyncEvent::Close,
        SyncEvent::Edit,
        SyncEvent::Open { enabled: true },
        SyncEvent::Edit,
    ];
    let (state, outs) = SyncState::Closed.replay(&events);
    assert_eq!(state, SyncState::Synced(1));
    assert_eq!(
        outs,
        vec![
            Some(SyncMessage::Open),
            Some(SyncMessage::Change(1)),
            Some(SyncMessage::Close),
            None,
            Some(SyncMessage::Open),
            Some(SyncMessage::Change(1)),
        ]
    );
}

#[test]
fn stale_close_sends_nothing_and_open_while_disabled_is_stale() {
    assert_eq!(SyncState::Stale.apply(SyncEvent::Close), (SyncState::Closed, None));
    assert_eq!(
        SyncState::Closed.apply(SyncEvent::Open { enabled: false }),
        (SyncState::Stale, None)
    );
    assert_eq!(SyncState::Closed.apply(SyncEvent::Edit), (SyncState::Closed, None));
    assert_eq!(SyncState::Synced(u64::MAX).apply(SyncEvent::Edit), (SyncState::Stale, None));
    assert!(SyncState::Synced(3).accepts_changes());
    assert!(!SyncState::Stale.accepts_changes());
}

#[test]
fn coordinator_open_while_disabled_then_enable_sends_current_text() {
    let mut c = SyncCoordinator::new();
    assert!(c.on_toggle(5, 1, false, &"x".to_string()).is_none());
    assert!(!c.is_enabled(5));
    assert!(c.on_open(5, 1, &"hello".to_string()).is_none());
    assert_eq!(c.state(5, 1), SyncState::Stale);
    let n = c.on_toggle(5, 1, true, &"hello world".to_string());
    assert_eq!(open_text(&n), Some((5, 0, "hello world".to_string())));
    assert!(c.is_enabled(5));
    let n = c.on_close(5, 1);
    assert!(matches!(n, Some(Notification::DidClose { doc: 5 })));
    assert_eq!(c.state(5, 1), SyncState::Closed);
}

#[test]
fn pairs_on_two_connections_evolve_independently() {
    let mut c = SyncCoordinator::new();
    c.on_open(1, 10, &"t".to_string());
    c.on_open(1, 20, &"t".to_string());
    c.on_edit(1, 10, &change(0, 1, "u"));
    assert_eq!(c.state(1, 10), SyncState::Synced(1));
    assert_eq!(c.state(1, 20), SyncState::Synced(0));
    c.on_close(1, 20);
    assert_eq!(c.state(1, 10), SyncState::Synced(1));
    assert_eq!(c.state(1, 20), SyncState::Closed);
}

#[test]
fn crash_purges_every_entry_of_the_connection() {
    let mut c = SyncCoordinator::new();
    for doc in 0..3u64 {
        c.on_open(doc, 4, &"x".to_string());
    }
    c.on_open(0, 5, &"x".to_string());
    c.on_toggle(1, 4, false, &"x".to_string());
    assert_eq!(c.purge_connection(4), 3);
    for doc in 0..3u64 {
        assert_eq!(c.state(doc, 4), SyncState::Closed);
    }
    assert_eq!(c.state(0, 5), SyncState::Synced(0));
    assert_eq!(c.purge_connection(4), 0);
}

#[test]
fn crash_schedules_backoff_and_defers_early_retry() {
    let mut s = ServerSupervisor::new(5);
    assert_eq!(s.ensure_running(0), EnsureOutcome::Spawn(0));
    assert_eq!(s.ensure_running(10), EnsureOutcome::Starting(0));
    s.on_started(0);
    assert_eq!(s.state, ConnectionState::Running(0));
    assert_eq!(s.ensure_running(20), EnsureOutcome::Existing(0));

    assert!(s.on_failure(0, 1000));
    assert_eq!(s.state, ConnectionState::Crashed);
    assert_eq!(s.deadline, 2000);
    assert_eq!(s.ensure_running(1500), EnsureOutcome::Deferred(2000));
    assert_eq!(s.manual_retry(1999), EnsureOutcome::Deferred(2000));
    assert_eq!(s.ensure_running(2000), EnsureOutcome::Spawn(1));
    assert!(!s.on_failure(0, 2100));
    assert!(s.on_failure(1, 2100));
    assert_eq!(s.deadline, 3100);
}

#[test]
fn backoff_doubles_up_to_the_cap() {
    let delays: Vec<u64> = (1..=7).map(ServerSupervisor::backoff_delay).collect();
    assert_eq!(delays, vec![1000, 2000, 4000, 8000, 16000, 30000, 30000]);
    assert_eq!(ServerSupervisor::backoff_delay(0), 1000);
}

#[test]
fn repeated_failures_disable_until_manual_retry() {
    let mut s = ServerSupervisor::new(2);
    assert_eq!(s.ensure_running(0), EnsureOutcome::Spawn(0));
    assert!(s.on_failure(0, 0));
    assert_eq!(s.ensure_running(1000), EnsureOutcome::Spawn(1));
    assert!(s.on_failure(1, 1000));
    assert!(s.disabled);
    assert_eq!(s.ensure_running(100_000), EnsureOutcome::StartupFailed);
    assert_eq!(s.manual_retry(100_000), EnsureOutcome::Spawn(2));
    assert_eq!(s.stop(), Some(2));
    assert_eq!(s.state, ConnectionState::Stopped);
}

#[test]
fn frame_round_trip_and_partial_frames() {
    let payload = br#"{"jsonrpc":"2.0","method":"initialized"}"#.to_vec();
    let frame = encode_frame(&payload);
    assert_eq!(&frame[..20], b"Content-Length: 40\r\n");
    let mut stream = frame.clone();
    stream.extend_from_slice(b"Content-Len");
    let (p, used) = decode_frame(&stream).unwrap().unwrap();
    assert_eq!(p, payload);
    assert_eq!(used, frame.len());
    for cut in 0..frame.len() {
        assert_eq!(decode_frame(&frame[..cut]), Ok(None));
    }
    assert_eq!(encode_frame(b""), b"Content-Length: 0\r\n\r\n".to_vec());
}

#[test]
fn malformed_headers_fail() {
    assert!(decode_frame(b"Content-Length: abc\r\n\r\n").is_err());
    assert!(decode_frame(b"Content-Length: 5\rX").is_err());
    assert!(decode_frame(b"Content-Type: 5\r\n\r\nhello").is_err());
    assert!(decode_frame(b"Content-Length: 99999999999999999999999\r\n\r\n").is_err());
    assert_eq!(decode_frame(b"Content-Length: 12"), Ok(None));
}

#[test]
fn decoder_reads_frames_fed_in_pieces() {
    let mut d = FrameDecoder::new();
    let mut bytes = encode_frame(b"one");
    bytes.extend(encode_frame(b"two"));
    d.feed(&bytes[..10]);
    assert_eq!(d.next_frame(), Ok(None));
    d.feed(&bytes[10..]);
    assert_eq!(d.next_frame(), Ok(Some(b"one".to_vec())));
    assert_eq!(d.next_frame(), Ok(Some(b"two".to_vec())));
    assert_eq!(d.next_frame(), Ok(None));
    d.feed(b"garbage");
    assert!(d.next_frame().is_err());
}

#[test]
fn responses_are_delivered_once_by_id() {
    let mut a = ConnectionActor::new(5000);
    let first = a.begin_request("textDocument/hover".to_string(), 0).unwrap();
    let second = a.begin_request("textDocument/definition".to_string(), 10).unwrap();
    assert_eq!((first, second), (0, 1));
    let r = a.on_response(second).unwrap();
    assert_eq!(r.id, 1);
    assert_eq!(r.method, "textDocument/definition");
    assert_eq!(r.deadline, 5010);
    assert!(a.on_response(second).is_none());
    assert!(a.on_response(42).is_none());
    let r = a.on_response(first).unwrap();
    assert_eq!(r.method, "textDocument/hover");
}

#[test]
fn timeouts_and_teardown_resolve_pending_requests() {
    let mut a = ConnectionActor::new(100);
    a.begin_request("a".to_string(), 0);
    a.begin_request("b".to_string(), 50);
    a.begin_request("c".to_string(), 500);
    assert_eq!(a.expire(150), vec![0, 1]);
    assert!(a.on_response(0).is_none());
    let lost = a.tear_down();
    assert_eq!(lost, vec![2]);
    assert!(a.on_response(2).is_none());
}

#[test]
fn outbound_frames_keep_their_order() {
    let mut a = ConnectionActor::new(100);
    a.send_notification(b"open");
    a.send_notification(b"change");
    let out = a.take_outbox();
    assert_eq!(out, vec![encode_frame(b"open"), encode_frame(b"change")]);
    assert!(a.take_outbox().is_empty());
}

#[test]
fn malformed_inbound_frame_tears_the_connection_down() {
    let mut a = ConnectionActor::new(100);
    a.begin_request("a".to_string(), 0);
    a.receive(&encode_frame(b"{}"));
    assert_eq!(a.next_inbound(), Ok(Some(b"{}".to_vec())));
    a.receive(b"Content-Length: x");
    assert_eq!(a.next_inbound(), Err(vec![0]));
    assert!(a.on_response(0).is_none());
}

#[test]
fn fan_out_sends_one_message_per_affected_connection() {
    let mut c = SyncCoordinator::new();
    let conns = vec![10u64, 20, 30];
    let text = "let x = 1;".to_string();
    let none = change(0, 0, "");
    c.on_open(1, 30, &text);
    c.on_toggle(1, 30, false, &text);

    let sent = c.fan_out(1, &conns, SyncEvent::Open { enabled: true }, &text, &none);
    let ids: Vec<u64> = sent.iter().map(|(id, _)| *id).collect();
    assert_eq!(ids, vec![10, 20]);
    assert_eq!(c.state(1, 30), SyncState::Stale);

    let edit = change(0, 3, "var");
    let sent = c.fan_out(1, &conns, SyncEvent::Edit, &text, &edit);
    assert_eq!(sent.len(), 2);
    assert!(sent.iter().all(|(_, n)| matches!(n, Notification::DidChange { version: 1, .. })));

    c.set_integration(1, true);
    let sent = c.fan_out(1, &conns, SyncEvent::Enable, &"var x = 1;".to_string(), &none);
    assert_eq!(sent.len(), 1);
    assert_eq!(sent[0].0, 30);
    assert!(matches!(&sent[0].1, Notification::DidOpen { version: 0, text, .. } if text == "var x = 1;"));
    assert!(c.is_enabled(1));
}
