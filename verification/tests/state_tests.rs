use logmux::cri::CriParser;
use logmux::dispatch::{DispatchStep, Dispatcher, StoredEvent, StreamTable, BATCH_MAX_BYTES, BATCH_MAX_EVENTS};
use logmux::json::JsonParser;
use logmux::parser::{ParsedLog, StreamType};
use logmux::sys::{inotify_record, read_inotify_header, read_inotify_record, InotifyEventHeader, IN_CREATE, IN_DELETE, IN_DELETE_SELF, IN_MODIFY, IN_MOVED_TO};
use logmux::tail::{log_line_in_range, parse_log_line, LineBuffer};
use logmux::transport::{write_failure, Backoff, SendResult};
use logmux::watch::{classify_entry, plan_dir_event, plan_event, plan_file_event, ByteMap, DirEventPlan, EntryAction, EventPlan, WatchRegistry};

fn event(ts: i64, payload: &[u8]) -> StoredEvent {
    StoredEvent { timestamp_ns: ts, is_stderr: false, payload: payload.to_vec() }
}

#[test]
fn streams_get_increasing_ids_once() {
    let mut table = StreamTable::new();
    assert_eq!(table.next_stream_id(), 1);
    let a: &[u8] = b"/var/log/pods/ns_pod_uid/web/0.log";
    let b: &[u8] = b"/var/log/pods/ns_pod_uid/db/0.log";
    table.ensure_stream(a);
    table.ensure_stream(a);
    table.ensure_stream(b);
    assert_eq!(table.next_stream_id(), 3);
    let (id_a, meta_a) = table.pending_registration(a).unwrap();
    let (id_b, meta_b) = table.pending_registration(b).unwrap();
    assert_eq!((id_a, id_b), (1, 2));
    assert_eq!(meta_a.container_name, "web");
    assert_eq!(meta_b.container_name, "db");
    table.mark_registered(a);
    assert!(table.pending_registration(a).is_none());
    assert!(table.contains(b));
    assert!(!table.contains(b"/other"));
}

#[test]
fn batch_flushes_at_event_count() {
    let mut table = StreamTable::new();
    let p: &[u8] = b"/p/ns_pod_uid/c/0.log";
    table.ensure_stream(p);
    for i in 0..(BATCH_MAX_EVENTS - 1) {
        assert!(!table.push_event(p, event(i as i64, b"x")));
    }
    assert!(table.push_event(p, event(99, b"x")));
}

#[test]
fn batch_flushes_at_byte_count() {
    let mut table = StreamTable::new();
    let p: &[u8] = b"/p/ns_pod_uid/c/0.log";
    table.ensure_stream(p);
    assert!(!table.push_event(p, event(1, &vec![0u8; BATCH_MAX_BYTES - 1])));
    assert!(table.push_event(p, event(2, b"y")));
    assert_eq!(BATCH_MAX_BYTES, 56 * 1024);
}

#[test]
fn failed_batch_goes_back_before_newer_events() {
    let mut table = StreamTable::new();
    let p: &[u8] = b"/p/ns_pod_uid/c/0.log";
    table.ensure_stream(p);
    assert!(!table.has_pending(p));
    assert!(table.take_pending(p).is_none());
    table.push_event(p, event(1, b"a"));
    table.push_event(p, event(2, b"b"));
    let (id, batch) = table.take_pending(p).unwrap();
    assert_eq!(id, 1);
    assert_eq!(batch.len(), 2);
    assert!(!table.has_pending(p));
    table.push_event(p, event(3, b"c"));
    table.restore_pending(p, batch);
    let (_, all) = table.take_pending(p).unwrap();
    let stamps: Vec<i64> = all.iter().map(|e| e.timestamp_ns).collect();
    assert_eq!(stamps, vec![1, 2, 3]);
}

#[test]
fn stored_event_from_parsed() {
    let parsed = ParsedLog { timestamp_ns: 5, stream: StreamType::Stderr, is_partial: false, payload: b"err" };
    let stored = StoredEvent::from_parsed(&parsed);
    assert!(stored.is_stderr);
    assert_eq!(stored.payload, b"err".to_vec());
    let wire = stored.as_wire();
    assert_eq!(wire.timestamp_ns, 5);
    assert_eq!(wire.payload, b"err");
}

#[test]
fn line_buffer_commits_whole_lines() {
    let mut lb = LineBuffer::for_file(false, 100);
    assert_eq!(lb.offset(), 100);
    assert_eq!(lb.read_position(), 100);
    lb.append(b"first\nsecond\npart");
    assert_eq!(lb.read_position(), 117);
    let end = lb.next_line_end().unwrap();
    assert_eq!(lb.line(end), b"first");
    lb.consume_line(end);
    assert_eq!(lb.offset(), 106);
    assert_eq!(lb.read_position(), 117);
    let end = lb.next_line_end().unwrap();
    assert_eq!(lb.line(end), b"second");
    lb.consume_line(end);
    assert!(lb.next_line_end().is_none());
    assert_eq!(lb.buffered_bytes(), b"part");
    assert_eq!(lb.offset(), 113);
    assert!(!lb.reset_if_truncated(113));
    assert!(lb.reset_if_truncated(50));
    assert_eq!(lb.offset(), 0);
    assert!(lb.buffered_bytes().is_empty());
    assert_eq!(LineBuffer::for_file(true, 100).offset(), 0);
}

#[test]
fn lines_are_parsed_by_their_format() {
    let cri = CriParser::new();
    let json = JsonParser::new();
    let line = b"2026-06-27T20:13:10.111222333Z stderr F second log line";
    assert!(log_line_in_range(line));
    let parsed = parse_log_line(&cri, &json, line).unwrap();
    assert_eq!(parsed.stream, StreamType::Stderr);
    assert_eq!(parsed.payload, b"second log line");
    let line = b"{\"log\":\"x\\r\\n\",\"stream\":\"stdout\",\"time\":\"2026-06-27T20:13:09Z\"}";
    let parsed = parse_log_line(&cri, &json, line).unwrap();
    assert_eq!(parsed.payload, b"x");
    assert!(parse_log_line(&cri, &json, b"{not json").is_none());
}

#[test]
fn out_of_range_timestamps_are_detected() {
    assert!(!log_line_in_range(b"9999-01-01T00:00:00Z stdout F x"));
    assert!(log_line_in_range(b"2026-14-01T00:00:00Z stdout F x"));
    assert!(log_line_in_range(b"2026-01-01T00:00:00.99999999999Z stdout F x"));
    assert!(log_line_in_range(b"1970-01-01T00:00:00.999999999999999999999Z stdout F x"));
    assert!(log_line_in_range(b"1677-09-21T00:12:44Z stdout F x"));
    assert!(!log_line_in_range(b"1677-09-21T00:12:43Z stdout F x"));
    assert!(!log_line_in_range(b"0001-01-01T00:00:00Z stdout F x"));
    assert!(log_line_in_range(b"2026-01-01T00:00:00.00000000000Z stdout F x"));
    assert!(log_line_in_range(b"2262-04-11T23:47:16Z stdout F x"));
    assert!(!log_line_in_range(b"2262-04-11T23:47:17Z stdout F x"));
    assert!(log_line_in_range(b"no timestamp here"));
    assert!(log_line_in_range(b"2026-14-01T00:00:00+0x:00 stdout F x"));
    assert!(!log_line_in_range(b"{\"log\":\"a\",\"stream\":\"stdout\",\"time\":\"9999-01-01T00:00:00Z\"}"));
    assert!(log_line_in_range(b"{\"log\":\"a\",\"stream\":\"other\",\"time\":\"9999-01-01T00:00:00Z\"}"));
}

#[test]
fn watch_registry_both_directions() {
    let mut reg = WatchRegistry::new();
    reg.insert(3, b"/var/log/pods");
    reg.insert(4, b"/var/log/pods/a.log");
    assert_eq!(reg.path_of(3), Some(&b"/var/log/pods"[..]));
    assert_eq!(reg.watch_of(b"/var/log/pods/a.log"), Some(4));
    assert_eq!(reg.remove(b"/var/log/pods/a.log"), Some(4));
    assert_eq!(reg.path_of(4), None);
    assert_eq!(reg.watch_of(b"/var/log/pods/a.log"), None);
    assert_eq!(reg.remove(b"/nothing"), None);
}

#[test]
fn byte_map_insert_get_remove() {
    let mut m: ByteMap<u32> = ByteMap::new();
    m.insert(b"a", 1);
    m.insert(b"b", 2);
    m.insert(b"a", 3);
    assert_eq!(m.get(b"a"), Some(&3));
    assert_eq!(m.remove(b"a"), Some(3));
    assert_eq!(m.get(b"a"), None);
    assert_eq!(m.get(b"b"), Some(&2));
}

#[test]
fn event_plans() {
    let plan = plan_file_event(IN_MODIFY);
    assert!(plan.read_deltas && !plan.stop_tailing);
    let plan = plan_file_event(IN_DELETE_SELF);
    assert!(!plan.read_deltas && plan.stop_tailing);
    assert_eq!(plan_dir_event(IN_CREATE), DirEventPlan::Discover);
    assert_eq!(plan_dir_event(IN_MOVED_TO | IN_DELETE), DirEventPlan::Discover);
    assert_eq!(plan_dir_event(IN_DELETE), DirEventPlan::Forget);
    assert_eq!(plan_dir_event(IN_MODIFY), DirEventPlan::Ignore);
}

#[test]
fn inotify_records_are_walked() {
    let mut buf = Vec::new();
    buf.extend_from_slice(&7i32.to_ne_bytes());
    buf.extend_from_slice(&IN_CREATE.to_ne_bytes());
    buf.extend_from_slice(&0u32.to_ne_bytes());
    buf.extend_from_slice(&8u32.to_ne_bytes());
    buf.extend_from_slice(b"a.log\0\0\0");
    buf.extend_from_slice(&9i32.to_ne_bytes());
    buf.extend_from_slice(&IN_MODIFY.to_ne_bytes());
    buf.extend_from_slice(&0u32.to_ne_bytes());
    buf.extend_from_slice(&0u32.to_ne_bytes());
    let first = read_inotify_record(&buf, 0).unwrap();
    assert_eq!(first.header.wd, 7);
    assert_eq!(first.header.mask, IN_CREATE);
    assert_eq!(first.name.as_deref(), Some("a.log"));
    assert_eq!(first.next, 24);
    let second = read_inotify_record(&buf, first.next).unwrap();
    assert_eq!(second.header.wd, 9);
    assert_eq!(second.name, None);
    assert_eq!(second.next, buf.len());
    assert!(read_inotify_record(&buf, second.next).is_none());
    assert!(read_inotify_record(&buf[..20], 0).is_none());
}

#[test]
fn backoff_doubles_up_to_thirty_seconds() {
    let mut b = Backoff::new();
    let mut seen = Vec::new();
    for _ in 0..10 {
        seen.push(b.delay_ms());
        b.grow();
    }
    assert_eq!(seen, vec![250, 500, 1000, 2000, 4000, 8000, 16000, 30000, 30000, 30000]);
    b.reset();
    assert_eq!(b.delay_ms(), 250);
    assert_eq!(write_failure(true), SendResult::Backpressure);
    assert_eq!(write_failure(false), SendResult::Disconnected);
}

#[test]
fn inotify_record_from_header() {
    let buf = b"0123456789abcdefweb\0\0\0\0\0";
    let header = InotifyEventHeader { wd: 1, mask: IN_CREATE, cookie: 0, len: 8 };
    let rec = inotify_record(buf, 0, header).unwrap();
    assert_eq!(rec.header, header);
    assert_eq!(rec.name.as_deref(), Some("web"));
    assert_eq!(rec.next, 24);
    let too_long = InotifyEventHeader { len: 9, ..header };
    assert!(inotify_record(buf, 0, too_long).is_none());
    let no_name = InotifyEventHeader { len: 0, ..header };
    assert_eq!(inotify_record(buf, 0, no_name).unwrap().name, None);
    let bad = b"0123456789abcdef\xff\xfe\0\0";
    let h = InotifyEventHeader { len: 4, ..header };
    assert_eq!(inotify_record(bad, 0, h).unwrap().name, None);
    assert!(read_inotify_header(buf, 8).is_some());
    assert!(read_inotify_header(buf, 9).is_none());
}

#[test]
fn dispatcher_registers_before_first_event() {
    let mut d = Dispatcher::new();
    let p: &[u8] = b"/var/log/pods/ns_pod_uid/web/0.log";
    let step = d.begin_event(p, event(1, b"a"));
    let meta = match step {
        DispatchStep::Register(id, meta) => {
            assert_eq!(id, 1);
            meta
        }
        _ => panic!("expected a registration"),
    };
    assert_eq!(meta.namespace, "ns");
    assert!(matches!(d.registration_result(p, true), DispatchStep::Done(true)));
    // The held event is now pending; a flush sends it.
    match d.begin_flush(p) {
        DispatchStep::SendBatch(id, batch) => {
            assert_eq!(id, 1);
            assert_eq!(batch.len(), 1);
            assert_eq!(batch[0].payload, b"a".to_vec());
            assert!(!d.batch_result(p, false, batch));
        }
        _ => panic!("expected a batch"),
    }
    // The failed batch is pending again.
    match d.begin_flush(p) {
        DispatchStep::SendBatch(_, batch) => assert!(d.batch_result(p, true, batch)),
        _ => panic!("expected a batch"),
    }
    assert!(matches!(d.begin_flush(p), DispatchStep::Done(true)));
}

#[test]
fn dispatcher_drops_event_when_registration_fails() {
    let mut d = Dispatcher::new();
    let p: &[u8] = b"/x/ns_pod_uid/c/0.log";
    assert!(matches!(d.begin_event(p, event(1, b"a")), DispatchStep::Register(1, _)));
    assert!(matches!(d.registration_result(p, false), DispatchStep::Done(false)));
    assert!(matches!(d.begin_flush(p), DispatchStep::Done(true)));
    // The next event asks for the registration again.
    assert!(matches!(d.begin_event(p, event(2, b"b")), DispatchStep::Register(1, _)));
    assert_eq!(d.next_stream_id(), 2);
}

#[test]
fn dispatcher_sends_full_batch() {
    let mut d = Dispatcher::new();
    let p: &[u8] = b"/x/ns_pod_uid/c/0.log";
    assert!(matches!(d.begin_event(p, event(0, b"a")), DispatchStep::Register(1, _)));
    assert!(matches!(d.registration_result(p, true), DispatchStep::Done(true)));
    for i in 1..(BATCH_MAX_EVENTS - 1) {
        assert!(matches!(d.begin_event(p, event(i as i64, b"a")), DispatchStep::Done(true)));
    }
    match d.begin_event(p, event(99, b"z")) {
        DispatchStep::SendBatch(1, batch) => {
            assert_eq!(batch.len(), BATCH_MAX_EVENTS);
            assert_eq!(batch[BATCH_MAX_EVENTS - 1].timestamp_ns, 99);
        }
        _ => panic!("expected a full batch"),
    }
}

#[test]
fn entries_are_classified() {
    assert_eq!(classify_entry(true, false, b"/var/log/pods/a.log"), EntryAction::Scan);
    assert_eq!(classify_entry(false, true, b"/var/log/pods/a.log"), EntryAction::Tail);
    assert_eq!(classify_entry(false, true, b"/var/log/pods/a.txt"), EntryAction::Skip);
    assert_eq!(classify_entry(false, false, b"/var/log/pods/a.log"), EntryAction::Skip);
}

#[test]
fn refused_line_stays_buffered() {
    let mut lb = LineBuffer::for_file(false, 10);
    lb.append(b"one\ntwo\n");
    let end = lb.next_line_end().unwrap();
    assert!(!lb.settle_line(end, true, false));
    assert_eq!(lb.offset(), 10);
    assert_eq!(lb.buffered_bytes(), b"one\ntwo\n");
    assert!(lb.settle_line(end, true, true));
    assert_eq!(lb.offset(), 14);
    assert_eq!(lb.buffered_bytes(), b"two\n");
    let end = lb.next_line_end().unwrap();
    assert!(lb.settle_line(end, false, false));
    assert_eq!(lb.offset(), 18);
    assert!(lb.buffered_bytes().is_empty());
}

#[test]
fn inotify_header_fields_share_one_byte_order() {
    let mut buf = Vec::new();
    buf.extend_from_slice(&[0u8; 3]);
    buf.extend_from_slice(&(-5i32).to_ne_bytes());
    buf.extend_from_slice(&IN_MOVED_TO.to_ne_bytes());
    buf.extend_from_slice(&0x0102_0304u32.to_ne_bytes());
    buf.extend_from_slice(&16u32.to_ne_bytes());
    let h = read_inotify_header(&buf, 3).unwrap();
    assert_eq!(h, InotifyEventHeader { wd: -5, mask: IN_MOVED_TO, cookie: 0x0102_0304, len: 16 });
    assert!(read_inotify_header(&buf, 4).is_none());
}

#[test]
fn failed_full_batch_does_not_keep_the_event() {
    let mut d = Dispatcher::new();
    let p: &[u8] = b"/x/ns_pod_uid/c/0.log";
    assert!(matches!(d.begin_event(p, event(0, b"a")), DispatchStep::Register(1, _)));
    assert!(matches!(d.registration_result(p, true), DispatchStep::Done(true)));
    for i in 1..(BATCH_MAX_EVENTS - 1) {
        assert!(matches!(d.begin_event(p, event(i as i64, b"a")), DispatchStep::Done(true)));
    }
    let batch = match d.begin_event(p, event(99, b"z")) {
        DispatchStep::SendBatch(1, batch) => batch,
        _ => panic!("expected a full batch"),
    };
    assert!(!d.batch_result(p, false, batch));
    // The refused event is delivered again; the batch fills with it once more.
    match d.begin_event(p, event(99, b"z")) {
        DispatchStep::SendBatch(1, batch) => {
            assert_eq!(batch.len(), BATCH_MAX_EVENTS);
            assert_eq!(batch[BATCH_MAX_EVENTS - 2].timestamp_ns, (BATCH_MAX_EVENTS - 2) as i64);
            assert_eq!(batch[BATCH_MAX_EVENTS - 1].timestamp_ns, 99);
            assert!(d.batch_result(p, true, batch));
        }
        _ => panic!("expected the same full batch"),
    }
    assert!(matches!(d.begin_flush(p), DispatchStep::Done(true)));
}

#[test]
fn events_are_planned_by_watch_kind() {
    assert_eq!(
        plan_event(true, IN_MODIFY | IN_DELETE_SELF, false),
        EventPlan::File { read_deltas: true, stop_tailing: true }
    );
    assert_eq!(plan_event(true, IN_CREATE, true), EventPlan::File { read_deltas: false, stop_tailing: false });
    assert_eq!(plan_event(false, IN_MOVED_TO, true), EventPlan::Entry(DirEventPlan::Discover));
    assert_eq!(plan_event(false, IN_DELETE, true), EventPlan::Entry(DirEventPlan::Forget));
    assert_eq!(plan_event(false, IN_MODIFY, true), EventPlan::Entry(DirEventPlan::Ignore));
    assert_eq!(plan_event(false, IN_CREATE, false), EventPlan::Nothing);
}
