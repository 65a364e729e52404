use vstd::prelude::*;
use vstd::string::StringSliceAdditionalSpecFns;

verus! {

/// Frame type of a stream registration.
pub const FRAME_STREAM_REGISTER: u8 = 0x01;

/// Frame type of a batch of log events.
pub const FRAME_LOG_EVENT_BATCH: u8 = 0x02;

/// Big-endian bytes of a 16-bit value.
pub open spec fn be16(v: int) -> Seq<u8> {
    seq![(v / 0x100 % 0x100) as u8, (v % 0x100) as u8]
}

/// Big-endian bytes of a 32-bit value.
pub open spec fn be32(v: int) -> Seq<u8> {
    seq![
        (v / 0x1000000 % 0x100) as u8,
        (v / 0x10000 % 0x100) as u8,
        (v / 0x100 % 0x100) as u8,
        (v % 0x100) as u8,
    ]
}

/// Big-endian bytes of a 64-bit value.
pub open spec fn be64(v: int) -> Seq<u8> {
    be32(v / 0x1_0000_0000 % 0x1_0000_0000) + be32(v % 0x1_0000_0000)
}

/// Big-endian two's-complement bytes of a signed 64-bit value.
pub open spec fn be_i64(v: i64) -> Seq<u8> {
    be64((v as u64) as int)
}

/// `n` as it stands in a 32-bit length field: its low 32 bits.
pub open spec fn len32(n: int) -> int {
    n % 0x1_0000_0000
}

/// `n` as it stands in a 16-bit length field: its low 16 bits.
pub open spec fn len16(n: int) -> int {
    n % 0x1_0000
}

/// The 5-byte frame header: payload length, then frame type.
pub open spec fn frame_header_bytes(payload_len: int, frame_type: u8) -> Seq<u8> {
    be32(payload_len) + seq![frame_type]
}

fn u16_be(v: u16) -> (r: [u8; 2])
    ensures
        r@ == be16(v as int),
{
    let r = [(v / 0x100) as u8, (v % 0x100) as u8];
    assert(r@ =~= be16(v as int));
    r
}

fn u32_be(v: u32) -> (r: [u8; 4])
    ensures
        r@ == be32(v as int),
{
    let r = [
        (v / 0x1000000) as u8,
        (v / 0x10000 % 0x100) as u8,
        (v / 0x100 % 0x100) as u8,
        (v % 0x100) as u8,
    ];
    assert(r@ =~= be32(v as int));
    r
}

fn u64_be(v: u64) -> (r: [u8; 8])
    ensures
        r@ == be64(v as int),
{
    let q = v / 0x1_0000_0000;
    let m = v % 0x1_0000_0000;
    assert(q < 0x1_0000_0000) by (nonlinear_arith)
        requires
            q == v / 0x1_0000_0000,
            v <= u64::MAX,
    ;
    let hi = u32_be(q as u32);
    let lo = u32_be(m as u32);
    proof {
        let vi = v as int;
        assert(vi / 0x1_0000_0000 % 0x1_0000_0000 == q as int);
        assert(vi % 0x1_0000_0000 == m as int);
    }
    let r = [hi[0], hi[1], hi[2], hi[3], lo[0], lo[1], lo[2], lo[3]];
    assert(r@ =~= be32(q as int) + be32(m as int));
    r
}

/// The big-endian value of the two bytes at `at`.
pub open spec fn be16_at(b: Seq<u8>, at: int) -> int {
    b[at] * 0x100 + b[at + 1]
}

/// The big-endian value of the four bytes at `at`.
pub open spec fn be32_at(b: Seq<u8>, at: int) -> int {
    b[at] * 0x1000000 + b[at + 1] * 0x10000 + b[at + 2] * 0x100 + b[at + 3]
}

/// The big-endian value of the eight bytes at `at`.
pub open spec fn be64_at(b: Seq<u8>, at: int) -> int {
    be32_at(b, at) * 0x1_0000_0000 + be32_at(b, at + 4)
}

proof fn lemma_be16_roundtrip(v: int)
    requires
        0 <= v < 0x1_0000,
    ensures
        be16(v).len() == 2,
        be16_at(be16(v), 0) == v,
{
    let b = be16(v);
    assert(b[0] == v / 0x100 % 0x100);
    assert(b[1] == v % 0x100);
    assert((v / 0x100 % 0x100) * 0x100 + v % 0x100 == v) by (nonlinear_arith)
        requires
            0 <= v < 0x1_0000,
    ;
}

proof fn lemma_be32_roundtrip(v: int)
    requires
        0 <= v < 0x1_0000_0000,
    ensures
        be32(v).len() == 4,
        be32_at(be32(v), 0) == v,
{
    let b = be32(v);
    assert(b[0] == v / 0x1000000 % 0x100);
    assert(b[1] == v / 0x10000 % 0x100);
    assert(b[2] == v / 0x100 % 0x100);
    assert(b[3] == v % 0x100);
    assert((v / 0x1000000 % 0x100) * 0x1000000 + (v / 0x10000 % 0x100) * 0x10000 + (v / 0x100
        % 0x100) * 0x100 + v % 0x100 == v) by (nonlinear_arith)
        requires
            0 <= v < 0x1_0000_0000,
    ;
}

/// Appends `s` to `v`.
fn append_bytes(v: &mut Vec<u8>, s: &[u8])
    ensures
        final(v)@ == old(v)@ + s@,
{
    v.extend_from_slice(s);
    assert(v@ =~= old(v)@ + s@);
}

/// The 5-byte header that precedes every frame.
#[derive(Debug, Clone, Copy)]
pub struct FrameHeader {
    bytes: [u8; 5],
}

impl View for FrameHeader {
    type V = Seq<u8>;

    closed spec fn view(&self) -> Seq<u8> {
        self.bytes@
    }
}

impl FrameHeader {
    /// Header of a frame of type `frame_type` whose payload is `payload_len` bytes long.
    pub fn new(payload_len: u32, frame_type: u8) -> (r: Self)
        ensures
            r@ == frame_header_bytes(payload_len as int, frame_type),
    {
        let l = u32_be(payload_len);
        let bytes = [l[0], l[1], l[2], l[3], frame_type];
        let r = FrameHeader { bytes };
        assert(r@ =~= frame_header_bytes(payload_len as int, frame_type));
        r
    }

    /// The header's five bytes.
    pub fn as_slice(&self) -> (r: &[u8])
        ensures
            r@ == self@,
            r@.len() == 5,
    {
        self.bytes.as_slice()
    }
}

/// A log event as it goes on the wire; the payload is borrowed.
#[derive(Debug, Clone, Copy)]
pub struct WireEvent<'a> {
    pub timestamp_ns: i64,
    pub is_stderr: bool,
    pub payload: &'a [u8],
}

/// The 13-byte event header: timestamp, stderr flag, payload length.
pub open spec fn event_header_bytes(timestamp_ns: i64, is_stderr: bool, payload_len: int) -> Seq<
    u8,
> {
    be_i64(timestamp_ns) + seq![if is_stderr { 1u8 } else { 0u8 }] + be32(len32(payload_len))
}

/// An event whose header bytes are ready to be written before its borrowed payload.
#[derive(Debug)]
pub struct PreparedEvent<'a> {
    pub header: [u8; 13],
    pub payload: &'a [u8],
}

impl<'a> PreparedEvent<'a> {
    /// Lays out the header of `event`: big-endian timestamp, `1` for stderr or `0` for
    /// stdout, and the payload length in 32 bits.
    pub fn from_wire(event: WireEvent<'a>) -> (r: Self)
        ensures
            r.header@ == event_header_bytes(
                event.timestamp_ns,
                event.is_stderr,
                event.payload@.len() as int,
            ),
            r.payload@ == event.payload@,
    {
        let ts = u64_be(event.timestamp_ns as u64);
        let flag: u8 = if event.is_stderr { 1 } else { 0 };
        let len = u32_be((event.payload.len() as u64 % 0x1_0000_0000) as u32);
        let header = [
            ts[0],
            ts[1],
            ts[2],
            ts[3],
            ts[4],
            ts[5],
            ts[6],
            ts[7],
            flag,
            len[0],
            len[1],
            len[2],
            len[3],
        ];
        assert(header@ =~= event_header_bytes(
            event.timestamp_ns,
            event.is_stderr,
            event.payload@.len() as int,
        ));
        PreparedEvent { header, payload: event.payload }
    }
}

/// One length-prefixed string of a registration: its length in 16 bits, then its bytes.
pub open spec fn len_prefixed(s: Seq<u8>) -> Seq<u8> {
    be16(len16(s.len() as int)) + s
}

/// The body of a stream registration frame.
pub open spec fn stream_register_body(
    stream_id: u32,
    namespace: Seq<u8>,
    pod_name: Seq<u8>,
    pod_uid: Seq<u8>,
    container_name: Seq<u8>,
) -> Seq<u8> {
    be32(stream_id as int) + len_prefixed(namespace) + len_prefixed(pod_name) + len_prefixed(
        pod_uid,
    ) + len_prefixed(container_name)
}

/// Encodes a stream registration: the frame header and the frame body.
///
/// The header's length field is the body's length in 32 bits; each string goes out as its
/// UTF-8 bytes after its length in 16 bits.
pub fn encode_stream_register(
    stream_id: u32,
    namespace: &str,
    pod_name: &str,
    pod_uid: &str,
    container_name: &str,
) -> (r: (FrameHeader, Vec<u8>))
    requires
        12 + namespace.spec_bytes().len() + pod_name.spec_bytes().len() + pod_uid.spec_bytes().len()
            + container_name.spec_bytes().len() <= usize::MAX,
    ensures
        r.1@ == stream_register_body(
            stream_id,
            namespace.spec_bytes(),
            pod_name.spec_bytes(),
            pod_uid.spec_bytes(),
            container_name.spec_bytes(),
        ),
        r.0@ == frame_header_bytes(len32(r.1@.len() as int), FRAME_STREAM_REGISTER),
{
    let ns = namespace.as_bytes();
    let pod = pod_name.as_bytes();
    let uid = pod_uid.as_bytes();
    let container = container_name.as_bytes();

    let payload_len = 4 + 2 + ns.len() + 2 + pod.len() + 2 + uid.len() + 2 + container.len();

    let header = FrameHeader::new((payload_len as u64 % 0x1_0000_0000) as u32, FRAME_STREAM_REGISTER);

    let mut body: Vec<u8> = Vec::with_capacity(payload_len);
    append_bytes(&mut body, u32_be(stream_id).as_slice());
    append_bytes(&mut body, u16_be((ns.len() % 0x1_0000) as u16).as_slice());
    append_bytes(&mut body, ns);
    append_bytes(&mut body, u16_be((pod.len() % 0x1_0000) as u16).as_slice());
    append_bytes(&mut body, pod);
    append_bytes(&mut body, u16_be((uid.len() % 0x1_0000) as u16).as_slice());
    append_bytes(&mut body, uid);
    append_bytes(&mut body, u16_be((container.len() % 0x1_0000) as u16).as_slice());
    append_bytes(&mut body, container);

    assert(body@ =~= stream_register_body(stream_id, ns@, pod@, uid@, container@));
    (header, body)
}

/// Bytes that `events` occupy in a batch: a 13-byte header and the payload for each.
pub open spec fn events_wire_len(events: Seq<PreparedEvent>) -> int
    decreases events.len(),
{
    if events.len() == 0 {
        0
    } else {
        events_wire_len(events.drop_last()) + 13 + events.last().payload@.len()
    }
}

/// Payload length of a log event batch frame: stream id, event count, then the events.
pub open spec fn batch_payload_len(events: Seq<PreparedEvent>) -> int {
    8 + events_wire_len(events)
}

/// The 8-byte prefix of a batch: stream id, then the event count in 32 bits.
pub open spec fn batch_prefix_bytes(stream_id: u32, count: int) -> Seq<u8> {
    be32(stream_id as int) + be32(len32(count))
}

/// The bytes of the given slices, one after the other.
pub open spec fn concat_slices(slices: Seq<&[u8]>) -> Seq<u8>
    decreases slices.len(),
{
    if slices.len() == 0 {
        Seq::empty()
    } else {
        concat_slices(slices.drop_last()) + slices.last()@
    }
}

/// The event bytes of a batch: each event's header followed by its payload.
pub open spec fn events_bytes(events: Seq<PreparedEvent>) -> Seq<u8>
    decreases events.len(),
{
    if events.len() == 0 {
        Seq::empty()
    } else {
        events_bytes(events.drop_last()) + events.last().header@ + events.last().payload@
    }
}

proof fn lemma_events_wire_len_mono(events: Seq<PreparedEvent>, k: int)
    requires
        0 <= k <= events.len(),
    ensures
        events_wire_len(events.subrange(0, k)) + 13 * (events.len() - k) <= events_wire_len(events),
    decreases events.len() - k,
{
    if k < events.len() {
        lemma_events_wire_len_mono(events, k + 1);
        assert(events.subrange(0, k + 1).drop_last() =~= events.subrange(0, k));
    } else {
        assert(events.subrange(0, k) =~= events);
    }
}

/// Slots `2 * k` and `2 * k + 1` of `slices` hold the header and the payload of event `k`.
pub open spec fn batch_slot(slices: Seq<&[u8]>, events: Seq<PreparedEvent>, k: int) -> bool {
    slices[2 * k]@ == events[k].header@ && slices[2 * k + 1]@ == events[k].payload@
}

/// Encodes a log event batch for a vectored write: the frame header, the 8-byte batch prefix
/// (stream id and event count), and for each event its header slice and its payload slice, so
/// that no payload is copied.
pub fn encode_log_event_batch_slices<'a>(stream_id: u32, events: &'a [PreparedEvent<'a>]) -> (r: (
    FrameHeader,
    [u8; 8],
    Vec<&'a [u8]>,
))
    requires
        batch_payload_len(events@) <= usize::MAX,
    ensures
        r.0@ == frame_header_bytes(len32(batch_payload_len(events@)), FRAME_LOG_EVENT_BATCH),
        r.1@ == batch_prefix_bytes(stream_id, events@.len() as int),
        r.2@.len() == 2 * events@.len(),
        forall|i: int| 0 <= i < events@.len() ==> #[trigger] batch_slot(r.2@, events@, i),
        concat_slices(r.2@) == events_bytes(events@),
{
    let ghost evs = events@;
    let mut payload_len: usize = 8;
    let mut i: usize = 0;
    while i < events.len()
        invariant
            evs == events@,
            i <= events.len(),
            payload_len == 8 + events_wire_len(evs.subrange(0, i as int)),
            8 + events_wire_len(evs) <= usize::MAX,
        decreases events.len() - i,
    {
        proof {
            lemma_events_wire_len_mono(evs, i + 1);
            assert(evs.subrange(0, i + 1).drop_last() =~= evs.subrange(0, i as int));
        }
        payload_len = payload_len + 13 + events[i].payload.len();
        i = i + 1;
    }
    assert(evs.subrange(0, i as int) =~= evs);

    let header = FrameHeader::new(
        (payload_len as u64 % 0x1_0000_0000) as u32,
        FRAME_LOG_EVENT_BATCH,
    );
    let id = u32_be(stream_id);
    let count = u32_be((events.len() as u64 % 0x1_0000_0000) as u32);
    let batch_prefix = [id[0], id[1], id[2], id[3], count[0], count[1], count[2], count[3]];
    assert(batch_prefix@ =~= batch_prefix_bytes(stream_id, events@.len() as int));

    proof {
        lemma_events_wire_len_mono(evs, 0);
    }
    let mut slices: Vec<&'a [u8]> = Vec::with_capacity(events.len() * 2);
    let mut j: usize = 0;
    while j < events.len()
        invariant
            evs == events@,
            j <= events.len(),
            13 * events.len() <= usize::MAX,
            slices@.len() == 2 * j,
            forall|k: int| 0 <= k < j ==> #[trigger] batch_slot(slices@, evs, k),
            concat_slices(slices@) == events_bytes(evs.subrange(0, j as int)),
        decreases events.len() - j,
    {
        let event = &events[j];
        let ghost before = slices@;
        let head = event.header.as_slice();
        slices.push(head);
        slices.push(event.payload);
        proof {
            assert(slices@.drop_last() =~= before.push(head));
            assert(slices@.drop_last().drop_last() =~= before);
            assert(evs.subrange(0, j + 1).drop_last() =~= evs.subrange(0, j as int));
            assert(before.push(head).drop_last() =~= before);
            assert(slices@.last() == event.payload);
            assert(before.push(head).last() == head);
            assert(concat_slices(slices@) == concat_slices(before.push(head)) + event.payload@);
            assert(concat_slices(before.push(head)) == concat_slices(before) + head@);
            assert(head@ == event.header@);
            assert(concat_slices(slices@) =~= concat_slices(before) + event.header@ + event.payload@);
            assert forall|k: int| 0 <= k < j + 1 implies #[trigger] batch_slot(slices@, evs, k) by {
                if k < j {
                    assert(batch_slot(before, evs, k));
                    assert(slices@[2 * k] == before[2 * k]);
                    assert(slices@[2 * k + 1] == before[2 * k + 1]);
                }
            }
        }
        j = j + 1;
    }
    assert(evs.subrange(0, j as int) =~= evs);
    (header, batch_prefix, slices)
}

/// The fields of a stream registration body as a reader recovers them: the stream id, then
/// four strings, each read as a 16-bit length and that many bytes.
pub open spec fn decode_register_body(body: Seq<u8>) -> (int, Seq<u8>, Seq<u8>, Seq<u8>, Seq<u8>) {
    let o1 = 4int;
    let l1 = be16_at(body, o1);
    let o2 = o1 + 2 + l1;
    let l2 = be16_at(body, o2);
    let o3 = o2 + 2 + l2;
    let l3 = be16_at(body, o3);
    let o4 = o3 + 2 + l3;
    let l4 = be16_at(body, o4);
    (
        be32_at(body, 0),
        body.subrange(o1 + 2, o1 + 2 + l1),
        body.subrange(o2 + 2, o2 + 2 + l2),
        body.subrange(o3 + 2, o3 + 2 + l3),
        body.subrange(o4 + 2, o4 + 2 + l4),
    )
}

proof fn lemma_concat_parts(x: Seq<u8>, y: Seq<u8>)
    ensures
        (x + y).subrange(0, x.len() as int) == x,
        (x + y).subrange(x.len() as int, (x.len() + y.len()) as int) == y,
{
    assert((x + y).subrange(0, x.len() as int) =~= x);
    assert((x + y).subrange(x.len() as int, (x.len() + y.len()) as int) =~= y);
}

/// Reading a length-prefixed string back from the place where it was written.
proof fn lemma_read_prefixed(body: Seq<u8>, off: int, s: Seq<u8>)
    requires
        0 <= off,
        off + 2 + s.len() <= body.len(),
        body.subrange(off, off + 2 + s.len()) == len_prefixed(s),
        s.len() < 0x1_0000,
    ensures
        be16_at(body, off) == s.len(),
        body.subrange(off + 2, off + 2 + s.len()) == s,
{
    let w = len_prefixed(s);
    lemma_be16_roundtrip(s.len() as int);
    assert(len16(s.len() as int) == s.len());
    assert(body[off] == w[0] && body[off + 1] == w[1]);
    assert(w[0] == be16(s.len() as int)[0] && w[1] == be16(s.len() as int)[1]);
    assert(body.subrange(off + 2, off + 2 + s.len()) =~= s) by {
        assert forall|k: int| 0 <= k < s.len() implies body.subrange(off + 2, off + 2 + s.len())[k]
            == s[k] by {
            assert(body[off + 2 + k] == w[2 + k]);
        }
    }
}

#[verifier::rlimit(50)]
/// A registration body gives back what was encoded in it, and nothing follows the last
/// string, whenever every string is shorter than 64 KiB.
pub proof fn register_body_decodes(
    stream_id: u32,
    namespace: Seq<u8>,
    pod_name: Seq<u8>,
    pod_uid: Seq<u8>,
    container_name: Seq<u8>,
)
    requires
        namespace.len() < 0x1_0000,
        pod_name.len() < 0x1_0000,
        pod_uid.len() < 0x1_0000,
        container_name.len() < 0x1_0000,
    ensures
        decode_register_body(
            stream_register_body(stream_id, namespace, pod_name, pod_uid, container_name),
        ) == (stream_id as int, namespace, pod_name, pod_uid, container_name),
        stream_register_body(stream_id, namespace, pod_name, pod_uid, container_name).len() == 12
            + namespace.len() + pod_name.len() + pod_uid.len() + container_name.len(),
{
    let a = be32(stream_id as int);
    let p1 = len_prefixed(namespace);
    let p2 = len_prefixed(pod_name);
    let p3 = len_prefixed(pod_uid);
    let p4 = len_prefixed(container_name);
    let b1 = a + p1;
    let b2 = b1 + p2;
    let b3 = b2 + p3;
    let body = b3 + p4;
    assert(body == stream_register_body(stream_id, namespace, pod_name, pod_uid, container_name));
    lemma_be32_roundtrip(stream_id as int);
    let o1: int = 4;
    let o2: int = b1.len() as int;
    let o3: int = b2.len() as int;
    let o4: int = b3.len() as int;
    lemma_concat_parts(b3, p4);
    lemma_concat_parts(b2, p3);
    lemma_concat_parts(b1, p2);
    lemma_concat_parts(a, p1);
    assert(body.subrange(o4, body.len() as int) == p4);
    assert(body.subrange(o3, o4) =~= b3.subrange(o3, o4));
    assert(body.subrange(o2, o3) =~= b2.subrange(o2, o3));
    assert(b3.subrange(o2, o3) =~= b2.subrange(o2, o3));
    assert(body.subrange(o1, o2) =~= b1.subrange(o1, o2));
    assert(b3.subrange(o1, o2) =~= b1.subrange(o1, o2));
    assert(b2.subrange(o1, o2) =~= b1.subrange(o1, o2));
    lemma_read_prefixed(body, o1, namespace);
    lemma_read_prefixed(body, o2, pod_name);
    lemma_read_prefixed(body, o3, pod_uid);
    lemma_read_prefixed(body, o4, container_name);
    assert(be32_at(body, 0) == be32_at(a, 0)) by {
        assert(body[0] == a[0] && body[1] == a[1] && body[2] == a[2] && body[3] == a[3]);
    }
}

/// The fields of a 13-byte event header as a reader recovers them: timestamp, stderr flag,
/// payload length.
pub open spec fn decode_event_header(h: Seq<u8>) -> (i64, u8, int) {
    ((be64_at(h, 0) as u64) as i64, h[8], be32_at(h, 9))
}

/// An event header gives back the timestamp, the stream (1 for stderr, 0 for stdout) and,
/// for payloads shorter than 4 GiB, the payload length.
pub proof fn event_header_decodes(timestamp_ns: i64, is_stderr: bool, payload_len: int)
    requires
        0 <= payload_len < 0x1_0000_0000,
    ensures
        decode_event_header(event_header_bytes(timestamp_ns, is_stderr, payload_len)) == (
            timestamp_ns,
            if is_stderr { 1u8 } else { 0u8 },
            payload_len,
        ),
{
    let h = event_header_bytes(timestamp_ns, is_stderr, payload_len);
    let u = (timestamp_ns as u64) as int;
    let hi = u / 0x1_0000_0000 % 0x1_0000_0000;
    let lo = u % 0x1_0000_0000;
    lemma_be32_roundtrip(hi);
    lemma_be32_roundtrip(lo);
    lemma_be32_roundtrip(payload_len);
    assert(len32(payload_len) == payload_len);
    assert(h.subrange(0, 4) =~= be32(hi));
    assert(h.subrange(4, 8) =~= be32(lo));
    assert(h.subrange(9, 13) =~= be32(payload_len));
    assert(be32_at(h, 0) == be32_at(be32(hi), 0));
    assert(be32_at(h, 4) == be32_at(be32(lo), 0));
    assert(be32_at(h, 9) == be32_at(be32(payload_len), 0));
    assert(hi * 0x1_0000_0000 + lo == u) by (nonlinear_arith)
        requires
            0 <= u < 0x1_0000_0000_0000_0000,
            hi == u / 0x1_0000_0000 % 0x1_0000_0000,
            lo == u % 0x1_0000_0000,
    ;
    let t = timestamp_ns;
    assert(((t as u64) as i64) == t) by (bit_vector);
}

/// The frame header of a batch counts exactly the bytes that follow it: the 8-byte prefix
/// and, for each event, its 13 header bytes and its payload.
pub proof fn batch_length_counts_bytes(events: Seq<PreparedEvent>)
    ensures
        batch_payload_len(events) == 8 + events_bytes(events).len(),
    decreases events.len(),
{
    if events.len() > 0 {
        batch_length_counts_bytes(events.drop_last());
    }
}

/// One event as a reader recovers it from a batch: timestamp, stream flag byte (1 for stderr,
/// 0 for stdout), payload.
pub open spec fn wire_event_fields(w: WireEvent) -> (i64, u8, Seq<u8>) {
    (w.timestamp_ns, if w.is_stderr { 1u8 } else { 0u8 }, w.payload@)
}

/// Reads `count` events from `b` at `at`, each a 13-byte header and then as many payload
/// bytes as its length field gives; the last must end where `b` ends.
pub open spec fn decode_events(b: Seq<u8>, at: int, count: nat) -> Option<Seq<(i64, u8, Seq<u8>)>>
    decreases count,
{
    if count == 0 {
        if at == b.len() {
            Some(Seq::empty())
        } else {
            None
        }
    } else if at < 0 || at + 13 > b.len() {
        None
    } else {
        let h = decode_event_header(b.subrange(at, at + 13));
        let end = at + 13 + h.2;
        if end > b.len() {
            None
        } else {
            match decode_events(b, end, (count - 1) as nat) {
                None => None,
                Some(rest) => Some(seq![(h.0, h.1, b.subrange(at + 13, end))] + rest),
            }
        }
    }
}

/// A batch payload as a reader recovers it: the stream id, then as many events as the count
/// field gives, which must use up the payload.
pub open spec fn decode_batch_payload(p: Seq<u8>) -> Option<(int, Seq<(i64, u8, Seq<u8>)>)> {
    if p.len() < 8 {
        None
    } else {
        match decode_events(p, 8, be32_at(p, 4) as nat) {
            None => None,
            Some(evs) => Some((be32_at(p, 0), evs)),
        }
    }
}

/// The event bytes of a batch, read from the front: the first event's header and payload,
/// then the rest.
proof fn lemma_events_bytes_front(events: Seq<PreparedEvent>)
    requires
        events.len() > 0,
    ensures
        events_bytes(events) == events[0].header@ + events[0].payload@ + events_bytes(
            events.drop_first(),
        ),
    decreases events.len(),
{
    if events.len() == 1 {
        assert(events.drop_last() =~= Seq::<PreparedEvent>::empty());
        assert(events.drop_first() =~= Seq::<PreparedEvent>::empty());
        assert(events_bytes(events.drop_last()) == Seq::<u8>::empty());
        assert(events_bytes(events.drop_first()) == Seq::<u8>::empty());
        assert(events.last() == events[0]);
        assert(events_bytes(events) =~= events[0].header@ + events[0].payload@ + events_bytes(
            events.drop_first(),
        ));
    } else {
        let d = events.drop_last();
        lemma_events_bytes_front(d);
        assert(d.drop_first() =~= events.drop_first().drop_last());
        assert(events.drop_first().last() == events.last());
        assert(d[0] == events[0]);
        assert(events_bytes(events) =~= events[0].header@ + events[0].payload@ + events_bytes(
            events.drop_first(),
        ));
    }
}

proof fn lemma_decode_events(
    b: Seq<u8>,
    at: int,
    events: Seq<PreparedEvent>,
    ws: Seq<WireEvent>,
)
    requires
        0 <= at <= b.len(),
        b.subrange(at, b.len() as int) == events_bytes(events),
        events.len() == ws.len(),
        forall|i: int|
            0 <= i < ws.len() ==> {
                &&& #[trigger] ws[i].payload@.len() < 0x1_0000_0000
                &&& events[i].header@ == event_header_bytes(
                    ws[i].timestamp_ns,
                    ws[i].is_stderr,
                    ws[i].payload@.len() as int,
                )
                &&& events[i].payload@ == ws[i].payload@
            },
    ensures
        decode_events(b, at, events.len()) == Some(
            ws.map_values(|w: WireEvent| wire_event_fields(w)),
        ),
    decreases events.len(),
{
    if events.len() == 0 {
        assert(b.subrange(at, b.len() as int).len() == 0);
        assert(ws.map_values(|w: WireEvent| wire_event_fields(w)) =~= Seq::empty());
    } else {
        let w = ws[0];
        let e = events[0];
        let n = w.payload@.len() as int;
        lemma_events_bytes_front(events);
        let rest = events_bytes(events.drop_first());
        let s = b.subrange(at, b.len() as int);
        assert(e.header@.len() == 13);
        assert(s == e.header@ + e.payload@ + rest);
        assert(b.subrange(at, at + 13) =~= e.header@) by {
            assert forall|k: int| 0 <= k < 13 implies b.subrange(at, at + 13)[k] == e.header@[k] by {
                assert(b[at + k] == s[k]);
            }
        }
        event_header_decodes(w.timestamp_ns, w.is_stderr, n);
        let end = at + 13 + n;
        assert(b.subrange(at + 13, end) =~= w.payload@) by {
            assert forall|k: int| 0 <= k < n implies b.subrange(at + 13, end)[k] == w.payload@[k] by {
                assert(b[at + 13 + k] == s[13 + k]);
            }
        }
        assert(b.subrange(end, b.len() as int) =~= rest) by {
            assert forall|k: int| 0 <= k < rest.len() implies b.subrange(end, b.len() as int)[k]
                == rest[k] by {
                assert(b[end + k] == s[13 + n + k]);
            }
        }
        assert forall|i: int| 0 <= i < ws.drop_first().len() implies {
            &&& #[trigger] ws.drop_first()[i].payload@.len() < 0x1_0000_0000
            &&& events.drop_first()[i].header@ == event_header_bytes(
                ws.drop_first()[i].timestamp_ns,
                ws.drop_first()[i].is_stderr,
                ws.drop_first()[i].payload@.len() as int,
            )
            &&& events.drop_first()[i].payload@ == ws.drop_first()[i].payload@
        } by {
            assert(ws.drop_first()[i] == ws[i + 1]);
            assert(events.drop_first()[i] == events[i + 1]);
            assert(ws[i + 1].payload@.len() < 0x1_0000_0000);
        }
        lemma_decode_events(b, end, events.drop_first(), ws.drop_first());
        assert(ws.map_values(|w: WireEvent| wire_event_fields(w)) =~= seq![wire_event_fields(w)]
            + ws.drop_first().map_values(|w: WireEvent| wire_event_fields(w)));
    }
}

/// A batch payload gives back what was encoded in it: the stream id and, in order, each
/// event's timestamp, stream flag and payload, with no byte left over, whenever there are
/// fewer than 2^32 events and every payload is shorter than 4 GiB. The events are those laid
/// out by `PreparedEvent::from_wire`, whose headers and payloads `events` holds.
pub proof fn batch_payload_decodes(stream_id: u32, events: Seq<PreparedEvent>, ws: Seq<WireEvent>)
    requires
        events.len() == ws.len(),
        ws.len() < 0x1_0000_0000,
        forall|i: int|
            0 <= i < ws.len() ==> {
                &&& #[trigger] ws[i].payload@.len() < 0x1_0000_0000
                &&& events[i].header@ == event_header_bytes(
                    ws[i].timestamp_ns,
                    ws[i].is_stderr,
                    ws[i].payload@.len() as int,
                )
                &&& events[i].payload@ == ws[i].payload@
            },
    ensures
        decode_batch_payload(batch_prefix_bytes(stream_id, events.len() as int) + events_bytes(events))
            == Some((stream_id as int, ws.map_values(|w: WireEvent| wire_event_fields(w)))),
{
    let n = events.len() as int;
    let prefix = batch_prefix_bytes(stream_id, n);
    let p = prefix + events_bytes(events);
    lemma_be32_roundtrip(stream_id as int);
    lemma_be32_roundtrip(n);
    assert(len32(n) == n);
    assert(prefix.len() == 8);
    assert(be32_at(p, 0) == be32_at(be32(stream_id as int), 0)) by {
        assert(p[0] == prefix[0] && p[1] == prefix[1] && p[2] == prefix[2] && p[3] == prefix[3]);
    }
    assert(be32_at(p, 4) == be32_at(be32(n), 0)) by {
        assert(p[4] == prefix[4] && p[5] == prefix[5] && p[6] == prefix[6] && p[7] == prefix[7]);
    }
    assert(p.subrange(8, p.len() as int) =~= events_bytes(events));
    lemma_decode_events(p, 8, events, ws);
}

} // verus!
