use vstd::prelude::*;
use crate::codec::WireEvent;
use crate::metadata::{parse_pod_metadata, pod_metadata_spec, PodMetadata, PodMetadataView};
use crate::parser::{bytes_eq, ParsedLog, StreamType};

verus! {

/// A stream is flushed once it holds this many pending events.
pub const BATCH_MAX_EVENTS: usize = 64;

/// A stream is flushed once its pending payloads reach this many bytes.
pub const BATCH_MAX_BYTES: usize = 57344;

/// A log event held until its stream's batch is sent; it owns its payload.
#[derive(Debug, Clone)]
pub struct StoredEvent {
    pub timestamp_ns: i64,
    pub is_stderr: bool,
    pub payload: Vec<u8>,
}

/// The mathematical content of a [`StoredEvent`].
pub struct StoredEventView {
    pub timestamp_ns: i64,
    pub is_stderr: bool,
    pub payload: Seq<u8>,
}

impl View for StoredEvent {
    type V = StoredEventView;

    open spec fn view(&self) -> StoredEventView {
        StoredEventView {
            timestamp_ns: self.timestamp_ns,
            is_stderr: self.is_stderr,
            payload: self.payload@,
        }
    }
}

impl StoredEvent {
    /// Copies a parsed event out of its line buffer.
    pub fn from_parsed(event: &ParsedLog) -> (r: Self)
        ensures
            r.timestamp_ns == event.timestamp_ns,
            r.is_stderr == (event.stream == StreamType::Stderr),
            r.payload@ == event.payload@,
    {
        StoredEvent {
            timestamp_ns: event.timestamp_ns,
            is_stderr: match event.stream {
                StreamType::Stderr => true,
                StreamType::Stdout => false,
            },
            payload: vstd::slice::slice_to_vec(event.payload),
        }
    }

    /// The event as it goes on the wire, borrowing the payload.
    pub fn as_wire(&self) -> (r: WireEvent<'_>)
        ensures
            r.timestamp_ns == self.timestamp_ns,
            r.is_stderr == self.is_stderr,
            r.payload@ == self.payload@,
    {
        WireEvent {
            timestamp_ns: self.timestamp_ns,
            is_stderr: self.is_stderr,
            payload: self.payload.as_slice(),
        }
    }
}

/// The events of `pending` by their content.
pub open spec fn events_view(pending: Seq<StoredEvent>) -> Seq<StoredEventView> {
    pending.map_values(|e: StoredEvent| e@)
}

/// Total payload bytes of `events`.
pub open spec fn payload_bytes(events: Seq<StoredEventView>) -> int
    decreases events.len(),
{
    if events.len() == 0 {
        0
    } else {
        payload_bytes(events.drop_last()) + events.last().payload.len()
    }
}

/// Whether a stream with these pending events is due to be flushed.
pub open spec fn batch_full(events: Seq<StoredEventView>) -> bool {
    events.len() >= BATCH_MAX_EVENTS || payload_bytes(events) >= BATCH_MAX_BYTES
}

/// The state of one log file's stream towards the aggregator.
pub struct StreamState {
    pub stream_id: u32,
    pub metadata: PodMetadata,
    pub registered: bool,
    pub pending: Vec<StoredEvent>,
}

/// The mathematical content of a [`StreamState`].
pub struct StreamView {
    pub stream_id: u32,
    pub metadata: PodMetadataView,
    pub registered: bool,
    pub pending: Seq<StoredEventView>,
}

impl View for StreamState {
    type V = StreamView;

    open spec fn view(&self) -> StreamView {
        StreamView {
            stream_id: self.stream_id,
            metadata: self.metadata@,
            registered: self.registered,
            pending: events_view(self.pending@),
        }
    }
}

/// The map built from the first `n` path/stream pairs.
pub open spec fn entries_map(paths: Seq<Vec<u8>>, streams: Seq<StreamState>, n: int) -> Map<
    Seq<u8>,
    StreamView,
>
    decreases n,
{
    if n <= 0 {
        Map::empty()
    } else {
        entries_map(paths, streams, n - 1).insert(paths[n - 1]@, streams[n - 1]@)
    }
}

proof fn lemma_payload_bytes_prefix(events: Seq<StoredEventView>, k: int)
    requires
        0 <= k <= events.len(),
    ensures
        0 <= payload_bytes(events.subrange(0, k)) <= payload_bytes(events),
    decreases events.len() - k,
{
    if k < events.len() {
        lemma_payload_bytes_prefix(events, k + 1);
        assert(events.subrange(0, k + 1).drop_last() =~= events.subrange(0, k));
        lemma_payload_bytes_nonneg(events.subrange(0, k));
    } else {
        assert(events.subrange(0, k) =~= events);
        lemma_payload_bytes_nonneg(events);
    }
}

proof fn lemma_payload_bytes_nonneg(events: Seq<StoredEventView>)
    ensures
        0 <= payload_bytes(events),
    decreases events.len(),
{
    if events.len() > 0 {
        lemma_payload_bytes_nonneg(events.drop_last());
    }
}

/// Whether `pending` is due to be flushed; stops adding payload lengths once the byte limit
/// is reached.
fn batch_due(pending: &Vec<StoredEvent>) -> (r: bool)
    ensures
        r == batch_full(events_view(pending@)),
{
    if pending.len() >= BATCH_MAX_EVENTS {
        return true;
    }
    let ghost evs = events_view(pending@);
    let mut total: usize = 0;
    let mut i: usize = 0;
    while i < pending.len()
        invariant
            evs == events_view(pending@),
            i <= pending@.len(),
            pending@.len() < BATCH_MAX_EVENTS,
            total == payload_bytes(evs.subrange(0, i as int)),
            total < BATCH_MAX_BYTES,
        decreases pending@.len() - i,
    {
        proof {
            assert(evs.subrange(0, i + 1).drop_last() =~= evs.subrange(0, i as int));
            lemma_payload_bytes_prefix(evs, i + 1);
        }
        let n = pending[i].payload.len();
        if n >= BATCH_MAX_BYTES - total {
            return true;
        }
        total = total + n;
        i = i + 1;
    }
    assert(evs.subrange(0, i as int) =~= evs);
    false
}

/// The streams of the daemon, one per log file path, each with a distinct id.
pub struct StreamTable {
    paths: Vec<Vec<u8>>,
    streams: Vec<StreamState>,
    next_stream_id: u32,
}

impl View for StreamTable {
    type V = Map<Seq<u8>, StreamView>;

    closed spec fn view(&self) -> Map<Seq<u8>, StreamView> {
        entries_map(self.paths@, self.streams@, self.paths@.len() as int)
    }
}

proof fn lemma_entries_map_prefix(
    paths: Seq<Vec<u8>>,
    streams: Seq<StreamState>,
    paths2: Seq<Vec<u8>>,
    streams2: Seq<StreamState>,
    n: int,
)
    requires
        0 <= n <= paths.len(),
        n <= paths2.len(),
        n <= streams.len(),
        n <= streams2.len(),
        forall|i: int| 0 <= i < n ==> paths[i]@ == paths2[i]@ && streams[i]@ == streams2[i]@,
    ensures
        entries_map(paths, streams, n) == entries_map(paths2, streams2, n),
    decreases n,
{
    if n > 0 {
        lemma_entries_map_prefix(paths, streams, paths2, streams2, n - 1);
    }
}

proof fn lemma_entries_map_lookup(paths: Seq<Vec<u8>>, streams: Seq<StreamState>, n: int)
    requires
        0 <= n <= paths.len(),
        n <= streams.len(),
        forall|i: int, j: int| 0 <= i < j < n ==> paths[i]@ != paths[j]@,
    ensures
        forall|i: int|
            0 <= i < n ==> #[trigger] entries_map(paths, streams, n).contains_key(paths[i]@)
                && entries_map(paths, streams, n)[paths[i]@] == streams[i]@,
        forall|k: Seq<u8>|
            #[trigger] entries_map(paths, streams, n).contains_key(k) ==> exists|i: int|
                0 <= i < n && paths[i]@ == k,
    decreases n,
{
    if n > 0 {
        lemma_entries_map_lookup(paths, streams, n - 1);
        let m = entries_map(paths, streams, n);
        assert forall|i: int| 0 <= i < n implies #[trigger] m.contains_key(paths[i]@) && m[paths[i]@]
            == streams[i]@ by {
            if i < n - 1 {
                assert(entries_map(paths, streams, n - 1).contains_key(paths[i]@));
            }
        }
        assert forall|k: Seq<u8>| #[trigger] m.contains_key(k) implies exists|i: int|
            0 <= i < n && paths[i]@ == k by {
            if k != paths[n - 1]@ {
                assert(entries_map(paths, streams, n - 1).contains_key(k));
            }
        }
    }
}

proof fn lemma_entries_map_update(
    paths: Seq<Vec<u8>>,
    streams: Seq<StreamState>,
    n: int,
    idx: int,
    s: StreamState,
)
    requires
        0 <= idx < n <= paths.len(),
        n <= streams.len(),
        forall|i: int, j: int| 0 <= i < j < n ==> paths[i]@ != paths[j]@,
    ensures
        entries_map(paths, streams.update(idx, s), n) == entries_map(paths, streams, n).insert(
            paths[idx]@,
            s@,
        ),
    decreases n,
{
    if idx == n - 1 {
        lemma_entries_map_prefix(paths, streams, paths, streams.update(idx, s), n - 1);
    } else {
        lemma_entries_map_update(paths, streams, n - 1, idx, s);
        assert(entries_map(paths, streams.update(idx, s), n) =~= entries_map(paths, streams, n).insert(
            paths[idx]@,
            s@,
        ));
    }
}

impl StreamTable {
    /// Paths are distinct, stream ids are distinct and below the next id, which is positive.
    pub closed spec fn wf(&self) -> bool {
        &&& self.paths@.len() == self.streams@.len()
        &&& forall|i: int, j: int|
            0 <= i < j < self.paths@.len() ==> self.paths@[i]@ != self.paths@[j]@
        &&& forall|i: int|
            0 <= i < self.streams@.len() ==> 1 <= #[trigger] self.streams@[i].stream_id
                < self.next_stream_id
        &&& forall|i: int, j: int|
            0 <= i < j < self.streams@.len() ==> self.streams@[i].stream_id
                != self.streams@[j].stream_id
        &&& self.next_stream_id >= 1
    }

    /// The id the next new stream gets.
    pub closed spec fn next_id(&self) -> u32 {
        self.next_stream_id
    }

    /// A table without streams; the first stream gets id 1.
    pub fn new() -> (r: Self)
        ensures
            r.wf(),
            r@ == Map::<Seq<u8>, StreamView>::empty(),
            r.next_id() == 1,
    {
        let r = StreamTable { paths: Vec::new(), streams: Vec::new(), next_stream_id: 1 };
        assert(r@ =~= Map::<Seq<u8>, StreamView>::empty());
        r
    }

    /// The id the next new stream gets.
    pub fn next_stream_id(&self) -> (r: u32)
        ensures
            r == self.next_id(),
    {
        self.next_stream_id
    }

    /// The slot of `path`, if it has a stream.
    fn find(&self, path: &[u8]) -> (r: Option<usize>)
        requires
            self.wf(),
        ensures
            r matches Some(i) ==> i < self.paths@.len() && self.paths@[i as int]@ == path@
                && self@.contains_key(path@) && self@[path@] == self.streams@[i as int]@,
            r is None ==> !self@.contains_key(path@),
    {
        proof {
            lemma_entries_map_lookup(self.paths@, self.streams@, self.paths@.len() as int);
        }
        let mut i: usize = 0;
        while i < self.paths.len()
            invariant
                self.wf(),
                i <= self.paths@.len(),
                forall|j: int| 0 <= j < i ==> self.paths@[j]@ != path@,
            decreases self.paths@.len() - i,
        {
            if bytes_eq(self.paths[i].as_slice(), path) {
                proof {
                    lemma_entries_map_lookup(self.paths@, self.streams@, self.paths@.len() as int);
                    assert(self@.contains_key(self.paths@[i as int]@));
                }
                return Some(i);
            }
            i = i + 1;
        }
        None
    }

    /// Whether `path` has a stream.
    pub fn contains(&self, path: &[u8]) -> (r: bool)
        requires
            self.wf(),
        ensures
            r == self@.contains_key(path@),
    {
        self.find(path).is_some()
    }

    /// Gives `path` a stream unless it has one: the next id, the metadata parsed from the path,
    /// not registered, nothing pending.
    pub fn ensure_stream(&mut self, path: &[u8])
        requires
            old(self).wf(),
            old(self)@.contains_key(path@) || old(self).next_id() < u32::MAX,
        ensures
            final(self).wf(),
            old(self)@.contains_key(path@) ==> final(self)@ == old(self)@ && final(self).next_id()
                == old(self).next_id(),
            !old(self)@.contains_key(path@) ==> final(self)@ == old(self)@.insert(
                path@,
                StreamView {
                    stream_id: old(self).next_id(),
                    metadata: pod_metadata_spec(path@),
                    registered: false,
                    pending: Seq::empty(),
                },
            ) && final(self).next_id() == old(self).next_id() + 1,
    {
        if self.find(path).is_some() {
            return;
        }
        proof {
            lemma_entries_map_lookup(self.paths@, self.streams@, self.paths@.len() as int);
        }
        let metadata = parse_pod_metadata(path);
        let stream_id = self.next_stream_id;
        self.next_stream_id = self.next_stream_id + 1;
        let state = StreamState {
            stream_id,
            metadata,
            registered: false,
            pending: Vec::with_capacity(BATCH_MAX_EVENTS),
        };
        let ghost old_paths = self.paths@;
        let ghost old_streams = self.streams@;
        let ghost n = old_paths.len() as int;
        self.paths.push(vstd::slice::slice_to_vec(path));
        self.streams.push(state);
        proof {
            lemma_entries_map_prefix(old_paths, old_streams, self.paths@, self.streams@, n);
            assert(events_view(state.pending@) =~= Seq::<StoredEventView>::empty());
            assert forall|i: int, j: int|
                0 <= i < j < self.paths@.len() implies self.paths@[i]@ != self.paths@[j]@ by {
                if j == n {
                    assert(!old(self)@.contains_key(path@));
                    assert(old(self)@.contains_key(old_paths[i]@));
                }
            }
        }
    }

    /// The id and metadata of the stream of `path` while it still has to be registered.
    pub fn pending_registration(&self, path: &[u8]) -> (r: Option<(u32, PodMetadata)>)
        requires
            self.wf(),
        ensures
            r is Some <==> self@.contains_key(path@) && !self@[path@].registered,
            r matches Some((id, meta)) ==> id == self@[path@].stream_id && meta@
                == self@[path@].metadata,
    {
        match self.find(path) {
            Some(i) => {
                let st = &self.streams[i];
                if st.registered {
                    None
                } else {
                    let meta = PodMetadata {
                        namespace: st.metadata.namespace.clone(),
                        pod_name: st.metadata.pod_name.clone(),
                        pod_uid: st.metadata.pod_uid.clone(),
                        container_name: st.metadata.container_name.clone(),
                    };
                    Some((st.stream_id, meta))
                }
            },
            None => None,
        }
    }

    /// Appends `event` to the pending events of `path`'s stream and tells whether the stream
    /// is now due to be flushed: 64 events, or 56 KiB of payload.
    pub fn push_event(&mut self, path: &[u8], event: StoredEvent) -> (r: bool)
        requires
            old(self).wf(),
            old(self)@.contains_key(path@),
        ensures
            final(self).wf(),
            final(self).next_id() == old(self).next_id(),
            final(self)@ == old(self)@.insert(
                path@,
                StreamView { pending: old(self)@[path@].pending.push(event@), ..old(self)@[path@] },
            ),
            r == batch_full(final(self)@[path@].pending),
    {
        let i = self.find(path).unwrap();
        let ghost old_streams = self.streams@;
        self.streams[i].pending.push(event);
        proof {
            lemma_entries_map_update(
                self.paths@,
                old_streams,
                self.paths@.len() as int,
                i as int,
                self.streams@[i as int],
            );
            assert(self.streams@ =~= old_streams.update(i as int, self.streams@[i as int]));
            assert(events_view(self.streams@[i as int].pending@) =~= old(self)@[path@].pending.push(
                event@,
            ));
            lemma_entries_map_lookup(self.paths@, self.streams@, self.paths@.len() as int);
        }
        batch_due(&self.streams[i].pending)
    }

    /// Whether the stream of `path` has pending events.
    pub fn has_pending(&self, path: &[u8]) -> (r: bool)
        requires
            self.wf(),
        ensures
            r == (self@.contains_key(path@) && self@[path@].pending.len() > 0),
    {
        match self.find(path) {
            Some(i) => self.streams[i].pending.len() > 0,
            None => false,
        }
    }

    /// Takes the pending events of `path`'s stream for sending, with the stream's id; `None`
    /// (and nothing changes) when there is no such stream or nothing is pending.
    pub fn take_pending(&mut self, path: &[u8]) -> (r: Option<(u32, Vec<StoredEvent>)>)
        requires
            old(self).wf(),
        ensures
            final(self).wf(),
            final(self).next_id() == old(self).next_id(),
            r is Some <==> old(self)@.contains_key(path@) && old(self)@[path@].pending.len() > 0,
            r is None ==> final(self)@ == old(self)@,
            r matches Some((id, batch)) ==> {
                &&& id == old(self)@[path@].stream_id
                &&& events_view(batch@) == old(self)@[path@].pending
                &&& final(self)@ == old(self)@.insert(
                    path@,
                    StreamView { pending: Seq::empty(), ..old(self)@[path@] },
                )
            },
    {
        let i = match self.find(path) {
            Some(i) => i,
            None => return None,
        };
        if self.streams[i].pending.len() == 0 {
            return None;
        }
        let ghost old_streams = self.streams@;
        let mut batch: Vec<StoredEvent> = Vec::new();
        std::mem::swap(&mut batch, &mut self.streams[i].pending);
        proof {
            lemma_entries_map_update(
                self.paths@,
                old_streams,
                self.paths@.len() as int,
                i as int,
                self.streams@[i as int],
            );
            assert(self.streams@ =~= old_streams.update(i as int, self.streams@[i as int]));
            assert(events_view(self.streams@[i as int].pending@) =~= Seq::<StoredEventView>::empty());
            assert(self.streams@[i as int]@ =~= StreamView {
                pending: Seq::empty(),
                ..old(self)@[path@]
            });
        }
        Some((self.streams[i].stream_id, batch))
    }

    /// Puts back a batch that could not be sent, ahead of the events that arrived since; when
    /// `path` has no stream the batch is dropped.
    pub fn restore_pending(&mut self, path: &[u8], batch: Vec<StoredEvent>)
        requires
            old(self).wf(),
        ensures
            final(self).wf(),
            final(self).next_id() == old(self).next_id(),
            old(self)@.contains_key(path@) ==> final(self)@ == old(self)@.insert(
                path@,
                StreamView {
                    pending: events_view(batch@) + old(self)@[path@].pending,
                    ..old(self)@[path@]
                },
            ),
            !old(self)@.contains_key(path@) ==> final(self)@ == old(self)@,
    {
        if let Some(i) = self.find(path) {
            let ghost old_streams = self.streams@;
            let ghost orig = batch@;
            let mut batch = batch;
            batch.append(&mut self.streams[i].pending);
            self.streams[i].pending = batch;
            proof {
                lemma_entries_map_update(
                    self.paths@,
                    old_streams,
                    self.paths@.len() as int,
                    i as int,
                    self.streams@[i as int],
                );
                assert(self.streams@ =~= old_streams.update(i as int, self.streams@[i as int]));
                assert(events_view(self.streams@[i as int].pending@) =~= events_view(orig)
                    + old(self)@[path@].pending);
                assert(self.streams@[i as int]@ =~= StreamView {
                    pending: events_view(orig) + old(self)@[path@].pending,
                    ..old(self)@[path@]
                });
            }
        }
    }

    /// Records that the stream of `path` has been registered with the aggregator.
    pub fn mark_registered(&mut self, path: &[u8])
        requires
            old(self).wf(),
        ensures
            final(self).wf(),
            final(self).next_id() == old(self).next_id(),
            old(self)@.contains_key(path@) ==> final(self)@ == old(self)@.insert(
                path@,
                StreamView { registered: true, ..old(self)@[path@] },
            ),
            !old(self)@.contains_key(path@) ==> final(self)@ == old(self)@,
    {
        if let Some(i) = self.find(path) {
            let ghost old_streams = self.streams@;
            self.streams[i].registered = true;
            proof {
                lemma_entries_map_update(
                    self.paths@,
                    old_streams,
                    self.paths@.len() as int,
                    i as int,
                    self.streams@[i as int],
                );
                assert(self.streams@ =~= old_streams.update(i as int, self.streams@[i as int]));
                assert(self.streams@[i as int]@ =~= StreamView {
                    registered: true,
                    ..old(self)@[path@]
                });
            }
        }
    }
}

/// What the daemon does next for a log file's stream.
pub enum DispatchStep {
    /// Send a registration of the stream with this id and metadata, then report the outcome
    /// with `Dispatcher::registration_result`.
    Register(u32, PodMetadata),
    /// Send this batch of the stream with this id, then report the outcome with
    /// `Dispatcher::batch_result`.
    SendBatch(u32, Vec<StoredEvent>),
    /// Nothing more to send; tell the tailer whether it may go on reading.
    Done(bool),
}

/// The mathematical content of a [`DispatchStep`].
pub enum StepView {
    Register(u32, PodMetadataView),
    SendBatch(u32, Seq<StoredEventView>),
    Done(bool),
}

impl View for DispatchStep {
    type V = StepView;

    open spec fn view(&self) -> StepView {
        match self {
            DispatchStep::Register(id, m) => StepView::Register(*id, m@),
            DispatchStep::SendBatch(id, b) => StepView::SendBatch(*id, events_view(b@)),
            DispatchStep::Done(b) => StepView::Done(*b),
        }
    }
}

/// `m` with a fresh stream for `path` (id `id`) unless it has one.
pub open spec fn with_stream(m: Map<Seq<u8>, StreamView>, path: Seq<u8>, id: u32) -> Map<
    Seq<u8>,
    StreamView,
> {
    if m.contains_key(path) {
        m
    } else {
        m.insert(
            path,
            StreamView {
                stream_id: id,
                metadata: pod_metadata_spec(path),
                registered: false,
                pending: Seq::empty(),
            },
        )
    }
}

/// `m` with the pending events of `path` replaced.
pub open spec fn with_pending(
    m: Map<Seq<u8>, StreamView>,
    path: Seq<u8>,
    pending: Seq<StoredEventView>,
) -> Map<Seq<u8>, StreamView> {
    m.insert(path, StreamView { pending, ..m[path] })
}

/// `m` with the stream of `path` registered.
pub open spec fn with_registered(m: Map<Seq<u8>, StreamView>, path: Seq<u8>) -> Map<
    Seq<u8>,
    StreamView,
> {
    if m.contains_key(path) {
        m.insert(path, StreamView { registered: true, ..m[path] })
    } else {
        m
    }
}

/// Taking the pending events of `path` for sending, if there are any.
pub open spec fn take_step(m: Map<Seq<u8>, StreamView>, path: Seq<u8>) -> (
    Map<Seq<u8>, StreamView>,
    StepView,
) {
    if m.contains_key(path) && m[path].pending.len() > 0 {
        (with_pending(m, path, Seq::empty()), StepView::SendBatch(m[path].stream_id, m[path].pending))
    } else {
        (m, StepView::Done(true))
    }
}

/// Adding `event` to the registered stream of `path`, and sending the batch once it is full.
pub open spec fn push_step(m: Map<Seq<u8>, StreamView>, path: Seq<u8>, event: StoredEventView) -> (
    Map<Seq<u8>, StreamView>,
    StepView,
) {
    let pushed = m[path].pending.push(event);
    let m2 = with_pending(m, path, pushed);
    if batch_full(pushed) {
        take_step(m2, path)
    } else {
        (m2, StepView::Done(true))
    }
}

/// Flushing `path` when it has pending events: registering the stream first if needed.
pub open spec fn flush_step(m: Map<Seq<u8>, StreamView>, path: Seq<u8>) -> (
    Map<Seq<u8>, StreamView>,
    StepView,
) {
    if !(m.contains_key(path) && m[path].pending.len() > 0) {
        (m, StepView::Done(true))
    } else if !m[path].registered {
        (m, StepView::Register(m[path].stream_id, m[path].metadata))
    } else {
        take_step(m, path)
    }
}

/// Routes parsed events to per-file streams and decides what to send to the aggregator.
///
/// An event for a stream that is not yet registered waits while the registration is sent, and
/// is dropped when the registration fails. A stream's events are sent as one batch once 64
/// events or 56 KiB of payload are pending, or when the tailer has handed over all complete
/// lines of the file; a batch that fails goes back ahead of newer events, except the event
/// whose arrival filled it: the tailer keeps that event's line and delivers it again.
pub struct Dispatcher {
    streams: StreamTable,
    held: Option<StoredEvent>,
    fresh_in_batch: bool,
}

/// A failed batch as it goes back: without its last event when that event is the one being
/// delivered, which the tailer will deliver again.
pub open spec fn returned_events(batch: Seq<StoredEventView>, fresh: bool) -> Seq<
    StoredEventView,
> {
    if fresh && batch.len() > 0 {
        batch.drop_last()
    } else {
        batch
    }
}

impl Dispatcher {
    pub closed spec fn wf(&self) -> bool {
        self.streams.wf()
    }

    /// The streams, by log file path.
    pub closed spec fn streams(&self) -> Map<Seq<u8>, StreamView> {
        self.streams@
    }

    /// The id the next new stream gets.
    pub closed spec fn next_id(&self) -> u32 {
        self.streams.next_id()
    }

    /// The event that waits for its stream's registration.
    pub closed spec fn held(&self) -> Option<StoredEventView> {
        match self.held {
            Some(e) => Some(e@),
            None => None,
        }
    }

    /// Whether the batch last asked for ends with the event being delivered.
    pub closed spec fn fresh(&self) -> bool {
        self.fresh_in_batch
    }

    /// No streams yet; the first gets id 1.
    pub fn new() -> (r: Self)
        ensures
            r.wf(),
            r.streams() == Map::<Seq<u8>, StreamView>::empty(),
            r.next_id() == 1,
            r.held() is None,
            !r.fresh(),
    {
        Dispatcher { streams: StreamTable::new(), held: None, fresh_in_batch: false }
    }

    /// The id the next new stream gets.
    pub fn next_stream_id(&self) -> (r: u32)
        ensures
            r == self.next_id(),
    {
        self.streams.next_stream_id()
    }

    /// Whether `path` has a stream.
    pub fn has_stream(&self, path: &[u8]) -> (r: bool)
        requires
            self.wf(),
        ensures
            r == self.streams().contains_key(path@),
    {
        self.streams.contains(path)
    }

    fn continue_with_take(&mut self, path: &[u8]) -> (r: DispatchStep)
        requires
            old(self).wf(),
        ensures
            final(self).wf(),
            final(self).next_id() == old(self).next_id(),
            final(self).held() == old(self).held(),
            !final(self).fresh(),
            (final(self).streams(), r@) == take_step(old(self).streams(), path@),
    {
        self.fresh_in_batch = false;
        match self.streams.take_pending(path) {
            Some((id, batch)) => DispatchStep::SendBatch(id, batch),
            None => DispatchStep::Done(true),
        }
    }

    fn continue_with_push(&mut self, path: &[u8], event: StoredEvent) -> (r: DispatchStep)
        requires
            old(self).wf(),
            old(self).streams().contains_key(path@),
        ensures
            final(self).wf(),
            final(self).next_id() == old(self).next_id(),
            final(self).held() == old(self).held(),
            final(self).fresh() == r@ is SendBatch,
            (final(self).streams(), r@) == push_step(old(self).streams(), path@, event@),
    {
        if self.streams.push_event(path, event) {
            let r = self.continue_with_take(path);
            self.fresh_in_batch = match r {
                DispatchStep::SendBatch(_, _) => true,
                _ => false,
            };
            r
        } else {
            self.fresh_in_batch = false;
            DispatchStep::Done(true)
        }
    }

    /// A parsed event for the log file `path`: gives the file a stream if it has none, asks
    /// for the stream's registration while it has none (holding the event), and otherwise
    /// adds the event, asking for the batch to be sent once it is full.
    pub fn begin_event(&mut self, path: &[u8], event: StoredEvent) -> (r: DispatchStep)
        requires
            old(self).wf(),
            old(self).streams().contains_key(path@) || old(self).next_id() < u32::MAX,
        ensures
            final(self).wf(),
            final(self).next_id() == if old(self).streams().contains_key(path@) {
                old(self).next_id()
            } else {
                (old(self).next_id() + 1) as u32
            },
            ({
                let m1 = with_stream(old(self).streams(), path@, old(self).next_id());
                if !m1[path@].registered {
                    &&& r@ == StepView::Register(m1[path@].stream_id, m1[path@].metadata)
                    &&& final(self).streams() == m1
                    &&& final(self).held() == Some(event@)
                    &&& !final(self).fresh()
                } else {
                    &&& (final(self).streams(), r@) == push_step(m1, path@, event@)
                    &&& final(self).held() is None
                    &&& final(self).fresh() == r@ is SendBatch
                }
            }),
    {
        self.streams.ensure_stream(path);
        match self.streams.pending_registration(path) {
            Some((id, meta)) => {
                self.held = Some(event);
                self.fresh_in_batch = false;
                DispatchStep::Register(id, meta)
            },
            None => {
                self.held = None;
                self.continue_with_push(path, event)
            },
        }
    }

    /// The tailer has handed over every complete line of `path`: asks for its pending events
    /// to be sent, registering the stream first if needed.
    pub fn begin_flush(&mut self, path: &[u8]) -> (r: DispatchStep)
        requires
            old(self).wf(),
        ensures
            final(self).wf(),
            final(self).next_id() == old(self).next_id(),
            final(self).held() is None,
            !final(self).fresh(),
            (final(self).streams(), r@) == flush_step(old(self).streams(), path@),
    {
        self.held = None;
        self.fresh_in_batch = false;
        if !self.streams.has_pending(path) {
            return DispatchStep::Done(true);
        }
        match self.streams.pending_registration(path) {
            Some((id, meta)) => DispatchStep::Register(id, meta),
            None => self.continue_with_take(path),
        }
    }

    /// The outcome of a registration asked for by a step for `path`: when it failed, the
    /// held event is dropped and the tailer must pause; when it was sent, the stream is
    /// registered and the held event is added, or else the flush goes on.
    pub fn registration_result(&mut self, path: &[u8], sent: bool) -> (r: DispatchStep)
        requires
            old(self).wf(),
            old(self).held() is Some ==> old(self).streams().contains_key(path@),
        ensures
            final(self).wf(),
            final(self).next_id() == old(self).next_id(),
            final(self).held() is None,
            final(self).fresh() == (sent && old(self).held() is Some && r@ is SendBatch),
            !sent ==> r@ == StepView::Done(false) && final(self).streams() == old(self).streams(),
            sent ==> (final(self).streams(), r@) == match old(self).held() {
                Some(e) => push_step(with_registered(old(self).streams(), path@), path@, e),
                None => take_step(with_registered(old(self).streams(), path@), path@),
            },
    {
        let held = self.held.take();
        if !sent {
            self.fresh_in_batch = false;
            return DispatchStep::Done(false);
        }
        self.streams.mark_registered(path);
        match held {
            Some(event) => self.continue_with_push(path, event),
            None => self.continue_with_take(path),
        }
    }

    /// The outcome of sending a batch of `path`: a batch that was not sent goes back ahead of
    /// the events that arrived since, without the event being delivered when that event filled
    /// the batch, and the tailer must pause.
    pub fn batch_result(&mut self, path: &[u8], sent: bool, batch: Vec<StoredEvent>) -> (r: bool)
        requires
            old(self).wf(),
        ensures
            final(self).wf(),
            final(self).next_id() == old(self).next_id(),
            final(self).held() == old(self).held(),
            !final(self).fresh(),
            r == sent,
            sent ==> final(self).streams() == old(self).streams(),
            !sent && old(self).streams().contains_key(path@) ==> final(self).streams()
                == with_pending(
                old(self).streams(),
                path@,
                returned_events(events_view(batch@), old(self).fresh())
                    + old(self).streams()[path@].pending,
            ),
            !sent && !old(self).streams().contains_key(path@) ==> final(self).streams() == old(
                self,
            ).streams(),
    {
        let fresh = self.fresh_in_batch;
        self.fresh_in_batch = false;
        if sent {
            true
        } else {
            let mut batch = batch;
            if fresh && batch.len() > 0 {
                let ghost before = batch@;
                batch.pop();
                assert(events_view(batch@) =~= events_view(before).drop_last());
            }
            self.streams.restore_pending(path, batch);
            false
        }
    }
}

/// When the batch filled by a delivered event fails, what goes back leaves the stream's
/// pending events as they were before the event: the refused event is not kept twice.
pub proof fn failed_fill_restores_pending(
    m: Map<Seq<u8>, StreamView>,
    path: Seq<u8>,
    event: StoredEventView,
)
    requires
        m.contains_key(path),
        batch_full(m[path].pending.push(event)),
    ensures
        ({
            let (m2, step) = push_step(m, path, event);
            &&& step matches StepView::SendBatch(id, b)
            &&& with_pending(m2, path, returned_events(b, true) + m2[path].pending) == m
        }),
{
    let (m2, step) = push_step(m, path, event);
    let pushed = m[path].pending.push(event);
    assert(pushed.drop_last() =~= m[path].pending);
    assert(returned_events(pushed, true) + Seq::<StoredEventView>::empty() =~= m[path].pending);
    assert(with_pending(m2, path, returned_events(pushed, true) + m2[path].pending) =~= m);
}

/// Every stream has its own id, at least 1 and below the id the next new stream gets.
pub proof fn stream_ids_distinct(table: &StreamTable, a: Seq<u8>, b: Seq<u8>)
    requires
        table.wf(),
        table@.contains_key(a),
        table@.contains_key(b),
    ensures
        1 <= table@[a].stream_id < table.next_id(),
        a != b ==> table@[a].stream_id != table@[b].stream_id,
{
    lemma_entries_map_lookup(table.paths@, table.streams@, table.paths@.len() as int);
    let i = choose|i: int| 0 <= i < table.paths@.len() && table.paths@[i]@ == a;
    let j = choose|j: int| 0 <= j < table.paths@.len() && table.paths@[j]@ == b;
    assert(table@[a] == table.streams@[i]@);
    assert(table@[b] == table.streams@[j]@);
    if a != b {
        assert(i != j);
        if i < j {
            assert(table.streams@[i].stream_id != table.streams@[j].stream_id);
        } else {
            assert(table.streams@[j].stream_id != table.streams@[i].stream_id);
        }
    }
}

/// In a dispatcher, too, every stream has its own id, at least 1 and below the id the next
/// new stream gets.
pub proof fn dispatcher_stream_ids_distinct(d: &Dispatcher, a: Seq<u8>, b: Seq<u8>)
    requires
        d.wf(),
        d.streams().contains_key(a),
        d.streams().contains_key(b),
    ensures
        1 <= d.streams()[a].stream_id < d.next_id(),
        a != b ==> d.streams()[a].stream_id != d.streams()[b].stream_id,
{
    stream_ids_distinct(&d.streams, a, b);
}

/// Putting back a batch that was just taken, with nothing pushed in between, gives back the
/// table as it was before the take.
pub proof fn restore_undoes_take(before: Map<Seq<u8>, StreamView>, path: Seq<u8>)
    requires
        before.contains_key(path),
    ensures
        ({
            let taken = before.insert(path, StreamView { pending: Seq::empty(), ..before[path] });
            taken.insert(
                path,
                StreamView { pending: before[path].pending + taken[path].pending, ..taken[path] },
            ) == before
        }),
{
    let taken = before.insert(path, StreamView { pending: Seq::empty(), ..before[path] });
    assert(before[path].pending + taken[path].pending =~= before[path].pending);
    assert(taken.insert(
        path,
        StreamView { pending: before[path].pending + taken[path].pending, ..taken[path] },
    ) =~= before);
}

} // verus!
