use vstd::prelude::*;
use vstd::hash_map::HashMapWithView;
use crate::parser::bytes_eq;
use crate::path::{has_log_extension, is_log_path};
use crate::sys::{IN_CREATE, IN_DELETE, IN_DELETE_SELF, IN_MODIFY, IN_MOVED_FROM, IN_MOVED_TO, IN_MOVE_SELF};

verus! {

broadcast use vstd::std_specs::hash::group_hash_axioms;

/// What to do about an event on a tailed log file.
pub struct FileEventPlan {
    /// The file was written to: read what was appended.
    pub read_deltas: bool,
    /// The file was deleted or moved away: stop tailing it.
    pub stop_tailing: bool,
}

/// What to do about an event on a watched directory.
#[derive(Debug, Clone, Copy, PartialEq, Eq, Structural)]
pub enum DirEventPlan {
    /// An entry was created or moved in: look at it.
    Discover,
    /// An entry was deleted or moved out: forget it.
    Forget,
    /// Nothing to do.
    Ignore,
}

/// Decides what an event mask means for a tailed file.
pub fn plan_file_event(mask: u32) -> (r: FileEventPlan)
    ensures
        r.read_deltas == (mask & IN_MODIFY != 0),
        r.stop_tailing == (mask & (IN_DELETE_SELF | IN_MOVE_SELF) != 0),
{
    FileEventPlan {
        read_deltas: mask & IN_MODIFY != 0,
        stop_tailing: mask & (IN_DELETE_SELF | IN_MOVE_SELF) != 0,
    }
}

/// What an event mask means for an entry of a watched directory; creation wins over deletion.
pub open spec fn dir_event_plan(mask: u32) -> DirEventPlan {
    if mask & (IN_CREATE | IN_MOVED_TO) != 0 {
        DirEventPlan::Discover
    } else if mask & (IN_DELETE | IN_MOVED_FROM) != 0 {
        DirEventPlan::Forget
    } else {
        DirEventPlan::Ignore
    }
}

/// Decides what an event mask means for an entry of a watched directory; creation wins over
/// deletion.
pub fn plan_dir_event(mask: u32) -> (r: DirEventPlan)
    ensures
        mask & (IN_CREATE | IN_MOVED_TO) != 0 ==> r == DirEventPlan::Discover,
        mask & (IN_CREATE | IN_MOVED_TO) == 0 && mask & (IN_DELETE | IN_MOVED_FROM) != 0 ==> r
            == DirEventPlan::Forget,
        mask & (IN_CREATE | IN_MOVED_TO) == 0 && mask & (IN_DELETE | IN_MOVED_FROM) == 0 ==> r
            == DirEventPlan::Ignore,
{
    if mask & (IN_CREATE | IN_MOVED_TO) != 0 {
        DirEventPlan::Discover
    } else if mask & (IN_DELETE | IN_MOVED_FROM) != 0 {
        DirEventPlan::Forget
    } else {
        DirEventPlan::Ignore
    }
}

/// What to do about one inotify event, given whether its watch is a tailed file.
#[derive(Debug, Clone, Copy, PartialEq, Eq, Structural)]
pub enum EventPlan {
    /// An event on a tailed file: read what was appended first when `read_deltas`, then stop
    /// tailing (dropping both its watch and its file) when `stop_tailing`.
    File { read_deltas: bool, stop_tailing: bool },
    /// An event on a named entry of a watched directory.
    Entry(DirEventPlan),
    /// A directory event without a name: nothing to do.
    Nothing,
}

/// Decides what an event means: events on a tailed file go by `plan_file_event`, events on
/// named entries of a watched directory by `plan_dir_event`, and unnamed directory events
/// are ignored.
pub fn plan_event(file_active: bool, mask: u32, has_name: bool) -> (r: EventPlan)
    ensures
        file_active ==> r == (EventPlan::File {
            read_deltas: mask & IN_MODIFY != 0,
            stop_tailing: mask & (IN_DELETE_SELF | IN_MOVE_SELF) != 0,
        }),
        !file_active && has_name ==> r == EventPlan::Entry(dir_event_plan(mask)),
        !file_active && !has_name ==> r == EventPlan::Nothing,
{
    if file_active {
        let f = plan_file_event(mask);
        EventPlan::File { read_deltas: f.read_deltas, stop_tailing: f.stop_tailing }
    } else if has_name {
        EventPlan::Entry(plan_dir_event(mask))
    } else {
        EventPlan::Nothing
    }
}

/// What to do with an entry found in a watched directory.
#[derive(Debug, Clone, Copy, PartialEq, Eq, Structural)]
pub enum EntryAction {
    /// A directory: watch it and scan it.
    Scan,
    /// A `.log` file: tail it.
    Tail,
    /// Anything else.
    Skip,
}

/// Decides what to do with a directory entry at `path` from its file type.
pub fn classify_entry(is_dir: bool, is_file: bool, path: &[u8]) -> (r: EntryAction)
    ensures
        is_dir ==> r == EntryAction::Scan,
        !is_dir && is_file && is_log_path(path@) ==> r == EntryAction::Tail,
        !is_dir && !(is_file && is_log_path(path@)) ==> r == EntryAction::Skip,
{
    if is_dir {
        EntryAction::Scan
    } else if is_file && has_log_extension(path) {
        EntryAction::Tail
    } else {
        EntryAction::Skip
    }
}

/// The map built from the first `n` key/value pairs; later pairs win.
pub open spec fn pairs_map<V>(keys: Seq<Vec<u8>>, vals: Seq<V>, n: int) -> Map<Seq<u8>, V>
    decreases n,
{
    if n <= 0 {
        Map::empty()
    } else {
        pairs_map(keys, vals, n - 1).insert(keys[n - 1]@, vals[n - 1])
    }
}

proof fn lemma_pairs_map_prefix<V>(
    keys: Seq<Vec<u8>>,
    vals: Seq<V>,
    keys2: Seq<Vec<u8>>,
    vals2: Seq<V>,
    n: int,
)
    requires
        0 <= n <= keys.len(),
        n <= keys2.len(),
        n <= vals.len(),
        n <= vals2.len(),
        forall|i: int| 0 <= i < n ==> #[trigger] keys[i]@ == keys2[i]@ && vals[i] == vals2[i],
    ensures
        pairs_map(keys, vals, n) == pairs_map(keys2, vals2, n),
    decreases n,
{
    if n > 0 {
        lemma_pairs_map_prefix(keys, vals, keys2, vals2, n - 1);
    }
}

proof fn lemma_pairs_map_lookup<V>(keys: Seq<Vec<u8>>, vals: Seq<V>, n: int)
    requires
        0 <= n <= keys.len(),
        n <= vals.len(),
        forall|i: int, j: int| 0 <= i < j < n ==> keys[i]@ != keys[j]@,
    ensures
        forall|i: int|
            0 <= i < n ==> #[trigger] pairs_map(keys, vals, n).contains_key(keys[i]@) && pairs_map(
                keys,
                vals,
                n,
            )[keys[i]@] == vals[i],
        forall|k: Seq<u8>|
            #[trigger] pairs_map(keys, vals, n).contains_key(k) ==> exists|i: int|
                0 <= i < n && keys[i]@ == k,
    decreases n,
{
    if n > 0 {
        lemma_pairs_map_lookup(keys, vals, n - 1);
        let m = pairs_map(keys, vals, n);
        assert forall|i: int| 0 <= i < n implies #[trigger] m.contains_key(keys[i]@) && m[keys[i]@]
            == vals[i] by {
            if i < n - 1 {
                assert(pairs_map(keys, vals, n - 1).contains_key(keys[i]@));
            }
        }
        assert forall|k: Seq<u8>| #[trigger] m.contains_key(k) implies exists|i: int|
            0 <= i < n && keys[i]@ == k by {
            if k != keys[n - 1]@ {
                assert(pairs_map(keys, vals, n - 1).contains_key(k));
            }
        }
    }
}

proof fn lemma_pairs_map_update<V>(keys: Seq<Vec<u8>>, vals: Seq<V>, n: int, idx: int, v: V)
    requires
        0 <= idx < n <= keys.len(),
        n <= vals.len(),
        forall|i: int, j: int| 0 <= i < j < n ==> keys[i]@ != keys[j]@,
    ensures
        pairs_map(keys, vals.update(idx, v), n) == pairs_map(keys, vals, n).insert(keys[idx]@, v),
    decreases n,
{
    if idx == n - 1 {
        lemma_pairs_map_prefix(keys, vals, keys, vals.update(idx, v), n - 1);
    } else {
        lemma_pairs_map_update(keys, vals, n - 1, idx, v);
        assert(pairs_map(keys, vals.update(idx, v), n) =~= pairs_map(keys, vals, n).insert(
            keys[idx]@,
            v,
        ));
    }
}

proof fn lemma_pairs_map_remove<V>(keys: Seq<Vec<u8>>, vals: Seq<V>, n: int, idx: int)
    requires
        0 <= idx < n,
        n == keys.len(),
        n == vals.len(),
        forall|i: int, j: int| 0 <= i < j < n ==> keys[i]@ != keys[j]@,
    ensures
        pairs_map(keys.remove(idx), vals.remove(idx), n - 1) == pairs_map(keys, vals, n).remove(
            keys[idx]@,
        ),
    decreases n,
{
    lemma_pairs_map_lookup(keys, vals, n - 1);
    if idx == n - 1 {
        lemma_pairs_map_prefix(keys, vals, keys.remove(idx), vals.remove(idx), n - 1);
        assert(!pairs_map(keys, vals, n - 1).contains_key(keys[n - 1]@));
        assert(pairs_map(keys, vals, n).remove(keys[idx]@) =~= pairs_map(keys, vals, n - 1));
    } else {
        let k2 = keys.drop_last();
        let v2 = vals.drop_last();
        lemma_pairs_map_prefix(keys, vals, k2, v2, n - 1);
        lemma_pairs_map_remove(k2, v2, n - 1, idx);
        lemma_pairs_map_prefix(k2.remove(idx), v2.remove(idx), keys.remove(idx), vals.remove(idx), n - 2);
        assert(keys.remove(idx)[n - 2] == keys[n - 1]);
        assert(vals.remove(idx)[n - 2] == vals[n - 1]);
        assert(pairs_map(keys.remove(idx), vals.remove(idx), n - 1) =~= pairs_map(keys, vals, n).remove(
            keys[idx]@,
        ));
    }
}

/// A map keyed by byte strings (paths), kept as a list of distinct keys.
pub struct ByteMap<V> {
    keys: Vec<Vec<u8>>,
    vals: Vec<V>,
}

impl<V> View for ByteMap<V> {
    type V = Map<Seq<u8>, V>;

    closed spec fn view(&self) -> Map<Seq<u8>, V> {
        pairs_map(self.keys@, self.vals@, self.keys@.len() as int)
    }
}

impl<V> ByteMap<V> {
    /// The keys are distinct and each has a value.
    pub closed spec fn wf(&self) -> bool {
        &&& self.keys@.len() == self.vals@.len()
        &&& forall|i: int, j: int| 0 <= i < j < self.keys@.len() ==> self.keys@[i]@ != self.keys@[j]@
    }

    /// An empty map.
    pub fn new() -> (r: Self)
        ensures
            r.wf(),
            r@ == Map::<Seq<u8>, V>::empty(),
    {
        let r = ByteMap { keys: Vec::new(), vals: Vec::new() };
        assert(r@ =~= Map::<Seq<u8>, V>::empty());
        r
    }

    fn find(&self, key: &[u8]) -> (r: Option<usize>)
        requires
            self.wf(),
        ensures
            r matches Some(i) ==> i < self.keys@.len() && self.keys@[i as int]@ == key@
                && self@.contains_key(key@) && self@[key@] == self.vals@[i as int],
            r is None ==> !self@.contains_key(key@),
    {
        proof {
            lemma_pairs_map_lookup(self.keys@, self.vals@, self.keys@.len() as int);
        }
        let mut i: usize = 0;
        while i < self.keys.len()
            invariant
                self.wf(),
                i <= self.keys@.len(),
                forall|j: int| 0 <= j < i ==> self.keys@[j]@ != key@,
            decreases self.keys@.len() - i,
        {
            if bytes_eq(self.keys[i].as_slice(), key) {
                proof {
                    lemma_pairs_map_lookup(self.keys@, self.vals@, self.keys@.len() as int);
                }
                return Some(i);
            }
            i = i + 1;
        }
        None
    }

    /// The value of `key`.
    pub fn get(&self, key: &[u8]) -> (r: Option<&V>)
        requires
            self.wf(),
        ensures
            r matches Some(v) ==> self@.contains_key(key@) && self@[key@] == *v,
            r is None ==> !self@.contains_key(key@),
    {
        match self.find(key) {
            Some(i) => Some(&self.vals[i]),
            None => None,
        }
    }

    /// Sets the value of `key`.
    pub fn insert(&mut self, key: &[u8], v: V)
        requires
            old(self).wf(),
        ensures
            final(self).wf(),
            final(self)@ == old(self)@.insert(key@, v),
    {
        match self.find(key) {
            Some(i) => {
                let ghost old_vals = self.vals@;
                self.vals.set(i, v);
                proof {
                    lemma_pairs_map_update(self.keys@, old_vals, self.keys@.len() as int, i as int, v);
                }
            },
            None => {
                let ghost old_keys = self.keys@;
                let ghost old_vals = self.vals@;
                proof {
                    lemma_pairs_map_lookup(old_keys, old_vals, old_keys.len() as int);
                }
                self.keys.push(vstd::slice::slice_to_vec(key));
                self.vals.push(v);
                proof {
                    lemma_pairs_map_prefix(old_keys, old_vals, self.keys@, self.vals@, old_keys.len() as int);
                    assert forall|i: int, j: int|
                        0 <= i < j < self.keys@.len() implies self.keys@[i]@ != self.keys@[j]@ by {
                        if j == old_keys.len() {
                            assert(old(self)@.contains_key(old_keys[i]@));
                        }
                    }
                }
            },
        }
    }

    /// Removes `key`, giving back its value.
    pub fn remove(&mut self, key: &[u8]) -> (r: Option<V>)
        requires
            old(self).wf(),
        ensures
            final(self).wf(),
            final(self)@ == old(self)@.remove(key@),
            r matches Some(v) ==> old(self)@.contains_key(key@) && old(self)@[key@] == v,
            r is None ==> !old(self)@.contains_key(key@),
    {
        match self.find(key) {
            Some(i) => {
                proof {
                    lemma_pairs_map_remove(self.keys@, self.vals@, self.keys@.len() as int, i as int);
                }
                let ghost old_keys = self.keys@;
                self.keys.remove(i);
                let v = self.vals.remove(i);
                proof {
                    assert forall|a: int, b: int|
                        0 <= a < b < self.keys@.len() implies self.keys@[a]@ != self.keys@[b]@ by {
                        let a0 = if a < i { a } else { a + 1 };
                        let b0 = if b < i { b } else { b + 1 };
                        assert(self.keys@[a] == old_keys[a0]);
                        assert(self.keys@[b] == old_keys[b0]);
                    }
                }
                Some(v)
            },
            None => {
                assert(old(self)@.remove(key@) =~= old(self)@);
                None
            },
        }
    }
}

/// The inotify watches: each watch descriptor with the path it watches, and each path with its
/// watch descriptor.
pub struct WatchRegistry {
    watch_to_path: HashMapWithView<i32, Vec<u8>>,
    path_to_watch: ByteMap<i32>,
}

impl WatchRegistry {
    pub closed spec fn wf(&self) -> bool {
        self.path_to_watch.wf()
    }

    /// The path of each watch descriptor.
    pub closed spec fn paths(&self) -> Map<i32, Seq<u8>> {
        self.watch_to_path@.map_values(|p: Vec<u8>| p@)
    }

    /// The watch descriptor of each path.
    pub closed spec fn watches(&self) -> Map<Seq<u8>, i32> {
        self.path_to_watch@
    }

    /// No watches.
    pub fn new() -> (r: Self)
        ensures
            r.wf(),
            r.paths() == Map::<i32, Seq<u8>>::empty(),
            r.watches() == Map::<Seq<u8>, i32>::empty(),
    {
        let r = WatchRegistry {
            watch_to_path: HashMapWithView::new(),
            path_to_watch: ByteMap::new(),
        };
        assert(r.paths() =~= Map::<i32, Seq<u8>>::empty());
        r
    }

    /// The path that `wd` watches.
    pub fn path_of(&self, wd: i32) -> (r: Option<&[u8]>)
        ensures
            r matches Some(p) ==> self.paths().contains_key(wd) && self.paths()[wd] == p@,
            r is None ==> !self.paths().contains_key(wd),
    {
        match self.watch_to_path.get(&wd) {
            Some(p) => Some(p.as_slice()),
            None => None,
        }
    }

    /// The watch descriptor of `path`.
    pub fn watch_of(&self, path: &[u8]) -> (r: Option<i32>)
        requires
            self.wf(),
        ensures
            r matches Some(wd) ==> self.watches().contains_key(path@) && self.watches()[path@] == wd,
            r is None ==> !self.watches().contains_key(path@),
    {
        match self.path_to_watch.get(path) {
            Some(wd) => Some(*wd),
            None => None,
        }
    }

    /// Records that `wd` watches `path`, in both directions.
    pub fn insert(&mut self, wd: i32, path: &[u8])
        requires
            old(self).wf(),
        ensures
            final(self).wf(),
            final(self).paths() == old(self).paths().insert(wd, path@),
            final(self).watches() == old(self).watches().insert(path@, wd),
    {
        self.watch_to_path.insert(wd, vstd::slice::slice_to_vec(path));
        self.path_to_watch.insert(path, wd);
        assert(self.paths() =~= old(self).paths().insert(wd, path@));
    }

    /// Forgets the watch of `path`, in both directions; gives back its descriptor so that it can
    /// be removed from the kernel too.
    pub fn remove(&mut self, path: &[u8]) -> (r: Option<i32>)
        requires
            old(self).wf(),
        ensures
            final(self).wf(),
            r is Some <==> old(self).watches().contains_key(path@),
            r matches Some(wd) ==> {
                &&& wd == old(self).watches()[path@]
                &&& final(self).watches() == old(self).watches().remove(path@)
                &&& final(self).paths() == old(self).paths().remove(wd)
            },
            r is None ==> final(self).watches() == old(self).watches() && final(self).paths()
                == old(self).paths(),
    {
        match self.path_to_watch.remove(path) {
            Some(wd) => {
                self.watch_to_path.remove(&wd);
                assert(self.paths() =~= old(self).paths().remove(wd));
                Some(wd)
            },
            None => None,
        }
    }
}

/// The two directions of the watch maps are inverse to each other.
pub open spec fn watch_maps_agree(paths: Map<i32, Seq<u8>>, watches: Map<Seq<u8>, i32>) -> bool {
    &&& forall|p: Seq<u8>|
        #[trigger] watches.contains_key(p) ==> paths.contains_key(watches[p]) && paths[watches[p]]
            == p
    &&& forall|wd: i32|
        #[trigger] paths.contains_key(wd) ==> watches.contains_key(paths[wd]) && watches[paths[wd]]
            == wd
}

/// Recording a new watch for a path that has none, with a descriptor that no path holds, and
/// forgetting the watch of a path both keep the two directions inverse to each other (the
/// kernel hands out a descriptor already in use only for an inode that is already watched).
pub proof fn watch_maps_stay_inverse(
    paths: Map<i32, Seq<u8>>,
    watches: Map<Seq<u8>, i32>,
    wd: i32,
    path: Seq<u8>,
)
    requires
        watch_maps_agree(paths, watches),
    ensures
        !paths.contains_key(wd) && !watches.contains_key(path) ==> watch_maps_agree(
            paths.insert(wd, path),
            watches.insert(path, wd),
        ),
        watches.contains_key(path) ==> watch_maps_agree(
            paths.remove(watches[path]),
            watches.remove(path),
        ),
{
    if !paths.contains_key(wd) && !watches.contains_key(path) {
        let p2 = paths.insert(wd, path);
        let w2 = watches.insert(path, wd);
        assert forall|q: Seq<u8>| #[trigger] w2.contains_key(q) implies p2.contains_key(w2[q])
            && p2[w2[q]] == q by {
            if q != path {
                assert(paths.contains_key(watches[q]));
            }
        }
        assert forall|d: i32| #[trigger] p2.contains_key(d) implies w2.contains_key(p2[d])
            && w2[p2[d]] == d by {
            if d != wd {
                assert(watches.contains_key(paths[d]));
            }
        }
    }
    if watches.contains_key(path) {
        let d0 = watches[path];
        let p2 = paths.remove(d0);
        let w2 = watches.remove(path);
        assert forall|q: Seq<u8>| #[trigger] w2.contains_key(q) implies p2.contains_key(w2[q])
            && p2[w2[q]] == q by {
            assert(paths.contains_key(watches[q]));
        }
        assert forall|d: i32| #[trigger] p2.contains_key(d) implies w2.contains_key(p2[d])
            && w2[p2[d]] == d by {
            assert(watches.contains_key(paths[d]));
        }
    }
}

} // verus!
