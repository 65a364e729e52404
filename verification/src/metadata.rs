use vstd::prelude::*;
use vstd::utf8::{
    decode_utf8, is_continuation_byte, length_of_first_scalar, pop_first_scalar,
    take_first_scalar, valid_first_scalar, valid_utf8, valid_utf8_concat,
};
use crate::ascii::{DOT, SLASH, UNDERSCORE};
use crate::path::{
    components_rev, dot_dot, is_component, last_before, last_byte_before,
    lemma_last_before, lemma_last_before_is, name_from_end, ranges_of, ranges_within, trailing_components,
};
use crate::parser::{find_byte, first_from, lemma_first_from, lemma_first_from_is};

verus! {

/// Converts bytes into a `String` where they are valid UTF-8.
///
/// Calls `String::from_utf8`, which returns an error exactly when the bytes are not valid
/// UTF-8; its string is then the decoding of the bytes.
#[verifier::external_body]
pub(crate) fn string_from_utf8(bytes: Vec<u8>) -> (r: Option<String>)
    ensures
        r is Some <==> valid_utf8(bytes@),
        r matches Some(s) ==> s@ == decode_utf8(bytes@),
{
    String::from_utf8(bytes).ok()
}

/// Kubernetes pod metadata recovered from a container log path.
#[derive(Debug, Clone)]
pub struct PodMetadata {
    pub namespace: String,
    pub pod_name: String,
    pub pod_uid: String,
    pub container_name: String,
}

/// The text of a file name, if it is valid UTF-8.
pub open spec fn name_text(n: Option<Seq<u8>>) -> Option<Seq<char>> {
    match n {
        Some(b) => if valid_utf8(b) {
            Some(decode_utf8(b))
        } else {
            None
        },
        None => None,
    }
}

/// The mathematical content of a [`PodMetadata`].
pub struct PodMetadataView {
    pub namespace: Seq<char>,
    pub pod_name: Seq<char>,
    pub pod_uid: Seq<char>,
    pub container_name: Seq<char>,
}

impl View for PodMetadata {
    type V = PodMetadataView;

    open spec fn view(&self) -> PodMetadataView {
        PodMetadataView {
            namespace: self.namespace@,
            pod_name: self.pod_name@,
            pod_uid: self.pod_uid@,
            container_name: self.container_name@,
        }
    }
}

/// What `parse_pod_metadata` gives for the path bytes `p`, laid out as
/// `.../<namespace>_<pod>_<uid>/<container>/<n>.log`.
///
/// The pod directory (third name from the end) is split at its first `_` into the namespace
/// and the rest, and the rest at its last `_` into pod name and uid. Missing parts keep their
/// defaults: namespace `default`, pod name the file name (or `unknown`), uid and container
/// `unknown`.
pub open spec fn pod_metadata_spec(p: Seq<u8>) -> PodMetadataView {
    let file_name = match name_text(name_from_end(p, 0)) {
        Some(t) => t,
        None => "unknown"@,
    };
    let container = match name_text(name_from_end(p, 1)) {
        Some(t) => t,
        None => "unknown"@,
    };
    let base = PodMetadataView {
        namespace: "default"@,
        pod_name: file_name,
        pod_uid: "unknown"@,
        container_name: container,
    };
    match name_text(name_from_end(p, 2)) {
        None => base,
        Some(_) => {
            let d = name_from_end(p, 2).unwrap();
            match first_from(d, UNDERSCORE, 0) {
                None => base,
                Some(i) => {
                    let rest = d.subrange(i + 1, d.len() as int);
                    let with_ns = PodMetadataView {
                        namespace: decode_utf8(d.subrange(0, i)),
                        ..base
                    };
                    match last_before(rest, UNDERSCORE, rest.len() as int) {
                        None => with_ns,
                        Some(j) => PodMetadataView {
                            pod_name: decode_utf8(rest.subrange(0, j)),
                            pod_uid: decode_utf8(rest.subrange(j + 1, rest.len() as int)),
                            ..with_ns
                        },
                    }
                },
            }
        },
    }
}

proof fn lemma_take_first_scalar_valid(b: Seq<u8>)
    requires
        b.len() > 0,
        valid_first_scalar(b),
    ensures
        valid_utf8(take_first_scalar(b)),
{
    reveal_with_fuel(valid_utf8, 2);
    let h = take_first_scalar(b);
    assert(h.subrange(0, length_of_first_scalar(h)) =~= h);
    assert(pop_first_scalar(h).len() == 0);
}

/// Splitting valid UTF-8 at an ASCII byte leaves valid UTF-8 on both sides.
proof fn lemma_valid_utf8_ascii_split(b: Seq<u8>, k: int)
    requires
        valid_utf8(b),
        0 <= k < b.len(),
        b[k] < 0x80,
    ensures
        valid_utf8(b.subrange(0, k)),
        valid_utf8(b.subrange(k + 1, b.len() as int)),
    decreases b.len(),
{
    let l = length_of_first_scalar(b);
    let tail = pop_first_scalar(b);
    assert(valid_utf8(tail));
    if k == 0 {
        assert(l == 1);
        assert(b.subrange(0, 0) =~= Seq::<u8>::empty());
        assert(tail =~= b.subrange(1, b.len() as int));
    } else if k < l {
        assert(is_continuation_byte(b[k]));
    } else {
        lemma_valid_utf8_ascii_split(tail, k - l);
        lemma_take_first_scalar_valid(b);
        let head = take_first_scalar(b);
        valid_utf8_concat(head, tail.subrange(0, k - l));
        assert(head + tail.subrange(0, k - l) =~= b.subrange(0, k));
        assert(tail.subrange(k - l + 1, tail.len() as int) =~= b.subrange(k + 1, b.len() as int));
    }
}

/// The text of `s[start..end]` when it is a name (not `..`) that is valid UTF-8.
fn name_text_at(s: &[u8], start: usize, end: usize) -> (r: Option<String>)
    requires
        start <= end <= s.len(),
    ensures
        r matches Some(t) ==> s@.subrange(start as int, end as int) != dot_dot() && name_text(
            Some(s@.subrange(start as int, end as int)),
        ) == Some(t@),
        r is None ==> s@.subrange(start as int, end as int) == dot_dot() || name_text(
            Some(s@.subrange(start as int, end as int)),
        ) is None,
{
    if end - start == 2 && s[start] == DOT && s[start + 1] == DOT {
        assert(s@.subrange(start as int, end as int) =~= dot_dot());
        return None;
    }
    assert(s@.subrange(start as int, end as int) != dot_dot()) by {
        if end - start == 2 {
            let t = s@.subrange(start as int, end as int);
            assert(t[0] != DOT || t[1] != DOT);
        }
    }
    let bytes = vstd::slice::slice_to_vec(&s[start..end]);
    string_from_utf8(bytes)
}

/// Text of bytes known to be valid UTF-8.
fn decode_valid(s: &[u8]) -> (r: String)
    requires
        valid_utf8(s@),
    ensures
        r@ == decode_utf8(s@),
{
    string_from_utf8(vstd::slice::slice_to_vec(s)).unwrap()
}

/// Recovers namespace, pod name, pod uid and container name from the bytes of a container log
/// path laid out as `.../pods/<namespace>_<pod>_<uid>/<container>/<n>.log`.
pub fn parse_pod_metadata(path: &[u8]) -> (r: PodMetadata)
    ensures
        r@ == pod_metadata_spec(path@),
{
    let ghost p = path@;
    let ghost all = components_rev(p, p.len() as int);
    let (starts, ends) = trailing_components(path, 3);
    let ghost found = ranges_of(p, starts@, ends@);

    let mut names: Vec<Option<String>> = Vec::new();
    let mut k: usize = 0;
    while k < 3
        invariant
            p == path@,
            all == components_rev(p, p.len() as int),
            starts.len() <= 3,
            ranges_within(p, starts@, ends@),
            found == ranges_of(p, starts@, ends@),
            found.len() < 3 ==> all == found,
            found.len() == 3 ==> found == all.subrange(0, 3) && all.len() >= 3,
            k <= 3,
            names.len() == k,
            forall|j: int|
                0 <= j < k ==> match #[trigger] names@[j] {
                    Some(t) => name_text(name_from_end(p, j)) == Some(t@),
                    None => name_text(name_from_end(p, j)) is None,
                },
        decreases 3 - k,
    {
        proof {
            if found.len() == 3 {
                assert(all.subrange(0, 3)[k as int] == all[k as int]);
            }
        }
        if k < starts.len() {
            names.push(name_text_at(path, starts[k], ends[k]));
        } else {
            names.push(None);
        }
        k = k + 1;
    }

    let ghost n0 = names@[0];
    let ghost n1 = names@[1];
    let ghost n2 = names@[2];
    let pod_dir = names.pop().unwrap();
    let container = names.pop().unwrap();
    let file_name = names.pop().unwrap();
    assert(pod_dir == n2 && container == n1 && file_name == n0);

    let mut namespace = "default".to_string();
    let mut pod_name = match file_name {
        Some(t) => t,
        None => "unknown".to_string(),
    };
    let mut pod_uid = "unknown".to_string();
    let container_name = match container {
        Some(t) => t,
        None => "unknown".to_string(),
    };

    if pod_dir.is_some() {
        let d = &path[starts[2]..ends[2]];
        let ghost db = d@;
        assert(found[2] == p.subrange(starts@[2] as int, ends@[2] as int));
        assert(all.subrange(0, 3)[2] == all[2]);
        assert(name_from_end(p, 2) == Some(db));
        assert(valid_utf8(db));
        if let Some(i) = find_byte(d, 0, UNDERSCORE) {
            proof {
                lemma_first_from(db, UNDERSCORE, 0);
                lemma_valid_utf8_ascii_split(db, i as int);
            }
            namespace = decode_valid(&d[0..i]);
            let rest = &d[i + 1..d.len()];
            if let Some(j) = last_byte_before(rest, UNDERSCORE, rest.len()) {
                proof {
                    lemma_last_before(rest@, UNDERSCORE, rest@.len() as int);
                    lemma_valid_utf8_ascii_split(rest@, j as int);
                }
                pod_name = decode_valid(&rest[0..j]);
                pod_uid = decode_valid(&rest[j + 1..rest.len()]);
            }
        }
    }

    PodMetadata { namespace, pod_name, pod_uid, container_name }
}

/// Whether `x` does not occur in `s`.
pub open spec fn lacks(s: Seq<u8>, x: u8) -> bool {
    forall|k: int| 0 <= k < s.len() ==> s[k] != x
}

/// A file or directory name: no `/`, not empty, not `.` or `..`.
pub open spec fn plain_name(s: Seq<u8>) -> bool {
    lacks(s, SLASH) && is_component(s) && s != dot_dot()
}

/// The path `<prefix>/<namespace>_<pod>_<uid>/<container>/<file>`.
pub open spec fn pod_log_path(
    prefix: Seq<u8>,
    namespace: Seq<u8>,
    pod_name: Seq<u8>,
    pod_uid: Seq<u8>,
    container_name: Seq<u8>,
    file_name: Seq<u8>,
) -> Seq<u8> {
    prefix + seq![SLASH] + namespace + seq![UNDERSCORE] + pod_name + seq![UNDERSCORE] + pod_uid
        + seq![SLASH] + container_name + seq![SLASH] + file_name
}

proof fn lemma_underscore_valid()
    ensures
        valid_utf8(seq![UNDERSCORE]),
{
    reveal_with_fuel(valid_utf8, 2);
    assert(pop_first_scalar(seq![UNDERSCORE]).len() == 0);
}

/// A path laid out as `<prefix>/<namespace>_<pod>_<uid>/<container>/<file>` gives back exactly
/// those parts, when the namespace and uid hold no `_`, no part holds `/`, and the parts are
/// valid UTF-8. The pod name may hold `_`.
pub proof fn metadata_from_pod_log_path(
    prefix: Seq<u8>,
    namespace: Seq<u8>,
    pod_name: Seq<u8>,
    pod_uid: Seq<u8>,
    container_name: Seq<u8>,
    file_name: Seq<u8>,
)
    requires
        lacks(namespace, UNDERSCORE),
        lacks(namespace, SLASH),
        lacks(pod_name, SLASH),
        lacks(pod_uid, UNDERSCORE),
        lacks(pod_uid, SLASH),
        plain_name(container_name),
        plain_name(file_name),
        valid_utf8(namespace),
        valid_utf8(pod_name),
        valid_utf8(pod_uid),
        valid_utf8(container_name),
        valid_utf8(file_name),
    ensures
        pod_metadata_spec(
            pod_log_path(prefix, namespace, pod_name, pod_uid, container_name, file_name),
        ) == (PodMetadataView {
            namespace: decode_utf8(namespace),
            pod_name: decode_utf8(pod_name),
            pod_uid: decode_utf8(pod_uid),
            container_name: decode_utf8(container_name),
        }),
{
    let p = pod_log_path(prefix, namespace, pod_name, pod_uid, container_name, file_name);
    let rest = pod_name + seq![UNDERSCORE] + pod_uid;
    let dir = namespace + seq![UNDERSCORE] + rest;
    let s1 = prefix.len() as int;
    let d0 = s1 + 1;
    let s2 = d0 + dir.len();
    let s3 = s2 + 1 + container_name.len();
    let end = s3 + 1 + file_name.len();
    assert(p =~= prefix + seq![SLASH] + dir + seq![SLASH] + container_name + seq![SLASH]
        + file_name);
    assert(p.len() == end);
    assert(p.subrange(s3 + 1, end) =~= file_name);
    assert(p.subrange(s2 + 1, s3) =~= container_name);
    assert(p.subrange(d0, s2) =~= dir);
    assert(p[s3] == SLASH && p[s2] == SLASH && p[s1] == SLASH);
    assert forall|k: int| s3 < k < end implies p[k] != SLASH by {
        assert(p[k] == file_name[k - s3 - 1]);
    }
    assert forall|k: int| s2 < k < s3 implies p[k] != SLASH by {
        assert(p[k] == container_name[k - s2 - 1]);
    }
    assert forall|k: int| s1 < k < s2 implies p[k] != SLASH by {
        assert(p[k] == dir[k - d0]);
        let j = k - d0;
        if j < namespace.len() {
            assert(dir[j] == namespace[j]);
        } else if j > namespace.len() {
            assert(dir[j] == rest[j - namespace.len() - 1]);
            let r = j - namespace.len() - 1;
            if r < pod_name.len() {
                assert(rest[r] == pod_name[r]);
            } else if r > pod_name.len() {
                assert(rest[r] == pod_uid[r - pod_name.len() - 1]);
            }
        }
    }
    lemma_last_before_is(p, SLASH, end, s3);
    lemma_last_before_is(p, SLASH, s3, s2);
    lemma_last_before_is(p, SLASH, s2, s1);
    assert(is_component(dir)) by {
        assert(dir.len() != 1 || dir != seq![DOT]);
        if dir.len() == 1 {
            assert(dir[namespace.len() as int] == UNDERSCORE);
        }
    }
    assert(dir != dot_dot()) by {
        if dir.len() == 2 {
            assert(dir[namespace.len() as int] == UNDERSCORE);
            assert(dot_dot()[0] == DOT && dot_dot()[1] == DOT);
        }
    }
    let c = components_rev(p, end);
    let tail = components_rev(p, s1);
    assert(components_rev(p, s2) == seq![dir] + tail);
    assert(components_rev(p, s3) == seq![container_name] + components_rev(p, s2));
    assert(c == seq![file_name] + components_rev(p, s3));
    assert(c[0] == file_name);
    assert(c[1] == container_name);
    assert(c[2] == dir);
    assert(name_from_end(p, 0) == Some(file_name));
    assert(name_from_end(p, 1) == Some(container_name));
    assert(name_from_end(p, 2) == Some(dir));

    lemma_underscore_valid();
    valid_utf8_concat(pod_name, seq![UNDERSCORE]);
    valid_utf8_concat(pod_name + seq![UNDERSCORE], pod_uid);
    valid_utf8_concat(namespace, seq![UNDERSCORE]);
    valid_utf8_concat(namespace + seq![UNDERSCORE], rest);
    assert(dir =~= (namespace + seq![UNDERSCORE]) + rest);
    assert(valid_utf8(dir));

    let i = namespace.len() as int;
    assert forall|k: int| 0 <= k < i implies dir[k] != UNDERSCORE by {
        assert(dir[k] == namespace[k]);
    }
    lemma_first_from_is(dir, UNDERSCORE, 0, i);
    assert(dir.subrange(0, i) =~= namespace);
    assert(dir.subrange(i + 1, dir.len() as int) =~= rest);
    let j = pod_name.len() as int;
    assert forall|k: int| j < k < rest.len() implies rest[k] != UNDERSCORE by {
        assert(rest[k] == pod_uid[k - j - 1]);
    }
    lemma_last_before_is(rest, UNDERSCORE, rest.len() as int, j);
    assert(rest.subrange(0, j) =~= pod_name);
    assert(rest.subrange(j + 1, rest.len() as int) =~= pod_uid);
}

} // verus!
