use vstd::prelude::*;
use crate::ascii::{CR, LF};

verus! {

/// The output stream a container wrote a log line to.
#[derive(Debug, Clone, Copy, PartialEq, Eq, Structural)]
pub enum StreamType {
    Stdout,
    Stderr,
}

/// One parsed log line; the payload borrows from the line it was parsed from.
#[derive(Debug, Clone, PartialEq, Eq)]
pub struct ParsedLog<'a> {
    pub timestamp_ns: i64,
    pub stream: StreamType,
    pub is_partial: bool,
    pub payload: &'a [u8],
}

/// The mathematical content of a [`ParsedLog`].
pub struct ParsedLogView {
    pub timestamp_ns: int,
    pub stream: StreamType,
    pub is_partial: bool,
    pub payload: Seq<u8>,
}

impl<'a> View for ParsedLog<'a> {
    type V = ParsedLogView;

    open spec fn view(&self) -> ParsedLogView {
        ParsedLogView {
            timestamp_ns: self.timestamp_ns as int,
            stream: self.stream,
            is_partial: self.is_partial,
            payload: self.payload@,
        }
    }
}

/// A parser that extracts log attributes from a raw line without allocating.
pub trait LogParser {
    /// The lines on which `parse` computes without integer overflow.
    spec fn parse_in_range(&self, line: Seq<u8>) -> bool;

    /// What `parse` gives for `line`.
    spec fn parse_spec(&self, line: Seq<u8>) -> Option<ParsedLogView>;

    fn parse<'a>(&self, line: &'a [u8]) -> (r: Option<ParsedLog<'a>>)
        requires
            self.parse_in_range(line@),
        ensures
            r matches Some(p) ==> self.parse_spec(line@) == Some(p@),
            r is None ==> self.parse_spec(line@) is None,
    ;
}

/// `"stdout"`
pub open spec fn stdout_bytes() -> Seq<u8> {
    seq![0x73u8, 0x74, 0x64, 0x6f, 0x75, 0x74]
}

/// `"stderr"`
pub open spec fn stderr_bytes() -> Seq<u8> {
    seq![0x73u8, 0x74, 0x64, 0x65, 0x72, 0x72]
}

/// The stream that `s` names, if it is exactly `stdout` or `stderr`.
pub open spec fn stream_named(s: Seq<u8>) -> Option<StreamType> {
    if s == stdout_bytes() {
        Some(StreamType::Stdout)
    } else if s == stderr_bytes() {
        Some(StreamType::Stderr)
    } else {
        None
    }
}

/// The first index `j >= i` with `s[j] == x`.
pub open spec fn first_from(s: Seq<u8>, x: u8, i: int) -> Option<int>
    decreases s.len() - i,
{
    if i < 0 || i >= s.len() {
        None
    } else if s[i] == x {
        Some(i)
    } else {
        first_from(s, x, i + 1)
    }
}

/// `s` without its trailing `\n` and `\r` bytes.
pub open spec fn trim_newlines(s: Seq<u8>) -> Seq<u8>
    decreases s.len(),
{
    if s.len() > 0 && (s.last() == LF || s.last() == CR) {
        trim_newlines(s.drop_last())
    } else {
        s
    }
}

/// Trimming newlines keeps a prefix, which does not end in `\n` or `\r`.
pub proof fn lemma_trim_newlines(s: Seq<u8>) -> (k: int)
    ensures
        0 <= k <= s.len(),
        trim_newlines(s) == s.subrange(0, k),
        k > 0 ==> s[k - 1] != LF && s[k - 1] != CR,
        forall|j: int| k <= j < s.len() ==> #[trigger] s[j] == LF || s[j] == CR,
    decreases s.len(),
{
    if s.len() > 0 && (s.last() == LF || s.last() == CR) {
        let k = lemma_trim_newlines(s.drop_last());
        assert(s.drop_last().subrange(0, k) =~= s.subrange(0, k));
        assert forall|j: int| k <= j < s.len() implies #[trigger] s[j] == LF || s[j] == CR by {
            if j < s.len() - 1 {
                assert(s.drop_last()[j] == s[j]);
            }
        }
        k
    } else {
        assert(s.subrange(0, s.len() as int) =~= s);
        s.len() as int
    }
}

pub proof fn lemma_first_from(s: Seq<u8>, x: u8, i: int)
    requires
        0 <= i,
    ensures
        first_from(s, x, i) matches Some(j) ==> i <= j < s.len() && s[j] == x && forall|k: int|
            i <= k < j ==> s[k] != x,
        first_from(s, x, i) is None ==> forall|k: int| i <= k < s.len() ==> s[k] != x,
    decreases s.len() - i,
{
    if i < s.len() && s[i] != x {
        lemma_first_from(s, x, i + 1);
    }
}

/// `first_from` finds `j` when `s[j] == x` and no `x` comes between `i` and `j`.
pub proof fn lemma_first_from_is(s: Seq<u8>, x: u8, i: int, j: int)
    requires
        0 <= i <= j < s.len(),
        s[j] == x,
        forall|k: int| i <= k < j ==> s[k] != x,
    ensures
        first_from(s, x, i) == Some(j),
    decreases j - i,
{
    if i < j {
        lemma_first_from_is(s, x, i + 1, j);
    }
}

/// Index of the first `x` in `s` at or after `from`.
pub fn find_byte(s: &[u8], from: usize, x: u8) -> (r: Option<usize>)
    ensures
        r matches Some(j) ==> first_from(s@, x, from as int) == Some(j as int),
        r is None ==> first_from(s@, x, from as int) is None,
{
    let mut i = from;
    while i < s.len()
        invariant
            from <= i,
            first_from(s@, x, from as int) == first_from(s@, x, i as int),
        decreases s.len() - i,
    {
        if s[i] == x {
            return Some(i);
        }
        i = i + 1;
    }
    None
}

/// Whether `a` and `b` hold the same bytes.
pub fn bytes_eq(a: &[u8], b: &[u8]) -> (r: bool)
    ensures
        r == (a@ == b@),
{
    if a.len() != b.len() {
        return false;
    }
    let mut i: usize = 0;
    while i < a.len()
        invariant
            a.len() == b.len(),
            i <= a.len(),
            forall|j: int| 0 <= j < i ==> a@[j] == b@[j],
        decreases a.len() - i,
    {
        if a[i] != b[i] {
            return false;
        }
        i = i + 1;
    }
    assert(a@ =~= b@);
    true
}

/// `s` without its trailing `\n` and `\r` bytes.
pub fn trim_trailing_newlines(s: &[u8]) -> (r: &[u8])
    ensures
        r@ == trim_newlines(s@),
{
    let mut end = s.len();
    assert(s@.subrange(0, end as int) =~= s@);
    while end > 0 && (s[end - 1] == LF || s[end - 1] == CR)
        invariant
            end <= s.len(),
            trim_newlines(s@) == trim_newlines(s@.subrange(0, end as int)),
        decreases end,
    {
        assert(s@.subrange(0, end as int).drop_last() =~= s@.subrange(0, end - 1));
        end = end - 1;
    }
    let r = &s[0..end];
    r
}

/// The stream that `s` names: exactly `stdout` or `stderr`.
pub fn stream_from_bytes(s: &[u8]) -> (r: Option<StreamType>)
    ensures
        r == stream_named(s@),
{
    if s.len() != 6 {
        assert(s@ != stdout_bytes() && s@ != stderr_bytes()) by {
            assert(stdout_bytes().len() == 6 && stderr_bytes().len() == 6);
        }
        return None;
    }
    if s[0] == 0x73 && s[1] == 0x74 && s[2] == 0x64 {
        if s[3] == 0x6f && s[4] == 0x75 && s[5] == 0x74 {
            assert(s@ =~= stdout_bytes());
            return Some(StreamType::Stdout);
        }
        if s[3] == 0x65 && s[4] == 0x72 && s[5] == 0x72 {
            assert(s@ =~= stderr_bytes());
            assert(s@ != stdout_bytes()) by {
                assert(stdout_bytes()[3] != s@[3]);
            }
            return Some(StreamType::Stderr);
        }
    }
    assert(s@ != stdout_bytes()) by {
        if s@ == stdout_bytes() {
            assert(s@[0] == 0x73 && s@[1] == 0x74 && s@[2] == 0x64 && s@[3] == 0x6f && s@[4]
                == 0x75 && s@[5] == 0x74);
        }
    }
    assert(s@ != stderr_bytes()) by {
        if s@ == stderr_bytes() {
            assert(s@[0] == 0x73 && s@[1] == 0x74 && s@[2] == 0x64 && s@[3] == 0x65 && s@[4]
                == 0x72 && s@[5] == 0x72);
        }
    }
    None
}

} // verus!
