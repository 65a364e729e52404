use vstd::prelude::*;
use crate::ascii::{LBRACE, LF};
use crate::cri::{cri_in_range, cri_line_in_range, cri_parse_spec, CriParser};
use crate::json::{json_in_range, json_line_in_range, json_parse_spec, JsonParser};
use crate::ascii::{CR, SPACE};
use crate::json::{
    lemma_string_field_within, lemma_trim_escaped, log_key, string_field_bounds,
};
use crate::parser::{
    find_byte, first_from, lemma_first_from, lemma_trim_newlines, LogParser, ParsedLog,
    ParsedLogView,
};

verus! {

/// What the tailer hands to its consumer for a log file.
pub enum TailerMessage<'a> {
    /// One parsed log line.
    Event(ParsedLog<'a>),
    /// Every complete line read so far has been handed over.
    Flush,
}

/// Whether a line is in the JSON format (it starts with `{`); otherwise it is CRI.
pub open spec fn is_json_line(line: Seq<u8>) -> bool {
    line.len() > 0 && line[0] == LBRACE
}

/// The lines on which the parser that `parse_log_line` picks computes without overflow.
pub open spec fn line_in_range(line: Seq<u8>) -> bool {
    if is_json_line(line) {
        json_in_range(line)
    } else {
        cri_in_range(line)
    }
}

/// What `parse_log_line` gives for `line`.
pub open spec fn log_line_spec(line: Seq<u8>) -> Option<ParsedLogView> {
    if is_json_line(line) {
        json_parse_spec(line)
    } else {
        cri_parse_spec(line)
    }
}

/// Decides `line_in_range`, so that a caller can check a line before `parse_log_line`.
pub fn log_line_in_range(line: &[u8]) -> (r: bool)
    ensures
        r == line_in_range(line@),
{
    if line.len() > 0 && line[0] == LBRACE {
        json_line_in_range(line)
    } else {
        cri_line_in_range(line)
    }
}

/// Parses one log line: Docker JSON when it starts with `{`, CRI otherwise.
pub fn parse_log_line<'a>(cri: &CriParser, json: &JsonParser, line: &'a [u8]) -> (r: Option<
    ParsedLog<'a>,
>)
    requires
        line_in_range(line@),
    ensures
        r matches Some(p) ==> log_line_spec(line@) == Some(p@),
        r is None ==> log_line_spec(line@) is None,
{
    if line.len() > 0 && line[0] == LBRACE {
        json.parse(line)
    } else {
        cri.parse(line)
    }
}

/// A parsed payload is a contiguous part of its line, so it can be borrowed without copying.
pub proof fn payload_borrows_line(line: Seq<u8>)
    ensures
        log_line_spec(line) matches Some(p) ==> exists|a: int, b: int|
            0 <= a <= b <= line.len() && p.payload == line.subrange(a, b),
{
    if let Some(p) = log_line_spec(line) {
        if is_json_line(line) {
            lemma_string_field_within(line, log_key());
            let (a, b) = string_field_bounds(line, log_key()).unwrap();
            let raw = line.subrange(a, b);
            let k1 = lemma_trim_newlines(raw);
            let k2 = lemma_trim_escaped(raw.subrange(0, k1));
            assert(p.payload =~= line.subrange(a, a + k2));
        } else {
            let ts_end = first_from(line, SPACE, 0).unwrap();
            lemma_first_from(line, SPACE, 0);
            let stream_end = first_from(line, SPACE, ts_end + 1).unwrap();
            lemma_first_from(line, SPACE, ts_end + 1);
            let start = stream_end + 3;
            let k = lemma_trim_newlines(line.subrange(start, line.len() as int));
            assert(p.payload =~= line.subrange(start, start + k));
        }
    }
}

/// The format is chosen by the first byte alone: a line that starts with `{` is read as
/// Docker JSON, and any other line, whatever it holds further on, as CRI.
pub proof fn format_follows_first_byte(line: Seq<u8>)
    ensures
        line.len() > 0 && line[0] == 0x7bu8 ==> log_line_spec(line) == json_parse_spec(line),
        !(line.len() > 0 && line[0] == 0x7bu8) ==> log_line_spec(line) == cri_parse_spec(line),
{
}

/// A CRI payload never ends in `\n` or `\r`.
pub proof fn cri_payload_has_no_line_end(line: Seq<u8>)
    ensures
        cri_parse_spec(line) matches Some(p) ==> p.payload.len() == 0 || (p.payload.last() != LF
            && p.payload.last() != CR),
{
    if let Some(p) = cri_parse_spec(line) {
        let ts_end = first_from(line, SPACE, 0).unwrap();
        lemma_first_from(line, SPACE, 0);
        let stream_end = first_from(line, SPACE, ts_end + 1).unwrap();
        lemma_first_from(line, SPACE, ts_end + 1);
        let k = lemma_trim_newlines(line.subrange(stream_end + 3, line.len() as int));
    }
}

/// The unread part of a tailed log file: `offset` is the file position of the first byte not
/// yet handed over as a line, and the buffer holds the bytes read after it that do not yet
/// end a line.
pub struct LineBuffer {
    offset: u64,
    line_buf: Vec<u8>,
}

impl LineBuffer {
    /// File position of the first byte that has not been committed as part of a line.
    pub closed spec fn committed(&self) -> int {
        self.offset as int
    }

    /// Bytes read past the committed position.
    pub closed spec fn buffered(&self) -> Seq<u8> {
        self.line_buf@
    }

    /// A buffer that starts tailing at file position `offset`.
    pub fn new(offset: u64) -> (r: Self)
        ensures
            r.committed() == offset,
            r.buffered() == Seq::<u8>::empty(),
    {
        LineBuffer { offset, line_buf: Vec::new() }
    }

    /// A buffer for a file that starts being tailed: a file found while scanning is read from
    /// its current end, a file that appears later from its beginning.
    pub fn for_file(from_beginning: bool, file_len: u64) -> (r: Self)
        ensures
            r.committed() == if from_beginning { 0 } else { file_len },
            r.buffered() == Seq::<u8>::empty(),
    {
        LineBuffer::new(if from_beginning { 0 } else { file_len })
    }

    /// File position of the first byte not yet committed.
    pub fn offset(&self) -> (r: u64)
        ensures
            r == self.committed(),
    {
        self.offset
    }

    /// The bytes read past the committed position.
    pub fn buffered_bytes(&self) -> (r: &[u8])
        ensures
            r@ == self.buffered(),
    {
        self.line_buf.as_slice()
    }

    /// File position where the next read starts: after everything already buffered.
    pub fn read_position(&self) -> (r: u64)
        requires
            self.committed() + self.buffered().len() <= u64::MAX,
        ensures
            r == self.committed() + self.buffered().len(),
    {
        self.offset + self.line_buf.len() as u64
    }

    /// Starts over from the beginning when the file has become shorter than the committed
    /// position (it was truncated); tells whether it did.
    pub fn reset_if_truncated(&mut self, file_len: u64) -> (r: bool)
        ensures
            r == (file_len < old(self).committed()),
            r ==> final(self).committed() == 0 && final(self).buffered() == Seq::<u8>::empty(),
            !r ==> final(self).committed() == old(self).committed() && final(self).buffered()
                == old(self).buffered(),
    {
        if file_len < self.offset {
            self.offset = 0;
            self.line_buf.clear();
            true
        } else {
            false
        }
    }

    /// Adds bytes just read from the file.
    pub fn append(&mut self, data: &[u8])
        ensures
            final(self).committed() == old(self).committed(),
            final(self).buffered() == old(self).buffered() + data@,
    {
        self.line_buf.extend_from_slice(data);
        assert(self.line_buf@ =~= old(self).line_buf@ + data@);
    }

    /// Position in the buffer of the newline that ends the first complete line, if any.
    pub fn next_line_end(&self) -> (r: Option<usize>)
        ensures
            r matches Some(p) ==> first_from(self.buffered(), LF, 0) == Some(p as int) && p
                < self.buffered().len(),
            r is None ==> first_from(self.buffered(), LF, 0) is None,
    {
        let r = find_byte(self.line_buf.as_slice(), 0, LF);
        proof {
            lemma_first_from(self.line_buf@, LF, 0);
        }
        r
    }

    /// The buffered bytes before position `end` (a line without its newline).
    pub fn line(&self, end: usize) -> (r: &[u8])
        requires
            end <= self.buffered().len(),
        ensures
            r@ == self.buffered().subrange(0, end as int),
    {
        let s = self.line_buf.as_slice();
        &s[0..end]
    }

    /// Settles the first complete line, which ends at the newline at `end`, after it was
    /// handed to the consumer: a line that did not parse, or whose event the consumer accepted,
    /// is committed; a line whose event was refused stays uncommitted, with the committed
    /// position before it, so that it is delivered again. Tells whether to go on.
    pub fn settle_line(&mut self, end: usize, parsed: bool, accepted: bool) -> (go_on: bool)
        requires
            first_from(old(self).buffered(), LF, 0) == Some(end as int),
            (!parsed || accepted) ==> old(self).committed() + end + 1 <= u64::MAX,
        ensures
            go_on == (!parsed || accepted),
            go_on ==> final(self).committed() == old(self).committed() + end + 1
                && final(self).buffered() == old(self).buffered().subrange(
                end + 1,
                old(self).buffered().len() as int,
            ),
            !go_on ==> *final(self) == *old(self),
    {
        proof {
            lemma_first_from(self.line_buf@, LF, 0);
        }
        if parsed && !accepted {
            return false;
        }
        self.consume_line(end);
        true
    }

    /// Commits the line that ends at the newline at `end`: its bytes and the newline leave the
    /// buffer and the committed position moves past them.
    pub fn consume_line(&mut self, end: usize)
        requires
            end < old(self).buffered().len(),
            old(self).committed() + end + 1 <= u64::MAX,
        ensures
            final(self).committed() == old(self).committed() + end + 1,
            final(self).buffered() == old(self).buffered().subrange(
                end + 1,
                old(self).buffered().len() as int,
            ),
            final(self).committed() + final(self).buffered().len() == old(self).committed() + old(
                self,
            ).buffered().len(),
    {
        let _n = self.line_buf.len();
        let rest = self.line_buf.split_off(end + 1);
        self.line_buf = rest;
        self.offset = self.offset + (end as u64) + 1;
    }
}

} // verus!
