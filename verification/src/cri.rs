use vstd::prelude::*;
use crate::ascii::{CR, LF, SPACE, UPPER_F, UPPER_P};
use crate::parser::{
    find_byte, first_from, lemma_first_from, lemma_trim_newlines, stream_from_bytes, stream_named,
    trim_newlines, trim_trailing_newlines, LogParser, ParsedLog, ParsedLogView, StreamType,
};
use crate::time::{parse_rfc3339_timestamp, rfc3339_in_range, rfc3339_in_range_check, rfc3339_value};

verus! {

/// Parser for the CRI log format: `<timestamp> <stream> <F|P> <payload>`.
pub struct CriParser;

/// The timestamp field of a CRI line is in range (or there is no timestamp field to parse).
pub open spec fn cri_in_range(line: Seq<u8>) -> bool {
    match first_from(line, SPACE, 0) {
        Some(p) => rfc3339_in_range(line.subrange(0, p)),
        None => true,
    }
}

/// What the CRI parser gives for `line`.
///
/// The timestamp runs to the first space; the stream name runs from there to the next space
/// and is `stdout` or `stderr`; the byte after that space is the tag, `F` (full line) or `P`
/// (partial line); the payload starts two bytes after the tag and loses its trailing `\n` and
/// `\r` bytes.
pub open spec fn cri_parse_spec(line: Seq<u8>) -> Option<ParsedLogView> {
    match first_from(line, SPACE, 0) {
        None => None,
        Some(ts_end) => match rfc3339_value(line.subrange(0, ts_end)) {
            None => None,
            Some(ts) => {
                let stream_start = ts_end + 1;
                if stream_start >= line.len() {
                    None
                } else {
                    match first_from(line, SPACE, stream_start) {
                        None => None,
                        Some(stream_end) => match stream_named(
                            line.subrange(stream_start, stream_end),
                        ) {
                            None => None,
                            Some(stream) => {
                                let tag_start = stream_end + 1;
                                if tag_start >= line.len() {
                                    None
                                } else if line[tag_start] != UPPER_F && line[tag_start]
                                    != UPPER_P {
                                    None
                                } else if tag_start + 2 > line.len() {
                                    None
                                } else {
                                    Some(
                                        ParsedLogView {
                                            timestamp_ns: ts,
                                            stream,
                                            is_partial: line[tag_start] == UPPER_P,
                                            payload: trim_newlines(
                                                line.subrange(tag_start + 2, line.len() as int),
                                            ),
                                        },
                                    )
                                }
                            },
                        },
                    }
                }
            },
        },
    }
}

/// A CRI line `TS STREAM TAG MSG`, its fields split by single spaces: it parses exactly when
/// the timestamp parses, the stream is `stdout` or `stderr` and the tag is `F` or `P` (the
/// names and tags written out as bytes). Then the
/// timestamp and stream are those fields, the line is partial exactly for `P`, and the payload
/// is `MSG` as it stands (leading spaces included) up to its trailing `\n` and `\r` bytes.
pub proof fn cri_line_fields(ts: Seq<u8>, stream: Seq<u8>, tag: u8, msg: Seq<u8>)
    requires
        !ts.contains(SPACE),
        !stream.contains(SPACE),
    ensures
        ({
            let line = ts + seq![SPACE] + stream + seq![SPACE, tag, SPACE] + msg;
            let out = seq![0x73u8, 0x74, 0x64, 0x6f, 0x75, 0x74];
            let err = seq![0x73u8, 0x74, 0x64, 0x65, 0x72, 0x72];
            &&& cri_parse_spec(line) is Some <==> (rfc3339_value(ts) is Some && (stream == out
                || stream == err) && (tag == 0x46u8 || tag == 0x50u8))
            &&& cri_parse_spec(line) matches Some(p) ==> {
                &&& p.timestamp_ns == rfc3339_value(ts).unwrap()
                &&& p.stream == (if stream == err { StreamType::Stderr } else { StreamType::Stdout })
                &&& p.is_partial == (tag == 0x50u8)
                &&& p.payload.len() <= msg.len()
                &&& p.payload == msg.subrange(0, p.payload.len() as int)
                &&& forall|j: int| p.payload.len() <= j < msg.len() ==> #[trigger] msg[j] == LF
                    || msg[j] == CR
                &&& p.payload.len() > 0 ==> p.payload.last() != LF && p.payload.last() != CR
            }
        }),
{
    let line = ts + seq![SPACE] + stream + seq![SPACE, tag, SPACE] + msg;
    let a = ts.len() as int;
    let b = a + 1 + stream.len();
    assert forall|k: int| 0 <= k < a implies line[k] != SPACE by {
        assert(line[k] == ts[k]);
        if ts[k] == SPACE {
            assert(ts.contains(SPACE));
        }
    }
    assert(line[a] == SPACE);
    lemma_first_space(line, 0, a);
    assert forall|k: int| a + 1 <= k < b implies line[k] != SPACE by {
        assert(line[k] == stream[k - a - 1]);
        if stream[k - a - 1] == SPACE {
            assert(stream.contains(SPACE));
        }
    }
    assert(line[b] == SPACE);
    lemma_first_space(line, a + 1, b);
    assert(line.subrange(0, a) =~= ts);
    assert(line.subrange(a + 1, b) =~= stream);
    assert(line[b + 1] == tag);
    assert(line.subrange(b + 3, line.len() as int) =~= msg);
    let k = lemma_trim_newlines(msg);
}

/// The first space at or after `i` is at `j` when none comes before it.
proof fn lemma_first_space(s: Seq<u8>, i: int, j: int)
    requires
        0 <= i <= j < s.len(),
        s[j] == SPACE,
        forall|k: int| i <= k < j ==> s[k] != SPACE,
    ensures
        first_from(s, SPACE, i) == Some(j),
    decreases j - i,
{
    if i < j {
        lemma_first_space(s, i + 1, j);
    }
}

/// Decides `cri_in_range`, so that a caller can check a line before parsing it.
pub fn cri_line_in_range(line: &[u8]) -> (r: bool)
    ensures
        r == cri_in_range(line@),
{
    match find_byte(line, 0, SPACE) {
        Some(p) => {
            proof {
                lemma_first_from(line@, SPACE, 0);
            }
            rfc3339_in_range_check(&line[0..p])
        },
        None => true,
    }
}

impl CriParser {
    pub fn new() -> (r: Self) {
        CriParser
    }
}

impl LogParser for CriParser {
    open spec fn parse_in_range(&self, line: Seq<u8>) -> bool {
        cri_in_range(line)
    }

    open spec fn parse_spec(&self, line: Seq<u8>) -> Option<ParsedLogView> {
        cri_parse_spec(line)
    }

    fn parse<'a>(&self, line: &'a [u8]) -> (r: Option<ParsedLog<'a>>) {
        let len = line.len();
        let ts_end = match find_byte(line, 0, SPACE) {
            Some(p) => p,
            None => return None,
        };
        proof {
            lemma_first_from(line@, SPACE, 0);
            assert(ts_end < len);
        }
        let ts_bytes = &line[0..ts_end];
        let timestamp_ns = match parse_rfc3339_timestamp(ts_bytes) {
            Some(t) => t,
            None => return None,
        };

        let stream_start = ts_end + 1;
        if stream_start >= line.len() {
            return None;
        }
        let stream_end = match find_byte(line, stream_start, SPACE) {
            Some(p) => p,
            None => return None,
        };
        proof {
            lemma_first_from(line@, SPACE, stream_start as int);
        }
        let stream_bytes = &line[stream_start..stream_end];
        let stream = match stream_from_bytes(stream_bytes) {
            Some(s) => s,
            None => return None,
        };

        let tag_start = stream_end + 1;
        if tag_start >= line.len() {
            return None;
        }
        let is_partial = if line[tag_start] == UPPER_F {
            false
        } else if line[tag_start] == UPPER_P {
            true
        } else {
            return None;
        };

        if line.len() - tag_start < 2 {
            return None;
        }
        let payload_start = tag_start + 2;
        let payload = trim_trailing_newlines(&line[payload_start..line.len()]);

        Some(ParsedLog { timestamp_ns, stream, is_partial, payload })
    }
}

} // verus!
