use vstd::prelude::*;
use crate::ascii::{BACKSLASH, COLON, CR, LBRACE, LF, LOWER_N, LOWER_R, QUOTE, SPACE, TAB};
use crate::parser::{
    first_from, lemma_first_from, stream_from_bytes, stream_named, trim_newlines,
    trim_trailing_newlines, LogParser, ParsedLog, ParsedLogView,
};
use crate::time::{parse_rfc3339_timestamp, rfc3339_in_range, rfc3339_in_range_check, rfc3339_value};

verus! {

/// Parser for Docker's JSON log lines: `{"log":"...","stream":"...","time":"..."}`.
pub struct JsonParser;

/// `log`
pub open spec fn log_key() -> Seq<u8> {
    seq![0x6cu8, 0x6f, 0x67]
}

/// `stream`
pub open spec fn stream_key() -> Seq<u8> {
    seq![0x73u8, 0x74, 0x72, 0x65, 0x61, 0x6d]
}

/// `time`
pub open spec fn time_key() -> Seq<u8> {
    seq![0x74u8, 0x69, 0x6d, 0x65]
}

/// Whether `b` is JSON whitespace: space, tab, line feed or carriage return.
pub open spec fn is_json_space(b: u8) -> bool {
    b == SPACE || b == TAB || b == LF || b == CR
}

/// The first position at or after `i` that does not hold JSON whitespace.
pub open spec fn skip_space(json: Seq<u8>, i: int) -> int
    decreases json.len() - i,
{
    if 0 <= i < json.len() && is_json_space(json[i]) {
        skip_space(json, i + 1)
    } else {
        i
    }
}

/// `key` occurs at `pos` as a field name: with a quote right before and right after it, then
/// optional whitespace and a `:`.
pub open spec fn quoted_key_at(json: Seq<u8>, key: Seq<u8>, pos: int) -> bool {
    &&& 0 < pos
    &&& pos + key.len() < json.len()
    &&& json.subrange(pos, pos + key.len()) == key
    &&& json[pos - 1] == QUOTE
    &&& json[pos + key.len()] == QUOTE
    &&& skip_space(json, pos + key.len() + 1) < json.len()
    &&& json[skip_space(json, pos + key.len() + 1)] == COLON
}

/// The first position at or after `pos` where `key` occurs as a field name.
pub open spec fn first_quoted_key(json: Seq<u8>, key: Seq<u8>, pos: int) -> Option<int>
    decreases json.len() + 1 - pos,
{
    if pos < 0 || pos + key.len() > json.len() {
        None
    } else if quoted_key_at(json, key, pos) {
        Some(pos)
    } else {
        first_quoted_key(json, key, pos + 1)
    }
}

/// The closing quote of a string whose contents start at `i`; a backslash skips the byte after
/// it.
pub open spec fn string_end(json: Seq<u8>, i: int) -> Option<int>
    decreases json.len() - i,
{
    if i < 0 || i >= json.len() {
        None
    } else if json[i] == QUOTE {
        Some(i)
    } else if json[i] == BACKSLASH {
        if i + 2 >= json.len() {
            None
        } else {
            string_end(json, i + 2)
        }
    } else {
        string_end(json, i + 1)
    }
}

/// Bounds of the string value of `key` in a flat JSON object: after the first field named
/// `key` and its `:`, the next `"` opens the value, which runs to its unescaped closing quote.
pub open spec fn string_field_bounds(json: Seq<u8>, key: Seq<u8>) -> Option<(int, int)> {
    match first_quoted_key(json, key, 0) {
        None => None,
        Some(p) => match first_from(json, QUOTE, skip_space(json, p + key.len() + 1) + 1) {
            None => None,
            Some(q) => match string_end(json, q + 1) {
                None => None,
                Some(e) => Some((q + 1, e)),
            },
        },
    }
}

/// The raw (still escaped) string value of `key`.
pub open spec fn string_field(json: Seq<u8>, key: Seq<u8>) -> Option<Seq<u8>> {
    match string_field_bounds(json, key) {
        None => None,
        Some((a, b)) => Some(json.subrange(a, b)),
    }
}

/// `s` without a final escaped `\n` (the two bytes `\` `n`), then without a final escaped `\r`.
pub open spec fn trim_escaped_newlines(s: Seq<u8>) -> Seq<u8> {
    let t = if s.len() >= 2 && s[s.len() - 2] == BACKSLASH && s[s.len() - 1] == LOWER_N {
        s.subrange(0, s.len() - 2)
    } else {
        s
    };
    if t.len() >= 2 && t[t.len() - 2] == BACKSLASH && t[t.len() - 1] == LOWER_R {
        t.subrange(0, t.len() - 2)
    } else {
        t
    }
}

/// The `time` field is in range wherever the parser gets as far as reading it.
pub open spec fn json_in_range(line: Seq<u8>) -> bool {
    match (string_field(line, log_key()), string_field(line, stream_key())) {
        (Some(_), Some(s)) => match (stream_named(s), string_field(line, time_key())) {
            (Some(_), Some(t)) => rfc3339_in_range(t),
            _ => true,
        },
        _ => true,
    }
}

/// What the JSON parser gives for `line`: the `log`, `stream` and `time` fields must all be
/// present, the stream must be `stdout` or `stderr`, and the time must parse. The payload is
/// the `log` value without trailing `\n`/`\r` bytes and then without a final escaped `\n` and
/// escaped `\r`. JSON lines are never partial.
pub open spec fn json_parse_spec(line: Seq<u8>) -> Option<ParsedLogView> {
    match string_field(line, log_key()) {
        None => None,
        Some(raw) => match string_field(line, stream_key()) {
            None => None,
            Some(s) => match stream_named(s) {
                None => None,
                Some(stream) => match string_field(line, time_key()) {
                    None => None,
                    Some(t) => match rfc3339_value(t) {
                        None => None,
                        Some(ts) => Some(
                            ParsedLogView {
                                timestamp_ns: ts,
                                stream,
                                is_partial: false,
                                payload: trim_escaped_newlines(trim_newlines(raw)),
                            },
                        ),
                    },
                },
            },
        },
    }
}

pub proof fn lemma_trim_escaped(s: Seq<u8>) -> (k: int)
    ensures
        0 <= k <= s.len(),
        trim_escaped_newlines(s) == s.subrange(0, k),
{
    let t = if s.len() >= 2 && s[s.len() - 2] == BACKSLASH && s[s.len() - 1] == LOWER_N {
        s.subrange(0, s.len() - 2)
    } else {
        s
    };
    assert(s.subrange(0, s.len() as int) =~= s);
    if t.len() >= 2 && t[t.len() - 2] == BACKSLASH && t[t.len() - 1] == LOWER_R {
        assert(t.subrange(0, t.len() - 2) =~= s.subrange(0, t.len() - 2));
        t.len() - 2
    } else {
        t.len() as int
    }
}

/// The value of a string field is the part of the line between its quotes.
pub proof fn lemma_string_field_within(json: Seq<u8>, key: Seq<u8>)
    ensures
        string_field_bounds(json, key) matches Some((a, b)) ==> 0 <= a <= b <= json.len(),
{
    if let Some(p) = first_quoted_key(json, key, 0) {
        lemma_first_quoted_key(json, key, 0);
        let c = skip_space(json, p + key.len() + 1);
        lemma_skip_space(json, p + key.len() + 1);
        lemma_first_from(json, QUOTE, c + 1);
        if let Some(q) = first_from(json, QUOTE, c + 1) {
            lemma_string_end(json, q + 1);
        }
    }
}

/// Whether `v` is the inside of a JSON string as written: bytes other than `"` and `\`, and
/// escapes, each a `\` and the byte it escapes.
pub open spec fn escaped_content(v: Seq<u8>) -> bool
    decreases v.len(),
{
    if v.len() == 0 {
        true
    } else if v[0] == BACKSLASH {
        v.len() >= 2 && escaped_content(v.subrange(2, v.len() as int))
    } else {
        v[0] != QUOTE && escaped_content(v.subrange(1, v.len() as int))
    }
}

/// The value of a field runs to its closing quote: in `{"KEY":"VALUE"...`, where `VALUE` is
/// string content as written (escaped quotes and backslashes included), looking up `KEY`
/// gives all of `VALUE`, whatever follows.
pub proof fn field_value_runs_to_closing_quote(key: Seq<u8>, value: Seq<u8>, rest: Seq<u8>)
    requires
        escaped_content(value),
    ensures
        string_field(
            seq![LBRACE, QUOTE] + key + seq![QUOTE, COLON, QUOTE] + value + seq![QUOTE] + rest,
            key,
        ) == Some(value),
{
    let json = seq![LBRACE, QUOTE] + key + seq![QUOTE, COLON, QUOTE] + value + seq![QUOTE] + rest;
    let k = key.len() as int;
    assert(json.subrange(2, 2 + k) =~= key);
    assert(json[2 + k] == QUOTE && json[3 + k] == COLON && json[4 + k] == QUOTE);
    assert(skip_space(json, 3 + k) == 3 + k);
    assert(quoted_key_at(json, key, 2));
    assert(!quoted_key_at(json, key, 0));
    assert(!quoted_key_at(json, key, 1));
    assert(first_quoted_key(json, key, 2) == Some(2int));
    assert(first_quoted_key(json, key, 1) == Some(2int));
    assert(first_quoted_key(json, key, 0) == Some(2int));
    assert(first_from(json, QUOTE, 4 + k) == Some(4 + k));
    let start = 5 + k;
    assert(json.subrange(start, start + value.len()) =~= value);
    assert(json[start + value.len()] == QUOTE);
    lemma_escaped_string_end(json, start, value);
}

proof fn lemma_escaped_string_end(json: Seq<u8>, i: int, v: Seq<u8>)
    requires
        escaped_content(v),
        0 <= i,
        i + v.len() < json.len(),
        json.subrange(i, i + v.len()) == v,
        json[i + v.len()] == QUOTE,
    ensures
        string_end(json, i) == Some(i + v.len()),
    decreases v.len(),
{
    if v.len() > 0 {
        assert(json[i] == v[0]);
        if v[0] == BACKSLASH {
            let w = v.subrange(2, v.len() as int);
            assert(json.subrange(i + 2, i + 2 + w.len()) =~= w);
            lemma_escaped_string_end(json, i + 2, w);
        } else {
            let w = v.subrange(1, v.len() as int);
            assert(json.subrange(i + 1, i + 1 + w.len()) =~= w);
            lemma_escaped_string_end(json, i + 1, w);
        }
    }
}

proof fn lemma_first_quoted_key(json: Seq<u8>, key: Seq<u8>, pos: int)
    requires
        0 <= pos,
    ensures
        first_quoted_key(json, key, pos) matches Some(p) ==> pos <= p && 0 < p && p + key.len()
            < json.len() && quoted_key_at(json, key, p),
    decreases json.len() + 1 - pos,
{
    if pos + key.len() <= json.len() && !quoted_key_at(json, key, pos) {
        lemma_first_quoted_key(json, key, pos + 1);
    }
}

proof fn lemma_skip_space(json: Seq<u8>, i: int)
    requires
        0 <= i <= json.len(),
    ensures
        i <= skip_space(json, i) <= json.len(),
        skip_space(json, i) < json.len() ==> !is_json_space(json[skip_space(json, i)]),
    decreases json.len() - i,
{
    if i < json.len() && is_json_space(json[i]) {
        lemma_skip_space(json, i + 1);
    }
}

proof fn lemma_string_end(json: Seq<u8>, i: int)
    requires
        0 <= i,
    ensures
        string_end(json, i) matches Some(e) ==> i <= e < json.len(),
    decreases json.len() - i,
{
    if 0 <= i < json.len() && json[i] != QUOTE {
        if json[i] == BACKSLASH {
            if i + 2 < json.len() {
                lemma_string_end(json, i + 2);
            }
        } else {
            lemma_string_end(json, i + 1);
        }
    }
}

/// Whether `json[pos..pos + key.len()] == key`.
fn matches_at(json: &[u8], pos: usize, key: &[u8]) -> (r: bool)
    requires
        pos + key.len() <= json.len(),
    ensures
        r == (json@.subrange(pos as int, pos + key.len()) == key@),
{
    let mut i: usize = 0;
    while i < key.len()
        invariant
            i <= key.len(),
            pos + key.len() <= json.len(),
            forall|j: int| 0 <= j < i ==> json@[pos + j] == key@[j],
        decreases key.len() - i,
    {
        if json[pos + i] != key[i] {
            assert(json@.subrange(pos as int, pos + key.len())[i as int] != key@[i as int]);
            return false;
        }
        i = i + 1;
    }
    assert(json@.subrange(pos as int, pos + key.len()) =~= key@);
    true
}

impl JsonParser {
    pub fn new() -> (r: Self) {
        JsonParser
    }

    /// The raw string value of `key` in a simple flat JSON object, borrowed from `json`.
    ///
    /// Searching for `log` in `{"log":"hello\n","stream":"stdout"}` gives `hello\n` (still
    /// escaped). Only the first field named `key` is considered: a quoted `key` followed, after
    /// optional whitespace, by a `:`; the same text as a value does not count.
    pub fn find_string_field<'a>(&self, json: &'a [u8], key: &[u8]) -> (r: Option<&'a [u8]>)
        ensures
            r matches Some(v) ==> string_field(json@, key@) == Some(v@),
            r is None ==> string_field(json@, key@) is None,
    {
        let len = json.len();
        let key_len = key.len();
        if key_len > len {
            return None;
        }
        let mut pos: usize = 0;
        while pos <= len - key_len
            invariant
                len == json@.len(),
                key_len == key@.len(),
                key_len <= len,
                first_quoted_key(json@, key@, 0) == first_quoted_key(json@, key@, pos as int),
            decreases len - pos,
        {
            if matches_at(json, pos, key) {
                let has_leading_quote = pos > 0 && json[pos - 1] == QUOTE;
                let has_trailing_quote = pos + key_len < len && json[pos + key_len] == QUOTE;
                if has_leading_quote && has_trailing_quote {
                    let mut search_pos = pos + key_len + 1;
                    while search_pos < len && (json[search_pos] == SPACE || json[search_pos] == TAB
                        || json[search_pos] == LF || json[search_pos] == CR)
                        invariant
                            len == json@.len(),
                            pos + key_len + 1 <= search_pos <= len,
                            skip_space(json@, pos + key_len + 1) == skip_space(
                                json@,
                                search_pos as int,
                            ),
                        decreases len - search_pos,
                    {
                        search_pos += 1;
                    }
                    assert(search_pos as int == skip_space(json@, pos + key_len + 1));
                    if search_pos < len && json[search_pos] == COLON {
                        assert(quoted_key_at(json@, key@, pos as int));
                        assert(first_quoted_key(json@, key@, 0) == Some(pos as int));
                        let colon = search_pos;
                        search_pos += 1;
                        while search_pos < len && json[search_pos] != QUOTE
                            invariant
                                len == json@.len(),
                                colon + 1 <= search_pos <= len,
                                first_from(json@, QUOTE, colon + 1) == first_from(
                                    json@,
                                    QUOTE,
                                    search_pos as int,
                                ),
                                key_len == key@.len(),
                                first_quoted_key(json@, key@, 0) == Some(pos as int),
                                skip_space(json@, pos + key_len + 1) == colon as int,
                            decreases len - search_pos,
                        {
                            search_pos += 1;
                        }
                        if search_pos >= len {
                            return None;
                        }
                        proof {
                            lemma_first_from(json@, QUOTE, colon + 1);
                        }
                        search_pos += 1;
                        let val_start = search_pos;
                        while search_pos < len
                            invariant
                                len == json@.len(),
                                val_start <= search_pos,
                                string_end(json@, val_start as int) == string_end(
                                    json@,
                                    search_pos as int,
                                ),
                                key_len == key@.len(),
                                first_quoted_key(json@, key@, 0) == Some(pos as int),
                                skip_space(json@, pos + key_len + 1) == colon as int,
                                first_from(json@, QUOTE, colon + 1) == Some(val_start - 1),
                            decreases len - search_pos,
                        {
                            if json[search_pos] == QUOTE {
                                proof {
                                    lemma_string_end(json@, val_start as int);
                                }
                                return Some(&json[val_start..search_pos]);
                            } else if json[search_pos] == BACKSLASH {
                                if len - search_pos <= 2 {
                                    return None;
                                }
                                search_pos += 2;
                            } else {
                                search_pos += 1;
                            }
                        }
                        return None;
                    }
                }
            }
            assert(!quoted_key_at(json@, key@, pos as int));
            if pos == len - key_len {
                assert(first_quoted_key(json@, key@, pos + 1) is None);
                return None;
            }
            pos += 1;
        }
        None
    }
}

/// Decides `json_in_range`, so that a caller can check a line before parsing it.
pub fn json_line_in_range(line: &[u8]) -> (r: bool)
    ensures
        r == json_in_range(line@),
{
    let parser = JsonParser;
    let log_name: [u8; 3] = [0x6c, 0x6f, 0x67];
    let stream_name: [u8; 6] = [0x73, 0x74, 0x72, 0x65, 0x61, 0x6d];
    let time_name: [u8; 4] = [0x74, 0x69, 0x6d, 0x65];
    assert(log_name@ == log_key());
    assert(stream_name@ == stream_key());
    assert(time_name@ == time_key());
    if parser.find_string_field(line, log_name.as_slice()).is_none() {
        return true;
    }
    let stream_bytes = match parser.find_string_field(line, stream_name.as_slice()) {
        Some(v) => v,
        None => return true,
    };
    if stream_from_bytes(stream_bytes).is_none() {
        return true;
    }
    match parser.find_string_field(line, time_name.as_slice()) {
        Some(t) => rfc3339_in_range_check(t),
        None => true,
    }
}

impl LogParser for JsonParser {
    open spec fn parse_in_range(&self, line: Seq<u8>) -> bool {
        json_in_range(line)
    }

    open spec fn parse_spec(&self, line: Seq<u8>) -> Option<ParsedLogView> {
        json_parse_spec(line)
    }

    fn parse<'a>(&self, line: &'a [u8]) -> (r: Option<ParsedLog<'a>>) {
        let log_name: [u8; 3] = [0x6c, 0x6f, 0x67];
        let stream_name: [u8; 6] = [0x73, 0x74, 0x72, 0x65, 0x61, 0x6d];
        let time_name: [u8; 4] = [0x74, 0x69, 0x6d, 0x65];
        assert(log_name@ == log_key());
        assert(stream_name@ == stream_key());
        assert(time_name@ == time_key());

        let raw_payload = match self.find_string_field(line, log_name.as_slice()) {
            Some(v) => v,
            None => return None,
        };
        let stream_bytes = match self.find_string_field(line, stream_name.as_slice()) {
            Some(v) => v,
            None => return None,
        };
        let stream = match stream_from_bytes(stream_bytes) {
            Some(s) => s,
            None => return None,
        };
        let ts_bytes = match self.find_string_field(line, time_name.as_slice()) {
            Some(v) => v,
            None => return None,
        };
        let timestamp_ns = match parse_rfc3339_timestamp(ts_bytes) {
            Some(t) => t,
            None => return None,
        };

        let mut payload = trim_trailing_newlines(raw_payload);
        let n = payload.len();
        if n >= 2 && payload[n - 2] == BACKSLASH && payload[n - 1] == LOWER_N {
            payload = &payload[0..n - 2];
        }
        let n = payload.len();
        if n >= 2 && payload[n - 2] == BACKSLASH && payload[n - 1] == LOWER_R {
            payload = &payload[0..n - 2];
        }

        Some(ParsedLog { timestamp_ns, stream, is_partial: false, payload })
    }
}

} // verus!
