use vstd::prelude::*;
use vstd::utf8::{decode_utf8, valid_utf8};
use crate::metadata::string_from_utf8;
use crate::parser::{find_byte, first_from, lemma_first_from};

verus! {

/// File was modified.
pub const IN_MODIFY: u32 = 0x0000_0002;
/// File was moved out of a watched directory.
pub const IN_MOVED_FROM: u32 = 0x0000_0040;
/// File was moved into a watched directory.
pub const IN_MOVED_TO: u32 = 0x0000_0080;
/// File was created in a watched directory.
pub const IN_CREATE: u32 = 0x0000_0100;
/// File was deleted from a watched directory.
pub const IN_DELETE: u32 = 0x0000_0200;
/// The watched file itself was deleted.
pub const IN_DELETE_SELF: u32 = 0x0000_0400;
/// The watched file itself was moved.
pub const IN_MOVE_SELF: u32 = 0x0000_0800;

/// Events watched on a directory: entries created, deleted or moved in or out.
pub const DIR_WATCH_MASK: u32 = IN_CREATE | IN_DELETE | IN_MOVED_FROM | IN_MOVED_TO;
/// Events watched on a log file: written to, deleted or moved.
pub const FILE_WATCH_MASK: u32 = IN_MODIFY | IN_DELETE_SELF | IN_MOVE_SELF;

/// `inotify_init1` flag: non-blocking descriptor.
pub const IN_NONBLOCK: i32 = 0x0000_0800;
/// `inotify_init1` flag: close on exec.
pub const IN_CLOEXEC: i32 = 0x0008_0000;

/// `poll` event: data to read.
pub const POLLIN: i16 = 0x0001;

/// Size in bytes of the fixed part of an inotify event record.
pub const INOTIFY_HEADER_LEN: usize = 16;

/// One entry of the descriptor array handed to `poll`.
#[derive(Debug, Clone, Copy)]
pub struct PollFd {
    pub fd: i32,
    pub events: i16,
    pub revents: i16,
}

/// The fixed part of an inotify event record; `len` bytes of name follow it.
#[derive(Debug, Clone, Copy, PartialEq, Eq, Structural)]
pub struct InotifyEventHeader {
    pub wd: i32,
    pub mask: u32,
    pub cookie: u32,
    pub len: u32,
}

/// The little-endian value of the four bytes `s[0..4]`.
pub open spec fn le32_value(s: Seq<u8>) -> int {
    s[0] + s[1] * 0x100 + s[2] * 0x10000 + s[3] * 0x1000000
}

/// The big-endian value of the four bytes `s[0..4]`.
pub open spec fn be32_value(s: Seq<u8>) -> int {
    s[0] * 0x1000000 + s[1] * 0x10000 + s[2] * 0x100 + s[3]
}

/// The four bytes at `at` read in one byte order: little-endian when `little`.
pub open spec fn word_at(b: Seq<u8>, at: int, little: bool) -> int {
    if little {
        le32_value(b.subrange(at, at + 4))
    } else {
        be32_value(b.subrange(at, at + 4))
    }
}

/// Whether `r` holds the four 32-bit words of `b` (16 bytes), all read in one byte order.
pub open spec fn words_in_order(b: Seq<u8>, r: Seq<u32>, little: bool) -> bool {
    &&& r.len() == 4
    &&& r[0] == word_at(b, 0, little)
    &&& r[1] == word_at(b, 4, little)
    &&& r[2] == word_at(b, 8, little)
    &&& r[3] == word_at(b, 12, little)
}

/// Reads four native-endian `u32` words from 16 bytes.
///
/// Calls `u32::from_ne_bytes` on each group of four bytes. Rust targets are little- or
/// big-endian, so all four words are read in the same one of the two orders; which one depends
/// on the machine and is not claimed.
#[verifier::external_body]
fn u32_words_from_ne(b: [u8; 16]) -> (r: [u32; 4])
    ensures
        words_in_order(b@, r@, true) || words_in_order(b@, r@, false),
{
    [
        u32::from_ne_bytes([b[0], b[1], b[2], b[3]]),
        u32::from_ne_bytes([b[4], b[5], b[6], b[7]]),
        u32::from_ne_bytes([b[8], b[9], b[10], b[11]]),
        u32::from_ne_bytes([b[12], b[13], b[14], b[15]]),
    ]
}

/// The header at `pos` of `b`, all fields read in one byte order (little-endian when
/// `little`); the watch descriptor is the same 32 bits taken as signed.
pub open spec fn header_in_order(b: Seq<u8>, pos: int, little: bool) -> InotifyEventHeader {
    InotifyEventHeader {
        wd: (word_at(b, pos, little) as u32) as i32,
        mask: word_at(b, pos + 4, little) as u32,
        cookie: word_at(b, pos + 8, little) as u32,
        len: word_at(b, pos + 12, little) as u32,
    }
}

/// The name carried by an inotify record whose name area is `b[start..start + len]`: the
/// bytes up to the first NUL (or the whole area), as text when they are valid UTF-8; no name
/// when the area is empty.
pub open spec fn record_name(b: Seq<u8>, start: int, len: int) -> Option<Seq<char>> {
    if len == 0 {
        None
    } else {
        let area = b.subrange(start, start + len);
        let end = match first_from(area, 0, 0) {
            Some(i) => i,
            None => len,
        };
        if valid_utf8(area.subrange(0, end)) {
            Some(decode_utf8(area.subrange(0, end)))
        } else {
            None
        }
    }
}

/// One inotify record read from a buffer filled by `read` on the inotify descriptor.
pub struct InotifyRecord {
    pub header: InotifyEventHeader,
    pub name: Option<String>,
    /// Offset in the buffer of the record that follows.
    pub next: usize,
}

fn sixteen_bytes(buf: &[u8], at: usize) -> (r: [u8; 16])
    requires
        at + 16 <= buf.len(),
    ensures
        r@ == buf@.subrange(at as int, at + 16),
{
    let r = [
        buf[at],
        buf[at + 1],
        buf[at + 2],
        buf[at + 3],
        buf[at + 4],
        buf[at + 5],
        buf[at + 6],
        buf[at + 7],
        buf[at + 8],
        buf[at + 9],
        buf[at + 10],
        buf[at + 11],
        buf[at + 12],
        buf[at + 13],
        buf[at + 14],
        buf[at + 15],
    ];
    assert(r@ =~= buf@.subrange(at as int, at + 16));
    r
}

/// Reads the 16-byte header of the inotify record at `pos` of `buf`: watch descriptor, mask,
/// cookie and name length, in the machine's byte order. There is a header exactly when 16
/// bytes remain from `pos`.
pub fn read_inotify_header(buf: &[u8], pos: usize) -> (r: Option<InotifyEventHeader>)
    ensures
        r is Some <==> pos + INOTIFY_HEADER_LEN <= buf@.len(),
        r matches Some(h) ==> h == header_in_order(buf@, pos as int, true) || h
            == header_in_order(buf@, pos as int, false),
{
    let n = buf.len();
    if pos > n || n - pos < INOTIFY_HEADER_LEN {
        return None;
    }
    let bytes = sixteen_bytes(buf, pos);
    let w = u32_words_from_ne(bytes);
    let h = InotifyEventHeader { wd: w[0] as i32, mask: w[1], cookie: w[2], len: w[3] };
    proof {
        let b = buf@;
        assert(bytes@.subrange(0, 4) =~= b.subrange(pos as int, pos + 4));
        assert(bytes@.subrange(4, 8) =~= b.subrange(pos + 4, pos + 8));
        assert(bytes@.subrange(8, 12) =~= b.subrange(pos + 8, pos + 12));
        assert(bytes@.subrange(12, 16) =~= b.subrange(pos + 12, pos + 16));
    }
    Some(h)
}

/// Completes the record at `pos` of `buf` whose header is `header`: its name follows the
/// header, and the next record follows the name. The kernel only writes whole records; a
/// record whose name would run past the end of `buf` is not read.
pub fn inotify_record(buf: &[u8], pos: usize, header: InotifyEventHeader) -> (r: Option<
    InotifyRecord,
>)
    requires
        pos + INOTIFY_HEADER_LEN <= buf@.len(),
    ensures
        r is Some <==> pos + INOTIFY_HEADER_LEN + header.len <= buf@.len(),
        r matches Some(rec) ==> {
            &&& rec.header == header
            &&& rec.next == pos + INOTIFY_HEADER_LEN + header.len
            &&& match rec.name {
                Some(n) => record_name(buf@, pos + INOTIFY_HEADER_LEN, header.len as int) == Some(
                    n@,
                ),
                None => record_name(buf@, pos + INOTIFY_HEADER_LEN, header.len as int) is None,
            }
        },
{
    let n = buf.len();
    let start = pos + INOTIFY_HEADER_LEN;
    if (header.len as u64) > ((n - start) as u64) {
        return None;
    }
    let len_us = header.len as usize;
    let name = if len_us > 0 {
        let area = &buf[start..start + len_us];
        let name_len = match find_byte(area, 0, 0) {
            Some(i) => i,
            None => len_us,
        };
        proof {
            lemma_first_from(area@, 0, 0);
        }
        string_from_utf8(vstd::slice::slice_to_vec(&area[0..name_len]))
    } else {
        None
    };
    Some(InotifyRecord { header, name, next: start + len_us })
}

/// Whether the name length at `pos` fits in `buf` whichever byte order the machine has.
pub open spec fn record_fits_either_order(buf: Seq<u8>, pos: int) -> bool {
    let l = buf.subrange(pos + 12, pos + 16);
    let rest = buf.len() - pos - INOTIFY_HEADER_LEN;
    pos + INOTIFY_HEADER_LEN <= buf.len() && le32_value(l) <= rest && be32_value(l) <= rest
}

/// Whether the name length at `pos` fits in `buf` in neither byte order.
pub open spec fn record_fits_neither_order(buf: Seq<u8>, pos: int) -> bool {
    let l = buf.subrange(pos + 12, pos + 16);
    let rest = buf.len() - pos - INOTIFY_HEADER_LEN;
    pos + INOTIFY_HEADER_LEN <= buf.len() && le32_value(l) > rest && be32_value(l) > rest
}

/// Reads the inotify record at `pos` of `buf`, as a `read` on the inotify descriptor filled
/// it: the header, then the name. The record is read when its header and name fit in `buf`;
/// the name length is taken in the machine's byte order.
pub fn read_inotify_record(buf: &[u8], pos: usize) -> (r: Option<InotifyRecord>)
    ensures
        pos + INOTIFY_HEADER_LEN > buf@.len() ==> r is None,
        record_fits_either_order(buf@, pos as int) ==> r is Some,
        record_fits_neither_order(buf@, pos as int) ==> r is None,
        r matches Some(rec) ==> rec.header == header_in_order(buf@, pos as int, true)
            || rec.header == header_in_order(buf@, pos as int, false),
        r matches Some(rec) ==> {
            &&& rec.next == pos + INOTIFY_HEADER_LEN + rec.header.len
            &&& rec.next <= buf@.len()
            &&& match rec.name {
                Some(n) => record_name(
                    buf@,
                    pos + INOTIFY_HEADER_LEN,
                    rec.header.len as int,
                ) == Some(n@),
                None => record_name(buf@, pos + INOTIFY_HEADER_LEN, rec.header.len as int) is None,
            }
        },
{
    match read_inotify_header(buf, pos) {
        Some(header) => inotify_record(buf, pos, header),
        None => None,
    }
}

} // verus!
