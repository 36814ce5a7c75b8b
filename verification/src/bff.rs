//! The fixed byte layout of a BFF archive: magic numbers, the file header,
//! the per-record header and trailer, and the aligned filename encoding.
//!
//! Every multi-byte integer of the format is read little endian, field by
//! field at its fixed offset, exactly as the packed C structures of the
//! original format lay the bytes out.

use vstd::prelude::*;
use vstd::string::StrSliceExecFns;

verus! {

/// All BFF files start with this magic number.
pub const FILE_MAGIC: u32 = 0xea6b0009;
/// A raw (uncompressed) record carries this magic number.
pub const RAW_MAGIC: u16 = 0xEA6B;
/// A Huffman-compressed record carries this magic number.
pub const HUFFMAN_MAGIC: u16 = 0xEA6C;
/// An alternate raw record carries this magic number.
pub const ALT_RAW_MAGIC: u16 = 0xEA6D;

/// The sentinel byte every well-formed record header carries at offset one.
pub const RECORD_SENTINEL: u8 = 0x0b;

/// Size in bytes of the file header.
pub const FILE_HEADER_SIZE: u64 = 72;
/// Size in bytes of a record header.
pub const RECORD_HEADER_SIZE: u64 = 64;
/// Size in bytes of a record trailer.
pub const RECORD_TRAILER_SIZE: u64 = 40;

/// Whether a 16-bit value is one of the three record magic numbers.
pub open spec fn spec_is_header_magic(magic: u16) -> bool {
    magic == RAW_MAGIC || magic == HUFFMAN_MAGIC || magic == ALT_RAW_MAGIC
}

/// Whether a 16-bit value is one of the three record magic numbers.
pub fn is_header_magic(magic: u16) -> (r: bool)
    ensures
        r == spec_is_header_magic(magic),
{
    magic == RAW_MAGIC || magic == HUFFMAN_MAGIC || magic == ALT_RAW_MAGIC
}

/// The 16-bit little-endian value stored at byte offset `i`.
pub open spec fn le16_at(d: Seq<u8>, i: int) -> u16 {
    (d[i] + d[i + 1] * 0x100) as u16
}

/// The 32-bit little-endian value stored at byte offset `i`.
pub open spec fn le32_at(d: Seq<u8>, i: int) -> u32 {
    (d[i] + d[i + 1] * 0x100 + d[i + 2] * 0x10000 + d[i + 3] * 0x1000000) as u32
}

/// Reads the 16-bit little-endian value at byte offset `i`.
pub fn read_u16_le(data: &Vec<u8>, i: usize) -> (r: u16)
    requires
        i + 2 <= data.len(),
    ensures
        r == le16_at(data@, i as int),
{
    let r: u16 = data[i] as u16 + data[i + 1] as u16 * 0x100;
    r
}

/// Reads the 32-bit little-endian value at byte offset `i`.
pub fn read_u32_le(data: &Vec<u8>, i: usize) -> (r: u32)
    requires
        i + 4 <= data.len(),
    ensures
        r == le32_at(data@, i as int),
{
    let r: u32 = data[i] as u32 + data[i + 1] as u32 * 0x100 + data[i + 2] as u32 * 0x10000
        + data[i + 3] as u32 * 0x1000000;
    r
}

/// Representation of the file header.
///
/// Some data is not identified at the moment and named "unk*".
#[derive(Debug, Clone, Copy)]
pub struct FileHeader {
    /// Magic number.
    pub magic: u32,
    pub checksum: u32,
    pub current_date: u32,
    pub starting_date: u32,
    pub unk10: u32,
    pub disk_name: [u8; 8],
    pub unk1_c: u32,
    pub unk20: u32,
    pub filesystem_name: [u8; 8],
    pub unk2_c: u32,
    pub unk30: u32,
    /// Typically contains the username of the build user.
    pub username: [u8; 8],
    pub unk3_c: u32,
    pub unk40: u32,
    pub unk44: u32,
}

/// Whether `h` holds exactly the file header fields stored at byte offset
/// `pos`.
pub open spec fn file_header_matches(h: FileHeader, d: Seq<u8>, pos: int) -> bool {
    &&& h.magic == le32_at(d, pos)
    &&& h.checksum == le32_at(d, pos + 4)
    &&& h.current_date == le32_at(d, pos + 8)
    &&& h.starting_date == le32_at(d, pos + 12)
    &&& h.unk10 == le32_at(d, pos + 16)
    &&& h.disk_name@ == d.subrange(pos + 20, pos + 28)
    &&& h.unk1_c == le32_at(d, pos + 28)
    &&& h.unk20 == le32_at(d, pos + 32)
    &&& h.filesystem_name@ == d.subrange(pos + 36, pos + 44)
    &&& h.unk2_c == le32_at(d, pos + 44)
    &&& h.unk30 == le32_at(d, pos + 48)
    &&& h.username@ == d.subrange(pos + 52, pos + 60)
    &&& h.unk3_c == le32_at(d, pos + 60)
    &&& h.unk40 == le32_at(d, pos + 64)
    &&& h.unk44 == le32_at(d, pos + 68)
}

/// Representation of a record header.
///
/// Some data is not identified at the moment and named "unk*".
#[derive(Debug, Clone, Copy)]
pub struct RecordHeader {
    /// Directories seem to have 0x0D, files 0x0F to 0x12.
    pub unk00: u8,
    /// A typical record has 0x0B here; the parser skips records without it.
    pub unk01: u8,
    /// Magic number.
    pub magic: u16,
    pub unk04: u32,
    /// Maybe directory ID or counter, always 0 for files.
    pub unk08: u32,
    /// File mode (rwx...) as bit representation.
    pub mode: u32,
    /// User ID number of the file.
    pub uid: u32,
    /// Group ID number of the file.
    pub gid: u32,
    /// Decompressed file size.
    pub size: u32,
    pub atime: u32,
    /// Last modified timestamp of the file.
    pub mtime: u32,
    pub time24: u32,
    pub unk28: u32,
    pub unk2_c: u32,
    pub unk30: u32,
    pub unk34: u32,
    pub compressed_size: u32,
    pub unk3_c: u32,
}

/// The field values of a freshly made record header.
pub open spec fn spec_default_record_header() -> RecordHeader {
    RecordHeader {
        unk00: 0,
        unk01: 0,
        magic: 0,
        unk04: 0,
        unk08: 0,
        mode: 0o644,
        uid: 0,
        gid: 0,
        size: 0,
        atime: 0,
        mtime: 0,
        time24: 0,
        unk28: 0,
        unk2_c: 0,
        unk30: 0,
        unk34: 0,
        compressed_size: 0,
        unk3_c: 0,
    }
}

impl Default for RecordHeader {
    /// A record header with all fields zero but an ordinary file mode.
    fn default() -> (r: Self)
        ensures
            r == spec_default_record_header(),
    {
        RecordHeader {
            unk00: 0,
            unk01: 0,
            magic: 0,
            unk04: 0,
            unk08: 0,
            mode: 0o644,
            uid: 0,
            gid: 0,
            size: 0,
            atime: 0,
            mtime: 0,
            time24: 0,
            unk28: 0,
            unk2_c: 0,
            unk30: 0,
            unk34: 0,
            compressed_size: 0,
            unk3_c: 0,
        }
    }
}

/// The record header stored at byte offset `pos`.
pub open spec fn spec_record_header_at(d: Seq<u8>, pos: int) -> RecordHeader {
    RecordHeader {
        unk00: d[pos],
        unk01: d[pos + 1],
        magic: le16_at(d, pos + 2),
        unk04: le32_at(d, pos + 4),
        unk08: le32_at(d, pos + 8),
        mode: le32_at(d, pos + 12),
        uid: le32_at(d, pos + 16),
        gid: le32_at(d, pos + 20),
        size: le32_at(d, pos + 24),
        atime: le32_at(d, pos + 28),
        mtime: le32_at(d, pos + 32),
        time24: le32_at(d, pos + 36),
        unk28: le32_at(d, pos + 40),
        unk2_c: le32_at(d, pos + 44),
        unk30: le32_at(d, pos + 48),
        unk34: le32_at(d, pos + 52),
        compressed_size: le32_at(d, pos + 56),
        unk3_c: le32_at(d, pos + 60),
    }
}

/// Representation of the data after each record header and record file name.
///
/// Some data is not identified at the moment and named "unk*".
#[derive(Debug, Clone, Copy)]
pub struct RecordTrailer {
    pub unk00: u32,
    pub unk04: u32,
    pub unk08: u32,
    pub unk0_c: u32,
    pub unk10: u32,
    pub unk14: u32,
    pub unk18: u32,
    pub unk1_c: u32,
    pub unk20: u32,
    pub unk24: u32,
}

/// The field values of a freshly made record trailer.
pub open spec fn spec_default_record_trailer() -> RecordTrailer {
    RecordTrailer {
        unk00: 0,
        unk04: 0,
        unk08: 0,
        unk0_c: 0,
        unk10: 0,
        unk14: 0,
        unk18: 0,
        unk1_c: 0,
        unk20: 0,
        unk24: 0,
    }
}

impl Default for RecordTrailer {
    /// A record trailer with all fields zero.
    fn default() -> (r: Self)
        ensures
            r == spec_default_record_trailer(),
    {
        RecordTrailer {
            unk00: 0,
            unk04: 0,
            unk08: 0,
            unk0_c: 0,
            unk10: 0,
            unk14: 0,
            unk18: 0,
            unk1_c: 0,
            unk20: 0,
            unk24: 0,
        }
    }
}

/// The record trailer stored at byte offset `pos`.
pub open spec fn spec_record_trailer_at(d: Seq<u8>, pos: int) -> RecordTrailer {
    RecordTrailer {
        unk00: le32_at(d, pos),
        unk04: le32_at(d, pos + 4),
        unk08: le32_at(d, pos + 8),
        unk0_c: le32_at(d, pos + 12),
        unk10: le32_at(d, pos + 16),
        unk14: le32_at(d, pos + 20),
        unk18: le32_at(d, pos + 24),
        unk1_c: le32_at(d, pos + 28),
        unk20: le32_at(d, pos + 32),
        unk24: le32_at(d, pos + 36),
    }
}

/// Copies the eight bytes at offset `i` into a fixed-size name field.
fn read_name8(data: &Vec<u8>, i: usize) -> (r: [u8; 8])
    requires
        i + 8 <= data.len(),
    ensures
        r@ == data@.subrange(i as int, i + 8),
{
    let r = [
        data[i],
        data[i + 1],
        data[i + 2],
        data[i + 3],
        data[i + 4],
        data[i + 5],
        data[i + 6],
        data[i + 7],
    ];
    proof {
        assert(r@ =~= data@.subrange(i as int, i + 8));
    }
    r
}

/// Reads the BFF file header stored at byte offset `pos`.
///
/// Rejects a header whose magic number is not `FILE_MAGIC`, and an input too
/// short to hold a whole header.
pub fn read_file_header(data: &Vec<u8>, pos: usize) -> (r: Result<FileHeader, crate::error::Error>)
    ensures
        match r {
            Ok(h) => {
                &&& pos + FILE_HEADER_SIZE <= data@.len()
                &&& file_header_matches(h, data@, pos as int)
                &&& h.magic == FILE_MAGIC
            },
            Err(crate::error::Error::UnexpectedEndOfInput) => pos + FILE_HEADER_SIZE > data@.len(),
            Err(crate::error::Error::InvalidFileMagic(m)) => {
                &&& pos + FILE_HEADER_SIZE <= data@.len()
                &&& m == le32_at(data@, pos as int)
                &&& m != FILE_MAGIC
            },
            _ => false,
        },
{
    if data.len() < 72 || pos > data.len() - 72 {
        return Err(crate::error::Error::UnexpectedEndOfInput);
    }
    let magic = read_u32_le(data, pos);
    if magic != FILE_MAGIC {
        return Err(crate::error::Error::InvalidFileMagic(magic));
    }
    let h = FileHeader {
        magic,
        checksum: read_u32_le(data, pos + 4),
        current_date: read_u32_le(data, pos + 8),
        starting_date: read_u32_le(data, pos + 12),
        unk10: read_u32_le(data, pos + 16),
        disk_name: read_name8(data, pos + 20),
        unk1_c: read_u32_le(data, pos + 28),
        unk20: read_u32_le(data, pos + 32),
        filesystem_name: read_name8(data, pos + 36),
        unk2_c: read_u32_le(data, pos + 44),
        unk30: read_u32_le(data, pos + 48),
        username: read_name8(data, pos + 52),
        unk3_c: read_u32_le(data, pos + 60),
        unk40: read_u32_le(data, pos + 64),
        unk44: read_u32_le(data, pos + 68),
    };
    Ok(h)
}

/// Reads the record header stored at byte offset `pos`, without judging its
/// contents.
pub fn read_record_header(data: &Vec<u8>, pos: usize) -> (r: Result<
    RecordHeader,
    crate::error::Error,
>)
    ensures
        match r {
            Ok(h) => {
                &&& pos + RECORD_HEADER_SIZE <= data@.len()
                &&& h == spec_record_header_at(data@, pos as int)
            },
            Err(crate::error::Error::UnexpectedEndOfInput) => pos + RECORD_HEADER_SIZE
                > data@.len(),
            _ => false,
        },
{
    if data.len() < 64 || pos > data.len() - 64 {
        return Err(crate::error::Error::UnexpectedEndOfInput);
    }
    let h = RecordHeader {
        unk00: data[pos],
        unk01: data[pos + 1],
        magic: read_u16_le(data, pos + 2),
        unk04: read_u32_le(data, pos + 4),
        unk08: read_u32_le(data, pos + 8),
        mode: read_u32_le(data, pos + 12),
        uid: read_u32_le(data, pos + 16),
        gid: read_u32_le(data, pos + 20),
        size: read_u32_le(data, pos + 24),
        atime: read_u32_le(data, pos + 28),
        mtime: read_u32_le(data, pos + 32),
        time24: read_u32_le(data, pos + 36),
        unk28: read_u32_le(data, pos + 40),
        unk2_c: read_u32_le(data, pos + 44),
        unk30: read_u32_le(data, pos + 48),
        unk34: read_u32_le(data, pos + 52),
        compressed_size: read_u32_le(data, pos + 56),
        unk3_c: read_u32_le(data, pos + 60),
    };
    Ok(h)
}

/// Reads the record trailer stored at byte offset `pos`.
pub fn read_record_trailer(data: &Vec<u8>, pos: usize) -> (r: Result<
    RecordTrailer,
    crate::error::Error,
>)
    ensures
        match r {
            Ok(t) => {
                &&& pos + RECORD_TRAILER_SIZE <= data@.len()
                &&& t == spec_record_trailer_at(data@, pos as int)
            },
            Err(crate::error::Error::UnexpectedEndOfInput) => pos + RECORD_TRAILER_SIZE
                > data@.len(),
            _ => false,
        },
{
    if data.len() < 40 || pos > data.len() - 40 {
        return Err(crate::error::Error::UnexpectedEndOfInput);
    }
    let t = RecordTrailer {
        unk00: read_u32_le(data, pos),
        unk04: read_u32_le(data, pos + 4),
        unk08: read_u32_le(data, pos + 8),
        unk0_c: read_u32_le(data, pos + 12),
        unk10: read_u32_le(data, pos + 16),
        unk14: read_u32_le(data, pos + 20),
        unk18: read_u32_le(data, pos + 24),
        unk1_c: read_u32_le(data, pos + 28),
        unk20: read_u32_le(data, pos + 32),
        unk24: read_u32_le(data, pos + 36),
    };
    Ok(t)
}

/// The prefix of `s` before its first zero byte; all of `s` when no byte is
/// zero.
pub open spec fn take_until_zero(s: Seq<u8>) -> Seq<u8>
    decreases s.len(),
{
    if s.len() == 0 {
        s
    } else if s[0] == 0 {
        Seq::empty()
    } else {
        seq![s[0]] + take_until_zero(s.skip(1))
    }
}

/// A byte that ends a filename early: newline, tab or vertical tab.
pub open spec fn is_name_terminator(b: u8) -> bool {
    b == 9 || b == 10 || b == 11
}

/// The prefix of `s` before its first terminator byte; all of `s` when no
/// byte is a terminator.
pub open spec fn take_until_terminator(s: Seq<u8>) -> Seq<u8>
    decreases s.len(),
{
    if s.len() == 0 {
        s
    } else if is_name_terminator(s[0]) {
        Seq::empty()
    } else {
        seq![s[0]] + take_until_terminator(s.skip(1))
    }
}

/// Whether the eight-byte chunk starting at `pos` (cut short at the end of
/// the data) holds a zero byte.
pub open spec fn chunk_has_zero(d: Seq<u8>, pos: int) -> bool {
    exists|j: int| pos <= j < d.len() && j < pos + 8 && d[j] == 0
}

/// The position after the filename stored at `pos`: whole eight-byte chunks
/// are consumed until one holds a zero byte or the data ends, so the stream
/// stays chunk-aligned past the name.
pub open spec fn name_end(d: Seq<u8>, pos: int) -> int
    decreases d.len() - pos,
{
    if pos >= d.len() {
        pos
    } else if pos + 8 > d.len() {
        d.len() as int
    } else if chunk_has_zero(d, pos) {
        pos + 8
    } else {
        name_end(d, pos + 8)
    }
}

/// The filename bytes stored at `pos`: everything up to the first zero byte
/// of the consumed chunks.
pub open spec fn name_bytes(d: Seq<u8>, pos: int) -> Seq<u8>
    decreases d.len() - pos,
{
    if pos >= d.len() {
        Seq::empty()
    } else if pos + 8 > d.len() {
        take_until_zero(d.subrange(pos, d.len() as int))
    } else if chunk_has_zero(d, pos) {
        take_until_zero(d.subrange(pos, pos + 8))
    } else {
        d.subrange(pos, pos + 8) + name_bytes(d, pos + 8)
    }
}

/// The consumed region never ends before `pos` nor after the data.
pub proof fn lemma_name_end_bounds(d: Seq<u8>, pos: int)
    requires
        0 <= pos <= d.len(),
    ensures
        pos <= name_end(d, pos) <= d.len(),
    decreases d.len() - pos,
{
    if pos < d.len() && pos + 8 <= d.len() && !chunk_has_zero(d, pos) {
        lemma_name_end_bounds(d, pos + 8);
    }
}

/// `take_until_zero` of a sequence whose first `i` bytes are not zero and
/// whose byte `i`, if any, is zero, is exactly the first `i` bytes.
proof fn lemma_take_until_zero_take(s: Seq<u8>, i: int)
    requires
        0 <= i <= s.len(),
        forall|j: int| 0 <= j < i ==> s[j] != 0,
        i < s.len() ==> s[i] == 0,
    ensures
        take_until_zero(s) == s.take(i),
    decreases i,
{
    if s.len() == 0 {
        assert(s.take(i) =~= s);
    } else if i == 0 {
        assert(s.take(0) =~= Seq::<u8>::empty());
    } else {
        lemma_take_until_zero_take(s.skip(1), i - 1);
        assert(seq![s[0]] + s.skip(1).take(i - 1) =~= s.take(i));
    }
}

/// The same shape for the terminator cut.
proof fn lemma_take_until_terminator_take(s: Seq<u8>, i: int)
    requires
        0 <= i <= s.len(),
        forall|j: int| 0 <= j < i ==> !is_name_terminator(s[j]),
        i < s.len() ==> is_name_terminator(s[i]),
    ensures
        take_until_terminator(s) == s.take(i),
    decreases i,
{
    if s.len() == 0 {
        assert(s.take(i) =~= s);
    } else if i == 0 {
        assert(s.take(0) =~= Seq::<u8>::empty());
    } else {
        lemma_take_until_terminator_take(s.skip(1), i - 1);
        assert(seq![s[0]] + s.skip(1).take(i - 1) =~= s.take(i));
    }
}

/// A zero-free prefix passes through `take_until_zero` unchanged.
proof fn lemma_take_until_zero_append(a: Seq<u8>, b: Seq<u8>)
    requires
        forall|j: int| 0 <= j < a.len() ==> a[j] != 0,
    ensures
        take_until_zero(a + b) == a + take_until_zero(b),
    decreases a.len(),
{
    if a.len() == 0 {
        assert(a + b =~= b);
        assert(a + take_until_zero(b) =~= take_until_zero(b));
    } else {
        assert((a + b).skip(1) =~= a.skip(1) + b);
        lemma_take_until_zero_append(a.skip(1), b);
        assert(seq![a[0]] + (a.skip(1) + take_until_zero(b)) =~= a + take_until_zero(b));
    }
}

/// The filename bytes are exactly the zero-cut of the consumed region.
pub proof fn lemma_name_bytes_flat(d: Seq<u8>, pos: int)
    requires
        0 <= pos <= d.len(),
    ensures
        name_bytes(d, pos) == take_until_zero(d.subrange(pos, name_end(d, pos))),
    decreases d.len() - pos,
{
    lemma_name_end_bounds(d, pos);
    if pos >= d.len() {
        assert(d.subrange(pos, pos) =~= Seq::<u8>::empty());
    } else if pos + 8 > d.len() || chunk_has_zero(d, pos) {
    } else {
        lemma_name_bytes_flat(d, pos + 8);
        lemma_name_end_bounds(d, pos + 8);
        let a = d.subrange(pos, pos + 8);
        let b = d.subrange(pos + 8, name_end(d, pos + 8));
        assert(forall|j: int| 0 <= j < a.len() ==> a[j] != 0) by {
            assert(forall|j: int| 0 <= j < 8 ==> a[j] == d[pos + j]);
        }
        lemma_take_until_zero_append(a, b);
        assert(a + b =~= d.subrange(pos, name_end(d, pos + 8)));
    }
}

/// The index of the first zero byte in `data[from..to]`, if any.
fn find_zero(data: &Vec<u8>, from: usize, to: usize) -> (r: Option<usize>)
    requires
        from <= to <= data.len(),
    ensures
        match r {
            Some(j) => {
                &&& from <= j < to
                &&& data@[j as int] == 0
                &&& forall|k: int| from <= k < j ==> data@[k] != 0
            },
            None => forall|k: int| from <= k < to ==> data@[k] != 0,
        },
{
    let mut j = from;
    while j < to
        invariant
            from <= j <= to <= data.len(),
            forall|k: int| from <= k < j ==> data@[k] != 0,
        decreases to - j,
    {
        if data[j] == 0 {
            return Some(j);
        }
        j = j + 1;
    }
    None
}

/// A character that ends a filename early: newline, tab or vertical tab.
pub open spec fn is_terminator_char(c: char) -> bool {
    c == '\n' || c == '\t' || c == '\u{B}'
}

/// The prefix of `s` before its first terminator character; all of `s` when
/// it has none.
pub open spec fn spec_first_segment(s: Seq<char>) -> Seq<char>
    decreases s.len(),
{
    if s.len() == 0 {
        s
    } else if is_terminator_char(s[0]) {
        Seq::empty()
    } else {
        seq![s[0]] + spec_first_segment(s.skip(1))
    }
}

/// The same characterization as for the byte-level cuts: a terminator-free
/// prefix, cut at the first terminator if there is one.
proof fn lemma_first_segment_take(s: Seq<char>, i: int)
    requires
        0 <= i <= s.len(),
        forall|j: int| 0 <= j < i ==> !is_terminator_char(s[j]),
        i < s.len() ==> is_terminator_char(s[i]),
    ensures
        spec_first_segment(s) == s.take(i),
    decreases i,
{
    if s.len() == 0 {
        assert(s.take(i) =~= s);
    } else if i == 0 {
        assert(s.take(0) =~= Seq::<char>::empty());
    } else {
        lemma_first_segment_take(s.skip(1), i - 1);
        assert(seq![s[0]] + s.skip(1).take(i - 1) =~= s.take(i));
    }
}

/// Get the first segment of a string until a newline, tab, or vertical tab.
pub fn first_segment(text: &str) -> (r: String)
    ensures
        r@ == spec_first_segment(text@),
{
    let len = text.unicode_len();
    let mut i: usize = 0;
    while i < len
        invariant
            i <= len,
            len == text@.len(),
            forall|j: int| 0 <= j < i ==> !is_terminator_char(text@[j]),
        decreases len - i,
    {
        let c = text.get_char(i);
        if c == '\n' || c == '\t' || c == '\u{B}' {
            let cut = text.substring_char(0, i).to_owned();
            proof {
                lemma_first_segment_take(text@, i as int);
                assert(cut@ =~= text@.take(i as int));
            }
            return cut;
        }
        i = i + 1;
    }
    proof {
        lemma_first_segment_take(text@, len as int);
        assert(text@.take(len as int) =~= text@);
    }
    text.to_owned()
}

/// The index of the first terminator byte of `name`, if any.
fn find_terminator(name: &Vec<u8>) -> (r: Option<usize>)
    ensures
        match r {
            Some(j) => {
                &&& j < name.len()
                &&& is_name_terminator(name@[j as int])
                &&& forall|k: int| 0 <= k < j ==> !is_name_terminator(name@[k])
            },
            None => forall|k: int| 0 <= k < name.len() ==> !is_name_terminator(name@[k]),
        },
{
    let mut j: usize = 0;
    while j < name.len()
        invariant
            j <= name.len(),
            forall|k: int| 0 <= k < j ==> !is_name_terminator(name@[k]),
        decreases name.len() - j,
    {
        let b = name[j];
        if b == 9 || b == 10 || b == 11 {
            return Some(j);
        }
        j = j + 1;
    }
    None
}

/// Read a string from the data at `pos` until a zero byte, consuming whole
/// eight-byte chunks so the position stays chunk-aligned, and cut it at the
/// first newline, tab or vertical tab.  Returns the text and the position
/// after the consumed chunks.
pub fn read_aligned_string(data: &Vec<u8>, pos: usize) -> (r: (String, usize))
    requires
        pos <= data.len(),
    ensures
        r.1 == name_end(data@, pos as int),
        pos <= r.1 <= data@.len(),
        r.0@ == crate::util::lossy_of(
            take_until_terminator(name_bytes(data@, pos as int)),
        ),
{
    proof {
        lemma_name_end_bounds(data@, pos as int);
        lemma_name_bytes_flat(data@, pos as int);
    }
    // Walk whole chunks until one holds a zero byte or the data ends.
    let mut p = pos;
    let mut end: usize = pos;
    loop
        invariant_except_break
            pos <= p <= data.len(),
            name_end(data@, pos as int) == name_end(data@, p as int),
        invariant
            pos <= data.len(),
        ensures
            end == name_end(data@, pos as int),
            pos <= end <= data@.len(),
        decreases data.len() - p,
    {
        if p >= data.len() {
            end = p;
            break;
        }
        if data.len() - p < 8 {
            end = data.len();
            break;
        }
        match find_zero(data, p, p + 8) {
            Some(j) => {
                proof {
                    assert(p <= j < p + 8 && data@[j as int] == 0);
                    assert(chunk_has_zero(data@, p as int));
                }
                end = p + 8;
                break;
            },
            None => {
                proof {
                    assert(!chunk_has_zero(data@, p as int));
                }
                p = p + 8;
            },
        }
    }
    // Collect the name: the bytes before the first zero of the region.
    let stop: usize = match find_zero(data, pos, end) {
        Some(j) => j,
        None => end,
    };
    let mut name: Vec<u8> = Vec::new();
    let mut i = pos;
    while i < stop
        invariant
            pos <= i <= stop <= data.len(),
            name@ =~= data@.subrange(pos as int, i as int),
        decreases stop - i,
    {
        name.push(data[i]);
        i = i + 1;
    }
    proof {
        let region = data@.subrange(pos as int, end as int);
        lemma_take_until_zero_take(region, stop - pos);
        assert(region.take(stop - pos) =~= data@.subrange(pos as int, stop as int));
        assert(name@ =~= data@.subrange(pos as int, stop as int));
        assert(name@ == name_bytes(data@, pos as int));
    }
    // Cut the name at the first terminator byte.
    let cut: usize = match find_terminator(&name) {
        Some(j) => j,
        None => name.len(),
    };
    proof {
        lemma_take_until_terminator_take(name@, cut as int);
    }
    name.truncate(cut);
    proof {
        assert(name@ =~= take_until_terminator(name_bytes(data@, pos as int)));
    }
    let text = crate::util::bytes_to_string_lossy(&name);
    (text, end)
}

} // verus!
