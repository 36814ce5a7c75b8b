//! Reading a BFF archive: one linear pass over the bytes produces the
//! ordered record list, without touching any payload bytes.
//!
//! A record whose header lacks the sentinel byte or carries an unknown magic
//! number is skipped, header by header, rather than aborting the scan: the
//! format has no record count or terminator, so running out of input while
//! starting a new record is the regular end of the archive.

use crate::bff::{
    le32_at, name_bytes, name_end, read_aligned_string, read_file_header, read_record_header,
    read_record_trailer, spec_is_header_magic, spec_record_header_at, spec_record_trailer_at,
    take_until_terminator, FileHeader, RecordHeader, RecordTrailer, FILE_MAGIC, HUFFMAN_MAGIC,
    RECORD_SENTINEL,
};
use crate::error::Error;
use crate::mode::FileMode;
use crate::util::{civil_of, epoch_to_civil, lossy_of, TimeStamp};
use vstd::prelude::*;
use vstd::string::StringExecFns;

verus! {

/// The smallest multiple of eight at or above `n`: payloads are padded to
/// eight-byte alignment.
pub open spec fn align8(n: int) -> int {
    ((n + 7) / 8) * 8
}

/// Alignment never moves a position backward, adds at most seven bytes, and
/// adds nothing to a position that is already a multiple of eight.
pub proof fn lemma_align8_bounds(n: int)
    requires
        0 <= n,
    ensures
        n <= align8(n) <= n + 7,
        n % 8 == 0 ==> align8(n) == n,
{
    assert(n <= ((n + 7) / 8) * 8 <= n + 7) by (nonlinear_arith)
        requires
            0 <= n,
    ;
    assert(n % 8 == 0 ==> ((n + 7) / 8) * 8 == n) by (nonlinear_arith)
        requires
            0 <= n,
    ;
}

/// The parse of one record as it stands in the archive bytes: its header and
/// trailer, the raw filename bytes, and the byte offset of its payload.
pub struct SpecRecord {
    pub header: RecordHeader,
    pub trailer: RecordTrailer,
    pub name_bytes: Seq<u8>,
    pub position: int,
}

/// One step of the archive scan: a parsed record and the position of the
/// next one, a skipped malformed header and the position after it, or the
/// end of the archive.
pub enum SpecParseStep {
    Record(SpecRecord, int),
    Skip(int),
    End,
}

/// One step of the archive scan at byte offset `pos`.
///
/// Too few bytes for a record header end the scan.  A header without the
/// sentinel byte, or with an unknown magic number, is skipped whole.
/// Otherwise the aligned filename and the trailer follow the header; the
/// payload starts after the trailer and is skipped without being read — by
/// its compressed size if the record announces content, plus the padding
/// that rounds the compressed size up to a multiple of eight.
pub open spec fn spec_parse_step(d: Seq<u8>, pos: int) -> SpecParseStep {
    if pos + 64 > d.len() {
        SpecParseStep::End
    } else {
        let h = spec_record_header_at(d, pos);
        if h.unk01 != RECORD_SENTINEL {
            SpecParseStep::Skip(pos + 64)
        } else if !spec_is_header_magic(h.magic) {
            SpecParseStep::Skip(pos + 64)
        } else {
            let nend = name_end(d, pos + 64);
            if nend + 40 > d.len() {
                SpecParseStep::End
            } else {
                let position = nend + 40;
                let skip = if h.size > 0 {
                    h.compressed_size as int
                } else {
                    0int
                };
                let next = position + skip + (align8(h.compressed_size as int)
                    - h.compressed_size);
                SpecParseStep::Record(
                    SpecRecord {
                        header: h,
                        trailer: spec_record_trailer_at(d, nend),
                        name_bytes: name_bytes(d, pos + 64),
                        position,
                    },
                    next,
                )
            }
        }
    }
}

/// All records of the archive bytes from offset `pos` on, in on-disk order.
/// A step that would not advance, or would land past the end of the data,
/// ends the scan after its record.
pub open spec fn spec_parse_records(d: Seq<u8>, pos: int) -> Seq<SpecRecord>
    decreases d.len() - pos,
{
    match spec_parse_step(d, pos) {
        SpecParseStep::End => Seq::empty(),
        SpecParseStep::Skip(next) => if pos < next <= d.len() {
            spec_parse_records(d, next)
        } else {
            Seq::empty()
        },
        SpecParseStep::Record(r, next) => seq![r] + if pos < next <= d.len() {
            spec_parse_records(d, next)
        } else {
            Seq::empty()
        },
    }
}

/// Transformed representation of a single fileset record (file or directory
/// entry).
#[derive(Debug, Clone)]
pub struct RecordData {
    /// Filename.
    pub filename: String,
    /// Compressed file size.
    pub compressed_size: u32,
    /// Decompressed file size.
    pub size: u32,
    /// File system mode (rwx...).
    pub mode: FileMode,
    /// Owner user ID number of the file.
    pub uid: u32,
    /// Owner group ID number of the file.
    pub gid: u32,
    /// Last modified date of the file.
    pub mdate: TimeStamp,
    /// Last accessed date of the file.
    pub adate: TimeStamp,
    /// Position of the file data in the BFF file.
    pub file_position: u32,
    /// Magic number of the record.
    pub magic: u16,
}

impl RecordData {
    /// The record data that a bare record header gives: sizes, mode, owner
    /// and dates from the header, an empty filename and a zero position
    /// until the scan fills them in.
    pub fn from_header(header: &RecordHeader) -> (r: RecordData)
        ensures
            r.filename@ == Seq::<char>::empty(),
            r.compressed_size == header.compressed_size,
            r.size == header.size,
            r.mode.bits() == header.mode,
            r.uid == header.uid,
            r.gid == header.gid,
            r.mdate == civil_of(header.mtime),
            r.adate == civil_of(header.atime),
            r.file_position == 0,
            r.magic == header.magic,
    {
        RecordData {
            filename: String::new(),
            compressed_size: header.compressed_size,
            size: header.size,
            mode: FileMode::from_bits(header.mode),
            uid: header.uid,
            gid: header.gid,
            mdate: epoch_to_civil(header.mtime),
            adate: epoch_to_civil(header.atime),
            file_position: 0,
            magic: header.magic,
        }
    }
}

/// Container for all record data.
#[derive(Debug, Clone)]
pub struct Record {
    pub data: RecordData,
    pub header: RecordHeader,
    pub trailer: RecordTrailer,
}

/// Whether an in-memory record holds exactly what one parsed record of the
/// archive bytes says: the header and trailer fields, the filename text made
/// of the raw name bytes, and the payload position.
pub open spec fn record_matches(rec: Record, s: SpecRecord) -> bool {
    &&& rec.header == s.header
    &&& rec.trailer == s.trailer
    &&& rec.data.filename@ == lossy_of(take_until_terminator(s.name_bytes))
    &&& rec.data.compressed_size == s.header.compressed_size
    &&& rec.data.size == s.header.size
    &&& rec.data.mode.bits() == s.header.mode
    &&& rec.data.uid == s.header.uid
    &&& rec.data.gid == s.header.gid
    &&& rec.data.mdate == civil_of(s.header.mtime)
    &&& rec.data.adate == civil_of(s.header.atime)
    &&& rec.data.file_position == s.position
    &&& rec.data.magic == s.header.magic
}

/// Whether a record list holds exactly the parsed records, in order.
pub open spec fn records_match(recs: Seq<Record>, specs: Seq<SpecRecord>) -> bool {
    &&& recs.len() == specs.len()
    &&& forall|i: int| 0 <= i < recs.len() ==> record_matches(#[trigger] recs[i], specs[i])
}

impl Record {
    /// The filename of the record.
    pub fn filename(&self) -> (r: &str)
        ensures
            r@ == self.data.filename@,
    {
        self.data.filename.as_str()
    }

    /// The compressed size of the record's payload.
    pub fn compressed_size(&self) -> (r: u32)
        ensures
            r == self.data.compressed_size,
    {
        self.data.compressed_size
    }

    /// The decompressed size of the record's content.
    pub fn size(&self) -> (r: u32)
        ensures
            r == self.data.size,
    {
        self.data.size
    }

    /// The file system mode of the record.
    pub fn mode(&self) -> (r: &FileMode)
        ensures
            r == &self.data.mode,
    {
        &self.data.mode
    }

    /// The owner user ID of the record.
    pub fn uid(&self) -> (r: u32)
        ensures
            r == self.data.uid,
    {
        self.data.uid
    }

    /// The owner group ID of the record.
    pub fn gid(&self) -> (r: u32)
        ensures
            r == self.data.gid,
    {
        self.data.gid
    }

    /// The last modified date of the record.
    pub fn mdate(&self) -> (r: TimeStamp)
        ensures
            r == self.data.mdate,
    {
        self.data.mdate
    }

    /// The last accessed date of the record.
    pub fn adate(&self) -> (r: TimeStamp)
        ensures
            r == self.data.adate,
    {
        self.data.adate
    }

    /// The byte offset of the record's payload in the archive.
    pub fn file_position(&self) -> (r: u32)
        ensures
            r == self.data.file_position,
    {
        self.data.file_position
    }

    /// The magic number of the record.
    pub fn magic(&self) -> (r: u16)
        ensures
            r == self.data.magic,
    {
        self.data.magic
    }

    /// The raw record header.
    pub fn header(&self) -> (r: &RecordHeader)
        ensures
            r == &self.header,
    {
        &self.header
    }

    /// The raw record trailer.
    pub fn trailer(&self) -> (r: &RecordTrailer)
        ensures
            r == &self.trailer,
    {
        &self.trailer
    }
}

/// One step of the archive scan, as the parser reports it.
pub enum RecordStep {
    /// A record, and the position where the next one starts.
    Parsed(Record, u64),
    /// A malformed header was skipped; the scan continues at this position.
    Skipped(u64),
    /// The input ended while starting a new record.
    EndOfArchive,
}

/// Read the record starting at byte offset `pos`, skipping its payload
/// bytes by arithmetic alone.
pub fn read_next_record(data: &Vec<u8>, pos: u64) -> (r: RecordStep)
    requires
        data@.len() <= 0xFFFF_FFFF,
        pos <= data@.len(),
    ensures
        match r {
            RecordStep::Parsed(rec, next) => {
                &&& spec_parse_step(data@, pos as int) matches SpecParseStep::Record(s, n)
                    && record_matches(rec, s) && next == n
            },
            RecordStep::Skipped(next) => spec_parse_step(data@, pos as int)
                == SpecParseStep::Skip(next as int),
            RecordStep::EndOfArchive => spec_parse_step(data@, pos as int)
                == SpecParseStep::End,
        },
{
    let header = match read_record_header(data, pos as usize) {
        Ok(h) => h,
        Err(_) => {
            return RecordStep::EndOfArchive;
        },
    };
    if header.unk01 != RECORD_SENTINEL {
        return RecordStep::Skipped(pos + 64);
    }
    if !crate::bff::is_header_magic(header.magic) {
        return RecordStep::Skipped(pos + 64);
    }
    let (filename, nend) = read_aligned_string(data, (pos + 64) as usize);
    let trailer = match read_record_trailer(data, nend) {
        Ok(t) => t,
        Err(_) => {
            return RecordStep::EndOfArchive;
        },
    };
    let position = nend as u64 + 40;
    let csize = header.compressed_size as u64;
    let aligned = (csize + 7) / 8 * 8;
    proof {
        lemma_align8_bounds(csize as int);
    }
    let next = position + (if header.size > 0 {
        csize
    } else {
        0
    }) + (aligned - csize);
    let mut data_part = RecordData::from_header(&header);
    data_part.filename = filename;
    data_part.file_position = position as u32;
    let record = Record { data: data_part, header, trailer };
    RecordStep::Parsed(record, next)
}

/// Read all records from byte offset `pos` on, in one linear pass.
pub fn read_records(data: &Vec<u8>, pos: u64) -> (r: Vec<Record>)
    requires
        data@.len() <= 0xFFFF_FFFF,
        pos <= data@.len(),
    ensures
        records_match(r@, spec_parse_records(data@, pos as int)),
{
    let mut records: Vec<Record> = Vec::new();
    let mut p = pos;
    let ghost mut specs_done: Seq<SpecRecord> = Seq::empty();
    loop
        invariant_except_break
            data@.len() <= 0xFFFF_FFFF,
            p <= data@.len(),
            records_match(records@, specs_done),
            spec_parse_records(data@, pos as int) =~= specs_done + spec_parse_records(
                data@,
                p as int,
            ),
        ensures
            records_match(records@, spec_parse_records(data@, pos as int)),
        decreases data@.len() - p,
    {
        match read_next_record(data, p) {
            RecordStep::EndOfArchive => {
                proof {
                    assert(spec_parse_records(data@, p as int) =~= Seq::<SpecRecord>::empty());
                    assert(specs_done + Seq::<SpecRecord>::empty() =~= specs_done);
                }
                break;
            },
            RecordStep::Skipped(next) => {
                p = next;
            },
            RecordStep::Parsed(record, next) => {
                let ghost s = spec_parse_step(data@, p as int)->Record_0;
                records.push(record);
                proof {
                    specs_done = specs_done + seq![s];
                }
                if next > data.len() as u64 || next <= p {
                    proof {
                        assert(spec_parse_records(data@, p as int) =~= seq![s]);
                        assert((specs_done.drop_last()) + seq![s] =~= specs_done);
                    }
                    break;
                }
                proof {
                    assert((specs_done.drop_last()) + (seq![s] + spec_parse_records(
                        data@,
                        next as int,
                    )) =~= specs_done + spec_parse_records(data@, next as int));
                }
                p = next;
            },
        }
    }
    records
}

/// A bounded reader over one record's raw payload bytes.
pub struct RawReader {
    data: Vec<u8>,
    pos: usize,
}

impl RawReader {
    /// The whole payload this reader hands out.
    pub closed spec fn content(self) -> Seq<u8> {
        self.data@
    }

    /// How far the payload has been handed out.
    pub closed spec fn position(self) -> int {
        self.pos as int
    }

    /// The cursor never leaves the payload.
    pub closed spec fn wf(self) -> bool {
        self.pos <= self.data@.len()
    }

    /// A reader at the start of the given payload bytes.
    pub fn from_bytes(data: Vec<u8>) -> (r: RawReader)
        ensures
            r.wf(),
            r.content() == data@,
            r.position() == 0,
    {
        RawReader { data, pos: 0 }
    }

    /// Pull up to `want` payload bytes: exactly the next `want`, or whatever
    /// is left when less remains.
    pub fn read(&mut self, want: usize) -> (out: Vec<u8>)
        requires
            old(self).wf(),
        ensures
            final(self).wf(),
            final(self).content() == old(self).content(),
            out@ == old(self).content().subrange(
                old(self).position(),
                old(self).position() + out@.len(),
            ),
            final(self).position() == old(self).position() + out@.len(),
            out@.len() == if want <= old(self).content().len() - old(self).position() {
                want as int
            } else {
                old(self).content().len() - old(self).position()
            },
    {
        let remaining = self.data.len() - self.pos;
        let take = if want <= remaining {
            want
        } else {
            remaining
        };
        let mut out: Vec<u8> = Vec::new();
        let mut i: usize = 0;
        while i < take
            invariant
                i <= take,
                self.data@.len() <= usize::MAX,
                self.pos + take <= self.data@.len(),
                out@ =~= self.data@.subrange(self.pos as int, self.pos + i),
            decreases take - i,
        {
            out.push(self.data[self.pos + i]);
            i = i + 1;
        }
        self.pos = self.pos + take;
        out
    }
}

/// A reader over one record's content, raw or decoded: the tagged variant
/// over the plain bounded reader and the Huffman-decoding reader.
pub enum RecordReader {
    Raw(RawReader),
    Huffman(crate::huffman::HuffmanDecoder),
}

impl RecordReader {
    /// Everything this reader hands out in total: the payload bytes as they
    /// stand, or what the compressed payload decodes to.
    pub open spec fn content(self) -> Seq<u8> {
        match self {
            RecordReader::Raw(r) => r.content(),
            RecordReader::Huffman(h) => h.decoded(),
        }
    }

    /// What the reader has handed out so far.
    pub open spec fn delivered(self) -> Seq<u8> {
        match self {
            RecordReader::Raw(r) => r.content().take(r.position()),
            RecordReader::Huffman(h) => h.delivered(),
        }
    }

    /// The reader's invariant.
    pub open spec fn wf(self) -> bool {
        match self {
            RecordReader::Raw(r) => r.wf(),
            RecordReader::Huffman(h) => h.wf(),
        }
    }

    /// The bytes this reader draws from: the payload as it stands in the
    /// archive, symbol table included for a compressed record.
    pub open spec fn source(self) -> Seq<u8> {
        match self {
            RecordReader::Raw(r) => r.content(),
            RecordReader::Huffman(h) => h.source(),
        }
    }

    /// Whether `e` truthfully reports this reader's stream as corrupt: only
    /// a compressed stream can be corrupt, and each error stands for exactly
    /// the matching way the decode of the payload ends.  A raw reader never
    /// fails.
    pub open spec fn corrupt_stream_error(self, e: Error) -> bool {
        &&& self matches RecordReader::Huffman(_)
        &&& match e {
            Error::InvalidLevelIndex => crate::huffman::decode_end(self.source())
                is CorruptIndex,
            Error::InvalidTreelevel => crate::huffman::decode_end(self.source())
                is CorruptLevel,
            _ => false,
        }
    }

    /// A raw reader over the given bytes, nothing delivered yet.
    pub fn from_bytes(data: Vec<u8>) -> (r: RecordReader)
        ensures
            r.wf(),
            r.content() == data@,
            r.delivered() == Seq::<u8>::empty(),
    {
        let r = RecordReader::Raw(RawReader::from_bytes(data));
        proof {
            assert(r.delivered() =~= Seq::<u8>::empty());
        }
        r
    }

    /// Pull up to `want` content bytes: exactly the next stretch of the
    /// content after what was delivered before.  A pull shorter than `want`
    /// means the content is exhausted.  Only a corrupt compressed stream
    /// fails, with the error matching how its decode ends — so a raw reader
    /// always succeeds, and so does a compressed one whose stream is sound.
    pub fn read(&mut self, want: usize) -> (r: Result<Vec<u8>, Error>)
        requires
            old(self).wf(),
        ensures
            final(self).wf(),
            final(self).content() == old(self).content(),
            final(self).source() == old(self).source(),
            (*final(self) matches RecordReader::Raw(_)) == (*old(self)
                matches RecordReader::Raw(_)),
            match r {
                Ok(out) => {
                    &&& out@.len() <= want
                    &&& final(self).delivered() == old(self).delivered() + out@
                    &&& final(self).delivered() == final(self).content().take(
                        final(self).delivered().len() as int,
                    )
                    &&& out@.len() < want ==> final(self).delivered() == final(self).content()
                },
                Err(e) => {
                    &&& final(self).delivered() == old(self).delivered()
                    &&& old(self).corrupt_stream_error(e)
                },
            },
    {
        match self {
            RecordReader::Raw(raw) => {
                let ghost oldpos = raw.position();
                let out = raw.read(want);
                proof {
                    assert(raw.content().take(oldpos + out@.len()) =~= raw.content().take(oldpos)
                        + out@);
                    assert(raw.content().take(raw.position()) =~= raw.content().take(
                        raw.content().take(raw.position()).len() as int,
                    ));
                    if out@.len() < want {
                        assert(raw.content().take(raw.position()) =~= raw.content());
                    }
                }
                Ok(out)
            },
            RecordReader::Huffman(dec) => {
                match dec.read(want) {
                    Ok(out) => {
                        proof {
                            dec.lemma_delivered_prefix();
                        }
                        Ok(out)
                    },
                    Err(e) => Err(e),
                }
            },
        }
    }
}

/// The payload bytes of a record: `csize` bytes at `position`, cut short at
/// the end of the archive.
pub open spec fn spec_record_payload(d: Seq<u8>, position: int, csize: int) -> Seq<u8> {
    if position > d.len() {
        Seq::empty()
    } else if position + csize > d.len() {
        d.subrange(position, d.len() as int)
    } else {
        d.subrange(position, position + csize)
    }
}

/// What a reader over one record must look like: only regular files can be
/// read; a compressed record is decoded unless raw reading was asked for;
/// the errors of the compressed header pass through.
pub open spec fn reader_result_matches(
    r: Result<RecordReader, Error>,
    d: Seq<u8>,
    rec: Record,
    raw: bool,
) -> bool {
    let payload = spec_record_payload(
        d,
        rec.data.file_position as int,
        rec.data.compressed_size as int,
    );
    let huffman = rec.data.magic == HUFFMAN_MAGIC && !raw;
    match r {
        Ok(reader) => {
            &&& crate::mode::spec_file_type(rec.data.mode.bits()) == Some(
                crate::mode::FileType::RegularFile,
            )
            &&& reader.wf()
            &&& reader.delivered() == Seq::<u8>::empty()
            &&& if huffman {
                &&& reader matches RecordReader::Huffman(h) && h.source() == payload
                &&& reader.content() == crate::huffman::decoded_output(payload)
            } else {
                reader matches RecordReader::Raw(rw) && reader.content() == payload
            }
        },
        Err(Error::UnsupportedFileType) => crate::mode::spec_file_type(rec.data.mode.bits())
            != Some(crate::mode::FileType::RegularFile),
        Err(Error::UnexpectedEndOfInput) => {
            &&& crate::mode::spec_file_type(rec.data.mode.bits()) == Some(
                crate::mode::FileType::RegularFile,
            )
            &&& huffman
            &&& crate::huffman::parse_table(payload) is Truncated
        },
        Err(Error::BadSymbolTable) => {
            &&& crate::mode::spec_file_type(rec.data.mode.bits()) == Some(
                crate::mode::FileType::RegularFile,
            )
            &&& huffman
            &&& crate::huffman::parse_table(payload) is Bad
        },
        Err(_) => false,
    }
}

/// Create a reader for the contents of a record.
///
/// Set `raw` to read the payload bytes as they stand, without decoding
/// Huffman-coded data.  Only regular-file records can be read this way.
pub fn make_record_reader_raw(data: &Vec<u8>, record: &Record, raw: bool) -> (r: Result<
    RecordReader,
    Error,
>)
    ensures
        reader_result_matches(r, data@, *record, raw),
{
    if !record.data.mode.is_regular_file() {
        return Err(Error::UnsupportedFileType);
    }
    // Cut the payload out of the archive: `csize` bytes at the record's
    // position, stopping at the end of the data.
    let position = record.data.file_position as usize;
    let csize = record.data.compressed_size as usize;
    let start: usize = if position > data.len() {
        data.len()
    } else {
        position
    };
    let stop: usize = if csize > data.len() - start {
        data.len()
    } else {
        start + csize
    };
    let mut payload: Vec<u8> = Vec::new();
    let mut i = start;
    while i < stop
        invariant
            start <= i <= stop <= data.len(),
            payload@ =~= data@.subrange(start as int, i as int),
        decreases stop - i,
    {
        payload.push(data[i]);
        i = i + 1;
    }
    proof {
        assert(payload@ =~= spec_record_payload(
            data@,
            record.data.file_position as int,
            record.data.compressed_size as int,
        ));
    }
    if record.magic() == HUFFMAN_MAGIC && !raw {
        match crate::huffman::HuffmanDecoder::new(payload) {
            Ok(dec) => Ok(RecordReader::Huffman(dec)),
            Err(e) => Err(e),
        }
    } else {
        let reader = RecordReader::Raw(RawReader::from_bytes(payload));
        proof {
            assert(reader.delivered() =~= Seq::<u8>::empty());
        }
        Ok(reader)
    }
}

/// Create a reader for the contents of a record, decoding compressed data.
pub fn make_record_reader(data: &Vec<u8>, record: &Record) -> (r: Result<RecordReader, Error>)
    ensures
        reader_result_matches(r, data@, *record, false),
{
    make_record_reader_raw(data, record, false)
}

/// The index of the first record with the given filename, or `-1` when no
/// record carries it.
pub open spec fn find_record_from(recs: Seq<Record>, name: Seq<char>, i: int) -> int
    decreases recs.len() - i,
{
    if i < 0 || i >= recs.len() {
        -1
    } else if recs[i].data.filename@ == name {
        i
    } else {
        find_record_from(recs, name, i + 1)
    }
}

/// A BFF archive: the archive bytes, the file header, and the parsed record
/// list in on-disk order.  Duplicate filenames are possible and all kept.
pub struct Archive {
    data: Vec<u8>,
    header: FileHeader,
    records_start_pos: u64,
    records: Vec<Record>,
}

impl Archive {
    /// The archive bytes.
    pub closed spec fn source(self) -> Seq<u8> {
        self.data@
    }

    /// The parsed records.
    pub closed spec fn spec_records(self) -> Seq<Record> {
        self.records@
    }

    /// The archive's invariant: the bytes fit the 32-bit offsets of the
    /// format, the file header at the front carries the file magic, and the
    /// record list is exactly the parse of the bytes from offset 72 on.
    pub closed spec fn wf(self) -> bool {
        &&& self.data@.len() <= 0xFFFF_FFFF
        &&& self.data@.len() >= 72
        &&& crate::bff::file_header_matches(self.header, self.data@, 0)
        &&& self.header.magic == FILE_MAGIC
        &&& self.records_start_pos == 72
        &&& records_match(self.records@, spec_parse_records(self.data@, 72))
    }

    /// Creates a new archive over the given bytes: reads the file header and
    /// scans all records.
    ///
    /// Bytes beyond 4 GiB cannot be addressed by the 32-bit offsets of the
    /// format and are rejected, as is an input too short for a file header
    /// or one whose magic number is wrong.
    pub fn new(data: Vec<u8>) -> (r: Result<Archive, Error>)
        ensures
            match r {
                Ok(a) => {
                    &&& a.wf()
                    &&& a.source() == data@
                    &&& data@.len() <= 0xFFFF_FFFF
                    &&& records_match(a.spec_records(), spec_parse_records(data@, 72))
                },
                Err(Error::FileToBig) => data@.len() > 0xFFFF_FFFF,
                Err(Error::UnexpectedEndOfInput) => data@.len() <= 0xFFFF_FFFF && data@.len()
                    < 72,
                Err(Error::InvalidFileMagic(m)) => {
                    &&& data@.len() <= 0xFFFF_FFFF
                    &&& 72 <= data@.len()
                    &&& m == le32_at(data@, 0)
                    &&& m != FILE_MAGIC
                },
                Err(_) => false,
            },
    {
        if data.len() > 0xFFFF_FFFF {
            return Err(Error::FileToBig);
        }
        let header = match read_file_header(&data, 0) {
            Ok(h) => h,
            Err(e) => {
                return Err(e);
            },
        };
        let records = read_records(&data, 72);
        Ok(Archive { data, header, records_start_pos: 72, records })
    }

    /// The archive records, in on-disk order.
    pub fn records(&self) -> (r: &Vec<Record>)
        ensures
            r@ == self.spec_records(),
    {
        &self.records
    }

    /// The file header of the archive.
    pub fn header(&self) -> (r: &FileHeader)
        requires
            self.wf(),
        ensures
            crate::bff::file_header_matches(*r, self.source(), 0),
            r.magic == FILE_MAGIC,
    {
        &self.header
    }

    /// The byte offset where the records begin.
    pub fn records_start_pos(&self) -> (r: u64)
        requires
            self.wf(),
        ensures
            r == 72,
    {
        self.records_start_pos
    }

    /// Finds the first record with the given filename, or `None` when the
    /// archive has none of that name.
    pub fn record_by_filename(&self, filename: &str) -> (r: Option<&Record>)
        ensures
            ({
                let i = find_record_from(self.spec_records(), filename@, 0);
                match r {
                    Some(rec) => 0 <= i < self.spec_records().len() && *rec
                        == self.spec_records()[i],
                    None => i == -1,
                }
            }),
    {
        self.record_by_filename_impl(filename)
    }

    /// The shared lookup behind [`Self::record_by_filename`], [`Self::file`]
    /// and [`Self::raw_file`].
    fn record_by_filename_impl(&self, filename: &str) -> (r: Option<&Record>)
        ensures
            ({
                let i = find_record_from(self.spec_records(), filename@, 0);
                match r {
                    Some(rec) => 0 <= i < self.spec_records().len() && *rec
                        == self.spec_records()[i],
                    None => i == -1,
                }
            }),
    {
        let needle: String = filename.to_owned();
        let n = self.records.len();
        let mut i: usize = 0;
        while i < n
            invariant
                n == self.records@.len(),
                i <= n,
                needle@ == filename@,
                find_record_from(self.records@, filename@, 0) == find_record_from(
                    self.records@,
                    filename@,
                    i as int,
                ),
            decreases n - i,
        {
            if self.records[i].data.filename == needle {
                return Some(&self.records[i]);
            }
            i = i + 1;
        }
        None
    }

    /// Creates a reader for the decoded content of the named file.
    pub fn file(&self, filename: &str) -> (r: Result<RecordReader, Error>)
        ensures
            ({
                let i = find_record_from(self.spec_records(), filename@, 0);
                match r {
                    Err(Error::FileNotFound) => i == -1,
                    _ => 0 <= i < self.spec_records().len() && reader_result_matches(
                        r,
                        self.source(),
                        self.spec_records()[i],
                        false,
                    ),
                }
            }),
    {
        let record = match self.record_by_filename_impl(filename) {
            Some(rec) => rec,
            None => {
                return Err(Error::FileNotFound);
            },
        };
        make_record_reader_raw(&self.data, record, false)
    }

    /// Creates a reader for the decoded content of the record at `index` of
    /// the record list; an index past the list finds no file.
    pub fn file_at(&self, index: usize) -> (r: Result<RecordReader, Error>)
        ensures
            if index < self.spec_records().len() {
                reader_result_matches(r, self.source(), self.spec_records()[index as int], false)
            } else {
                r matches Err(Error::FileNotFound)
            },
    {
        if index >= self.records.len() {
            return Err(Error::FileNotFound);
        }
        make_record_reader_raw(&self.data, &self.records[index], false)
    }

    /// Creates a reader for the raw payload bytes of the named file, without
    /// decoding.
    pub fn raw_file(&self, filename: &str) -> (r: Result<RecordReader, Error>)
        ensures
            ({
                let i = find_record_from(self.spec_records(), filename@, 0);
                match r {
                    Err(Error::FileNotFound) => i == -1,
                    _ => 0 <= i < self.spec_records().len() && reader_result_matches(
                        r,
                        self.source(),
                        self.spec_records()[i],
                        true,
                    ),
                }
            }),
    {
        let record = match self.record_by_filename_impl(filename) {
            Some(rec) => rec,
            None => {
                return Err(Error::FileNotFound);
            },
        };
        make_record_reader_raw(&self.data, record, true)
    }
}

/// The index of the last '/' of `s`, or `-1` when it has none.
pub open spec fn last_slash(s: Seq<char>) -> int
    decreases s.len(),
{
    if s.len() == 0 {
        -1
    } else if s.last() == '/' {
        s.len() - 1
    } else {
        last_slash(s.drop_last())
    }
}

/// The parent directory of a path, lexically: everything before the last
/// '/', the root for a path directly under it, the empty path for a bare
/// name, and nothing for the root itself or the empty path.
pub open spec fn spec_parent(s: Seq<char>) -> Option<Seq<char>> {
    if s.len() == 0 || s == seq!['/'] {
        None
    } else {
        let i = last_slash(s);
        if i < 0 {
            Some(Seq::empty())
        } else if i == 0 {
            Some(seq!['/'])
        } else {
            Some(s.take(i))
        }
    }
}

/// The last slash lies inside the path.
proof fn lemma_last_slash_bounds(s: Seq<char>)
    ensures
        -1 <= last_slash(s) < s.len(),
        last_slash(s) >= 0 ==> s[last_slash(s)] == '/',
        forall|j: int| last_slash(s) < j < s.len() ==> s[j] != '/',
    decreases s.len(),
{
    if s.len() > 0 && s.last() != '/' {
        lemma_last_slash_bounds(s.drop_last());
        assert(forall|j: int|
            0 <= j < s.len() - 1 ==> s.drop_last()[j] == s[j]);
    }
}

/// The parent directory of a path, lexically.
pub fn parent_of(path: &str) -> (r: Option<String>)
    ensures
        match r {
            Some(p) => spec_parent(path@) matches Some(q) && p@ == q,
            None => spec_parent(path@) is None,
        },
{
    let len = path.unicode_len();
    proof {
        reveal_strlit("/");
    }
    if len == 0 {
        return None;
    }
    if crate::paths::str_eq(path, "/") {
        proof {
            assert(path@ =~= seq!['/']);
        }
        return None;
    }
    proof {
        assert(path@ != seq!['/']) by {
            assert("/"@ =~= seq!['/']);
        }
        lemma_last_slash_bounds(path@);
    }
    // Find the last slash by scanning from the end.
    let mut i: usize = len;
    while i > 0
        invariant
            i <= len,
            len == path@.len(),
            len > 0,
            path@ != seq!['/'],
            forall|j: int| i <= j < len ==> path@[j] != '/',
        decreases i,
    {
        i = i - 1;
        if path.get_char(i) == '/' {
            proof {
                assert(last_slash(path@) == i) by {
                    lemma_last_slash_bounds(path@);
                    if last_slash(path@) > i {
                        assert(path@[last_slash(path@)] != '/');
                    }
                    if last_slash(path@) < i {
                        assert(path@[i as int] != '/');
                    }
                }
            }
            if i == 0 {
                let root = String::from_str("/");
                proof {
                    reveal_strlit("/");
                    assert(root@ =~= seq!['/']);
                }
                return Some(root);
            }
            let p = path.substring_char(0, i).to_owned();
            proof {
                assert(p@ =~= path@.take(i as int));
            }
            return Some(p);
        }
    }
    proof {
        assert(last_slash(path@) < 0) by {
            lemma_last_slash_bounds(path@);
            if last_slash(path@) >= 0 {
                assert(path@[last_slash(path@)] != '/');
            }
        }
    }
    let empty = String::new();
    proof {
        assert(empty@ =~= Seq::<char>::empty());
    }
    Some(empty)
}

/// What extraction has to do for one record.
#[derive(Debug, Clone, PartialEq, Eq)]
pub enum ExtractAction {
    /// Create this directory, and its parents as needed; a same-path file is
    /// replaced.
    Directory { path: String },
    /// Create the parent directory as needed, then write the record's
    /// decoded content to the file at `path`.
    File { path: String, parent: String },
}

/// What the plan for one record must say.  An empty filename is the
/// per-record error that extraction reports and skips.  Otherwise the
/// record's filename, joined under the destination and normalized, is the
/// target: a directory record becomes a directory action, a regular-file
/// record a file action with its parent directory, a target without a
/// parent the missing-parent error, and any other file type is unsupported.
pub open spec fn plan_matches(
    rec: Record,
    dest: Seq<char>,
    act: Result<ExtractAction, Error>,
) -> bool {
    let path = crate::paths::spec_normalize_join(dest, rec.data.filename@);
    if rec.data.filename@.len() == 0 {
        act matches Err(Error::EmptyFilename)
    } else if crate::mode::spec_file_type(rec.data.mode.bits()) == Some(
        crate::mode::FileType::Directory,
    ) {
        act matches Ok(ExtractAction::Directory { path: p }) && p@ == path
    } else if crate::mode::spec_file_type(rec.data.mode.bits()) == Some(
        crate::mode::FileType::RegularFile,
    ) {
        match spec_parent(path) {
            Some(par) => act matches Ok(ExtractAction::File { path: p, parent: q }) && p@
                == path && q@ == par,
            None => act matches Err(Error::MissingParentDir(m)) && m@ == path,
        }
    } else {
        act matches Err(Error::UnsupportedFileType)
    }
}

/// Decide what extraction has to do for one record under the destination
/// root.
pub fn plan_record(record: &Record, destination: &str) -> (r: Result<ExtractAction, Error>)
    ensures
        plan_matches(*record, destination@, r),
{
    if record.data.filename.as_str().unicode_len() == 0 {
        return Err(Error::EmptyFilename);
    }
    let path = crate::paths::normalize_join(destination, record.data.filename.as_str());
    if record.data.mode.is_directory() {
        Ok(ExtractAction::Directory { path })
    } else if record.data.mode.is_regular_file() {
        match parent_of(path.as_str()) {
            Some(parent) => Ok(ExtractAction::File { path, parent }),
            None => Err(Error::MissingParentDir(path)),
        }
    } else {
        Err(Error::UnsupportedFileType)
    }
}

/// The indices of the records the filter selects, from `i` on, in order.
pub open spec fn spec_selected(records: Seq<Record>, filter: Seq<Seq<char>>, i: int) -> Seq<int>
    decreases records.len() - i,
{
    if i < 0 || i >= records.len() {
        Seq::empty()
    } else if crate::paths::spec_matches_filter(records[i].data.filename@, filter) {
        seq![i] + spec_selected(records, filter, i + 1)
    } else {
        spec_selected(records, filter, i + 1)
    }
}

/// The extraction plan of a record list: one entry per selected record, in
/// archive order, carrying the record's index and its planned action or
/// per-record error.
///
/// Only records the filter selects get an entry, so no other record can
/// cause any file system effect; and every selected record gets exactly one
/// entry, so one record's per-record error leaves the plans of all other
/// records unchanged.
pub fn extraction_plan(records: &Vec<Record>, destination: &str, filter: &Vec<String>) -> (r:
    Vec<(usize, Result<ExtractAction, Error>)>)
    ensures
        ({
            let sel = spec_selected(records@, filter@.map_values(|x: String| x@), 0);
            &&& r@.len() == sel.len()
            &&& forall|k: int|
                0 <= k < r@.len() ==> (#[trigger] r@[k]).0 == sel[k] && 0 <= sel[k]
                    < records@.len() && plan_matches(
                    records@[sel[k]],
                    destination@,
                    r@[k].1,
                )
        }),
{
    let ghost fviews = filter@.map_values(|x: String| x@);
    let mut plan: Vec<(usize, Result<ExtractAction, Error>)> = Vec::new();
    let mut i: usize = 0;
    while i < records.len()
        invariant
            i <= records@.len(),
            fviews == filter@.map_values(|x: String| x@),
            spec_selected(records@, fviews, 0) =~= plan@.map_values(
                |p: (usize, Result<ExtractAction, Error>)| p.0 as int,
            ) + spec_selected(records@, fviews, i as int),
            forall|k: int|
                0 <= k < plan@.len() ==> 0 <= (#[trigger] plan@[k]).0 < records@.len()
                    && plan_matches(records@[plan@[k].0 as int], destination@, plan@[k].1),
        decreases records@.len() - i,
    {
        let record = &records[i];
        if crate::paths::matches_filter(record.data.filename.as_str(), filter) {
            let act = plan_record(record, destination);
            proof {
                assert((plan@ + seq![(i, act)]).map_values(
                    |p: (usize, Result<ExtractAction, Error>)| p.0 as int,
                ) =~= plan@.map_values(|p: (usize, Result<ExtractAction, Error>)| p.0 as int)
                    + seq![i as int]);
            }
            plan.push((i, act));
        }
        i = i + 1;
    }
    proof {
        assert(spec_selected(records@, fviews, records@.len() as int)
            =~= Seq::<int>::empty());
        assert(plan@.map_values(|p: (usize, Result<ExtractAction, Error>)| p.0 as int)
            + Seq::<int>::empty() =~= plan@.map_values(
            |p: (usize, Result<ExtractAction, Error>)| p.0 as int,
        ));
        let sel = spec_selected(records@, fviews, 0);
        assert(forall|k: int|
            0 <= k < plan@.len() ==> (#[trigger] plan@[k]).0 == sel[k]) by {
            assert(sel =~= plan@.map_values(
                |p: (usize, Result<ExtractAction, Error>)| p.0 as int,
            ));
        }
    }
    plan
}

/// Whether some plan entry is for the record at index `j`.
pub open spec fn plan_has_index(plan: Seq<(usize, Result<ExtractAction, Error>)>, j: int) -> bool {
    exists|k: int| 0 <= k < plan.len() && (#[trigger] plan[k]).0 == j
}

/// The extraction plan of a record list under a caller-supplied selection
/// predicate, as `extract_when` takes one: one entry per accepted record, in
/// archive order, carrying the record's index and its planned action or
/// per-record error.
///
/// The predicate's own contract carries through: every planned record was
/// accepted by a call of `when` (its postcondition holds of `true`), and a
/// record without an entry was refused (its postcondition holds of `false`),
/// so no other record can cause any file system effect.
pub fn extraction_plan_when<F: Fn(&Record) -> bool>(
    records: &Vec<Record>,
    destination: &str,
    when: F,
) -> (r: Vec<(usize, Result<ExtractAction, Error>)>)
    requires
        forall|i: int| 0 <= i < records@.len() ==> call_requires(when, (&records@[i],)),
    ensures
        forall|k: int|
            0 <= k < r@.len() ==> {
                &&& 0 <= (#[trigger] r@[k]).0 < records@.len()
                &&& call_ensures(when, (&records@[r@[k].0 as int],), true)
                &&& plan_matches(records@[r@[k].0 as int], destination@, r@[k].1)
            },
        forall|k1: int, k2: int|
            0 <= k1 < k2 < r@.len() ==> (#[trigger] r@[k1]).0 < (#[trigger] r@[k2]).0,
        forall|i: int|
            0 <= i < records@.len() ==> plan_has_index(r@, i) || call_ensures(
                when,
                (&records@[i],),
                false,
            ),
{
    let mut plan: Vec<(usize, Result<ExtractAction, Error>)> = Vec::new();
    let mut i: usize = 0;
    while i < records.len()
        invariant
            i <= records@.len(),
            forall|j: int| 0 <= j < records@.len() ==> call_requires(when, (&records@[j],)),
            forall|k: int|
                0 <= k < plan@.len() ==> {
                    &&& 0 <= (#[trigger] plan@[k]).0 < i
                    &&& call_ensures(when, (&records@[plan@[k].0 as int],), true)
                    &&& plan_matches(records@[plan@[k].0 as int], destination@, plan@[k].1)
                },
            forall|k1: int, k2: int|
                0 <= k1 < k2 < plan@.len() ==> (#[trigger] plan@[k1]).0 < (
                #[trigger] plan@[k2]).0,
            forall|j: int|
                0 <= j < i ==> plan_has_index(plan@, j) || call_ensures(
                    when,
                    (&records@[j],),
                    false,
                ),
        decreases records@.len() - i,
    {
        let record = &records[i];
        proof {
            assert(record == &records@[i as int]);
        }
        let ghost before = plan@;
        if when(record) {
            let act = plan_record(record, destination);
            plan.push((i, act));
            proof {
                assert(plan@[plan@.len() - 1].0 == i);
                assert(plan_has_index(plan@, i as int));
                assert forall|j: int|
                    0 <= j < i implies plan_has_index(plan@, j) || call_ensures(
                    when,
                    (&records@[j],),
                    false,
                ) by {
                    assert(plan_has_index(before, j) || call_ensures(
                        when,
                        (&records@[j],),
                        false,
                    ));
                    if plan_has_index(before, j) {
                        let k0 = choose|k: int|
                            0 <= k < before.len() && (#[trigger] before[k]).0 == j;
                        assert(plan@[k0].0 == j);
                        assert(plan_has_index(plan@, j));
                    }
                }
            }
        } else {
            proof {
                assert(call_ensures(when, (record,), false));
                assert(call_ensures(when, (&records@[i as int],), false));
            }
        }
        i = i + 1;
    }
    plan
}

/// An empty-named record can only fail its own extraction, with an error
/// that extraction absorbs: its plan entry is the empty-filename error, and
/// that error is a soft one.
pub proof fn lemma_empty_filename_is_soft(
    rec: Record,
    dest: Seq<char>,
    act: Result<ExtractAction, Error>,
)
    requires
        rec.data.filename@.len() == 0,
        plan_matches(rec, dest, act),
    ensures
        act matches Err(e) && e.is_soft_spec(),
{
}

/// A record with no payload moves the scan by nothing beyond its trailer:
/// no payload byte is read and no seek goes backward.  A payload whose size
/// is already a multiple of eight gets no alignment padding.
pub proof fn lemma_payload_skip_bounds(d: Seq<u8>, pos: int)
    requires
        spec_parse_step(d, pos) matches SpecParseStep::Record(r, n),
    ensures
        spec_parse_step(d, pos) matches SpecParseStep::Record(r, n) ==> {
            &&& r.header.compressed_size == 0 ==> n == r.position
            &&& n >= r.position
            &&& r.header.compressed_size % 8 == 0 ==> n == r.position + if r.header.size > 0 {
                r.header.compressed_size as int
            } else {
                0int
            }
        },
{
    match spec_parse_step(d, pos) {
        SpecParseStep::Record(r, n) => {
            lemma_align8_bounds(r.header.compressed_size as int);
        },
        _ => {},
    }
}

/// Differences of one field between two records of the same filename.
/// Each value holds the content of the left and of the right record.
#[derive(Debug, Clone)]
pub enum RecordDiffField {
    Exists(bool, bool),
    Size(u32, u32),
    Mode(FileMode, FileMode),
    Uid(u32, u32),
    Gid(u32, u32),
    Mdate(TimeStamp, TimeStamp),
    Magic(u16, u16),
    /// The content of a file in a BFF file has differences.
    Content(RecordDiffContent),
}

/// Difference in a file's content.
#[derive(Debug, Clone)]
pub enum RecordDiffContent {
    /// Both files are plain text. Provides a diff output.
    Plaintext(String),
    /// At least one file is binary. Provides the position of the first
    /// difference.
    Binary(usize),
}

/// Differences of two records identified by their filename.
#[derive(Debug, Clone)]
pub struct RecordDiff {
    pub filename: String,
    pub diffs: Vec<RecordDiffField>,
}

/// The field differences of two records with the same filename, in a fixed
/// order: size, mode, owner, group, modify date, magic.
pub open spec fn spec_diff_fields(l: Record, r: Record) -> Seq<RecordDiffField> {
    let s1: Seq<RecordDiffField> = if l.data.size != r.data.size {
        seq![RecordDiffField::Size(l.data.size, r.data.size)]
    } else {
        Seq::empty()
    };
    let s2: Seq<RecordDiffField> = if l.data.mode != r.data.mode {
        seq![RecordDiffField::Mode(l.data.mode, r.data.mode)]
    } else {
        Seq::empty()
    };
    let s3: Seq<RecordDiffField> = if l.data.uid != r.data.uid {
        seq![RecordDiffField::Uid(l.data.uid, r.data.uid)]
    } else {
        Seq::empty()
    };
    let s4: Seq<RecordDiffField> = if l.data.gid != r.data.gid {
        seq![RecordDiffField::Gid(l.data.gid, r.data.gid)]
    } else {
        Seq::empty()
    };
    let s5: Seq<RecordDiffField> = if l.data.mdate != r.data.mdate {
        seq![RecordDiffField::Mdate(l.data.mdate, r.data.mdate)]
    } else {
        Seq::empty()
    };
    let s6: Seq<RecordDiffField> = if l.data.magic != r.data.magic {
        seq![RecordDiffField::Magic(l.data.magic, r.data.magic)]
    } else {
        Seq::empty()
    };
    s1 + s2 + s3 + s4 + s5 + s6
}

/// One expected diff entry: the filename and its field differences.
pub struct SpecDiff {
    pub name: Seq<char>,
    pub fields: Seq<RecordDiffField>,
}

/// The expected diff entries for the left list from index `i` on: a record
/// found on the right contributes its unequal fields (nothing when all are
/// equal); a record missing on the right contributes an existence entry.
pub open spec fn spec_left_diffs(left: Seq<Record>, right: Seq<Record>, i: int) -> Seq<SpecDiff>
    decreases left.len() - i,
{
    if i < 0 || i >= left.len() {
        Seq::empty()
    } else {
        let l = left[i];
        let rest = spec_left_diffs(left, right, i + 1);
        let j = find_record_from(right, l.data.filename@, 0);
        if j >= 0 {
            let fs = spec_diff_fields(l, right[j]);
            if fs.len() > 0 {
                seq![SpecDiff { name: l.data.filename@, fields: fs }] + rest
            } else {
                rest
            }
        } else {
            seq![
                SpecDiff {
                    name: l.data.filename@,
                    fields: seq![RecordDiffField::Exists(true, false)],
                },
            ] + rest
        }
    }
}

/// The expected diff entries for records that exist only on the right.
pub open spec fn spec_right_only(left: Seq<Record>, right: Seq<Record>, i: int) -> Seq<SpecDiff>
    decreases right.len() - i,
{
    if i < 0 || i >= right.len() {
        Seq::empty()
    } else {
        let rest = spec_right_only(left, right, i + 1);
        if find_record_from(left, right[i].data.filename@, 0) < 0 {
            seq![
                SpecDiff {
                    name: right[i].data.filename@,
                    fields: seq![RecordDiffField::Exists(false, true)],
                },
            ] + rest
        } else {
            rest
        }
    }
}

/// All expected diff entries of two record lists.
pub open spec fn spec_compare(left: Seq<Record>, right: Seq<Record>) -> Seq<SpecDiff> {
    spec_left_diffs(left, right, 0) + spec_right_only(left, right, 0)
}

/// The view of a produced diff list as expected entries.
pub open spec fn diff_views(out: Seq<RecordDiff>) -> Seq<SpecDiff> {
    out.map_values(|d: RecordDiff| SpecDiff { name: d.filename@, fields: d.diffs@ })
}

/// The index of the first record of `records` carrying `name`, if any.
fn find_in_records(records: &Vec<Record>, name: &String) -> (r: Option<usize>)
    ensures
        ({
            let i = find_record_from(records@, name@, 0);
            match r {
                Some(j) => j == i && j < records@.len(),
                None => i == -1,
            }
        }),
{
    let n = records.len();
    let mut i: usize = 0;
    while i < n
        invariant
            n == records@.len(),
            i <= n,
            find_record_from(records@, name@, 0) == find_record_from(records@, name@, i as int),
        decreases n - i,
    {
        if records[i].data.filename == *name {
            return Some(i);
        }
        i = i + 1;
    }
    None
}

/// The field differences of two records, as one diff entry lists them.
fn diff_fields(l: &Record, r: &Record) -> (v: Vec<RecordDiffField>)
    ensures
        v@ == spec_diff_fields(*l, *r),
{
    let ghost p1: Seq<RecordDiffField> = if l.data.size != r.data.size {
        seq![RecordDiffField::Size(l.data.size, r.data.size)]
    } else {
        Seq::empty()
    };
    let ghost p2: Seq<RecordDiffField> = if l.data.mode != r.data.mode {
        seq![RecordDiffField::Mode(l.data.mode, r.data.mode)]
    } else {
        Seq::empty()
    };
    let ghost p3: Seq<RecordDiffField> = if l.data.uid != r.data.uid {
        seq![RecordDiffField::Uid(l.data.uid, r.data.uid)]
    } else {
        Seq::empty()
    };
    let ghost p4: Seq<RecordDiffField> = if l.data.gid != r.data.gid {
        seq![RecordDiffField::Gid(l.data.gid, r.data.gid)]
    } else {
        Seq::empty()
    };
    let ghost p5: Seq<RecordDiffField> = if l.data.mdate != r.data.mdate {
        seq![RecordDiffField::Mdate(l.data.mdate, r.data.mdate)]
    } else {
        Seq::empty()
    };
    let ghost p6: Seq<RecordDiffField> = if l.data.magic != r.data.magic {
        seq![RecordDiffField::Magic(l.data.magic, r.data.magic)]
    } else {
        Seq::empty()
    };
    let mut v: Vec<RecordDiffField> = Vec::new();
    if l.data.size != r.data.size {
        v.push(RecordDiffField::Size(l.data.size, r.data.size));
    }
    proof {
        assert(v@ =~= p1);
    }
    if !(l.data.mode == r.data.mode) {
        v.push(RecordDiffField::Mode(l.data.mode, r.data.mode));
    }
    proof {
        assert(v@ =~= p1 + p2);
    }
    if l.data.uid != r.data.uid {
        v.push(RecordDiffField::Uid(l.data.uid, r.data.uid));
    }
    proof {
        assert(v@ =~= p1 + p2 + p3);
    }
    if l.data.gid != r.data.gid {
        v.push(RecordDiffField::Gid(l.data.gid, r.data.gid));
    }
    proof {
        assert(v@ =~= p1 + p2 + p3 + p4);
    }
    if !(l.data.mdate == r.data.mdate) {
        v.push(RecordDiffField::Mdate(l.data.mdate, r.data.mdate));
    }
    proof {
        assert(v@ =~= p1 + p2 + p3 + p4 + p5);
    }
    if l.data.magic != r.data.magic {
        v.push(RecordDiffField::Magic(l.data.magic, r.data.magic));
    }
    proof {
        assert(v@ =~= p1 + p2 + p3 + p4 + p5 + p6);
    }
    v
}

/// Compare two record lists by filename: unequal fields of records present
/// in both, and existence entries for records present on one side only.
pub fn compare_records(left: &Vec<Record>, right: &Vec<Record>) -> (r: Vec<RecordDiff>)
    ensures
        diff_views(r@) == spec_compare(left@, right@),
{
    let mut out: Vec<RecordDiff> = Vec::new();
    let mut i: usize = 0;
    proof {
        assert(diff_views(out@) =~= Seq::<SpecDiff>::empty());
    }
    while i < left.len()
        invariant
            i <= left@.len(),
            spec_left_diffs(left@, right@, 0) =~= diff_views(out@) + spec_left_diffs(
                left@,
                right@,
                i as int,
            ),
        decreases left@.len() - i,
    {
        let l = &left[i];
        match find_in_records(right, &l.data.filename) {
            Some(j) => {
                let fs = diff_fields(l, &right[j]);
                if fs.len() > 0 {
                    let entry = RecordDiff { filename: l.data.filename.clone(), diffs: fs };
                    proof {
                        assert(diff_views(out@.push(entry)) =~= diff_views(out@) + seq![
                            SpecDiff { name: entry.filename@, fields: entry.diffs@ },
                        ]);
                    }
                    out.push(entry);
                }
            },
            None => {
                let mut fs: Vec<RecordDiffField> = Vec::new();
                fs.push(RecordDiffField::Exists(true, false));
                let entry = RecordDiff { filename: l.data.filename.clone(), diffs: fs };
                proof {
                    assert(entry.diffs@ =~= seq![RecordDiffField::Exists(true, false)]);
                    assert(diff_views(out@.push(entry)) =~= diff_views(out@) + seq![
                        SpecDiff { name: entry.filename@, fields: entry.diffs@ },
                    ]);
                }
                out.push(entry);
            },
        }
        i = i + 1;
    }
    let ghost left_part = diff_views(out@);
    proof {
        assert(left_part =~= spec_left_diffs(left@, right@, 0));
    }
    let mut k: usize = 0;
    while k < right.len()
        invariant
            k <= right@.len(),
            left_part == spec_left_diffs(left@, right@, 0),
            diff_views(out@) + spec_right_only(left@, right@, k as int) =~= left_part
                + spec_right_only(left@, right@, 0),
        decreases right@.len() - k,
    {
        match find_in_records(left, &right[k].data.filename) {
            Some(_) => {},
            None => {
                let mut fs: Vec<RecordDiffField> = Vec::new();
                fs.push(RecordDiffField::Exists(false, true));
                let entry = RecordDiff {
                    filename: right[k].data.filename.clone(),
                    diffs: fs,
                };
                proof {
                    assert(entry.diffs@ =~= seq![RecordDiffField::Exists(false, true)]);
                    assert(diff_views(out@.push(entry)) =~= diff_views(out@) + seq![
                        SpecDiff { name: entry.filename@, fields: entry.diffs@ },
                    ]);
                }
                out.push(entry);
            },
        }
        k = k + 1;
    }
    proof {
        assert(spec_right_only(left@, right@, right@.len() as int) =~= Seq::<SpecDiff>::empty());
        assert(diff_views(out@) =~= left_part + spec_right_only(left@, right@, 0));
    }
    out
}

/// Two record lists parsed from the same bytes agree in every field: the
/// scan is a function of the archive bytes, so parsing the same archive
/// twice (or extracting it twice) works from identical records.
pub proof fn lemma_parse_deterministic(recs1: Seq<Record>, recs2: Seq<Record>, specs: Seq<
    SpecRecord,
>)
    requires
        records_match(recs1, specs),
        records_match(recs2, specs),
    ensures
        recs1.len() == recs2.len(),
        forall|i: int|
            0 <= i < recs1.len() ==> {
                &&& (#[trigger] recs1[i]).header == recs2[i].header
                &&& recs1[i].trailer == recs2[i].trailer
                &&& recs1[i].data.filename@ == recs2[i].data.filename@
                &&& recs1[i].data.compressed_size == recs2[i].data.compressed_size
                &&& recs1[i].data.size == recs2[i].data.size
                &&& recs1[i].data.mode == recs2[i].data.mode
                &&& recs1[i].data.uid == recs2[i].data.uid
                &&& recs1[i].data.gid == recs2[i].data.gid
                &&& recs1[i].data.mdate == recs2[i].data.mdate
                &&& recs1[i].data.adate == recs2[i].data.adate
                &&& recs1[i].data.file_position == recs2[i].data.file_position
                &&& recs1[i].data.magic == recs2[i].data.magic
            },
{
    assert forall|i: int| 0 <= i < recs1.len() implies {
        &&& (#[trigger] recs1[i]).header == recs2[i].header
        &&& recs1[i].trailer == recs2[i].trailer
        &&& recs1[i].data.filename@ == recs2[i].data.filename@
        &&& recs1[i].data.compressed_size == recs2[i].data.compressed_size
        &&& recs1[i].data.size == recs2[i].data.size
        &&& recs1[i].data.mode == recs2[i].data.mode
        &&& recs1[i].data.uid == recs2[i].data.uid
        &&& recs1[i].data.gid == recs2[i].data.gid
        &&& recs1[i].data.mdate == recs2[i].data.mdate
        &&& recs1[i].data.adate == recs2[i].data.adate
        &&& recs1[i].data.file_position == recs2[i].data.file_position
        &&& recs1[i].data.magic == recs2[i].data.magic
    } by {
        assert(record_matches(recs1[i], specs[i]));
        assert(record_matches(recs2[i], specs[i]));
        assert(recs1[i].data.mode.bits() == recs2[i].data.mode.bits());
        assert(recs1[i].data.mode == recs2[i].data.mode) by {
            crate::mode::lemma_filemode_bits_injective(recs1[i].data.mode, recs2[i].data.mode);
        }
    }
}

} // verus!
