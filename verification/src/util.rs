//! Byte-level helpers: turning raw name bytes into text, classifying record
//! content, and copying a bounded stream.

use chrono::Datelike;
use chrono::Timelike;
use vstd::prelude::*;
use vstd::utf8::decode_utf8;
use vstd::utf8::valid_utf8;

verus! {

/// A calendar timestamp, as shown for a record's access and modify times:
/// the UTC civil date and time of day of an epoch-seconds value.
#[derive(Debug, Clone, Copy, PartialEq, Eq, Structural)]
pub struct TimeStamp {
    pub year: i64,
    pub month: u32,
    pub day: u32,
    pub hour: u32,
    pub minute: u32,
    pub second: u32,
}

/// The civil UTC date and time that an epoch-seconds value names.  The
/// calendar arithmetic is the calendar crate's; the result depends on the
/// seconds value alone.
pub uninterp spec fn civil_of(secs: u32) -> TimeStamp;

/// Relies on chrono's `DateTime::from_timestamp`: every unsigned 32-bit
/// seconds value is within chrono's range, and the civil fields are a
/// function of the seconds value alone.
#[verifier::external_body]
pub fn epoch_to_civil(secs: u32) -> (r: TimeStamp)
    ensures
        r == civil_of(secs),
{
    match chrono::DateTime::from_timestamp(secs as i64, 0) {
        Some(dt) => {
            let n = dt.naive_utc();
            TimeStamp {
                year: n.year() as i64,
                month: n.month(),
                day: n.day(),
                hour: n.hour(),
                minute: n.minute(),
                second: n.second(),
            }
        },
        None => TimeStamp { year: 1970, month: 1, day: 1, hour: 0, minute: 0, second: 0 },
    }
}

/// The text that lossy UTF-8 conversion makes of a byte sequence.  Invalid
/// sequences are replaced, so the exact result of `String::from_utf8_lossy`
/// on them is only named here; on valid UTF-8 the wrapper below pins it down.
pub uninterp spec fn lossy_of(bytes: Seq<u8>) -> Seq<char>;

/// Relies on `String::from_utf8_lossy`: valid UTF-8 is decoded unchanged, and
/// the result depends on the bytes alone.
#[verifier::external_body]
pub fn bytes_to_string_lossy(bytes: &Vec<u8>) -> (r: String)
    ensures
        r@ == lossy_of(bytes@),
        valid_utf8(bytes@) ==> r@ == decode_utf8(bytes@),
{
    String::from_utf8_lossy(bytes).into_owned()
}

/// Whether the bytes are valid UTF-8: every scalar has a well-formed
/// leading byte and continuation bytes, is not an overlong encoding, and is
/// not a surrogate.
pub fn is_valid_utf8(bytes: &Vec<u8>) -> (r: bool)
    ensures
        r == valid_utf8(bytes@),
{
    let n = bytes.len();
    let mut i: usize = 0;
    proof {
        assert(bytes@.skip(0) =~= bytes@);
    }
    while i < n
        invariant
            i <= n,
            n == bytes@.len(),
            valid_utf8(bytes@) == valid_utf8(bytes@.skip(i as int)),
        decreases n - i,
    {
        let ghost suffix = bytes@.skip(i as int);
        let b0 = bytes[i];
        proof {
            assert(suffix.len() == n - i);
            assert(forall|m: int|
                0 <= m < suffix.len() ==> #[trigger] suffix[m] == bytes@[i + m]);
            assert(suffix[0] == b0);
        }
        // The width that the leading byte announces.
        let width: usize = if b0 <= 0x7F {
            1
        } else if 0xC0 <= b0 && b0 <= 0xDF {
            2
        } else if 0xE0 <= b0 && b0 <= 0xEF {
            3
        } else if 0xF0 <= b0 && b0 <= 0xF7 {
            4
        } else {
            // No leading-byte pattern fits.
            return false;
        };
        if n - i < width {
            // The continuation bytes are missing.
            return false;
        }
        // Every continuation byte must carry the continuation pattern.
        let mut k: usize = 1;
        while k < width
            invariant
                1 <= k <= width,
                1 <= width <= 4,
                i + width <= n,
                n == bytes@.len(),
                suffix == bytes@.skip(i as int),
                suffix.len() == n - i,
                valid_utf8(bytes@) == valid_utf8(suffix),
                suffix[0] == b0,
                width == 2 ==> 0xC0 <= b0 <= 0xDF,
                width == 3 ==> 0xE0 <= b0 <= 0xEF,
                width == 4 ==> 0xF0 <= b0 <= 0xF7,
                forall|m: int|
                    0 <= m < suffix.len() ==> #[trigger] suffix[m] == bytes@[i + m],
                forall|m: int|
                    1 <= m < k ==> vstd::utf8::is_continuation_byte(#[trigger] suffix[m]),
            decreases width - k,
        {
            let bk = bytes[i + k];
            proof {
                assert(suffix[k as int] == bk);
            }
            if !(0x80 <= bk && bk <= 0xBF) {
                proof {
                    assert(!vstd::utf8::is_continuation_byte(suffix[k as int]));
                    assert(!vstd::utf8::valid_leading_and_continuation_bytes_first_codepoint(
                        suffix,
                    ));
                    assert(!vstd::utf8::valid_first_scalar(suffix));
                    assert(!valid_utf8(suffix));
                }
                return false;
            }
            k = k + 1;
        }
        // The encoded codepoint, as the specification computes it.
        let cp: u32 = if width == 1 {
            (b0 & 0x7F) as u32
        } else if width == 2 {
            (((b0 & 0x1F) as u32) << 6u32) | ((bytes[i + 1] & 0x3F) as u32)
        } else if width == 3 {
            (((b0 & 0x0F) as u32) << 12u32) | (((bytes[i + 1] & 0x3F) as u32) << 6u32) | ((bytes[i
                + 2] & 0x3F) as u32)
        } else {
            (((b0 & 0x07) as u32) << 18u32) | (((bytes[i + 1] & 0x3F) as u32) << 12u32) | (((
            bytes[i + 2] & 0x3F) as u32) << 6u32) | ((bytes[i + 3] & 0x3F) as u32)
        };
        proof {
            assert(vstd::utf8::decode_first_codepoint(suffix) == cp);
            assert(vstd::utf8::length_of_first_codepoint(suffix) == width);
        }
        // Overlong encodings and the surrogate range are not valid scalars.
        if width == 2 && cp < 0x80 {
            return false;
        }
        if width == 3 && cp < 0x800 {
            return false;
        }
        if width == 4 && !(0x10000 <= cp && cp <= 0x10FFFF) {
            return false;
        }
        if 0xD800 <= cp && cp <= 0xDFFF {
            return false;
        }
        proof {
            assert(vstd::utf8::valid_first_scalar(suffix));
            assert(vstd::utf8::pop_first_scalar(suffix) =~= bytes@.skip(i + width));
        }
        i = i + width;
    }
    proof {
        assert(bytes@.skip(n as int) =~= Seq::<u8>::empty());
    }
    true
}

/// Read `size` bytes of `reader` and copy them to `writer` — fewer only when
/// the reader's content runs out first.  What is appended is exactly the
/// next stretch of the reader's content; only a corrupt compressed stream
/// fails, with the error matching how its decode ends.
pub fn copy_stream(
    reader: &mut crate::archive::RecordReader,
    writer: &mut Vec<u8>,
    size: usize,
) -> (r: Result<(), crate::error::Error>)
    requires
        old(reader).wf(),
    ensures
        final(reader).wf(),
        final(reader).content() == old(reader).content(),
        final(reader).source() == old(reader).source(),
        final(writer)@.take(old(writer)@.len() as int) == old(writer)@,
        match r {
            Ok(()) => {
                &&& final(writer)@.len() <= old(writer)@.len() + size
                &&& final(reader).delivered() == old(reader).delivered() + final(writer)@.skip(old(writer)@.len() as int)
                &&& final(writer)@.len() > old(writer)@.len() ==> final(reader).delivered() == final(reader).content().take(final(reader).delivered().len() as int)
                &&& final(writer)@.len() < old(writer)@.len() + size ==> final(reader).delivered() == final(reader).content()
            },
            Err(e) => old(reader).corrupt_stream_error(e),
        },
{
    let mut got: usize = 0;
    loop
        invariant_except_break
            reader.wf(),
            reader.content() == old(reader).content(),
            reader.source() == old(reader).source(),
            (*reader matches crate::archive::RecordReader::Raw(_)) == (*old(reader)
                matches crate::archive::RecordReader::Raw(_)),
            got <= size,
            writer@.len() == old(writer)@.len() + got,
            writer@.take(old(writer)@.len() as int) == old(writer)@,
            reader.delivered() == old(reader).delivered() + writer@.skip(
                old(writer)@.len() as int,
            ),
            writer@.len() > old(writer)@.len() ==> reader.delivered()
                == reader.content().take(reader.delivered().len() as int),
        ensures
            reader.wf(),
            reader.content() == old(reader).content(),
            reader.source() == old(reader).source(),
            writer@.len() <= old(writer)@.len() + size,
            writer@.take(old(writer)@.len() as int) == old(writer)@,
            reader.delivered() == old(reader).delivered() + writer@.skip(
                old(writer)@.len() as int,
            ),
            writer@.len() > old(writer)@.len() ==> reader.delivered()
                == reader.content().take(reader.delivered().len() as int),
            writer@.len() < old(writer)@.len() + size ==> reader.delivered()
                == reader.content(),
        decreases size - got,
    {
        if got >= size {
            break;
        }
        let ask = if size - got < 1024 {
            size - got
        } else {
            1024
        };
        match reader.read(ask) {
            Ok(chunk) => {
                let n = chunk.len();
                let mut chunk = chunk;
                proof {
                    assert(writer@.take(old(writer)@.len() as int) =~= (writer@
                        + chunk@).take(old(writer)@.len() as int));
                    assert((writer@ + chunk@).skip(old(writer)@.len() as int) =~= writer@.skip(
                        old(writer)@.len() as int,
                    ) + chunk@);
                }
                writer.append(&mut chunk);
                got = got + n;
                if n < ask {
                    break;
                }
            },
            Err(e) => {
                proof {
                    assert(old(reader).corrupt_stream_error(e)) by {
                        assert(*old(reader) matches crate::archive::RecordReader::Huffman(_));
                    }
                }
                return Err(e);
            },
        }
    }
    Ok(())
}

/// Whether record content looks like text or like binary data.
pub enum ContentType {
    Plaintext,
    Binary,
}

/// Try to determine if the next stretch of the reader's content is plain
/// text or binary: the first bytes (at most 2048) must be available in full,
/// and they are text exactly when they are valid UTF-8.
pub fn get_content_type(
    reader: &mut crate::archive::RecordReader,
    size: usize,
) -> (r: Result<ContentType, crate::error::Error>)
    requires
        old(reader).wf(),
    ensures
        final(reader).wf(),
        final(reader).content() == old(reader).content(),
        final(reader).source() == old(reader).source(),
        ({
            let length = if size < 2048 {
                size as int
            } else {
                2048int
            };
            match r {
                Ok(t) => {
                    &&& final(reader).delivered() == final(reader).content().take(
                        final(reader).delivered().len() as int,
                    )
                    &&& final(reader).delivered().len() == old(reader).delivered().len()
                        + length
                    &&& (t is Plaintext <==> valid_utf8(
                        final(reader).delivered().skip(old(reader).delivered().len() as int),
                    ))
                },
                Err(crate::error::Error::UnexpectedEndOfInput) => {
                    &&& final(reader).delivered() == final(reader).content()
                    &&& final(reader).content().len() < old(reader).delivered().len() + length
                },
                Err(e) => old(reader).corrupt_stream_error(e),
            }
        }),
{
    let length = if size < 2048 {
        size
    } else {
        2048
    };
    let chunk = match reader.read(length) {
        Ok(c) => c,
        Err(e) => {
            return Err(e);
        },
    };
    if chunk.len() < length {
        return Err(crate::error::Error::UnexpectedEndOfInput);
    }
    proof {
        assert((old(reader).delivered() + chunk@).skip(old(reader).delivered().len() as int)
            =~= chunk@);
    }
    if is_valid_utf8(&chunk) {
        Ok(ContentType::Plaintext)
    } else {
        Ok(ContentType::Binary)
    }
}

} // verus!
