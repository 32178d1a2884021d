//! Wire frames: a 4-byte big-endian length, then that many bytes.

use vstd::prelude::*;

use crate::text;
use crate::text::decimal_of;

verus! {

/// Upper bound on a single frame; a full workspace is a few kilobytes, so this
/// is generous while still rejecting garbage length prefixes.
pub const MAX_FRAME_BYTES: u32 = 16777216;

/// Why a frame cannot be read or written.
#[derive(Debug, Clone, Copy, PartialEq, Eq, Structural)]
pub enum FrameError {
    /// A length prefix announces more than the limit.
    Oversize { len: u32 },
    /// A payload is too large to be sent.
    TooLarge,
    /// The bytes end inside a payload.
    Truncated,
}

/// The big-endian bytes of a length.
pub open spec fn prefix_of(n: u32) -> Seq<u8> {
    seq![
        (n / 0x100_0000) as u8,
        (n / 0x1_0000 % 0x100) as u8,
        (n / 0x100 % 0x100) as u8,
        (n % 0x100) as u8,
    ]
}

/// The length that four big-endian bytes say.
pub open spec fn length_of(b: Seq<u8>) -> int {
    b[0] as int * 0x100_0000 + b[1] as int * 0x1_0000 + b[2] as int * 0x100 + b[3] as int
}

/// The bytes of a frame.
pub open spec fn frame_of(payload: Seq<u8>) -> Seq<u8> {
    prefix_of(payload.len() as u32) + payload
}

/// What reading one frame at the start of `bytes` finds, when nothing follows
/// them: no frame (fewer than four bytes are an end), a payload, or an error.
pub open spec fn first_frame(bytes: Seq<u8>) -> Result<Option<Seq<u8>>, FrameError> {
    if bytes.len() < 4 {
        Ok(None)
    } else if length_of(bytes) > MAX_FRAME_BYTES {
        Err(FrameError::Oversize { len: length_of(bytes) as u32 })
    } else if bytes.len() - 4 < length_of(bytes) {
        Err(FrameError::Truncated)
    } else {
        Ok(Some(bytes.subrange(4, 4 + length_of(bytes))))
    }
}

/// Writes a length as four big-endian bytes.
pub fn length_prefix(n: u32) -> (r: Vec<u8>)
    ensures
        r@ == prefix_of(n),
{
    let mut out: Vec<u8> = Vec::new();
    out.push((n / 0x100_0000) as u8);
    out.push((n / 0x1_0000 % 0x100) as u8);
    out.push((n / 0x100 % 0x100) as u8);
    out.push((n % 0x100) as u8);
    assert(out@ =~= prefix_of(n));
    out
}

/// Reads the length that four bytes say and holds it to the limit: an oversize
/// one is rejected on the prefix alone, before anything is allocated.
pub fn frame_length(prefix: &Vec<u8>) -> (r: Result<u32, FrameError>)
    requires
        prefix.len() >= 4,
    ensures
        r == if length_of(prefix@) > MAX_FRAME_BYTES {
            Err(FrameError::Oversize { len: length_of(prefix@) as u32 })
        } else {
            Ok(length_of(prefix@) as u32)
        },
{
    let n: u32 = prefix[0] as u32 * 0x100_0000 + prefix[1] as u32 * 0x1_0000 + prefix[2] as u32
        * 0x100 + prefix[3] as u32;
    if n > MAX_FRAME_BYTES {
        Err(FrameError::Oversize { len: n })
    } else {
        Ok(n)
    }
}

/// Frames a payload.
pub fn write_frame(payload: &Vec<u8>) -> (r: Result<Vec<u8>, FrameError>)
    ensures
        match r {
            Ok(bytes) => payload.len() <= MAX_FRAME_BYTES && bytes@ == frame_of(payload@),
            Err(e) => payload.len() > MAX_FRAME_BYTES && e == FrameError::TooLarge,
        },
{
    if payload.len() > MAX_FRAME_BYTES as usize {
        return Err(FrameError::TooLarge);
    }
    let mut out = length_prefix(payload.len() as u32);
    let mut body = payload.clone();
    assert(body@ =~= payload@);
    out.append(&mut body);
    assert(out@ =~= frame_of(payload@));
    Ok(out)
}

/// Reads the frame at the start of `bytes`, when nothing follows them; `None`
/// when they end before a length prefix is complete.
pub fn read_frame(bytes: &Vec<u8>) -> (r: Result<Option<Vec<u8>>, FrameError>)
    ensures
        match r {
            Ok(Some(payload)) => first_frame(bytes@) == Ok::<Option<Seq<u8>>, FrameError>(
                Some(payload@),
            ),
            Ok(None) => first_frame(bytes@) == Ok::<Option<Seq<u8>>, FrameError>(None),
            Err(e) => first_frame(bytes@) == Err::<Option<Seq<u8>>, FrameError>(e),
        },
{
    if bytes.len() < 4 {
        return Ok(None);
    }
    let n: u32 = match frame_length(bytes) {
        Ok(n) => n,
        Err(e) => {
            return Err(e);
        },
    };
    let len: usize = n as usize;
    if bytes.len() - 4 < len {
        return Err(FrameError::Truncated);
    }
    let mut out: Vec<u8> = Vec::new();
    let mut i: usize = 0;
    assert(out@ =~= bytes@.subrange(4, 4));
    while i < len
        invariant
            i <= len,
            4 + len <= bytes.len(),
            out@ == bytes@.subrange(4, 4 + i),
        decreases len - i,
    {
        out.push(bytes[4 + i]);
        assert(out@ =~= bytes@.subrange(4, 4 + i + 1));
        i = i + 1;
    }
    Ok(Some(out))
}

/// What an error says.
pub open spec fn message_of(e: FrameError) -> Seq<char> {
    match e {
        FrameError::Oversize { len } => "frame of "@ + text::decimal(len as nat)
            + " bytes exceeds limit of "@ + text::decimal(MAX_FRAME_BYTES as nat),
        FrameError::TooLarge => "frame too large"@,
        FrameError::Truncated => "early eof"@,
    }
}

impl FrameError {
    /// The message for a log or a client.
    pub fn message(&self) -> (r: String)
        ensures
            r@ == message_of(*self),
    {
        match *self {
            FrameError::Oversize { len } => "frame of ".to_owned().concat(
                decimal_of(len as u128).as_str(),
            ).concat(" bytes exceeds limit of ").concat(
                decimal_of(MAX_FRAME_BYTES as u128).as_str(),
            ),
            FrameError::TooLarge => "frame too large".to_owned(),
            FrameError::Truncated => "early eof".to_owned(),
        }
    }
}

/// A length prefix says the length it was made of.
pub proof fn prefix_round_trips(n: u32)
    ensures
        prefix_of(n).len() == 4,
        length_of(prefix_of(n)) == n,
{
}

/// Reading gives back what was written: whatever payload a frame was made of
/// is what the frame yields, whatever bytes come behind it.
pub proof fn frame_round_trips(payload: Seq<u8>, behind: Seq<u8>)
    requires
        payload.len() <= MAX_FRAME_BYTES,
    ensures
        first_frame(frame_of(payload) + behind) == Ok::<Option<Seq<u8>>, FrameError>(Some(payload)),
        (frame_of(payload) + behind).skip(4 + payload.len() as int) == behind,
{
    let n = payload.len() as u32;
    prefix_round_trips(n);
    let bytes = frame_of(payload) + behind;
    assert(bytes[0] == prefix_of(n)[0] && bytes[1] == prefix_of(n)[1] && bytes[2] == prefix_of(
        n,
    )[2] && bytes[3] == prefix_of(n)[3]);
    assert(length_of(bytes) == n);
    assert(bytes.subrange(4, 4 + n) =~= payload);
    assert(bytes.skip(4 + payload.len() as int) =~= behind);
}

/// A frame whose prefix announces more than the limit is refused, whatever
/// follows.
pub proof fn oversize_frames_are_refused(n: u32, behind: Seq<u8>)
    requires
        n > MAX_FRAME_BYTES,
    ensures
        first_frame(prefix_of(n) + behind) == Err::<Option<Seq<u8>>, FrameError>(
            FrameError::Oversize { len: n },
        ),
{
    prefix_round_trips(n);
    let bytes = prefix_of(n) + behind;
    assert(bytes[0] == prefix_of(n)[0] && bytes[1] == prefix_of(n)[1] && bytes[2] == prefix_of(
        n,
    )[2] && bytes[3] == prefix_of(n)[3]);
    assert(length_of(bytes) == n);
}

/// `String::from_utf8`: the text that bytes encode, for UTF-8 and nothing else.
#[verifier::external_body]
fn utf8_text(bytes: Vec<u8>) -> (r: Option<String>)
    ensures
        r.deep_view() == if vstd::utf8::valid_utf8(bytes@) {
            Some(vstd::utf8::decode_utf8(bytes@))
        } else {
            None
        },
{
    String::from_utf8(bytes).ok()
}

/// The text a payload carries; `None` for a payload that is not UTF-8, which is
/// dropped.
pub fn payload_text(payload: Vec<u8>) -> (r: Option<String>)
    ensures
        r.deep_view() == if vstd::utf8::valid_utf8(payload@) {
            Some(vstd::utf8::decode_utf8(payload@))
        } else {
            None
        },
{
    utf8_text(payload)
}

/// Frames a text as UTF-8.
pub fn write_text(text: &str) -> (r: Result<Vec<u8>, FrameError>)
    ensures
        match r {
            Ok(bytes) => vstd::utf8::encode_utf8(text@).len() <= MAX_FRAME_BYTES && bytes@
                == frame_of(vstd::utf8::encode_utf8(text@)),
            Err(e) => vstd::utf8::encode_utf8(text@).len() > MAX_FRAME_BYTES && e
                == FrameError::TooLarge,
        },
{
    let bytes = text.as_bytes();
    let mut payload: Vec<u8> = Vec::new();
    let mut i: usize = 0;
    while i < bytes.len()
        invariant
            i <= bytes.len(),
            payload@ == bytes@.take(i as int),
        decreases bytes.len() - i,
    {
        payload.push(bytes[i]);
        assert(payload@ =~= bytes@.take(i + 1));
        i = i + 1;
    }
    assert(payload@ =~= vstd::utf8::encode_utf8(text@));
    write_frame(&payload)
}

/// A text sent in a frame arrives as the same text.
pub proof fn text_round_trips(text: Seq<char>)
    requires
        vstd::utf8::encode_utf8(text).len() <= MAX_FRAME_BYTES,
    ensures
        first_frame(frame_of(vstd::utf8::encode_utf8(text))) == Ok::<Option<Seq<u8>>, FrameError>(
            Some(vstd::utf8::encode_utf8(text)),
        ),
        vstd::utf8::valid_utf8(vstd::utf8::encode_utf8(text)),
        vstd::utf8::decode_utf8(vstd::utf8::encode_utf8(text)) == text,
{
    let bytes = vstd::utf8::encode_utf8(text);
    frame_round_trips(bytes, Seq::empty());
    assert(frame_of(bytes) + Seq::<u8>::empty() =~= frame_of(bytes));
    vstd::utf8::encode_utf8_valid_utf8(text);
    vstd::utf8::encode_utf8_decode_utf8(text);
}

/// A length is read off four bytes, the highest first.
pub proof fn lengths_are_big_endian(a: u8, b: u8, c: u8, d: u8)
    ensures
        length_of(seq![a, b, c, d]) == ((a * 256 + b) * 256 + c) * 256 + d,
{
}

/// Reading tells the ways bytes can fall short apart: fewer than four are the end
/// between frames, a length over 16 MiB is refused before its payload is waited
/// for, and a payload that is cut off is no frame.
pub proof fn short_reads_are_told_apart(bytes: Seq<u8>)
    ensures
        bytes.len() < 4 ==> first_frame(bytes) == Ok::<Option<Seq<u8>>, FrameError>(None),
        bytes.len() >= 4 && length_of(bytes) > 16 * 1024 * 1024 ==> first_frame(bytes) == Err::<
            Option<Seq<u8>>,
            FrameError,
        >(FrameError::Oversize { len: length_of(bytes) as u32 }),
        bytes.len() >= 4 && length_of(bytes) <= 16 * 1024 * 1024 && bytes.len() < 4 + length_of(
            bytes,
        ) ==> first_frame(bytes) == Err::<Option<Seq<u8>>, FrameError>(FrameError::Truncated),
        bytes.len() >= 4 && length_of(bytes) <= 16 * 1024 * 1024 && bytes.len() >= 4 + length_of(
            bytes,
        ) ==> (first_frame(bytes) matches Ok(Some(payload)) && payload.len() == length_of(bytes)
            && forall|i: int|
            0 <= i < payload.len() ==> #[trigger] payload[i] == bytes[4 + i]),
{
}

/// What is written is read back: a payload of up to 16 MiB is written, and reading
/// what was written gives that payload; a larger one is refused.
pub proof fn written_frames_are_read_back(
    payload: &Vec<u8>,
    w: Result<Vec<u8>, FrameError>,
    r: Result<Option<Vec<u8>>, FrameError>,
)
    requires
        call_ensures(write_frame, (payload,), w),
        w matches Ok(bytes) ==> call_ensures(read_frame, (&bytes,), r),
    ensures
        w is Ok <==> payload.len() <= 16 * 1024 * 1024,
        w matches Err(e) ==> e == FrameError::TooLarge,
        w is Ok ==> (r matches Ok(Some(read)) && read@ == payload@),
{
    if let Ok(bytes) = w {
        frame_round_trips(payload@, Seq::empty());
        assert(frame_of(payload@) + Seq::<u8>::empty() =~= frame_of(payload@));
    }
}

/// Each way a frame can fail is told by itself; an oversize frame with its length
/// and the limit of 16 MiB.
pub proof fn frame_failures_are_told(len: u32)
    ensures
        message_of(FrameError::Oversize { len }) == "frame of "@ + text::decimal(len as nat)
            + " bytes exceeds limit of "@ + text::decimal(16 * 1024 * 1024),
        message_of(FrameError::TooLarge) == "frame too large"@,
        message_of(FrameError::Truncated) == "early eof"@,
{
}

} // verus!
