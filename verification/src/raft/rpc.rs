//! Framing of messages on a byte stream: a length in four bytes, most
//! significant first, and then that many bytes.

use crate::collections::copy_bytes;
use crate::text::{decimal, decimal_text, join3};
use vstd::prelude::*;

verus! {

/// The largest payload that a reader accepts.
pub const MAX_FRAME_LEN: usize = 67108864;

/// Why a frame cannot be read.
#[derive(Clone, Debug, PartialEq, Eq)]
pub enum FrameError {
    /// The stream ends within the frame.
    UnexpectedEof,
    /// The frame announces more than a reader accepts; the text says how much.
    InvalidData(String),
}

/// The number that four bytes stand for, most significant first.
pub open spec fn be_value(b: Seq<u8>) -> int {
    b[0] * 0x1000000 + b[1] * 0x10000 + b[2] * 0x100 + b[3]
}

/// The four bytes of a number, most significant first.
pub open spec fn be_bytes(n: u32) -> Seq<u8> {
    seq![
        (n as int / 0x1000000) as u8,
        ((n as int / 0x10000) % 0x100) as u8,
        ((n as int / 0x100) % 0x100) as u8,
        (n as int % 0x100) as u8,
    ]
}

/// The frame of a payload.  The length field has room for lengths below 2^32; a
/// longer payload is announced by what is left of its length modulo 2^32.
pub open spec fn frame(payload: Seq<u8>) -> Seq<u8> {
    be_bytes((payload.len() as int % 0x1_0000_0000) as u32) + payload
}

/// What a reader finds at the start of a stream: a payload and the number of bytes
/// that its frame takes, or why there is none.
pub open spec fn parse_frame(stream: Seq<u8>) -> Result<Seq<u8>, Option<Seq<char>>> {
    if stream.len() < 4 {
        Err(None)
    } else if be_value(stream) > MAX_FRAME_LEN {
        Err(Some("frame too large: "@ + decimal(be_value(stream) as nat) + " bytes"@))
    } else if stream.len() < 4 + be_value(stream) {
        Err(None)
    } else {
        Ok(stream.subrange(4, 4 + be_value(stream)))
    }
}

proof fn lemma_be_round_trip(n: u32)
    ensures
        be_bytes(n).len() == 4,
        be_value(be_bytes(n)) == n,
{
    let v = n as int;
    assert(v / 0x1000000 < 0x100);
    assert(v == (v / 0x1000000) * 0x1000000 + ((v / 0x10000) % 0x100) * 0x10000 + ((v / 0x100)
        % 0x100) * 0x100 + v % 0x100);
}

/// What a frame was made of is read back from it, whatever follows it on the stream:
/// frames that are written one after another are read one after another.
pub proof fn framed_payload_is_read_back(payload: Seq<u8>, rest: Seq<u8>)
    requires
        payload.len() <= MAX_FRAME_LEN,
    ensures
        parse_frame(frame(payload) + rest) == Ok::<Seq<u8>, Option<Seq<char>>>(payload),
        (frame(payload) + rest).skip(4 + payload.len() as int) == rest,
{
    let n = payload.len() as u32;
    assert((payload.len() as int % 0x1_0000_0000) as u32 == n);
    lemma_be_round_trip(n);
    let stream = frame(payload) + rest;
    assert(stream[0] == be_bytes(n)[0]);
    assert(stream[1] == be_bytes(n)[1]);
    assert(stream[2] == be_bytes(n)[2]);
    assert(stream[3] == be_bytes(n)[3]);
    assert(be_value(stream) == n);
    assert(stream.subrange(4, 4 + n) =~= payload);
    assert(stream.skip(4 + payload.len() as int) =~= rest);
}

/// The length that a frame's first four bytes announce, if a reader accepts it.
pub fn frame_len(header: &[u8]) -> (r: Result<usize, FrameError>)
    requires
        header@.len() == 4,
    ensures
        ({
            let announced = header@[0] * 0x1000000 + header@[1] * 0x10000 + header@[2] * 0x100
                + header@[3];
            &&& r is Ok <==> announced <= 64 * 1024 * 1024
            &&& r matches Ok(n) ==> n == announced
        }),
        match r {
            Ok(n) => n == be_value(header@) && n <= MAX_FRAME_LEN,
            Err(FrameError::InvalidData(msg)) => be_value(header@) > MAX_FRAME_LEN && msg@
                == "frame too large: "@ + decimal(be_value(header@) as nat) + " bytes"@,
            Err(FrameError::UnexpectedEof) => false,
        },
{
    let n: u64 = (header[0] as u64) * 0x1000000 + (header[1] as u64) * 0x10000 + (header[2] as u64)
        * 0x100 + (header[3] as u64);
    if n > MAX_FRAME_LEN as u64 {
        return Err(
            FrameError::InvalidData(
                join3("frame too large: ", decimal_text(n).as_str(), " bytes"),
            ),
        );
    }
    Ok(n as usize)
}

/// The frame of a payload.
pub fn write_frame(payload: &[u8]) -> (r: Vec<u8>)
    ensures
        r@ == frame(payload@),
{
    let len = payload.len() as u64 % 0x1_0000_0000;
    let ghost n = (payload@.len() as int % 0x1_0000_0000) as u32;
    let mut r: Vec<u8> = Vec::new();
    r.push((len / 0x1000000) as u8);
    r.push(((len / 0x10000) % 0x100) as u8);
    r.push(((len / 0x100) % 0x100) as u8);
    r.push((len % 0x100) as u8);
    assert(r@ =~= be_bytes(n));
    let mut body = copy_bytes(payload);
    r.append(&mut body);
    r
}

/// The payload of the frame at the start of a stream.
pub fn read_frame(stream: &[u8]) -> (r: Result<Vec<u8>, FrameError>)
    ensures
        match parse_frame(stream@) {
            Ok(payload) => r is Ok && r->Ok_0@ == payload,
            Err(None) => r == Err::<Vec<u8>, FrameError>(FrameError::UnexpectedEof),
            Err(Some(msg)) => r is Err && r->Err_0 is InvalidData && r->Err_0->InvalidData_0@ == msg,
        },
{
    if stream.len() < 4 {
        return Err(FrameError::UnexpectedEof);
    }
    let header = vstd::slice::slice_subrange(stream, 0, 4);
    match frame_len(header) {
        Err(e) => Err(e),
        Ok(n) => {
            if stream.len() - 4 < n {
                return Err(FrameError::UnexpectedEof);
            }
            Ok(copy_bytes(vstd::slice::slice_subrange(stream, 4, 4 + n)))
        },
    }
}

/// A frame is four bytes with the length of the payload, the most significant one first, and
/// then the payload.
pub proof fn frames_begin_with_the_length(payload: Seq<u8>)
    requires
        payload.len() < 0x1_0000_0000,
    ensures
        frame(payload).len() == 4 + payload.len(),
        frame(payload)[0] * 0x1000000 + frame(payload)[1] * 0x10000 + frame(payload)[2] * 0x100
            + frame(payload)[3] == payload.len(),
        frame(payload).skip(4) == payload,
{
    let n = payload.len() as u32;
    assert((payload.len() as int % 0x1_0000_0000) as u32 == n);
    lemma_be_round_trip(n);
    assert(frame(payload).skip(4) =~= payload);
}

/// A reader gets a payload exactly where the stream holds a whole frame whose announced
/// length is at most 64 MiB; a frame that announces more is refused, and one that is not
/// all there yet is waited for.
pub proof fn whole_frames_are_read(stream: Seq<u8>)
    ensures
        ({
            let announced = stream[0] * 0x1000000 + stream[1] * 0x10000 + stream[2] * 0x100
                + stream[3];
            &&& parse_frame(stream) is Ok <==> stream.len() >= 4 && announced <= 64 * 1024 * 1024
                && stream.len() >= 4 + announced
            &&& parse_frame(stream) matches Ok(payload) ==> payload.len() == announced
                && forall|i: int| 0 <= i < announced ==> #[trigger] payload[i] == stream[4 + i]
            &&& (parse_frame(stream) is Err && parse_frame(stream)->Err_0 is Some) <==> stream.len() >= 4 && announced > 64
                * 1024 * 1024
        }),
{
}

} // verus!
