//! The NovaDB wire protocol: checksummed, length-prefixed request and
//! response frames.
//!
//! Frame layout (24-byte header, big-endian): magic (4), version (2),
//! status (1), reserved zero (1), request id (8), payload length (4),
//! CRC-32 of the whole frame with this field zero (4); then the payload.
use vstd::prelude::*;
use vstd::string::StringSliceAdditionalSpecFns;

use crate::bytes::{
    be16, be32, be64, get_u16, get_u32, get_u64, lemma_be32_zero, push_all, push_u16, push_u32,
    push_u64, read_be16, read_be32, read_be64, set_u32,
};
use crate::checksum::{crc32, crc32_of, zeroed};
use crate::error::{NovaError, Result};
use crate::text::{string_from_utf8, utf8_bytes};

verus! {

/// Request frame magic `NVRQ`.
pub const REQUEST_MAGIC: [u8; 4] = [78u8, 86u8, 82u8, 81u8];

/// Response frame magic `NVRS`.
pub const RESPONSE_MAGIC: [u8; 4] = [78u8, 86u8, 82u8, 83u8];

/// Protocol version.
pub const VERSION: u16 = 1;

/// Frame header size in bytes.
pub const HEADER_SIZE: usize = 24;

/// Offset of the checksum field.
pub const CHECKSUM_OFFSET: usize = 20;

/// One client query request.
#[derive(Debug, Clone, PartialEq, Eq)]
pub struct Request {
    pub request_id: u64,
    pub query: String,
}

/// Stable wire error categories.
#[derive(Debug, Clone, Copy, PartialEq, Eq)]
pub enum ErrorCode {
    Protocol,
    Parse,
    Execution,
    Busy,
    Internal,
}

/// The status byte of each error category.
pub open spec fn error_code_byte(c: ErrorCode) -> u8 {
    match c {
        ErrorCode::Protocol => 1,
        ErrorCode::Parse => 2,
        ErrorCode::Execution => 3,
        ErrorCode::Busy => 4,
        ErrorCode::Internal => 5,
    }
}

impl ErrorCode {
    /// The status byte of this category.
    pub fn as_byte(self) -> (r: u8)
        ensures
            r == error_code_byte(self),
    {
        match self {
            ErrorCode::Protocol => 1,
            ErrorCode::Parse => 2,
            ErrorCode::Execution => 3,
            ErrorCode::Busy => 4,
            ErrorCode::Internal => 5,
        }
    }
}

/// One server response, correlated by request id.
#[derive(Debug, PartialEq, Eq)]
pub struct Response {
    pub request_id: u64,
    pub outcome: std::result::Result<String, (ErrorCode, String)>,
}

impl Clone for Response {
    fn clone(&self) -> (r: Self)
        ensures
            r == *self,
    {
        let outcome = match &self.outcome {
            Ok(text) => Ok(text.clone()),
            Err((code, text)) => Err((*code, text.clone())),
        };
        Response { request_id: self.request_id, outcome }
    }
}

/// A frame's header with the given checksum.
pub open spec fn frame_header(magic: Seq<u8>, status: u8, request_id: u64, len: u32, checksum: u32) -> Seq<u8> {
    magic + be16(VERSION) + seq![status, 0u8] + be64(request_id) + be32(len) + be32(checksum)
}

/// The complete frame carrying `payload`.
pub open spec fn frame_bytes(magic: Seq<u8>, status: u8, request_id: u64, payload: Seq<u8>) -> Seq<u8> {
    let unsummed = frame_header(magic, status, request_id, payload.len() as u32, 0) + payload;
    frame_header(magic, status, request_id, payload.len() as u32, crc32_of(unsummed)) + payload
}

/// Payload length declared in a frame header.
pub open spec fn frame_len(b: Seq<u8>) -> int {
    read_be32(b, 16) as int
}

/// A frame that passes every check when read with the given magic and limit.
pub open spec fn frame_valid(b: Seq<u8>, magic: Seq<u8>, maximum: int) -> bool {
    &&& b.len() >= HEADER_SIZE
    &&& b.take(4) == magic
    &&& read_be16(b, 4) == VERSION
    &&& b[7] == 0
    &&& frame_len(b) <= maximum
    &&& b.len() >= HEADER_SIZE + frame_len(b)
    &&& read_be32(b, 20) == crc32_of(zeroed(b.take(HEADER_SIZE + frame_len(b)), 20, 24))
}

/// Makes the error a short read reports.
#[verifier::external_body]
fn unexpected_eof() -> std::io::Error {
    std::io::Error::from(std::io::ErrorKind::UnexpectedEof)
}

fn corruption(message: &str) -> (e: NovaError)
    ensures
        e is Corruption,
{
    NovaError::Corruption(message.to_owned())
}

/// Encodes one frame.
///
/// Fails with `InvalidArgument` when the payload is longer than a `u32`.
pub fn encode_frame(magic: [u8; 4], status: u8, request_id: u64, payload: &[u8]) -> (r: Result<Vec<u8>>)
    ensures
        (r is Ok) == (payload@.len() <= u32::MAX),
        match r {
            Ok(bytes) => bytes@ == frame_bytes(magic@, status, request_id, payload@),
            Err(e) => e is InvalidArgument,
        },
{
    if payload.len() > u32::MAX as usize {
        return Err(NovaError::InvalidArgument("protocol size is not representable".to_owned()));
    }
    let mut bytes: Vec<u8> = Vec::new();
    bytes.push(magic[0]);
    bytes.push(magic[1]);
    bytes.push(magic[2]);
    bytes.push(magic[3]);
    push_u16(&mut bytes, VERSION);
    bytes.push(status);
    bytes.push(0u8);
    push_u64(&mut bytes, request_id);
    push_u32(&mut bytes, payload.len() as u32);
    push_u32(&mut bytes, 0);
    push_all(&mut bytes, payload);
    let ghost unsummed = frame_header(magic@, status, request_id, payload@.len() as u32, 0) + payload@;
    proof {
        assert(bytes@ =~= unsummed);
        lemma_be32_zero();
        assert(zeroed(bytes@, 20, 24) =~= bytes@);
    }
    let checksum = crc32(bytes.as_slice(), CHECKSUM_OFFSET, CHECKSUM_OFFSET + 4);
    set_u32(&mut bytes, CHECKSUM_OFFSET, checksum);
    assert(bytes@ =~= frame_bytes(magic@, status, request_id, payload@));
    Ok(bytes)
}

/// The error a frame that fails to read gets: `Io` when the input ends
/// early, `Corruption` for bad magic, a reserved byte or a checksum,
/// `Unsupported` for another version, `InvalidArgument` for a payload over
/// the limit.
pub open spec fn frame_error(b: Seq<u8>, magic: Seq<u8>, maximum: int, e: NovaError) -> bool {
    if b.len() < HEADER_SIZE {
        e is Io
    } else if b.take(4) != magic {
        e is Corruption
    } else if read_be16(b, 4) != VERSION {
        e is Unsupported
    } else if b[7] != 0 {
        e is Corruption
    } else if frame_len(b) > maximum {
        e is InvalidArgument
    } else if b.len() < HEADER_SIZE + frame_len(b) {
        e is Io
    } else {
        e is Corruption
    }
}

/// Reads one frame from the front of `input`, returning its status byte,
/// request id and payload.
///
/// A short header or payload fails with `Io` (unexpected end of input); a
/// wrong magic, non-zero reserved byte or checksum mismatch with
/// `Corruption`; another version with `Unsupported`; a payload longer than
/// `maximum` with `InvalidArgument`.
pub fn read_frame(input: &[u8], expected_magic: [u8; 4], maximum: usize) -> (r: Result<(u8, u64, Vec<u8>)>)
    ensures
        (r is Ok) == frame_valid(input@, expected_magic@, maximum as int),
        match r {
            Ok((status, id, payload)) => {
                &&& status == input@[6]
                &&& id == read_be64(input@, 8)
                &&& payload@ == input@.subrange(HEADER_SIZE as int, HEADER_SIZE + frame_len(input@))
            },
            Err(e) => frame_error(input@, expected_magic@, maximum as int, e),
        },
{
    let ghost b = input@;
    if input.len() < HEADER_SIZE {
        return Err(NovaError::Io(unexpected_eof()));
    }
    if !(input[0] == expected_magic[0] && input[1] == expected_magic[1] && input[2]
        == expected_magic[2] && input[3] == expected_magic[3]) {
        proof {
            if b.take(4) == expected_magic@ {
                assert(b[0] == b.take(4)[0] && b[1] == b.take(4)[1] && b[2] == b.take(4)[2] && b[3]
                    == b.take(4)[3]);
            }
        }
        return Err(corruption("invalid protocol magic"));
    }
    proof {
        assert(b.take(4) =~= expected_magic@);
    }
    let version = get_u16(input, 4);
    if version != VERSION {
        return Err(NovaError::Unsupported("unsupported protocol version".to_owned()));
    }
    if input[7] != 0 {
        return Err(corruption("protocol reserved byte is non-zero"));
    }
    let request_id = get_u64(input, 8);
    let length = get_u32(input, 16) as usize;
    if length > maximum {
        return Err(NovaError::InvalidArgument("protocol payload length exceeds limit".to_owned()));
    }
    let stored = get_u32(input, 20);
    if input.len() - HEADER_SIZE < length {
        return Err(NovaError::Io(unexpected_eof()));
    }
    let encoded = vstd::slice::slice_subrange(input, 0, HEADER_SIZE + length);
    if stored != crc32(encoded, CHECKSUM_OFFSET, CHECKSUM_OFFSET + 4) {
        return Err(corruption("protocol checksum mismatch"));
    }
    let payload = vstd::slice::slice_to_vec(
        vstd::slice::slice_subrange(input, HEADER_SIZE, HEADER_SIZE + length),
    );
    Ok((input[6], request_id, payload))
}

/// Encodes a request frame.
///
/// Fails with `InvalidArgument` when the query is longer than a `u32`.
pub fn encode_request(request: &Request) -> (r: Result<Vec<u8>>)
    ensures
        (r is Ok) == (utf8_bytes(request.query@).len() <= u32::MAX),
        match r {
            Ok(bytes) => bytes@ == frame_bytes(
                REQUEST_MAGIC@,
                0,
                request.request_id,
                utf8_bytes(request.query@),
            ),
            Err(e) => e is InvalidArgument,
        },
{
    encode_frame(REQUEST_MAGIC, 0, request.request_id, request.query.as_str().as_bytes())
}

/// Decodes one request from the front of `input` with a payload limit.
///
/// Fails like `read_frame`, with `Corruption` for a non-zero status byte and
/// with `InvalidArgument` for a query that is not UTF-8.
pub fn read_request(input: &[u8], maximum: usize) -> (r: Result<Request>)
    ensures
        (r is Ok) == (frame_valid(input@, REQUEST_MAGIC@, maximum as int) && input@[6] == 0
            && vstd::utf8::valid_utf8(
            input@.subrange(HEADER_SIZE as int, HEADER_SIZE + frame_len(input@)),
        )),
        r matches Ok(req) ==> req.request_id == read_be64(input@, 8) && req.query@
            == vstd::utf8::decode_utf8(
            input@.subrange(HEADER_SIZE as int, HEADER_SIZE + frame_len(input@)),
        ),
        r matches Err(e) ==> if !frame_valid(input@, REQUEST_MAGIC@, maximum as int) {
            frame_error(input@, REQUEST_MAGIC@, maximum as int, e)
        } else if input@[6] != 0 {
            e is Corruption
        } else {
            e is InvalidArgument
        },
{
    let (status, request_id, payload) = read_frame(input, REQUEST_MAGIC, maximum)?;
    if status != 0 {
        return Err(corruption("request status byte must be zero"));
    }
    match string_from_utf8(payload) {
        Some(query) => Ok(Request { request_id, query }),
        None => Err(NovaError::InvalidArgument("request query is not UTF-8".to_owned())),
    }
}

/// The status byte and payload a response is sent with.
pub open spec fn response_parts(response: Response) -> (u8, Seq<u8>) {
    match response.outcome {
        Ok(value) => (0u8, utf8_bytes(value@)),
        Err((code, message)) => (error_code_byte(code), utf8_bytes(message@)),
    }
}

/// Appends one response frame to `out`.
///
/// Fails with `InvalidArgument` when the payload is longer than a `u32`;
/// `out` is then unchanged.
pub fn write_response(out: &mut Vec<u8>, response: &Response) -> (r: Result<()>)
    ensures
        (r is Ok) == (response_parts(*response).1.len() <= u32::MAX),
        match r {
            Ok(()) => final(out)@ == old(out)@ + frame_bytes(
                RESPONSE_MAGIC@,
                response_parts(*response).0,
                response.request_id,
                response_parts(*response).1,
            ),
            Err(e) => e is InvalidArgument && final(out)@ == old(out)@,
        },
{
    let (status, payload): (u8, &str) = match &response.outcome {
        Ok(value) => (0, value.as_str()),
        Err((code, message)) => (code.as_byte(), message.as_str()),
    };
    let frame = encode_frame(RESPONSE_MAGIC, status, response.request_id, payload.as_bytes())?;
    push_all(out, frame.as_slice());
    Ok(())
}

/// The error category a non-zero status byte names.
pub open spec fn code_of_status(status: u8) -> Option<ErrorCode> {
    if status == 1 {
        Some(ErrorCode::Protocol)
    } else if status == 2 {
        Some(ErrorCode::Parse)
    } else if status == 3 {
        Some(ErrorCode::Execution)
    } else if status == 4 {
        Some(ErrorCode::Busy)
    } else if status == 5 {
        Some(ErrorCode::Internal)
    } else {
        None
    }
}

/// Reads one response frame from the front of `input`.
///
/// Fails like `read_frame`, and with `Corruption` for a payload that is not
/// UTF-8 or an unknown status byte.
pub fn read_response(input: &[u8], maximum: usize) -> (r: Result<Response>)
    ensures
        ({
            let payload = input@.subrange(HEADER_SIZE as int, HEADER_SIZE + frame_len(input@));
            let status = input@[6];
            &&& (r is Ok) == (frame_valid(input@, RESPONSE_MAGIC@, maximum as int)
                && vstd::utf8::valid_utf8(payload) && (status == 0 || code_of_status(status) is Some))
            &&& r matches Ok(resp) ==> {
                &&& resp.request_id == read_be64(input@, 8)
                &&& match resp.outcome {
                    Ok(text) => status == 0 && text@ == vstd::utf8::decode_utf8(payload),
                    Err((code, text)) => code_of_status(status) == Some(code) && text@
                        == vstd::utf8::decode_utf8(payload),
                }
            }
            &&& r matches Err(e) ==> if !frame_valid(input@, RESPONSE_MAGIC@, maximum as int) {
                frame_error(input@, RESPONSE_MAGIC@, maximum as int, e)
            } else {
                e is Corruption
            }
        }),
{
    let (status, request_id, payload) = read_frame(input, RESPONSE_MAGIC, maximum)?;
    let text = match string_from_utf8(payload) {
        Some(text) => text,
        None => {
            return Err(corruption("response payload is not UTF-8"));
        },
    };
    let outcome = if status == 0 {
        Ok(text)
    } else {
        let code = match status {
            1 => ErrorCode::Protocol,
            2 => ErrorCode::Parse,
            3 => ErrorCode::Execution,
            4 => ErrorCode::Busy,
            5 => ErrorCode::Internal,
            _ => {
                return Err(corruption("unknown response status"));
            },
        };
        Err((code, text))
    };
    Ok(Response { request_id, outcome })
}

/// A frame reads back as what was encoded: its status byte, request id and
/// payload, whenever the payload is within the reader's limit.
pub proof fn law_frame_round_trip(magic: Seq<u8>, status: u8, request_id: u64, payload: Seq<u8>, maximum: int)
    requires
        magic.len() == 4,
        payload.len() <= u32::MAX,
        payload.len() <= maximum,
    ensures
        frame_valid(frame_bytes(magic, status, request_id, payload), magic, maximum),
        frame_bytes(magic, status, request_id, payload)[6] == status,
        read_be64(frame_bytes(magic, status, request_id, payload), 8) == request_id,
        frame_len(frame_bytes(magic, status, request_id, payload)) == payload.len(),
        frame_bytes(magic, status, request_id, payload).subrange(
            HEADER_SIZE as int,
            HEADER_SIZE + payload.len(),
        ) == payload,
{
    let len = payload.len() as u32;
    let unsummed = frame_header(magic, status, request_id, len, 0) + payload;
    let c = crc32_of(unsummed);
    let b = frame_bytes(magic, status, request_id, payload);
    assert(b.take(4) =~= magic);
    assert(b.subrange(4, 6) =~= be16(VERSION));
    crate::bytes::lemma_be16_round_trip(VERSION, b, 4);
    assert(b.subrange(8, 16) =~= be64(request_id));
    crate::bytes::lemma_be64_round_trip(request_id, b, 8);
    assert(b.subrange(16, 20) =~= be32(len));
    crate::bytes::lemma_be32_round_trip(len, b, 16);
    assert(b.subrange(20, 24) =~= be32(c));
    crate::bytes::lemma_be32_round_trip(c, b, 20);
    lemma_be32_zero();
    assert(b.take(HEADER_SIZE + payload.len()) =~= b);
    assert(zeroed(b, 20, 24) =~= unsummed);
    assert(b.subrange(HEADER_SIZE as int, HEADER_SIZE + payload.len()) =~= payload);
}

} // verus!
