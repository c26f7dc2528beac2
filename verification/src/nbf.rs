//! NBF (Nova Binary Format, v1): type tags and the bounds-checked decoder
//! primitives on which every NBF reader is built.
use vstd::prelude::*;

use crate::bytes::{get_u32, read_be32};
use crate::error::{NovaError, Result};
use crate::varint::{has_varint_prefix, leading_varint, lemma_varint_prefix_unique, read_varint, varint_bytes};

verus! {

/// Size of the NBF magic and version header in bytes.
pub const HEADER_LEN: usize = 8;

/// Maximum number of nested arrays and documents accepted by the codec.
pub const MAX_NESTING_DEPTH: usize = 254;

/// Maximum number of values or fields in one collection.
pub const MAX_COLLECTION_LENGTH: u64 = 0x10_0000;

/// NBF v1 type tags.
#[derive(Debug, Clone, Copy, PartialEq, Eq)]
pub enum Tag {
    /// Explicit null.
    Null,
    /// Boolean false.
    False,
    /// Boolean true.
    True,
    /// Signed 64-bit integer.
    Int64,
    /// IEEE-754 64-bit float.
    Float64,
    /// UTF-8 string.
    String,
    /// Ordered array.
    Array,
    /// Document with an id and sorted fields.
    Document,
    /// Signed Unix timestamp in milliseconds.
    Timestamp,
    /// Raw 16-byte NovaId.
    NovaId,
}

/// The byte that identifies each tag on disk.
pub open spec fn tag_byte(t: Tag) -> u8 {
    match t {
        Tag::Null => 0x00,
        Tag::False => 0x01,
        Tag::True => 0x02,
        Tag::Int64 => 0x03,
        Tag::Float64 => 0x04,
        Tag::String => 0x05,
        Tag::Array => 0x06,
        Tag::Document => 0x07,
        Tag::Timestamp => 0x08,
        Tag::NovaId => 0x09,
    }
}

impl Tag {
    /// The byte that identifies this tag.
    pub fn as_byte(self) -> (r: u8)
        ensures
            r == tag_byte(self),
    {
        match self {
            Tag::Null => 0x00,
            Tag::False => 0x01,
            Tag::True => 0x02,
            Tag::Int64 => 0x03,
            Tag::Float64 => 0x04,
            Tag::String => 0x05,
            Tag::Array => 0x06,
            Tag::Document => 0x07,
            Tag::Timestamp => 0x08,
            Tag::NovaId => 0x09,
        }
    }

    /// The tag a byte identifies, if any.
    pub fn from_byte(byte: u8) -> (r: Option<Tag>)
        ensures
            r is Some <==> byte <= 0x09,
            r matches Some(t) ==> tag_byte(t) == byte,
    {
        match byte {
            0x00 => Some(Tag::Null),
            0x01 => Some(Tag::False),
            0x02 => Some(Tag::True),
            0x03 => Some(Tag::Int64),
            0x04 => Some(Tag::Float64),
            0x05 => Some(Tag::String),
            0x06 => Some(Tag::Array),
            0x07 => Some(Tag::Document),
            0x08 => Some(Tag::Timestamp),
            0x09 => Some(Tag::NovaId),
            _ => None,
        }
    }
}

/// Tags and their bytes are in one-to-one correspondence: a tag read back
/// from its byte is the same tag.
pub proof fn law_tag_byte_round_trip(t: Tag)
    ensures
        tag_byte(t) <= 0x09,
        forall|u: Tag| tag_byte(u) == tag_byte(t) ==> u == t,
{
}

fn corruption(message: &str) -> (e: NovaError)
    ensures
        e is Corruption,
{
    NovaError::Corruption(message.to_owned())
}

/// Rejects nesting at or beyond the limit while encoding.
pub fn check_encode_depth(depth: usize) -> (r: Result<()>)
    ensures
        (r is Ok) == (depth < MAX_NESTING_DEPTH),
        r matches Err(e) ==> e is InvalidArgument,
{
    if depth >= MAX_NESTING_DEPTH {
        return Err(NovaError::InvalidArgument("NBF nesting exceeds 254".to_owned()));
    }
    Ok(())
}

/// Rejects nesting at or beyond the limit while decoding.
pub fn check_decode_depth(depth: usize) -> (r: Result<()>)
    ensures
        (r is Ok) == (depth < MAX_NESTING_DEPTH),
        r matches Err(e) ==> e is Corruption,
{
    if depth >= MAX_NESTING_DEPTH {
        return Err(corruption("NBF nesting exceeds 254"));
    }
    Ok(())
}

/// Rejects collections longer than the limit while encoding.
pub fn check_encode_count(count: usize) -> (r: Result<()>)
    ensures
        (r is Ok) == (count <= MAX_COLLECTION_LENGTH),
        r matches Err(e) ==> e is InvalidArgument,
{
    if count as u64 > MAX_COLLECTION_LENGTH {
        return Err(NovaError::InvalidArgument("NBF collection exceeds 1048576 elements".to_owned()));
    }
    Ok(())
}

/// A bounds-checked reader over an NBF byte stream.
pub struct Decoder<'a> {
    input: &'a [u8],
    position: usize,
}

impl<'a> Decoder<'a> {
    /// The whole input.
    pub closed spec fn input(&self) -> Seq<u8> {
        self.input@
    }

    /// The current read position.
    pub closed spec fn position(&self) -> nat {
        self.position as nat
    }

    /// The decoder's own invariant: the position never passes the input's end.
    pub closed spec fn wf(&self) -> bool {
        self.position <= self.input@.len()
    }

    /// A decoder at the start of `input`.
    pub fn new(input: &'a [u8]) -> (r: Decoder<'a>)
        ensures
            r.wf(),
            r.input() == input@,
            r.position() == 0,
    {
        Decoder { input, position: 0 }
    }

    /// Bytes left to read.
    pub fn remaining(&self) -> (r: usize)
        requires
            self.wf(),
        ensures
            r == self.input().len() - self.position(),
    {
        self.input.len() - self.position
    }

    /// Consumes the next `length` bytes.
    pub fn take(&mut self, length: usize) -> (r: Result<&'a [u8]>)
        requires
            old(self).wf(),
        ensures
            final(self).wf(),
            final(self).input() == old(self).input(),
            (r is Ok) == (old(self).position() + length <= old(self).input().len()),
            match r {
                Ok(bytes) => {
                    &&& bytes@ == old(self).input().subrange(
                        old(self).position() as int,
                        old(self).position() + length,
                    )
                    &&& final(self).position() == old(self).position() + length
                },
                Err(e) => e is Corruption && final(self).position() == old(self).position(),
            },
    {
        if length > self.input.len() - self.position {
            return Err(corruption("unexpected end of NBF input"));
        }
        let end = self.position + length;
        let bytes = vstd::slice::slice_subrange(self.input, self.position, end);
        self.position = end;
        Ok(bytes)
    }

    /// Consumes one byte.
    pub fn read_byte(&mut self) -> (r: Result<u8>)
        requires
            old(self).wf(),
        ensures
            final(self).wf(),
            final(self).input() == old(self).input(),
            (r is Ok) == (old(self).position() < old(self).input().len()),
            match r {
                Ok(b) => b == old(self).input()[old(self).position() as int]
                    && final(self).position() == old(self).position() + 1,
                Err(e) => e is Corruption && final(self).position() == old(self).position(),
            },
    {
        let bytes = self.take(1)?;
        Ok(bytes[0])
    }

    /// Consumes and checks the magic `NOVA` and the format version.
    ///
    /// Fails with `Corruption` for short input or another magic, and with
    /// `Unsupported` for another version.
    pub fn read_header(&mut self) -> (r: Result<()>)
        requires
            old(self).wf(),
        ensures
            final(self).wf(),
            final(self).input() == old(self).input(),
            ({
                let s = old(self).input().skip(old(self).position() as int);
                let magic_ok = s.len() >= 4 && s.take(4) == seq![78u8, 79u8, 86u8, 65u8];
                &&& (r is Ok) == (magic_ok && s.len() >= 8 && read_be32(s, 4) == 1)
                &&& r is Ok ==> final(self).position() == old(self).position() + 8
                &&& r matches Err(e) ==> if magic_ok && s.len() >= 8 {
                    e is Unsupported
                } else {
                    e is Corruption
                }
            }),
    {
        let ghost s = self.input@.skip(self.position as int);
        let magic = self.take(4)?;
        if !(magic[0] == 78u8 && magic[1] == 79u8 && magic[2] == 86u8 && magic[3] == 65u8) {
            proof {
                if s.take(4) == seq![78u8, 79u8, 86u8, 65u8] {
                    assert(magic@ =~= s.take(4));
                    assert(magic@[0] == s.take(4)[0]);
                    assert(magic@[1] == s.take(4)[1]);
                    assert(magic@[2] == s.take(4)[2]);
                    assert(magic@[3] == s.take(4)[3]);
                }
            }
            return Err(corruption("bad NBF magic"));
        }
        proof {
            assert(magic@ =~= s.take(4));
            assert(s.take(4) =~= seq![78u8, 79u8, 86u8, 65u8]);
        }
        let version_bytes = self.take(4)?;
        let version = get_u32(version_bytes, 0);
        proof {
            assert(version_bytes@ =~= s.subrange(4, 8));
            assert(read_be32(version_bytes@, 0) == read_be32(s, 4));
        }
        if version != 1 {
            return Err(NovaError::Unsupported("unsupported NBF format version".to_owned()));
        }
        Ok(())
    }

    /// Consumes one minimal varint.
    pub fn read_varint_value(&mut self) -> (r: Result<u64>)
        requires
            old(self).wf(),
        ensures
            final(self).wf(),
            final(self).input() == old(self).input(),
            ({
                let s = old(self).input().skip(old(self).position() as int);
                &&& (r is Ok) == has_varint_prefix(s)
                &&& match r {
                    Ok(v) => s.take(varint_bytes(v as nat).len() as int) == varint_bytes(v as nat)
                        && varint_bytes(v as nat).len() <= s.len() && final(self).position()
                        == old(self).position() + varint_bytes(v as nat).len(),
                    Err(e) => e is Corruption && final(self).position() == old(self).position(),
                }
            }),
    {
        let rest = vstd::slice::slice_subrange(self.input, self.position, self.input.len());
        proof {
            assert(rest@ =~= self.input@.skip(self.position as int));
        }
        let (value, consumed) = read_varint(rest)?;
        self.position = self.position + consumed;
        Ok(value)
    }

    /// Consumes a byte length that must fit the remaining input.
    pub fn read_length(&mut self, label: &str) -> (r: Result<usize>)
        requires
            old(self).wf(),
        ensures
            final(self).wf(),
            final(self).input() == old(self).input(),
            ({
                let s = old(self).input().skip(old(self).position() as int);
                let v = leading_varint(s);
                let used = varint_bytes(v as nat).len();
                &&& (r is Ok) == (has_varint_prefix(s) && v <= usize::MAX && v <= s.len() - used)
                &&& r matches Ok(n) ==> n == v && final(self).position() == old(self).position() + used
                &&& r matches Err(e) ==> e is Corruption
                &&& r is Err && has_varint_prefix(s) ==> final(self).position() == old(self).position() + used
                &&& r is Err && !has_varint_prefix(s) ==> final(self).position() == old(self).position()
            }),
    {
        let value = self.read_varint_value()?;
        proof {
            let s = old(self).input().skip(old(self).position() as int);
            let w = leading_varint(s);
            lemma_varint_prefix_unique(s, value, w);
        }
        if value > usize::MAX as u64 {
            return Err(corruption("length does not fit usize"));
        }
        let length = value as usize;
        if length > self.input.len() - self.position {
            return Err(corruption("declared length exceeds remaining input"));
        }
        Ok(length)
    }

    /// Consumes a collection count that must respect the collection limit
    /// and fit the remaining input.
    pub fn read_count(&mut self, label: &str) -> (r: Result<usize>)
        requires
            old(self).wf(),
        ensures
            final(self).wf(),
            final(self).input() == old(self).input(),
            ({
                let s = old(self).input().skip(old(self).position() as int);
                let v = leading_varint(s);
                let used = varint_bytes(v as nat).len();
                &&& (r is Ok) == (has_varint_prefix(s) && v <= MAX_COLLECTION_LENGTH && v <= s.len() - used)
                &&& r matches Ok(n) ==> n == v && final(self).position() == old(self).position() + used
                &&& r matches Err(e) ==> e is Corruption
                &&& r is Err && has_varint_prefix(s) ==> final(self).position() == old(self).position() + used
                &&& r is Err && !has_varint_prefix(s) ==> final(self).position() == old(self).position()
            }),
    {
        let value = self.read_varint_value()?;
        proof {
            let s = old(self).input().skip(old(self).position() as int);
            let w = leading_varint(s);
            lemma_varint_prefix_unique(s, value, w);
        }
        if value > MAX_COLLECTION_LENGTH {
            return Err(corruption("declared count exceeds limit"));
        }
        let count = value as usize;
        if count > self.input.len() - self.position {
            return Err(corruption("declared count exceeds remaining input"));
        }
        Ok(count)
    }
}

} // verus!
