//! NovaId: NovaDB's 128-bit, time-ordered document identifier.
//!
//! Binary layout (16 bytes): bytes 0..8 hold the creation time in Unix epoch
//! milliseconds, big-endian; bytes 8..16 hold 64 random bits.
use vstd::prelude::*;

use crate::bytes::{be64, get_u64, read_be64};
use crate::entropy;
use crate::error::{NovaError, Result};
use crate::text::{push_char, utf8_bytes};
use vstd::string::StringSliceAdditionalSpecFns;

verus! {

/// Binary length of a `NovaId` in bytes.
pub const NOVA_ID_LENGTH: usize = 16;

/// Prefix used in a `NovaId`'s human-readable form.
pub const NOVA_ID_PREFIX: &'static str = "nova_";

/// A globally unique 128-bit document identifier; byte order is creation order.
#[derive(Debug, Copy, Clone, PartialEq, Eq, PartialOrd, Ord, Hash)]
pub struct NovaId([u8; 16]);

impl View for NovaId {
    type V = Seq<u8>;

    closed spec fn view(&self) -> Seq<u8> {
        self.0@
    }
}

/// An id is always sixteen bytes.
pub proof fn lemma_id_len(id: NovaId)
    ensures
        id@.len() == 16,
{
}

/// Lowercase hexadecimal digit for `n < 16`.
pub open spec fn hex_digit(n: int) -> char {
    if n < 10 {
        (n + 48) as char
    } else {
        (n + 87) as char
    }
}

/// Two lowercase hex digits per byte, most significant nibble first.
pub open spec fn hex_of(bytes: Seq<u8>) -> Seq<char>
    decreases bytes.len(),
{
    if bytes.len() == 0 {
        Seq::empty()
    } else {
        hex_of(bytes.drop_last()).push(hex_digit((bytes.last() / 16) as int)).push(
            hex_digit((bytes.last() % 16) as int),
        )
    }
}

/// The value of a hex digit byte (either case).
pub open spec fn nibble(b: u8) -> Option<u8> {
    if 48 <= b <= 57 {
        Some((b - 48) as u8)
    } else if 97 <= b <= 102 {
        Some((b - 87) as u8)
    } else if 65 <= b <= 70 {
        Some((b - 55) as u8)
    } else {
        None
    }
}

/// The bytes of the prefix `nova_`.
pub open spec fn prefix_bytes() -> Seq<u8> {
    seq![110u8, 111u8, 118u8, 97u8, 95u8]
}

/// The hex part of an id's text: everything after a leading `nova_`, if any.
pub open spec fn hex_part(b: Seq<u8>) -> Seq<u8> {
    if b.len() >= 5 && b.take(5) == prefix_bytes() {
        b.skip(5)
    } else {
        b
    }
}

/// The id bytes that a text form denotes, if it is one.
pub open spec fn parse_id(b: Seq<u8>) -> Option<Seq<u8>> {
    let h = hex_part(b);
    if h.len() == 32 && forall|i: int| 0 <= i < 32 ==> #[trigger] nibble(h[i]) is Some {
        Some(
            Seq::new(
                16,
                |i: int| (nibble(h[2 * i])->0 * 16 + nibble(h[2 * i + 1])->0) as u8,
            ),
        )
    } else {
        None
    }
}

fn hex_char(n: u8) -> (c: char)
    requires
        n < 16,
    ensures
        c == hex_digit(n as int),
{
    if n < 10 {
        (n + 48) as char
    } else {
        (n + 87) as char
    }
}

fn decode_nibble(b: u8) -> (r: Option<u8>)
    ensures
        r == nibble(b),
{
    if 48 <= b && b <= 57 {
        Some(b - 48)
    } else if 97 <= b && b <= 102 {
        Some(b - 87)
    } else if 65 <= b && b <= 70 {
        Some(b - 55)
    } else {
        None
    }
}

/// Encodes bytes as lowercase hex digits.
pub fn encode_hex(bytes: &[u8]) -> (r: String)
    ensures
        r@ == hex_of(bytes@),
{
    let mut out = String::new();
    let mut i: usize = 0;
    while i < bytes.len()
        invariant
            i <= bytes.len(),
            out@ == hex_of(bytes@.take(i as int)),
        decreases bytes.len() - i,
    {
        let b = bytes[i];
        push_char(&mut out, hex_char(b / 16));
        push_char(&mut out, hex_char(b % 16));
        proof {
            assert(bytes@.take(i + 1).drop_last() =~= bytes@.take(i as int));
        }
        i = i + 1;
    }
    proof {
        assert(bytes@.take(i as int) =~= bytes@);
    }
    out
}

/// An `InvalidArgument` error whose message is `text` and a number.
fn invalid_with(text: &str, n: usize) -> (e: NovaError)
    ensures
        e is InvalidArgument,
{
    let mut m = String::new();
    crate::text::push_str(&mut m, text);
    crate::text::push_decimal(&mut m, n as u128);
    NovaError::InvalidArgument(m)
}

impl NovaId {
    /// Generates a fresh id from the current wall-clock time and OS entropy.
    ///
    /// Fails with `Internal` when the entropy source is unavailable.
    pub fn generate() -> (r: Result<NovaId>)
        ensures
            r matches Err(e) ==> e is Internal,
    {
        let mut random: [u8; 8] = [0u8; 8];
        match entropy::fill(&mut random) {
            Ok(()) => {},
            Err(_) => {
                return Err(NovaError::Internal("entropy source failure".to_owned()));
            },
        }
        Ok(NovaId::new(epoch_millis(), random))
    }

    /// Builds an id from explicit components.
    pub fn new(epoch_millis: u64, random: [u8; 8]) -> (r: NovaId)
        ensures
            r@ == be64(epoch_millis) + random@,
    {
        let bytes: [u8; 16] = [
            (epoch_millis >> 56u64) as u8,
            (epoch_millis >> 48u64) as u8,
            (epoch_millis >> 40u64) as u8,
            (epoch_millis >> 32u64) as u8,
            (epoch_millis >> 24u64) as u8,
            (epoch_millis >> 16u64) as u8,
            (epoch_millis >> 8u64) as u8,
            epoch_millis as u8,
            random[0],
            random[1],
            random[2],
            random[3],
            random[4],
            random[5],
            random[6],
            random[7],
        ];
        let r = NovaId(bytes);
        assert(r@ =~= be64(epoch_millis) + random@);
        r
    }

    /// Interprets exactly sixteen bytes as an id.
    ///
    /// Fails with `InvalidArgument` for any other length.
    pub fn from_bytes(bytes: &[u8]) -> (r: Result<NovaId>)
        ensures
            (r is Ok) == (bytes@.len() == NOVA_ID_LENGTH),
            match r {
                Ok(id) => id@ == bytes@,
                Err(e) => e is InvalidArgument,
            },
    {
        if bytes.len() != NOVA_ID_LENGTH {
            return Err(invalid_with("nova id must be exactly 16 bytes; got ", bytes.len()));
        }
        let arr: [u8; 16] = [
            bytes[0],
            bytes[1],
            bytes[2],
            bytes[3],
            bytes[4],
            bytes[5],
            bytes[6],
            bytes[7],
            bytes[8],
            bytes[9],
            bytes[10],
            bytes[11],
            bytes[12],
            bytes[13],
            bytes[14],
            bytes[15],
        ];
        let r = NovaId(arr);
        assert(r@ =~= bytes@);
        Ok(r)
    }

    /// Returns the raw 16-byte representation.
    pub fn as_bytes(&self) -> (r: &[u8; 16])
        ensures
            r@ == self@,
    {
        &self.0
    }

    /// Returns the id as an owned byte array.
    pub fn to_bytes(self) -> (r: [u8; 16])
        ensures
            r@ == self@,
    {
        self.0
    }

    /// The creation timestamp (Unix epoch milliseconds) embedded in this id.
    pub fn timestamp_ms(&self) -> (r: u64)
        ensures
            r == read_be64(self@, 0),
    {
        get_u64(self.0.as_slice(), 0)
    }

    /// The 64 random bits embedded in this id.
    pub fn random_half(&self) -> (r: [u8; 8])
        ensures
            r@ == self@.skip(8),
    {
        let r: [u8; 8] = [
            self.0[8],
            self.0[9],
            self.0[10],
            self.0[11],
            self.0[12],
            self.0[13],
            self.0[14],
            self.0[15],
        ];
        assert(r@ =~= self@.skip(8));
        r
    }

    /// Encodes the id as 32 lowercase hex digits (no prefix).
    pub fn to_hex(&self) -> (r: String)
        ensures
            r@ == hex_of(self@),
    {
        encode_hex(self.0.as_slice())
    }

    /// The human-readable form: `nova_` followed by the 32 hex digits.
    pub fn to_string(&self) -> (r: String)
        ensures
            r@ == seq!['n', 'o', 'v', 'a', '_'] + hex_of(self@),
    {
        let mut out = String::new();
        push_char(&mut out, 'n');
        push_char(&mut out, 'o');
        push_char(&mut out, 'v');
        push_char(&mut out, 'a');
        push_char(&mut out, '_');
        let hex = self.to_hex();
        crate::text::push_str(&mut out, hex.as_str());
        assert(out@ =~= seq!['n', 'o', 'v', 'a', '_'] + hex_of(self@));
        out
    }

    /// Parses an id from `nova_`-prefixed or bare 32-hex-digit text; both
    /// lowercase and uppercase digits are accepted.
    ///
    /// Fails with `InvalidArgument` for any other text.
    pub fn parse_str(s: &str) -> (r: Result<NovaId>)
        ensures
            match r {
                Ok(id) => parse_id(s.spec_bytes()) == Some(id@),
                Err(e) => parse_id(s.spec_bytes()) is None && e is InvalidArgument,
            },
    {
        let bytes = s.as_bytes();
        let ghost b = bytes@;
        let has_prefix = bytes.len() >= 5 && bytes[0] == 110u8 && bytes[1] == 111u8 && bytes[2]
            == 118u8 && bytes[3] == 97u8 && bytes[4] == 95u8;
        let start: usize = if has_prefix {
            5
        } else {
            0
        };
        proof {
            if has_prefix {
                assert(b.take(5) =~= prefix_bytes());
            } else if b.len() >= 5 && b.take(5) == prefix_bytes() {
                assert(b[0] == b.take(5)[0] && b[1] == b.take(5)[1] && b[2] == b.take(5)[2]
                    && b[3] == b.take(5)[3] && b[4] == b.take(5)[4]);
            }
            assert(hex_part(b) =~= b.skip(start as int));
        }
        if bytes.len() - start != 32 {
            return Err(invalid_with("nova id must be exactly 32 hex digits; got ", bytes.len() - start));
        }
        let ghost h = hex_part(b);
        let mut out: [u8; 16] = [0u8; 16];
        let mut i: usize = 0;
        while i < 16
            invariant
                i <= 16,
                bytes@ == b,
                b == s.spec_bytes(),
                h == b.skip(start as int),
                h == hex_part(b),
                h.len() == 32,
                start <= 5,
                start + 32 == b.len(),
                forall|k: int| 0 <= k < 2 * i ==> #[trigger] nibble(h[k]) is Some,
                forall|k: int|
                    0 <= k < i ==> #[trigger] out@[k] == (nibble(h[2 * k])->0 * 16 + nibble(
                        h[2 * k + 1],
                    )->0) as u8,
            decreases 16 - i,
        {
            let hi = match decode_nibble(bytes[start + 2 * i]) {
                Some(v) => v,
                None => {
                    proof {
                        assert(h[2 * i as int] == b[start + 2 * i]);
                        assert(nibble(h[2 * i as int]) is None);
                        assert(!(forall|k: int| 0 <= k < 32 ==> #[trigger] nibble(h[k]) is Some));
                        assert(parse_id(b) is None);
                    }
                    return Err(invalid_with("invalid hex digit at position ", start + 2 * i));
                },
            };
            let lo = match decode_nibble(bytes[start + 2 * i + 1]) {
                Some(v) => v,
                None => {
                    proof {
                        assert(h[2 * i + 1] == b[start + 2 * i + 1]);
                        assert(nibble(h[2 * i + 1]) is None);
                        assert(!(forall|k: int| 0 <= k < 32 ==> #[trigger] nibble(h[k]) is Some));
                        assert(parse_id(b) is None);
                    }
                    return Err(invalid_with("invalid hex digit at position ", start + 2 * i + 1));
                },
            };
            out[i] = hi * 16 + lo;
            i = i + 1;
        }
        let r = NovaId(out);
        assert(r@ =~= parse_id(b)->0);
        Ok(r)
    }
}

impl core::str::FromStr for NovaId {
    type Err = NovaError;

    fn from_str(s: &str) -> (r: Result<NovaId>)
        ensures
            match r {
                Ok(id) => parse_id(s.spec_bytes()) == Some(id@),
                Err(e) => parse_id(s.spec_bytes()) is None && e is InvalidArgument,
            },
    {
        NovaId::parse_str(s)
    }
}

/// A clock reading in milliseconds as a `u64`: 0 for a reading before the
/// epoch, `u64::MAX` for one beyond what a `u64` holds.
pub open spec fn reading_millis_u64(reading: Option<u128>) -> u64 {
    match reading {
        Some(m) => if m > u64::MAX { u64::MAX } else { m as u64 },
        None => 0,
    }
}

/// Converts a clock reading to `u64` milliseconds, saturating.
pub fn millis_from_reading(reading: Option<u128>) -> (r: u64)
    ensures
        r == reading_millis_u64(reading),
{
    match reading {
        Some(m) => if m > u64::MAX as u128 {
            u64::MAX
        } else {
            m as u64
        },
        None => 0,
    }
}

/// Current Unix epoch milliseconds; 0 when the clock is before the epoch,
/// `u64::MAX` when it is beyond what a `u64` holds. The reading depends on
/// the time, so any value may come back.
fn epoch_millis() -> u64 {
    millis_from_reading(entropy::system_millis())
}

/// Whether two ids are the same.
pub fn ids_equal(a: &NovaId, b: &NovaId) -> (r: bool)
    ensures
        r == (a@ == b@),
{
    let x = a.as_bytes();
    let y = b.as_bytes();
    let mut i: usize = 0;
    while i < 16
        invariant
            i <= 16,
            x@ == a@,
            y@ == b@,
            x@.len() == 16,
            y@.len() == 16,
            forall|j: int| 0 <= j < i ==> x@[j] == y@[j],
        decreases 16 - i,
    {
        if x[i] != y[i] {
            return false;
        }
        i = i + 1;
    }
    assert(x@ =~= y@);
    true
}

/// The digits of `hex_of`: two per byte, high nibble first.
proof fn lemma_hex_of_digits(v: Seq<u8>)
    ensures
        hex_of(v).len() == 2 * v.len(),
        forall|i: int|
            0 <= i < v.len() ==> #[trigger] hex_of(v)[2 * i] == hex_digit((v[i] / 16) as int) && hex_of(v)[2 * i + 1]
                == hex_digit((v[i] % 16) as int),
    decreases v.len(),
{
    if v.len() > 0 {
        let p = v.drop_last();
        lemma_hex_of_digits(p);
        assert forall|i: int| 0 <= i < v.len() implies #[trigger] hex_of(v)[2 * i] == hex_digit((v[i] / 16) as int)
            && hex_of(v)[2 * i + 1] == hex_digit((v[i] % 16) as int) by {
            if i < p.len() {
                assert(hex_of(p)[2 * i] == hex_digit((p[i] / 16) as int));
                assert(v[i] == p[i]);
            }
        }
    }
}

/// A hex digit is ASCII and reads back as its value.
proof fn lemma_hex_digit(n: int)
    requires
        0 <= n < 16,
    ensures
        '\0' <= hex_digit(n) <= '\u{7f}',
        nibble(hex_digit(n) as u8) == Some(n as u8),
        hex_digit(n) as u8 != 110u8,
{
}

/// The bytes of `hex_of(v)` as text.
proof fn lemma_hex_text(v: Seq<u8>)
    ensures
        vstd::utf8::is_ascii_chars(hex_of(v)),
        utf8_bytes(hex_of(v)).len() == 2 * v.len(),
        forall|k: int| 0 <= k < 2 * v.len() ==> #[trigger] utf8_bytes(hex_of(v))[k] == hex_of(v)[k] as u8,
{
    lemma_hex_of_digits(v);
    let t = hex_of(v);
    assert forall|k: int| 0 <= k < t.len() implies '\0' <= #[trigger] t[k] <= '\u{7f}' by {
        let i = k / 2;
        assert(k == 2 * i || k == 2 * i + 1);
        assert(0 <= i < v.len());
        lemma_hex_digit((v[i] / 16) as int);
        lemma_hex_digit((v[i] % 16) as int);
        assert(hex_of(v)[2 * i] == hex_digit((v[i] / 16) as int));
        if k == 2 * i {
            assert(t[k] == hex_digit((v[i] / 16) as int));
        } else {
            assert(t[k] == hex_digit((v[i] % 16) as int));
        }
    }
    vstd::utf8::is_ascii_chars_encode_utf8(t);
}

/// Parsing the hex text of an id gives the id back.
proof fn lemma_parse_hex(v: Seq<u8>, b: Seq<u8>)
    requires
        v.len() == 16,
        b == utf8_bytes(hex_of(v)),
    ensures
        parse_id(b) == Some(v),
{
    lemma_hex_of_digits(v);
    lemma_hex_text(v);
    let t = hex_of(v);
    assert forall|i: int| 0 <= i < 16 implies b[2 * i] == hex_digit((v[i] / 16) as int) as u8 && b[2 * i + 1] == hex_digit(
        (v[i] % 16) as int,
    ) as u8 by {
        assert(t[2 * i] == hex_digit((v[i] / 16) as int));
        assert(b[2 * i] == t[2 * i] as u8);
        assert(b[2 * i + 1] == t[2 * i + 1] as u8);
    }
    assert(b[0] == hex_digit((v[0] / 16) as int) as u8);
    lemma_hex_digit((v[0] / 16) as int);
    assert(hex_part(b) == b);
    assert forall|k: int| 0 <= k < 32 implies #[trigger] nibble(b[k]) is Some by {
        let i = k / 2;
        assert(k == 2 * i || k == 2 * i + 1);
        lemma_hex_digit((v[i] / 16) as int);
        lemma_hex_digit((v[i] % 16) as int);
    }
    let r = Seq::new(16, |i: int| (nibble(b[2 * i])->0 * 16 + nibble(b[2 * i + 1])->0) as u8);
    assert forall|i: int| 0 <= i < 16 implies r[i] == v[i] by {
        lemma_hex_digit((v[i] / 16) as int);
        lemma_hex_digit((v[i] % 16) as int);
    }
    assert(r =~= v);
}

/// An id's text forms read back as the id: `to_hex` and `to_string` (with
/// its `nova_` prefix) both parse to the same bytes.
pub proof fn law_text_round_trip(id: NovaId)
    ensures
        parse_id(utf8_bytes(hex_of(id@))) == Some(id@),
        parse_id(utf8_bytes(seq!['n', 'o', 'v', 'a', '_'] + hex_of(id@))) == Some(id@),
{
    let v = id@;
    assert(v.len() == 16);
    lemma_parse_hex(v, utf8_bytes(hex_of(v)));
    lemma_hex_text(v);
    lemma_hex_of_digits(v);
    let p = seq!['n', 'o', 'v', 'a', '_'];
    let t = hex_of(v);
    assert(vstd::utf8::is_ascii_chars(p));
    vstd::utf8::is_ascii_chars_encode_utf8(p);
    assert(vstd::utf8::is_ascii_chars(p + t)) by {
        assert forall|k: int| 0 <= k < (p + t).len() implies '\0' <= #[trigger] (p + t)[k] <= '\u{7f}' by {
            if k >= 5 {
                assert((p + t)[k] == t[k - 5]);
            }
        }
    }
    vstd::utf8::is_ascii_chars_encode_utf8(p + t);
    let b = utf8_bytes(p + t);
    assert(t.len() == 32);
    assert(utf8_bytes(t).len() == 32);
    assert(b.len() == 37);
    assert(b.take(5) =~= prefix_bytes()) by {
        assert forall|k: int| 0 <= k < 5 implies b.take(5)[k] == prefix_bytes()[k] by {
            assert(b[k] == (p + t)[k] as u8);
        }
    }
    assert(b.skip(5) =~= utf8_bytes(t)) by {
        assert forall|k: int| 0 <= k < b.skip(5).len() implies b.skip(5)[k] == utf8_bytes(t)[k] by {
            assert(b[k + 5] == (p + t)[k + 5] as u8);
            assert((p + t)[k + 5] == t[k]);
        }
    }
    assert(hex_part(b) == utf8_bytes(t));
}

} // verus!
