//! The index catalog: named single-field index definitions, the rules their
//! names and field paths obey, their metadata files, and the set of open
//! indexes kept in name order.
use vstd::prelude::*;

use crate::assistant::{identifier_ok, valid_identifier};
use crate::bytes::{be16, be32, copy_range, get_u16, get_u32, lemma_read_be16, lemma_read_be32, push_all, push_u16, push_u32, read_be16, read_be32};
use crate::checksum::{crc32, crc32_of, zeroed};
use crate::error::{NovaError, Result};
use crate::index::{compare_keys, inserted, BPlusTree, IndexKey, KeyView};
use crate::nova_id::{ids_equal, NovaId};
use crate::text::{compare_bytes, lemma_seq_order_antisym, lemma_seq_order_trans, lemma_seq_order_zero, seq_order};
use crate::telemetry::strings_view;
use crate::text::{push_char, push_str, string_from_utf8, utf8_bytes};

verus! {

/// Persistent metadata describing one named index.
#[derive(Debug, Clone, PartialEq, Eq)]
pub struct IndexDefinition {
    /// Database-wide index name.
    pub name: String,
    /// Collection whose documents are indexed.
    pub collection: String,
    /// One nested document path, represented as path segments.
    pub field: Vec<String>,
}

/// Path segments joined with `.`.
pub open spec fn dotted(parts: Seq<Seq<char>>) -> Seq<char>
    decreases parts.len(),
{
    if parts.len() == 0 {
        Seq::empty()
    } else if parts.len() == 1 {
        parts[0]
    } else {
        dotted(parts.drop_last()) + seq!['.'] + parts.last()
    }
}

/// The dotted form of a field path, as `field.join(".")` writes it.
pub fn join_field(field: &Vec<String>) -> (r: String)
    ensures
        r@ == dotted(strings_view(field@)),
{
    let ghost parts = strings_view(field@);
    let mut out = String::new();
    let mut i: usize = 0;
    while i < field.len()
        invariant
            i <= field@.len(),
            parts == strings_view(field@),
            out@ == dotted(parts.take(i as int)),
        decreases field.len() - i,
    {
        proof {
            assert(parts.take(i as int + 1).drop_last() =~= parts.take(i as int));
        }
        if i > 0 {
            push_char(&mut out, '.');
        }
        push_str(&mut out, field[i].as_str());
        proof {
            if i == 0 {
                assert(parts.take(1) =~= seq![parts[0]]);
                assert(out@ =~= parts[0]);
            }
        }
        i = i + 1;
    }
    assert(parts.take(i as int) =~= parts);
    out
}

/// Metadata file magic `NVIM`.
pub const META_MAGIC: [u8; 4] = [78u8, 86u8, 73u8, 77u8];

/// Metadata format version.
pub const META_VERSION: u16 = 1;

/// Checks an index, collection or field identifier: non-empty, letters,
/// digits and `_` only. Anything else is `InvalidArgument`.
pub fn validate_identifier(value: &str) -> (r: Result<()>)
    ensures
        r is Ok <==> identifier_ok(value@),
        r matches Err(e) ==> e is InvalidArgument,
{
    if !valid_identifier(value) {
        return Err(NovaError::InvalidArgument("invalid identifier".to_owned()));
    }
    Ok(())
}

/// Every segment of a field path is an identifier, and there is one.
pub open spec fn field_ok(field: Seq<Seq<char>>) -> bool {
    field.len() > 0 && forall|i: int| 0 <= i < field.len() ==> identifier_ok(#[trigger] field[i])
}

/// Checks a field path: at least one segment, each an identifier. Anything
/// else is `InvalidArgument`.
pub fn validate_field(field: &Vec<String>) -> (r: Result<()>)
    ensures
        r is Ok <==> field_ok(strings_view(field@)),
        r matches Err(e) ==> e is InvalidArgument,
{
    if field.len() == 0 {
        return Err(NovaError::InvalidArgument("index field path cannot be empty".to_owned()));
    }
    let mut i: usize = 0;
    while i < field.len()
        invariant
            i <= field@.len(),
            forall|j: int| 0 <= j < i ==> identifier_ok(#[trigger] strings_view(field@)[j]),
        decreases field@.len() - i,
    {
        match validate_identifier(field[i].as_str()) {
            Ok(()) => {},
            Err(e) => {
                assert(!identifier_ok(strings_view(field@)[i as int]));
                return Err(e);
            },
        }
        i = i + 1;
    }
    Ok(())
}

/// The abstract value of a definition: name, collection and field path.
pub open spec fn definition_view(d: IndexDefinition) -> (Seq<char>, Seq<char>, Seq<Seq<char>>) {
    (d.name@, d.collection@, strings_view(d.field@))
}

/// A length-prefixed UTF-8 string.
pub open spec fn text_bytes(s: Seq<char>) -> Seq<u8> {
    be32(utf8_bytes(s).len() as u32) + utf8_bytes(s)
}

/// Length-prefixed strings, in order.
pub open spec fn texts_bytes(ss: Seq<Seq<char>>) -> Seq<u8>
    decreases ss.len(),
{
    if ss.len() == 0 {
        Seq::empty()
    } else {
        texts_bytes(ss.drop_last()) + text_bytes(ss.last())
    }
}

/// The metadata before its checksum.
pub open spec fn definition_payload(d: (Seq<char>, Seq<char>, Seq<Seq<char>>)) -> Seq<u8> {
    META_MAGIC@ + be16(META_VERSION) + text_bytes(d.0) + text_bytes(d.1) + be32(d.2.len() as u32) + texts_bytes(d.2)
}

/// The metadata file of a definition: the payload, then its CRC-32.
pub open spec fn definition_bytes(d: (Seq<char>, Seq<char>, Seq<Seq<char>>)) -> Seq<u8> {
    definition_payload(d) + be32(crc32_of(definition_payload(d)))
}

/// Every length of the definition fits its 32-bit field.
pub open spec fn definition_encodable(d: (Seq<char>, Seq<char>, Seq<Seq<char>>)) -> bool {
    &&& utf8_bytes(d.0).len() <= 0xFFFF_FFFF
    &&& utf8_bytes(d.1).len() <= 0xFFFF_FFFF
    &&& d.2.len() <= 0xFFFF_FFFF
    &&& forall|i: int| 0 <= i < d.2.len() ==> utf8_bytes(#[trigger] d.2[i]).len() <= 0xFFFF_FFFF
}

/// Appends a length-prefixed string.
fn write_text(out: &mut Vec<u8>, value: &str) -> (r: Result<()>)
    ensures
        r is Ok <==> utf8_bytes(value@).len() <= 0xFFFF_FFFF,
        r is Ok ==> final(out)@ == old(out)@ + text_bytes(value@),
        r matches Err(e) ==> e is Storage,
{
    let bytes = value.as_bytes();
    assert(bytes@ == utf8_bytes(value@));
    if bytes.len() as u64 > 0xFFFF_FFFFu64 {
        return Err(NovaError::Storage("metadata string is too long".to_owned()));
    }
    push_u32(out, bytes.len() as u32);
    push_all(out, bytes);
    assert(out@ =~= old(out)@ + text_bytes(value@));
    Ok(())
}

/// Encodes a definition as its metadata file. A length that does not fit
/// its 32-bit field is a `Storage` error.
pub fn encode_definition(definition: &IndexDefinition) -> (r: Result<Vec<u8>>)
    ensures
        r is Ok <==> definition_encodable(definition_view(*definition)),
        r matches Ok(b) ==> b@ == definition_bytes(definition_view(*definition)),
        r matches Err(e) ==> e is Storage,
{
    let ghost d = definition_view(*definition);
    let mut out: Vec<u8> = Vec::new();
    push_all(&mut out, META_MAGIC.as_slice());
    push_u16(&mut out, META_VERSION);
    match write_text(&mut out, definition.name.as_str()) {
        Ok(()) => {},
        Err(e) => {
            return Err(e);
        },
    }
    match write_text(&mut out, definition.collection.as_str()) {
        Ok(()) => {},
        Err(e) => {
            return Err(e);
        },
    }
    let count = definition.field.len();
    if count as u64 > 0xFFFF_FFFFu64 {
        return Err(NovaError::Storage("metadata field path is too long".to_owned()));
    }
    push_u32(&mut out, count as u32);
    let ghost head = out@;
    let mut i: usize = 0;
    while i < count
        invariant
            i <= count,
            count == definition.field@.len(),
            d == definition_view(*definition),
            out@ == head + texts_bytes(d.2.take(i as int)),
            forall|j: int| 0 <= j < i ==> utf8_bytes(#[trigger] d.2[j]).len() <= 0xFFFF_FFFF,
        decreases count - i,
    {
        match write_text(&mut out, definition.field[i].as_str()) {
            Ok(()) => {},
            Err(e) => {
                assert(d.2[i as int] == definition.field@[i as int]@);
                assert(!definition_encodable(d));
                return Err(e);
            },
        }
        proof {
            assert(d.2.take(i + 1).drop_last() =~= d.2.take(i as int));
            assert(d.2[i as int] == definition.field@[i as int]@);
        }
        i = i + 1;
    }
    assert(d.2.take(i as int) =~= d.2);
    assert(out@ =~= definition_payload(d));
    let checksum = crc32(out.as_slice(), 0, 0);
    assert(zeroed(out@, 0, 0) =~= out@);
    push_u32(&mut out, checksum);
    Ok(out)
}

/// A `Corruption` error.
fn corruption(message: &str) -> (e: NovaError)
    ensures
        e is Corruption,
{
    NovaError::Corruption(message.to_owned())
}

/// Reads a length-prefixed UTF-8 string at `*pos`, within `input[..end]`.
fn read_text(input: &[u8], end: usize, pos: &mut usize) -> (r: Result<String>)
    requires
        *old(pos) <= end <= input@.len(),
    ensures
        r matches Ok(t) ==> *old(pos) <= *final(pos) <= end && input@.subrange(*old(pos) as int, *final(pos) as int)
            == text_bytes(t@),
        r matches Err(e) ==> e is Corruption,
        forall|s: Seq<char>|
            *old(pos) + #[trigger] text_bytes(s).len() <= end && input@.subrange(
                *old(pos) as int,
                *old(pos) + text_bytes(s).len(),
            ) == text_bytes(s) && utf8_bytes(s).len() <= 0xFFFF_FFFF ==> (r matches Ok(t) && t@ == s && *final(pos)
                == *old(pos) + text_bytes(s).len()),
{
    let start = *pos;
    if end - start < 4 {
        return Err(corruption("truncated index metadata"));
    }
    let length = get_u32(input, start) as usize;
    let body = start + 4;
    if length > end - body {
        proof {
            assert forall|s: Seq<char>|
                start + #[trigger] text_bytes(s).len() <= end && input@.subrange(start as int, start + text_bytes(s).len())
                    == text_bytes(s) && utf8_bytes(s).len() <= 0xFFFF_FFFF implies false by {
                let t = text_bytes(s);
                assert(input@.subrange(start as int, start + 4) =~= t.subrange(0, 4));
                assert(t.subrange(0, 4) =~= be32(utf8_bytes(s).len() as u32));
                crate::bytes::lemma_be32_round_trip(utf8_bytes(s).len() as u32, input@, start as int);
            }
        }
        return Err(corruption("impossible index metadata string length"));
    }
    let raw = copy_range(input, body, body + length);
    *pos = body + length;
    proof {
        assert forall|s: Seq<char>|
            start + #[trigger] text_bytes(s).len() <= end && input@.subrange(start as int, start + text_bytes(s).len())
                == text_bytes(s) && utf8_bytes(s).len() <= 0xFFFF_FFFF implies utf8_bytes(s).len() == length && raw@
                == utf8_bytes(s) by {
            let t = text_bytes(s);
            assert(input@.subrange(start as int, start + 4) =~= t.subrange(0, 4));
            assert(t.subrange(0, 4) =~= be32(utf8_bytes(s).len() as u32));
            crate::bytes::lemma_be32_round_trip(utf8_bytes(s).len() as u32, input@, start as int);
            assert(raw@ =~= t.subrange(4, t.len() as int));
        }
    }
    match string_from_utf8(raw) {
        Some(text) => {
            proof {
                vstd::utf8::decode_utf8_encode_utf8(input@.subrange(body as int, body + length));
                lemma_read_be32(input@, start as int);
                assert(input@.subrange(start as int, *pos as int) =~= input@.subrange(start as int, start + 4)
                    + input@.subrange(body as int, body + length));
                assert forall|s: Seq<char>|
                    start + #[trigger] text_bytes(s).len() <= end && input@.subrange(start as int, start + text_bytes(s).len())
                        == text_bytes(s) && utf8_bytes(s).len() <= 0xFFFF_FFFF implies text@ == s by {
                    vstd::utf8::encode_utf8_decode_utf8(s);
                }
            }
            Ok(text)
        },
        None => {
            proof {
                assert forall|s: Seq<char>|
                    start + #[trigger] text_bytes(s).len() <= end && input@.subrange(start as int, start + text_bytes(s).len())
                        == text_bytes(s) && utf8_bytes(s).len() <= 0xFFFF_FFFF implies false by {
                    vstd::utf8::encode_utf8_valid_utf8(s);
                }
            }
            Err(corruption("metadata string is not UTF-8"))
        },
    }
}

/// The strings' bytes split where the list does.
proof fn lemma_texts_split(ss: Seq<Seq<char>>, i: int)
    requires
        0 <= i <= ss.len(),
    ensures
        texts_bytes(ss) == texts_bytes(ss.take(i)) + texts_bytes(ss.skip(i)),
    decreases ss.len(),
{
    if i == ss.len() {
        assert(ss.take(i) =~= ss);
        assert(ss.skip(i).len() == 0);
        assert(texts_bytes(ss) =~= texts_bytes(ss.take(i)) + texts_bytes(ss.skip(i)));
    } else {
        lemma_texts_split(ss.drop_last(), i);
        assert(ss.drop_last().take(i) =~= ss.take(i));
        assert(ss.skip(i).drop_last() =~= ss.drop_last().skip(i));
        assert(ss.skip(i).last() == ss.last());
        assert(texts_bytes(ss) =~= texts_bytes(ss.take(i)) + texts_bytes(ss.skip(i)));
    }
}

/// Each string takes at least its four-byte length.
proof fn lemma_texts_len(ss: Seq<Seq<char>>)
    ensures
        texts_bytes(ss).len() >= 4 * ss.len(),
    decreases ss.len(),
{
    if ss.len() > 0 {
        lemma_texts_len(ss.drop_last());
    }
}

/// A metadata file that names another format version, with a good magic
/// and checksum.
pub open spec fn meta_unsupported(b: Seq<u8>) -> bool {
    &&& b.len() >= 10
    &&& b.take(4) == META_MAGIC@
    &&& read_be32(b, b.len() - 4) == crc32_of(b.take(b.len() - 4))
    &&& read_be16(b, 4) != META_VERSION
}

/// Decodes a metadata file.
///
/// A file of another format version is `Unsupported`. A short file, a bad
/// magic or checksum, a string that runs past the end or is not UTF-8, an
/// empty or impossible field count, and trailing bytes are `Corruption`.
/// On success the input is exactly the encoding of the result; every
/// encoding of a definition with a field path decodes to it.
#[verifier::rlimit(100)]
#[verifier::spinoff_prover]
pub fn decode_definition(bytes: &[u8]) -> (r: Result<IndexDefinition>)
    ensures
        r matches Ok(d) ==> bytes@ == definition_bytes(definition_view(d)) && d.field@.len() > 0,
        (r matches Err(e) && e is Unsupported) <==> meta_unsupported(bytes@),
        r matches Err(e) ==> e is Corruption || e is Unsupported,
        (exists|d: (Seq<char>, Seq<char>, Seq<Seq<char>>)|
            d.2.len() > 0 && definition_encodable(d) && bytes@ == #[trigger] definition_bytes(d)) ==> r is Ok,
{
    let total = bytes.len();
    let ghost good = exists|d: (Seq<char>, Seq<char>, Seq<Seq<char>>)|
        d.2.len() > 0 && definition_encodable(d) && bytes@ == #[trigger] definition_bytes(d);
    let ghost d = choose|d: (Seq<char>, Seq<char>, Seq<Seq<char>>)|
        d.2.len() > 0 && definition_encodable(d) && bytes@ == #[trigger] definition_bytes(d);
    let ghost p = definition_payload(d);
    proof {
        if good {
            assert(text_bytes(d.0).len() >= 4);
            assert(bytes@.len() >= 10);
            assert(bytes@.take(4) =~= META_MAGIC@) by {
                assert(bytes@.take(4) =~= p.take(4));
            }
        }
    }
    if total < 10 || bytes[0] != META_MAGIC[0] || bytes[1] != META_MAGIC[1] || bytes[2] != META_MAGIC[2] || bytes[3]
        != META_MAGIC[3] {
        proof {
            if meta_unsupported(bytes@) {
                assert(bytes@.take(4)[0] == bytes@[0] && bytes@.take(4)[1] == bytes@[1]);
                assert(bytes@.take(4)[2] == bytes@[2] && bytes@.take(4)[3] == bytes@[3]);
            }
            if good {
                assert(bytes@.take(4)[0] == bytes@[0] && bytes@.take(4)[1] == bytes@[1]);
                assert(bytes@.take(4)[2] == bytes@[2] && bytes@.take(4)[3] == bytes@[3]);
            }
        }
        return Err(corruption("invalid index metadata header"));
    }
    assert(bytes@.take(4) =~= META_MAGIC@);
    let end = total - 4;
    let stored = get_u32(bytes, end);
    let payload = copy_range(bytes, 0, end);
    let sum = crc32(payload.as_slice(), 0, 0);
    proof {
        assert(zeroed(payload@, 0, 0) =~= payload@);
        assert(payload@ =~= bytes@.take(end as int));
        if good {
            assert(bytes@.take(end as int) =~= p);
            assert(bytes@.subrange(end as int, total as int) =~= be32(crc32_of(p)));
            crate::bytes::lemma_be32_round_trip(crc32_of(p), bytes@, end as int);
            assert(bytes@.subrange(4, 6) =~= be16(META_VERSION));
            crate::bytes::lemma_be16_round_trip(META_VERSION, bytes@, 4);
        }
    }
    if stored != sum {
        return Err(corruption("index metadata checksum mismatch"));
    }
    if get_u16(bytes, 4) != META_VERSION {
        return Err(NovaError::Unsupported("index metadata version".to_owned()));
    }
    let mut pos: usize = 6;
    proof {
        if good {
            let l0: int = text_bytes(d.0).len() as int;
            assert(p.subrange(6, 6 + l0) =~= text_bytes(d.0));
            assert(bytes@.subrange(6, 6 + l0) =~= p.subrange(6, 6 + l0));
        }
    }
    let name = match read_text(bytes, end, &mut pos) {
        Ok(t) => t,
        Err(e) => {
            return Err(e);
        },
    };
    let after_name = pos;
    proof {
        if good {
            let q: int = 6 + text_bytes(d.0).len() as int;
            let l1: int = text_bytes(d.1).len() as int;
            assert(p.subrange(q, q + l1) =~= text_bytes(d.1));
            assert(bytes@.subrange(q, q + l1) =~= p.subrange(q, q + l1));
        }
    }
    let collection = match read_text(bytes, end, &mut pos) {
        Ok(t) => t,
        Err(e) => {
            return Err(e);
        },
    };
    let count_at = pos;
    let ghost fstart = pos + 4;
    proof {
        if good {
            let q: int = 6 + text_bytes(d.0).len() as int + text_bytes(d.1).len() as int;
            assert(pos == q);
            lemma_texts_len(d.2);
            assert(p.subrange(q, q + 4) =~= be32(d.2.len() as u32));
            assert(bytes@.subrange(q, q + 4) =~= p.subrange(q, q + 4));
            crate::bytes::lemma_be32_round_trip(d.2.len() as u32, bytes@, q);
            assert(bytes@.subrange(q + 4, end as int) =~= texts_bytes(d.2));
        }
    }
    if end - pos < 4 {
        return Err(corruption("truncated index metadata"));
    }
    let count = get_u32(bytes, pos) as usize;
    pos = pos + 4;
    if count == 0 || count > end - pos {
        return Err(corruption("impossible index field count"));
    }
    let mut field: Vec<String> = Vec::new();
    let mut i: usize = 0;
    while i < count
        invariant
            i <= count,
            end == bytes@.len() - 4,
            fstart <= pos <= end,
            fstart == count_at + 4,
            field@.len() == i,
            bytes@.subrange(fstart as int, pos as int) == texts_bytes(strings_view(field@)),
            good ==> count == d.2.len() && strings_view(field@) == d.2.take(i as int) && bytes@.subrange(
                fstart as int,
                end as int,
            ) == texts_bytes(d.2),
            good ==> d.2.len() > 0 && definition_encodable(d),
            good == exists|d2: (Seq<char>, Seq<char>, Seq<Seq<char>>)|
                d2.2.len() > 0 && definition_encodable(d2) && bytes@ == #[trigger] definition_bytes(d2),
            !meta_unsupported(bytes@),
        decreases count - i,
    {
        let before = pos;
        proof {
            if good {
                lemma_texts_split(d.2, i as int);
                lemma_texts_split(d.2, i + 1);
                assert(d.2.take(i + 1).drop_last() =~= d.2.take(i as int));
                let a: int = texts_bytes(d.2.take(i as int)).len() as int;
                let t = text_bytes(d.2[i as int]);
                let tl: int = t.len() as int;
                assert(texts_bytes(d.2.take(i + 1)) == texts_bytes(d.2.take(i as int)) + t);
                assert(pos == fstart + a);
                let whole = bytes@.subrange(fstart as int, end as int);
                assert(whole.subrange(a, a + tl) =~= t) by {
                    assert(whole == texts_bytes(d.2.take(i + 1)) + texts_bytes(d.2.skip(i + 1)));
                }
                assert(bytes@.subrange(pos as int, pos + tl) =~= whole.subrange(a, a + tl));
                assert(utf8_bytes(d.2[i as int]).len() <= 0xFFFF_FFFF);
            }
        }
        let segment = match read_text(bytes, end, &mut pos) {
            Ok(t) => t,
            Err(e) => {
                return Err(e);
            },
        };
        let ghost prev = field@;
        field.push(segment);
        proof {
            assert(strings_view(field@).drop_last() =~= strings_view(prev));
            assert(bytes@.subrange(fstart as int, pos as int) =~= bytes@.subrange(fstart as int, before as int)
                + bytes@.subrange(before as int, pos as int));
            if good {
                assert(strings_view(field@) =~= d.2.take(i + 1));
            }
        }
        i = i + 1;
    }
    if pos != end {
        proof {
            if good {
                assert(d.2.take(count as int) =~= d.2);
            }
        }
        return Err(corruption("trailing index metadata bytes"));
    }
    let def = IndexDefinition { name, collection, field };
    proof {
        let v = definition_view(def);
        lemma_read_be32(bytes@, count_at as int);
        lemma_read_be16(bytes@, 4);
        assert(bytes@.take(end as int) =~= bytes@.subrange(0, 4) + bytes@.subrange(4, 6) + bytes@.subrange(6, after_name as int)
            + bytes@.subrange(after_name as int, count_at as int) + bytes@.subrange(count_at as int, fstart as int)
            + bytes@.subrange(fstart as int, end as int));
        assert(bytes@.subrange(0, 4) =~= META_MAGIC@);
        assert(bytes@.take(end as int) =~= definition_payload(v));
        lemma_read_be32(bytes@, end as int);
        assert(bytes@ =~= bytes@.take(end as int) + bytes@.subrange(end as int, total as int));
    }
    Ok(def)
}

/// A copy of a definition.
pub fn clone_definition(d: &IndexDefinition) -> (r: IndexDefinition)
    ensures
        definition_view(r) == definition_view(*d),
{
    let mut field: Vec<String> = Vec::new();
    let mut i: usize = 0;
    while i < d.field.len()
        invariant
            i <= d.field@.len(),
            field@.len() == i,
            strings_view(field@) == strings_view(d.field@).take(i as int),
        decreases d.field@.len() - i,
    {
        let c = d.field[i].clone();
        let ghost before = field@;
        field.push(c);
        proof {
            assert(c@ == d.field@[i as int]@);
            assert forall|j: int| 0 <= j < i + 1 implies strings_view(field@)[j] == strings_view(d.field@).take(i + 1)[j] by {
                if j < i {
                    assert(field@[j] == before[j]);
                    assert(strings_view(before)[j] == strings_view(d.field@).take(i as int)[j]);
                }
            }
            assert(strings_view(field@) =~= strings_view(d.field@).take(i + 1));
        }
        i = i + 1;
    }
    assert(strings_view(d.field@).take(i as int) =~= strings_view(d.field@));
    IndexDefinition { name: d.name.clone(), collection: d.collection.clone(), field }
}

/// A definition whose names and field path obey the identifier rules.
pub open spec fn definition_ok(d: (Seq<char>, Seq<char>, Seq<Seq<char>>)) -> bool {
    identifier_ok(d.0) && identifier_ok(d.1) && field_ok(d.2)
}

/// Names in strictly increasing byte order.
pub open spec fn names_increasing(names: Seq<Seq<char>>) -> bool {
    forall|i: int, j: int| 0 <= i < j < names.len() ==> seq_order(utf8_bytes(#[trigger] names[i]), utf8_bytes(#[trigger] names[j])) < 0
}

/// Key `k` comes with id bytes `v` in `keys`.
pub open spec fn keyed(keys: Seq<(Option<KeyView>, NovaId)>, k: KeyView, v: Seq<u8>) -> bool {
    exists|i: int| 0 <= i < keys.len() && #[trigger] keys[i].0 == Some(k) && keys[i].1@ == v
}

/// `m` holds exactly the present keys of `keys`, each with the ids it
/// comes with, in increasing order.
pub open spec fn built_from(keys: Seq<(Option<KeyView>, NovaId)>, m: Map<KeyView, Seq<NovaId>>) -> bool {
    &&& forall|k: KeyView| #[trigger] m.contains_key(k) <==> exists|i: int| 0 <= i < keys.len() && #[trigger] keys[i].0 == Some(k)
    &&& forall|k: KeyView| #[trigger] m.contains_key(k) ==> crate::index::ids_sorted(m[k])
    &&& forall|k: KeyView, v: Seq<u8>| m.contains_key(k) ==> (#[trigger] crate::index::id_views(m[k]).contains(v) <==> keyed(keys, k, v))
}

/// One more key taken into a tree.
proof fn lemma_built_step(keys: Seq<(Option<KeyView>, NovaId)>, m0: Map<KeyView, Seq<NovaId>>, m: Map<KeyView, Seq<NovaId>>)
    requires
        keys.len() > 0,
        built_from(keys.drop_last(), m0),
        match keys.last().0 {
            Some(k) => inserted(m0, k, keys.last().1, m),
            None => m == m0,
        },
    ensures
        built_from(keys, m),
{
    let pre = keys.drop_last();
    let n = keys.len() - 1;
    assert forall|q: int| 0 <= q < pre.len() implies #[trigger] pre[q] == keys[q] by {}
    assert forall|k: KeyView| #[trigger] m.contains_key(k) <==> exists|i: int| 0 <= i < keys.len() && #[trigger] keys[i].0 == Some(k) by {
        if m.contains_key(k) {
            if keys.last().0 == Some(k) {
                assert(keys[n].0 == Some(k));
            } else {
                if keys.last().0 is Some {
                    assert(m.remove(keys.last().0->0).contains_key(k));
                }
                assert(m0.contains_key(k));
                let i = choose|i: int| 0 <= i < pre.len() && #[trigger] pre[i].0 == Some(k);
                assert(keys[i].0 == Some(k));
            }
        }
        if exists|i: int| 0 <= i < keys.len() && #[trigger] keys[i].0 == Some(k) {
            let i = choose|i: int| 0 <= i < keys.len() && #[trigger] keys[i].0 == Some(k);
            if i < n {
                assert(pre[i].0 == Some(k));
                assert(m0.contains_key(k));
                if keys.last().0 is Some && keys.last().0->0 != k {
                    assert(m0.remove(keys.last().0->0).contains_key(k));
                }
            }
        }
    }
    assert forall|k: KeyView, v: Seq<u8>| m.contains_key(k) implies (#[trigger] crate::index::id_views(m[k]).contains(v)
        <==> keyed(keys, k, v)) by {
        if keys.last().0 == Some(k) {
            if keyed(keys, k, v) {
                let i = choose|i: int| 0 <= i < keys.len() && #[trigger] keys[i].0 == Some(k) && keys[i].1@ == v;
                if i < n {
                    assert(pre[i].0 == Some(k));
                    assert(keyed(pre, k, v));
                }
            }
            if m0.contains_key(k) && keyed(pre, k, v) {
                let i = choose|i: int| 0 <= i < pre.len() && #[trigger] pre[i].0 == Some(k) && pre[i].1@ == v;
                assert(keys[i].0 == Some(k));
            }
            if !m0.contains_key(k) {
                assert forall|i: int| 0 <= i < pre.len() implies #[trigger] pre[i].0 != Some(k) by {}
            }
        } else {
            if keys.last().0 is Some {
                assert(m.remove(keys.last().0->0).contains_key(k));
                assert(m[k] == m.remove(keys.last().0->0)[k]);
            }
            assert(m0.contains_key(k));
            assert(m[k] == m0[k]);
            if keyed(keys, k, v) {
                let i = choose|i: int| 0 <= i < keys.len() && #[trigger] keys[i].0 == Some(k) && keys[i].1@ == v;
                assert(i < n);
                assert(pre[i].0 == Some(k));
            }
            if keyed(pre, k, v) {
                let i = choose|i: int| 0 <= i < pre.len() && #[trigger] pre[i].0 == Some(k) && pre[i].1@ == v;
                assert(keys[i].0 == Some(k));
            }
        }
    }
    assert forall|k: KeyView| #[trigger] m.contains_key(k) implies crate::index::ids_sorted(m[k]) by {
        if keys.last().0 != Some(k) {
            if keys.last().0 is Some {
                assert(m.remove(keys.last().0->0).contains_key(k));
                assert(m[k] == m.remove(keys.last().0->0)[k]);
            }
            assert(m0.contains_key(k));
        }
    }
}

/// The views of optional keys paired with ids.
pub open spec fn keyed_view(keys: Seq<(Option<IndexKey>, NovaId)>) -> Seq<(Option<KeyView>, NovaId)> {
    keys.map_values(|p: (Option<IndexKey>, NovaId)| (
        match p.0 {
            Some(k) => Some(k@),
            None => None,
        },
        p.1,
    ))
}

/// One open index: its definition and its tree.
struct OpenIndex {
    definition: IndexDefinition,
    tree: BPlusTree,
}

/// The set of open named indexes of a database directory, in name order.
pub struct IndexCatalog {
    directory: String,
    indexes: Vec<OpenIndex>,
}

/// Every index has a valid definition and a well-formed tree.
spec fn parts_ok(indexes: Seq<OpenIndex>) -> bool {
    forall|i: int| 0 <= i < indexes.len() ==> #[trigger] indexes[i].tree.wf() && definition_ok(definition_view(indexes[i].definition))
}

/// Putting back an index with the same definition and a well-formed tree
/// keeps every index sound.
proof fn lemma_parts_replace(before: Seq<OpenIndex>, after: Seq<OpenIndex>, i: int, item: OpenIndex)
    requires
        parts_ok(before),
        0 <= i < before.len(),
        after == before.update(i, item),
        item.definition == before[i].definition,
        item.tree.wf(),
    ensures
        parts_ok(after),
{
    assert(before[i].tree.wf());
    assert forall|q: int| 0 <= q < after.len() implies #[trigger] after[q].tree.wf() && definition_ok(definition_view(after[q].definition)) by {
        if q != i {
            assert(after[q] == before[q]);
            assert(before[q].tree.wf());
        }
    }
}

/// Inserting a sound index keeps every index sound.
proof fn lemma_parts_insert(before: Seq<OpenIndex>, i: int, item: OpenIndex)
    requires
        parts_ok(before),
        0 <= i <= before.len(),
        item.tree.wf(),
        definition_ok(definition_view(item.definition)),
    ensures
        parts_ok(before.insert(i, item)),
{
    let after = before.insert(i, item);
    assert forall|q: int| 0 <= q < after.len() implies #[trigger] after[q].tree.wf() && definition_ok(definition_view(after[q].definition)) by {
        if q < i {
            assert(after[q] == before[q]);
            assert(before[q].tree.wf());
        } else if q > i {
            assert(after[q] == before[q - 1]);
            assert(before[q - 1].tree.wf());
        }
    }
}

/// Removing an index keeps the others sound.
proof fn lemma_parts_remove(before: Seq<OpenIndex>, i: int)
    requires
        parts_ok(before),
        0 <= i < before.len(),
    ensures
        parts_ok(before.remove(i)),
{
    let after = before.remove(i);
    assert forall|q: int| 0 <= q < after.len() implies #[trigger] after[q].tree.wf() && definition_ok(definition_view(after[q].definition)) by {
        if q < i {
            assert(after[q] == before[q]);
            assert(before[q].tree.wf());
        } else {
            assert(after[q] == before[q + 1]);
            assert(before[q + 1].tree.wf());
        }
    }
}

impl IndexCatalog {
    /// The open indexes in name order: each definition and the map its
    /// tree holds.
    pub closed spec fn entries(&self) -> Seq<((Seq<char>, Seq<char>, Seq<Seq<char>>), Map<KeyView, Seq<NovaId>>)> {
        self.indexes@.map_values(|x: OpenIndex| (definition_view(x.definition), x.tree@))
    }

    /// The names in order.
    pub closed spec fn names(&self) -> Seq<Seq<char>> {
        self.indexes@.map_values(|x: OpenIndex| x.definition.name@)
    }

    /// The directory backing the catalog.
    pub closed spec fn directory_view(&self) -> Seq<char> {
        self.directory@
    }

    /// The catalog invariant: valid definitions, well-formed trees, names
    /// strictly increasing.
    pub closed spec fn wf(&self) -> bool {
        &&& parts_ok(self.indexes@)
        &&& names_increasing(self.names())
    }

    /// An empty catalog for `directory`.
    pub fn new(directory: String) -> (r: Self)
        ensures
            r.wf(),
            r.entries() == Seq::<((Seq<char>, Seq<char>, Seq<Seq<char>>), Map<KeyView, Seq<NovaId>>)>::empty(),
            r.directory_view() == directory@,
    {
        let r = IndexCatalog { directory, indexes: Vec::new() };
        assert(r.entries() =~= Seq::<((Seq<char>, Seq<char>, Seq<Seq<char>>), Map<KeyView, Seq<NovaId>>)>::empty());
        r
    }

    /// Returns the directory backing the catalog.
    pub fn directory(&self) -> (r: &str)
        ensures
            r@ == self.directory_view(),
    {
        self.directory.as_str()
    }
}

/// Two names are equal exactly when their bytes are.
proof fn lemma_name_bytes(a: Seq<char>, b: Seq<char>)
    ensures
        (utf8_bytes(a) == utf8_bytes(b)) == (a == b),
{
    if utf8_bytes(a) == utf8_bytes(b) {
        vstd::utf8::encode_utf8_decode_utf8(a);
        vstd::utf8::encode_utf8_decode_utf8(b);
    }
}

/// The entry named `name`, if any.
pub open spec fn named(entries: Seq<((Seq<char>, Seq<char>, Seq<Seq<char>>), Map<KeyView, Seq<NovaId>>)>, name: Seq<char>) -> bool {
    exists|i: int| 0 <= i < entries.len() && #[trigger] entries[i].0.0 == name
}

impl IndexCatalog {
    /// Where `name` is, or where it would go.
    fn position(&self, name: &str) -> (r: core::result::Result<usize, usize>)
        requires
            self.wf(),
        ensures
            r matches Ok(i) ==> i < self.entries().len() && self.entries()[i as int].0.0 == name@,
            r matches Err(i) ==> i <= self.entries().len() && !named(self.entries(), name@)
                && (forall|j: int| 0 <= j < i ==> seq_order(utf8_bytes(#[trigger] self.names()[j]), utf8_bytes(name@)) < 0)
                && (forall|j: int| i <= j < self.names().len() ==> seq_order(utf8_bytes(name@), utf8_bytes(#[trigger] self.names()[j])) < 0),
    {
        let target = name.as_bytes();
        let ghost e = self.entries();
        let ghost ns = self.names();
        proof {
            assert(ns.len() == e.len());
            assert forall|j: int| 0 <= j < ns.len() implies #[trigger] ns[j] == e[j].0.0 by {}
        }
        let mut i: usize = 0;
        while i < self.indexes.len()
            invariant
                i <= self.indexes@.len(),
                e == self.entries(),
                ns == self.names(),
                ns.len() == e.len(),
                e.len() == self.indexes@.len(),
                names_increasing(ns),
                target@ == utf8_bytes(name@),
                forall|j: int| 0 <= j < ns.len() ==> #[trigger] ns[j] == e[j].0.0,
                forall|j: int| 0 <= j < i ==> seq_order(utf8_bytes(#[trigger] ns[j]), utf8_bytes(name@)) < 0,
            decreases self.indexes@.len() - i,
        {
            let c = compare_bytes(self.indexes[i].definition.name.as_str().as_bytes(), target);
            assert(ns[i as int] == self.indexes@[i as int].definition.name@);
            if c == 0 {
                proof {
                    lemma_seq_order_zero(utf8_bytes(ns[i as int]), utf8_bytes(name@));
                    lemma_name_bytes(ns[i as int], name@);
                }
                return Ok(i);
            }
            if c > 0 {
                proof {
                    lemma_seq_order_antisym(utf8_bytes(ns[i as int]), utf8_bytes(name@));
                    assert forall|j: int| i <= j < ns.len() implies seq_order(utf8_bytes(name@), utf8_bytes(#[trigger] ns[j])) < 0 by {
                        if j > i {
                            lemma_seq_order_trans(utf8_bytes(name@), utf8_bytes(ns[i as int]), utf8_bytes(ns[j]));
                        }
                    }
                    assert forall|j: int| 0 <= j < e.len() implies #[trigger] e[j].0.0 != name@ by {
                        assert(ns[j] == e[j].0.0);
                        if j < i {
                            assert(seq_order(utf8_bytes(ns[j]), utf8_bytes(name@)) < 0);
                        } else {
                            assert(seq_order(utf8_bytes(name@), utf8_bytes(ns[j])) < 0);
                        }
                        lemma_seq_order_zero(utf8_bytes(ns[j]), utf8_bytes(name@));
                        lemma_seq_order_zero(utf8_bytes(name@), utf8_bytes(ns[j]));
                    }
                }
                return Err(i);
            }
            i = i + 1;
        }
        proof {
            assert forall|j: int| 0 <= j < e.len() implies #[trigger] e[j].0.0 != name@ by {
                assert(ns[j] == e[j].0.0);
                assert(seq_order(utf8_bytes(ns[j]), utf8_bytes(name@)) < 0);
                lemma_seq_order_zero(utf8_bytes(ns[j]), utf8_bytes(name@));
            }
        }
        Err(i)
    }

    /// Returns every definition, in name order.
    pub fn definitions(&self) -> (r: Vec<IndexDefinition>)
        ensures
            r@.len() == self.entries().len(),
            forall|i: int| 0 <= i < r@.len() ==> definition_view(#[trigger] r@[i]) == self.entries()[i].0,
    {
        let mut out: Vec<IndexDefinition> = Vec::new();
        let mut i: usize = 0;
        while i < self.indexes.len()
            invariant
                i <= self.indexes@.len(),
                out@.len() == i,
                forall|j: int| 0 <= j < i ==> definition_view(#[trigger] out@[j]) == self.entries()[j].0,
            decreases self.indexes@.len() - i,
        {
            out.push(clone_definition(&self.indexes[i].definition));
            i = i + 1;
        }
        out
    }

    /// Looks up an exact key in a named index: the ids stored for it, in
    /// increasing order. An unknown index is `NotFound`.
    pub fn lookup(&self, name: &str, key: &IndexKey) -> (r: Result<Vec<NovaId>>)
        requires
            self.wf(),
        ensures
            r is Ok <==> named(self.entries(), name@),
            r matches Err(e) ==> e is NotFound,
            r matches Ok(ids) ==> exists|i: int|
                0 <= i < self.entries().len() && #[trigger] self.entries()[i].0.0 == name@ && ids@ == if self.entries()[i].1.contains_key(key@) {
                    self.entries()[i].1[key@]
                } else {
                    Seq::<NovaId>::empty()
                },
            r matches Ok(ids) ==> crate::index::ids_sorted(ids@),
    {
        match self.position(name) {
            Ok(i) => {
                assert(self.indexes@[i as int].tree.wf());
                let ids = self.indexes[i].tree.get(key);
                assert(self.entries()[i as int].1 == self.indexes@[i as int].tree@);
                proof {
                    if self.indexes@[i as int].tree@.contains_key(key@) {
                        crate::index::law_ids_ascending(self.indexes@[i as int].tree, key@);
                    }
                }
                Ok(ids)
            },
            Err(_) => Err(NovaError::NotFound("index".to_owned())),
        }
    }
}

/// Inserting a name at its place keeps the names increasing.
proof fn lemma_names_insert(ns: Seq<Seq<char>>, i: int, name: Seq<char>)
    requires
        names_increasing(ns),
        0 <= i <= ns.len(),
        forall|j: int| 0 <= j < i ==> seq_order(utf8_bytes(#[trigger] ns[j]), utf8_bytes(name)) < 0,
        forall|j: int| i <= j < ns.len() ==> seq_order(utf8_bytes(name), utf8_bytes(#[trigger] ns[j])) < 0,
    ensures
        names_increasing(ns.insert(i, name)),
{
    let m = ns.insert(i, name);
    assert forall|a: int, b: int| 0 <= a < b < m.len() implies seq_order(utf8_bytes(#[trigger] m[a]), utf8_bytes(#[trigger] m[b])) < 0 by {
        if b < i {
            assert(m[a] == ns[a] && m[b] == ns[b]);
        } else if b == i {
            assert(m[a] == ns[a]);
        } else if a == i {
            assert(m[b] == ns[b - 1]);
        } else if a > i {
            assert(m[a] == ns[a - 1] && m[b] == ns[b - 1]);
        } else {
            assert(m[a] == ns[a] && m[b] == ns[b - 1]);
        }
    }
}

/// Removing a name keeps the names increasing.
proof fn lemma_names_remove(ns: Seq<Seq<char>>, i: int)
    requires
        names_increasing(ns),
        0 <= i < ns.len(),
    ensures
        names_increasing(ns.remove(i)),
{
    let m = ns.remove(i);
    assert forall|a: int, b: int| 0 <= a < b < m.len() implies seq_order(utf8_bytes(#[trigger] m[a]), utf8_bytes(#[trigger] m[b])) < 0 by {
        let a0 = if a < i { a } else { a + 1 };
        let b0 = if b < i { b } else { b + 1 };
        assert(m[a] == ns[a0] && m[b] == ns[b0]);
    }
}

impl IndexCatalog {
    /// Adds an index opened from its files. A definition that breaks the
    /// identifier rules is `InvalidArgument`; a name already present is
    /// `Corruption` (two files define it).
    pub fn add_opened(&mut self, definition: IndexDefinition, tree: BPlusTree) -> (r: Result<()>)
        requires
            old(self).wf(),
            tree.wf(),
        ensures
            final(self).wf(),
            final(self).directory_view() == old(self).directory_view(),
            r is Ok <==> definition_ok(definition_view(definition)) && !named(old(self).entries(), definition.name@),
            r matches Err(e) ==> if definition_ok(definition_view(definition)) {
                e is Corruption
            } else {
                e is InvalidArgument
            },
            r is Ok ==> exists|i: int|
                0 <= i <= old(self).entries().len() && final(self).entries() == old(self).entries().insert(
                    i,
                    (definition_view(definition), tree@),
                ),
            r is Err ==> final(self).entries() == old(self).entries(),
    {
        match validate_identifier(definition.name.as_str()) {
            Ok(()) => {},
            Err(e) => {
                return Err(e);
            },
        }
        match validate_identifier(definition.collection.as_str()) {
            Ok(()) => {},
            Err(e) => {
                return Err(e);
            },
        }
        match validate_field(&definition.field) {
            Ok(()) => {},
            Err(e) => {
                return Err(e);
            },
        }
        let i = match self.position(definition.name.as_str()) {
            Ok(_) => {
                return Err(corruption("duplicate index definition"));
            },
            Err(i) => i,
        };
        let ghost old_names = self.names();
        let ghost old_entries = self.entries();
        let ghost d = definition_view(definition);
        let ghost m = tree@;
        self.indexes.insert(i, OpenIndex { definition, tree });
        proof {
            assert(self.names() =~= old_names.insert(i as int, d.0));
            lemma_names_insert(old_names, i as int, d.0);
            assert(self.entries() =~= old_entries.insert(i as int, (d, m)));
            lemma_parts_insert(old(self).indexes@, i as int, self.indexes@[i as int]);
            assert(self.indexes@ =~= old(self).indexes@.insert(i as int, self.indexes@[i as int]));
        }
        Ok(())
    }

    /// Creates a named single-field index over `keys`, the key each
    /// document yields for the field (`None` when it has none) with its
    /// id, in a new tree backed by `tree_path`. A definition that breaks
    /// the identifier rules is `InvalidArgument`; a name already present
    /// is `AlreadyExists`.
    pub fn create_index(
        &mut self,
        name: &str,
        collection: &str,
        field: Vec<String>,
        keys: Vec<(Option<IndexKey>, NovaId)>,
        tree_path: String,
    ) -> (r: Result<()>)
        requires
            old(self).wf(),
        ensures
            final(self).wf(),
            final(self).directory_view() == old(self).directory_view(),
            r is Ok <==> definition_ok((name@, collection@, strings_view(field@))) && !named(old(self).entries(), name@),
            r matches Err(e) ==> if definition_ok((name@, collection@, strings_view(field@))) {
                e is AlreadyExists
            } else {
                e is InvalidArgument
            },
            r is Ok ==> exists|i: int, m: Map<KeyView, Seq<NovaId>>|
                0 <= i <= old(self).entries().len() && built_from(keyed_view(keys@), m) && final(self).entries()
                    == old(self).entries().insert(i, ((name@, collection@, strings_view(field@)), m)),
            r is Err ==> final(self).entries() == old(self).entries(),
    {
        match validate_identifier(name) {
            Ok(()) => {},
            Err(e) => {
                return Err(e);
            },
        }
        match validate_identifier(collection) {
            Ok(()) => {},
            Err(e) => {
                return Err(e);
            },
        }
        match validate_field(&field) {
            Ok(()) => {},
            Err(e) => {
                return Err(e);
            },
        }
        let i = match self.position(name) {
            Ok(_) => {
                return Err(NovaError::AlreadyExists("index".to_owned()));
            },
            Err(i) => i,
        };
        let mut tree = match BPlusTree::create(tree_path) {
            Ok(t) => t,
            Err(e) => {
                return Err(e);
            },
        };
        let ghost kv = keyed_view(keys@);
        let mut j: usize = 0;
        while j < keys.len()
            invariant
                j <= keys@.len(),
                kv == keyed_view(keys@),
                tree.wf(),
                built_from(kv.take(j as int), tree@),
            decreases keys@.len() - j,
        {
            let ghost m0 = tree@;
            let ghost t = kv.take(j + 1);
            proof {
                assert(t.drop_last() =~= kv.take(j as int));
                assert(t.last() == kv[j as int]);
                assert(built_from(t.drop_last(), m0));
            }
            match &keys[j].0 {
                Some(k) => {
                    let kc = crate::index::clone_key(k);
                    match tree.insert(kc, keys[j].1) {
                        Ok(()) => {},
                        Err(e) => {
                            return Err(e);
                        },
                    }
                    assert(kv[j as int].0 == Some(k@));
                    assert(kv[j as int].1 == keys@[j as int].1);
                    assert(inserted(m0, k@, keys@[j as int].1, tree@));
                },
                None => {
                    assert(kv[j as int].0 is None);
                },
            }
            proof {
                lemma_built_step(t, m0, tree@);
            }
            j = j + 1;
        }
        assert(kv.take(j as int) =~= kv);
        let definition = IndexDefinition { name: name.to_owned(), collection: collection.to_owned(), field };
        let ghost old_names = self.names();
        let ghost old_entries = self.entries();
        let ghost d = definition_view(definition);
        let ghost m = tree@;
        self.indexes.insert(i, OpenIndex { definition, tree });
        proof {
            assert(self.names() =~= old_names.insert(i as int, d.0));
            lemma_names_insert(old_names, i as int, d.0);
            assert(self.entries() =~= old_entries.insert(i as int, (d, m)));
            lemma_parts_insert(old(self).indexes@, i as int, self.indexes@[i as int]);
            assert(self.indexes@ =~= old(self).indexes@.insert(i as int, self.indexes@[i as int]));
        }
        Ok(())
    }

    /// Drops a named index. An unknown name is `NotFound`.
    pub fn drop_index(&mut self, name: &str) -> (r: Result<()>)
        requires
            old(self).wf(),
        ensures
            final(self).wf(),
            final(self).directory_view() == old(self).directory_view(),
            r is Ok <==> named(old(self).entries(), name@),
            r matches Err(e) ==> e is NotFound,
            r is Ok ==> exists|i: int|
                0 <= i < old(self).entries().len() && old(self).entries()[i].0.0 == name@ && final(self).entries()
                    == old(self).entries().remove(i),
            r is Err ==> final(self).entries() == old(self).entries(),
    {
        let i = match self.position(name) {
            Ok(i) => i,
            Err(_) => {
                return Err(NovaError::NotFound("index".to_owned()));
            },
        };
        let ghost old_names = self.names();
        let ghost old_entries = self.entries();
        let _gone = self.indexes.remove(i);
        proof {
            assert(self.names() =~= old_names.remove(i as int));
            lemma_names_remove(old_names, i as int);
            assert(self.entries() =~= old_entries.remove(i as int));
            lemma_parts_remove(old(self).indexes@, i as int);
            assert(self.indexes@ =~= old(self).indexes@.remove(i as int));
        }
        Ok(())
    }
}

/// The entries of other collections than `c`, in order.
pub open spec fn others(es: Seq<((Seq<char>, Seq<char>, Seq<Seq<char>>), Map<KeyView, Seq<NovaId>>)>, c: Seq<char>) -> Seq<
    ((Seq<char>, Seq<char>, Seq<Seq<char>>), Map<KeyView, Seq<NovaId>>),
>
    decreases es.len(),
{
    if es.len() == 0 {
        Seq::empty()
    } else if es.last().0.1 == c {
        others(es.drop_last(), c)
    } else {
        others(es.drop_last(), c).push(es.last())
    }
}

/// The names of the entries of collection `c`, in order.
pub open spec fn names_of(es: Seq<((Seq<char>, Seq<char>, Seq<Seq<char>>), Map<KeyView, Seq<NovaId>>)>, c: Seq<char>) -> Seq<Seq<char>>
    decreases es.len(),
{
    if es.len() == 0 {
        Seq::empty()
    } else if es.last().0.1 == c {
        names_of(es.drop_last(), c).push(es.last().0.0)
    } else {
        names_of(es.drop_last(), c)
    }
}

/// `after` is `before` with the pair `(key, id)` taken out, if it was there.
pub open spec fn removed(before: Map<KeyView, Seq<NovaId>>, key: KeyView, id: NovaId, after: Map<KeyView, Seq<NovaId>>) -> bool {
    if before.contains_key(key) && exists|j: int| 0 <= j < before[key].len() && #[trigger] before[key][j]@ == id@ {
        exists|j: int|
            0 <= j < before[key].len() && #[trigger] before[key][j]@ == id@ && after == if before[key].len() == 1 {
                before.remove(key)
            } else {
                before.insert(key, before[key].remove(j))
            }
    } else {
        after == before
    }
}

/// Whether two strings are equal.
fn same_text(a: &str, b: &str) -> (r: bool)
    ensures
        r == (a@ == b@),
{
    let c = compare_bytes(a.as_bytes(), b.as_bytes());
    proof {
        lemma_seq_order_zero(utf8_bytes(a@), utf8_bytes(b@));
        lemma_name_bytes(a@, b@);
    }
    c == 0
}

impl IndexCatalog {
    /// Drops every index of a collection, returning their names in order
    /// (the caller removes their files).
    pub fn drop_collection_indexes(&mut self, collection: &str) -> (r: Vec<String>)
        requires
            old(self).wf(),
        ensures
            final(self).wf(),
            final(self).directory_view() == old(self).directory_view(),
            final(self).entries() == others(old(self).entries(), collection@),
            strings_view(r@) == names_of(old(self).entries(), collection@),
    {
        let ghost e = self.entries();
        let ghost orig = self.indexes@;
        let mut rest: Vec<OpenIndex> = Vec::new();
        std::mem::swap(&mut rest, &mut self.indexes);
        let mut dropped: Vec<String> = Vec::new();
        let ghost mut i: int = 0;
        let ghost mut kept: Seq<int> = Seq::empty();
        while rest.len() > 0
            invariant
                0 <= i <= orig.len(),
                rest@ == orig.skip(i),
                e == orig.map_values(|x: OpenIndex| (definition_view(x.definition), x.tree@)),
                names_increasing(orig.map_values(|x: OpenIndex| x.definition.name@)),
                parts_ok(orig),
                self.entries() == others(e.take(i), collection@),
                strings_view(dropped@) == names_of(e.take(i), collection@),
                kept.len() == self.indexes@.len(),
                forall|q: int| 0 <= q < kept.len() ==> 0 <= #[trigger] kept[q] < i && self.indexes@[q] == orig[kept[q]],
                forall|a: int, b: int| 0 <= a < b < kept.len() ==> #[trigger] kept[a] < #[trigger] kept[b],
                self.directory@ == old(self).directory@,
            decreases rest@.len(),
        {
            let item = rest.remove(0);
            proof {
                assert(item == orig[i]);
                assert(orig.skip(i).drop_first() =~= orig.skip(i + 1));
                let t = e.take(i + 1);
                assert(t.drop_last() =~= e.take(i));
                assert(t.last() == e[i]);
            }
            if same_text(item.definition.collection.as_str(), collection) {
                dropped.push(item.definition.name.clone());
                proof {
                    assert(strings_view(dropped@) =~= names_of(e.take(i), collection@).push(e[i].0.0));
                }
            } else {
                let ghost before = self.entries();
                self.indexes.push(item);
                proof {
                    assert(self.entries() =~= before.push(e[i]));
                    kept = kept.push(i);
                }
            }
            proof {
                i = i + 1;
            }
        }
        proof {
            assert(orig.skip(i).len() == 0);
            assert(i == orig.len());
            assert(e.take(i) =~= e);
            let ns = self.names();
            let on = orig.map_values(|x: OpenIndex| x.definition.name@);
            assert forall|a: int, b: int| 0 <= a < b < ns.len() implies seq_order(utf8_bytes(#[trigger] ns[a]), utf8_bytes(#[trigger] ns[b])) < 0 by {
                assert(ns[a] == on[kept[a]] && ns[b] == on[kept[b]]);
            }
            assert forall|q: int| 0 <= q < self.indexes@.len() implies #[trigger] self.indexes@[q].tree.wf() && definition_ok(
                definition_view(self.indexes@[q].definition),
            ) by {
                assert(self.indexes@[q] == orig[kept[q]]);
                assert(orig[kept[q]].tree.wf());
            }
            assert(parts_ok(self.indexes@));
        }
        dropped
    }
}

/// `after` is `before` with the document's key changed from `old_key` to
/// `new_key` (nothing changes when they are equal).
pub open spec fn replaced(
    before: Map<KeyView, Seq<NovaId>>,
    old_key: Option<KeyView>,
    new_key: Option<KeyView>,
    id: NovaId,
    after: Map<KeyView, Seq<NovaId>>,
) -> bool {
    if old_key == new_key {
        after == before
    } else {
        exists|mid: Map<KeyView, Seq<NovaId>>| take_key(before, old_key, id, mid) && #[trigger] put_key(mid, new_key, id, after)
    }
}

/// `after` is `before` without the document's old key, if it had one.
pub open spec fn take_key(before: Map<KeyView, Seq<NovaId>>, old_key: Option<KeyView>, id: NovaId, after: Map<KeyView, Seq<NovaId>>) -> bool {
    match old_key {
        Some(k) => removed(before, k, id, after),
        None => after == before,
    }
}

/// `after` is `before` with the document's new key, if it has one.
pub open spec fn put_key(before: Map<KeyView, Seq<NovaId>>, new_key: Option<KeyView>, id: NovaId, after: Map<KeyView, Seq<NovaId>>) -> bool {
    match new_key {
        Some(k) => inserted(before, k, id, after),
        None => after == before,
    }
}

/// What a document change does to the map of an index of collection
/// `coll` when the document belongs to `collection` and yields `key` for
/// it: `inserted` (or `removed`, when `insert` is false) for a present
/// key of the document's collection; nothing otherwise.
pub open spec fn doc_applied(
    before: Map<KeyView, Seq<NovaId>>,
    after: Map<KeyView, Seq<NovaId>>,
    coll: Seq<char>,
    collection: Seq<char>,
    key: Option<KeyView>,
    id: NovaId,
    insert: bool,
) -> bool {
    if coll == collection && key is Some {
        if insert {
            inserted(before, key->0, id, after)
        } else {
            removed(before, key->0, id, after)
        }
    } else {
        after == before
    }
}

/// The view of an optional key.
pub open spec fn opt_key(k: Option<IndexKey>) -> Option<KeyView> {
    match k {
        Some(x) => Some(x@),
        None => None,
    }
}

impl IndexCatalog {
    /// Inserts `(key, id)` into the tree of index `i`.
    fn insert_at(&mut self, i: usize, key: &IndexKey, id: NovaId)
        requires
            old(self).wf(),
            i < old(self).entries().len(),
        ensures
            final(self).wf(),
            final(self).directory_view() == old(self).directory_view(),
            final(self).entries().len() == old(self).entries().len(),
            final(self).entries()[i as int].0 == old(self).entries()[i as int].0,
            inserted(old(self).entries()[i as int].1, key@, id, final(self).entries()[i as int].1),
            forall|j: int| 0 <= j < old(self).entries().len() && j != i ==> final(self).entries()[j] == old(self).entries()[j],
    {
        let ghost ns = self.names();
        let mut item = self.indexes.remove(i);
        proof {
            assert(item == old(self).indexes@[i as int]);
            assert(old(self).wf());
            assert(i < old(self).indexes@.len());
            assert(old(self).indexes@[i as int].tree.wf());
            assert(definition_ok(definition_view(old(self).indexes@[i as int].definition)));
            assert(item.tree.wf());
        }
        let k = crate::index::clone_key(key);
        let ghost d0 = item.definition;
        let _ = item.tree.insert(k, id);
        let ghost it = item;
        assert(it.tree.wf());
        assert(it.definition == d0);
        self.indexes.insert(i, item);
        assert(self.indexes@[i as int] == it);
        proof {
            assert(self.names() =~= ns);
            assert(self.indexes@ =~= old(self).indexes@.update(i as int, it));
            lemma_parts_replace(old(self).indexes@, self.indexes@, i as int, it);
            assert forall|j: int| 0 <= j < old(self).entries().len() && j != i implies final(self).entries()[j] == old(self).entries()[j] by {
                assert(self.indexes@[j] == old(self).indexes@[j]);
            }
        }
    }

    /// Removes `(key, id)` from the tree of index `i`.
    fn remove_at(&mut self, i: usize, key: &IndexKey, id: NovaId)
        requires
            old(self).wf(),
            i < old(self).entries().len(),
        ensures
            final(self).wf(),
            final(self).directory_view() == old(self).directory_view(),
            final(self).entries().len() == old(self).entries().len(),
            final(self).entries()[i as int].0 == old(self).entries()[i as int].0,
            removed(old(self).entries()[i as int].1, key@, id, final(self).entries()[i as int].1),
            forall|j: int| 0 <= j < old(self).entries().len() && j != i ==> final(self).entries()[j] == old(self).entries()[j],
    {
        let ghost ns = self.names();
        let mut item = self.indexes.remove(i);
        proof {
            assert(item == old(self).indexes@[i as int]);
            assert(old(self).wf());
            assert(i < old(self).indexes@.len());
            assert(old(self).indexes@[i as int].tree.wf());
            assert(definition_ok(definition_view(old(self).indexes@[i as int].definition)));
            assert(item.tree.wf());
        }
        let ghost d0 = item.definition;
        let _ = item.tree.remove(key, id);
        let ghost it = item;
        assert(it.tree.wf());
        assert(it.definition == d0);
        self.indexes.insert(i, item);
        assert(self.indexes@[i as int] == it);
        proof {
            assert(self.names() =~= ns);
            assert(self.indexes@ =~= old(self).indexes@.update(i as int, it));
            lemma_parts_replace(old(self).indexes@, self.indexes@, i as int, it);
            assert forall|j: int| 0 <= j < old(self).entries().len() && j != i implies final(self).entries()[j] == old(self).entries()[j] by {
                assert(self.indexes@[j] == old(self).indexes@[j]);
            }
        }
    }

    /// Adds a newly inserted document to the indexes of its collection:
    /// `keys[i]` is the key the document yields for index `i` (`None` when
    /// it has none; indexes of other collections are left alone). A `keys`
    /// of another length than the index list is `InvalidArgument`.
    pub fn insert_document_keys(&mut self, collection: &str, id: NovaId, keys: &Vec<Option<IndexKey>>) -> (r: Result<()>)
        requires
            old(self).wf(),
        ensures
            final(self).wf(),
            final(self).directory_view() == old(self).directory_view(),
            r is Ok <==> keys@.len() == old(self).entries().len(),
            r matches Err(e) ==> e is InvalidArgument,
            r is Err ==> final(self).entries() == old(self).entries(),
            r is Ok ==> final(self).entries().len() == old(self).entries().len() && forall|i: int|
                0 <= i < old(self).entries().len() ==> #[trigger] final(self).entries()[i].0 == old(self).entries()[i].0 && doc_applied(
                    old(self).entries()[i].1,
                    final(self).entries()[i].1,
                    old(self).entries()[i].0.1,
                    collection@,
                    opt_key(keys@[i]),
                    id,
                    true,
                ),
    {
        if keys.len() != self.indexes.len() {
            return Err(NovaError::InvalidArgument("one key per index is needed".to_owned()));
        }
        let ghost e0 = self.entries();
        let n = self.indexes.len();
        let mut i: usize = 0;
        while i < n
            invariant
                i <= n,
                n == e0.len(),
                keys@.len() == n,
                self.wf(),
                self.directory_view() == old(self).directory_view(),
                self.entries().len() == n,
                forall|j: int| 0 <= j < n ==> #[trigger] self.entries()[j].0 == e0[j].0,
                forall|j: int|
                    0 <= j < i ==> doc_applied(e0[j].1, #[trigger] self.entries()[j].1, e0[j].0.1, collection@, opt_key(keys@[j]), id, true),
                forall|j: int| i <= j < n ==> #[trigger] self.entries()[j].1 == e0[j].1,
            decreases n - i,
        {
            let applies = same_text(self.indexes[i].definition.collection.as_str(), collection);
            assert(self.entries()[i as int].0.1 == self.indexes@[i as int].definition.collection@);
            let ghost before = self.entries();
            if applies {
                match &keys[i] {
                    Some(k) => {
                        self.insert_at(i, k, id);
                    },
                    None => {},
                }
            }
            proof {
                assert(doc_applied(e0[i as int].1, self.entries()[i as int].1, e0[i as int].0.1, collection@, opt_key(keys@[i as int]), id, true));
                assert forall|j: int| 0 <= j < i implies doc_applied(e0[j].1, #[trigger] self.entries()[j].1, e0[j].0.1, collection@, opt_key(keys@[j]), id, true) by {
                    assert(self.entries()[j] == before[j]);
                }
                assert forall|j: int| i < j < n implies #[trigger] self.entries()[j].1 == e0[j].1 by {
                    assert(self.entries()[j] == before[j]);
                }
                assert forall|j: int| 0 <= j < n implies #[trigger] self.entries()[j].0 == e0[j].0 by {
                    if j != i {
                        assert(self.entries()[j] == before[j]);
                    }
                }
            }
            i = i + 1;
        }
        Ok(())
    }

    /// Moves a document's entries in the indexes of its collection from
    /// its old keys to its new ones; an index where the two keys agree is
    /// left alone. The id must not change, and `old_keys` and `new_keys`
    /// hold one key per index as for `insert_document_keys`; otherwise
    /// `InvalidArgument`, and nothing changes.
    pub fn replace_document_keys(
        &mut self,
        collection: &str,
        old_id: NovaId,
        new_id: NovaId,
        old_keys: &Vec<Option<IndexKey>>,
        new_keys: &Vec<Option<IndexKey>>,
    ) -> (r: Result<()>)
        requires
            old(self).wf(),
        ensures
            final(self).wf(),
            final(self).directory_view() == old(self).directory_view(),
            r is Ok <==> old_id@ == new_id@ && old_keys@.len() == old(self).entries().len() && new_keys@.len()
                == old(self).entries().len(),
            r matches Err(e) ==> e is InvalidArgument,
            r is Err ==> final(self).entries() == old(self).entries(),
            r is Ok ==> final(self).entries().len() == old(self).entries().len() && forall|i: int|
                0 <= i < old(self).entries().len() ==> #[trigger] final(self).entries()[i].0 == old(self).entries()[i].0 && (if old(self).entries()[i].0.1 == collection@ {
                    replaced(old(self).entries()[i].1, opt_key(old_keys@[i]), opt_key(new_keys@[i]), new_id, final(self).entries()[i].1)
                } else {
                    final(self).entries()[i].1 == old(self).entries()[i].1
                }),
    {
        if !ids_equal(&old_id, &new_id) {
            return Err(NovaError::InvalidArgument("replacement document id must not change".to_owned()));
        }
        if old_keys.len() != self.indexes.len() || new_keys.len() != self.indexes.len() {
            return Err(NovaError::InvalidArgument("one key per index is needed".to_owned()));
        }
        let ghost e0 = self.entries();
        let n = self.indexes.len();
        let mut i: usize = 0;
        while i < n
            invariant
                i <= n,
                n == e0.len(),
                old_keys@.len() == n,
                new_keys@.len() == n,
                old_id@ == new_id@,
                self.wf(),
                self.directory_view() == old(self).directory_view(),
                self.entries().len() == n,
                forall|j: int| 0 <= j < n ==> #[trigger] self.entries()[j].0 == e0[j].0,
                forall|j: int|
                    0 <= j < i ==> if e0[j].0.1 == collection@ {
                        replaced(e0[j].1, opt_key(old_keys@[j]), opt_key(new_keys@[j]), new_id, #[trigger] self.entries()[j].1)
                    } else {
                        self.entries()[j].1 == e0[j].1
                    },
                forall|j: int| i <= j < n ==> #[trigger] self.entries()[j].1 == e0[j].1,
            decreases n - i,
        {
            let applies = same_text(self.indexes[i].definition.collection.as_str(), collection);
            assert(self.entries()[i as int].0.1 == self.indexes@[i as int].definition.collection@);
            let ghost before = self.entries();
            if applies {
                let same = match (&old_keys[i], &new_keys[i]) {
                    (Some(a), Some(b)) => {
                        let c = compare_keys(a, b);
                        proof {
                            crate::index::lemma_key_compare(a@, b@);
                        }
                        c == 0
                    },
                    (None, None) => true,
                    _ => false,
                };
                if !same {
                    match &old_keys[i] {
                        Some(k) => {
                            self.remove_at(i, k, old_id);
                        },
                        None => {},
                    }
                    let ghost mid = self.entries()[i as int].1;
                    let ghost after_take = self.entries();
                    match &new_keys[i] {
                        Some(k) => {
                            self.insert_at(i, k, new_id);
                        },
                        None => {},
                    }
                    proof {
                        assert(take_key(e0[i as int].1, opt_key(old_keys@[i as int]), new_id, mid));
                        assert(put_key(mid, opt_key(new_keys@[i as int]), new_id, self.entries()[i as int].1));
                        assert(forall|j: int| 0 <= j < n && j != i ==> self.entries()[j] == #[trigger] before[j]) by {
                            assert forall|j: int| 0 <= j < n && j != i implies self.entries()[j] == #[trigger] before[j] by {
                                assert(after_take[j] == before[j]);
                            }
                        }
                    }
                }
            }
            proof {
                assert forall|j: int| 0 <= j < i implies (if e0[j].0.1 == collection@ {
                    replaced(e0[j].1, opt_key(old_keys@[j]), opt_key(new_keys@[j]), new_id, #[trigger] self.entries()[j].1)
                } else {
                    self.entries()[j].1 == e0[j].1
                }) by {
                    assert(self.entries()[j] == before[j]);
                }
                assert forall|j: int| i < j < n implies #[trigger] self.entries()[j].1 == e0[j].1 by {
                    assert(self.entries()[j] == before[j]);
                }
                assert forall|j: int| 0 <= j < n implies #[trigger] self.entries()[j].0 == e0[j].0 by {
                    if j != i {
                        assert(self.entries()[j] == before[j]);
                    }
                }
            }
            i = i + 1;
        }
        Ok(())
    }

    /// Removes a deleted document from the indexes of its collection, with
    /// `keys` as for `insert_document_keys`.
    pub fn delete_document_keys(&mut self, collection: &str, id: NovaId, keys: &Vec<Option<IndexKey>>) -> (r: Result<()>)
        requires
            old(self).wf(),
        ensures
            final(self).wf(),
            final(self).directory_view() == old(self).directory_view(),
            r is Ok <==> keys@.len() == old(self).entries().len(),
            r matches Err(e) ==> e is InvalidArgument,
            r is Err ==> final(self).entries() == old(self).entries(),
            r is Ok ==> final(self).entries().len() == old(self).entries().len() && forall|i: int|
                0 <= i < old(self).entries().len() ==> #[trigger] final(self).entries()[i].0 == old(self).entries()[i].0 && doc_applied(
                    old(self).entries()[i].1,
                    final(self).entries()[i].1,
                    old(self).entries()[i].0.1,
                    collection@,
                    opt_key(keys@[i]),
                    id,
                    false,
                ),
    {
        if keys.len() != self.indexes.len() {
            return Err(NovaError::InvalidArgument("one key per index is needed".to_owned()));
        }
        let ghost e0 = self.entries();
        let n = self.indexes.len();
        let mut i: usize = 0;
        while i < n
            invariant
                i <= n,
                n == e0.len(),
                keys@.len() == n,
                self.wf(),
                self.directory_view() == old(self).directory_view(),
                self.entries().len() == n,
                forall|j: int| 0 <= j < n ==> #[trigger] self.entries()[j].0 == e0[j].0,
                forall|j: int|
                    0 <= j < i ==> doc_applied(e0[j].1, #[trigger] self.entries()[j].1, e0[j].0.1, collection@, opt_key(keys@[j]), id, false),
                forall|j: int| i <= j < n ==> #[trigger] self.entries()[j].1 == e0[j].1,
            decreases n - i,
        {
            let applies = same_text(self.indexes[i].definition.collection.as_str(), collection);
            assert(self.entries()[i as int].0.1 == self.indexes@[i as int].definition.collection@);
            let ghost before = self.entries();
            if applies {
                match &keys[i] {
                    Some(k) => {
                        self.remove_at(i, k, id);
                    },
                    None => {},
                }
            }
            proof {
                assert(doc_applied(e0[i as int].1, self.entries()[i as int].1, e0[i as int].0.1, collection@, opt_key(keys@[i as int]), id, false));
                assert forall|j: int| 0 <= j < i implies doc_applied(e0[j].1, #[trigger] self.entries()[j].1, e0[j].0.1, collection@, opt_key(keys@[j]), id, false) by {
                    assert(self.entries()[j] == before[j]);
                }
                assert forall|j: int| i < j < n implies #[trigger] self.entries()[j].1 == e0[j].1 by {
                    assert(self.entries()[j] == before[j]);
                }
                assert forall|j: int| 0 <= j < n implies #[trigger] self.entries()[j].0 == e0[j].0 by {
                    if j != i {
                        assert(self.entries()[j] == before[j]);
                    }
                }
            }
            i = i + 1;
        }
        Ok(())
    }
}

impl IndexCatalog {
    /// The file to write for a named index when its tree changed since it
    /// was last written (`None` when it did not). An unknown index is
    /// `NotFound`; a tree that does not fit its file format is `Storage`.
    pub fn pending_snapshot(&self, name: &str) -> (r: Result<Option<Vec<u8>>>)
        requires
            self.wf(),
        ensures
            !named(self.entries(), name@) <==> (r matches Err(e) && e is NotFound),
            r matches Err(e) ==> e is NotFound || e is Storage,
            forall|i: int|
                0 <= i < self.entries().len() && #[trigger] self.entries()[i].0.0 == name@ ==> {
                    &&& !self.tree_dirty(i) ==> (r matches Ok(None))
                    &&& self.tree_dirty(i) ==> (r is Ok <==> self.tree_encodable(i))
                    &&& self.tree_dirty(i) ==> (r matches Ok(x) ==> x matches Some(b) && b@ == self.tree_file(i))
                },
    {
        match self.position(name) {
            Ok(i) => {
                assert(self.indexes@[i as int].tree.wf());
                proof {
                    self.lemma_name_unique(i as int);
                }
                self.indexes[i].tree.pending_snapshot()
            },
            Err(_) => Err(NovaError::NotFound("index".to_owned())),
        }
    }

    /// The file of the tree of index `i`.
    pub closed spec fn tree_file(&self, i: int) -> Seq<u8> {
        self.indexes@[i].tree.file_bytes()
    }

    /// Whether the tree of index `i` changed since it was last written.
    pub closed spec fn tree_dirty(&self, i: int) -> bool {
        self.indexes@[i].tree.is_dirty()
    }

    /// Whether the tree of index `i` can be written to a file.
    pub closed spec fn tree_encodable(&self, i: int) -> bool {
        self.indexes@[i].tree.encodable()
    }

    /// Only index `i` bears its name.
    proof fn lemma_name_unique(&self, i: int)
        requires
            self.wf(),
            0 <= i < self.entries().len(),
        ensures
            forall|j: int| 0 <= j < self.entries().len() && #[trigger] self.entries()[j].0.0 == self.entries()[i].0.0 ==> j == i,
    {
        assert forall|j: int| 0 <= j < self.entries().len() && #[trigger] self.entries()[j].0.0 == self.entries()[i].0.0 implies j == i by {
            assert(self.entries()[j].0.0 == self.names()[j]);
            assert(self.entries()[i].0.0 == self.names()[i]);
            if j < i {
                assert(seq_order(utf8_bytes(self.names()[j]), utf8_bytes(self.names()[i])) < 0);
                lemma_seq_order_zero(utf8_bytes(self.names()[j]), utf8_bytes(self.names()[i]));
            } else if i < j {
                assert(seq_order(utf8_bytes(self.names()[i]), utf8_bytes(self.names()[j])) < 0);
                lemma_seq_order_zero(utf8_bytes(self.names()[i]), utf8_bytes(self.names()[j]));
            }
        }
    }

    /// Records that a named index's tree file is up to date. An unknown
    /// index is `NotFound`.
    pub fn mark_synced(&mut self, name: &str) -> (r: Result<()>)
        requires
            old(self).wf(),
        ensures
            final(self).wf(),
            final(self).entries() == old(self).entries(),
            final(self).directory_view() == old(self).directory_view(),
            r is Ok <==> named(old(self).entries(), name@),
            r matches Err(e) ==> e is NotFound,
    {
        let i = match self.position(name) {
            Ok(i) => i,
            Err(_) => {
                return Err(NovaError::NotFound("index".to_owned()));
            },
        };
        let ghost ns = self.names();
        let mut item = self.indexes.remove(i);
        proof {
            assert(item == old(self).indexes@[i as int]);
            assert(old(self).wf());
            assert(old(self).indexes@[i as int].tree.wf());
            assert(definition_ok(definition_view(old(self).indexes@[i as int].definition)));
        }
        let ghost d0 = item.definition;
        item.tree.mark_synced();
        let ghost it = item;
        self.indexes.insert(i, item);
        proof {
            assert(self.indexes@[i as int] == it);
            assert(self.names() =~= ns);
            assert(self.indexes@ =~= old(self).indexes@.update(i as int, it));
            lemma_parts_replace(old(self).indexes@, self.indexes@, i as int, it);
            assert(self.entries() =~= old(self).entries());
        }
        Ok(())
    }
}

/// The catalog keeps its indexes in strictly increasing name order (by
/// the names' bytes), so `definitions` lists them by name, each once.
pub proof fn law_names_in_order(c: IndexCatalog)
    requires
        c.wf(),
    ensures
        forall|i: int, j: int|
            0 <= i < j < c.entries().len() ==> seq_order(utf8_bytes(#[trigger] c.entries()[i].0.0), utf8_bytes(
                #[trigger] c.entries()[j].0.0,
            )) < 0,
{
    assert forall|i: int, j: int| 0 <= i < j < c.entries().len() implies seq_order(
        utf8_bytes(#[trigger] c.entries()[i].0.0),
        utf8_bytes(#[trigger] c.entries()[j].0.0),
    ) < 0 by {
        assert(c.entries()[i].0.0 == c.names()[i]);
        assert(c.entries()[j].0.0 == c.names()[j]);
    }
}

/// Joining two non-empty paths puts exactly one `.` between them: the
/// dotted form of `a + b` is that of `a`, a dot, then that of `b`.
pub proof fn law_dotted_concat(a: Seq<Seq<char>>, b: Seq<Seq<char>>)
    requires
        a.len() >= 1,
        b.len() >= 1,
    ensures
        dotted(a + b) == dotted(a) + seq!['.'] + dotted(b),
    decreases b.len(),
{
    if b.len() == 1 {
        assert((a + b).drop_last() =~= a);
        assert((a + b).last() == b[0]);
    } else {
        law_dotted_concat(a, b.drop_last());
        assert((a + b).drop_last() =~= a + b.drop_last());
        assert((a + b).last() == b.last());
        assert(dotted(a + b) =~= dotted(a) + seq!['.'] + dotted(b));
    }
}

/// A path of one segment is written as that segment, and a path of `n`
/// segments has `n - 1` more characters than its segments together.
pub proof fn law_dotted_length(parts: Seq<Seq<char>>)
    requires
        parts.len() >= 1,
    ensures
        dotted(seq![parts[0]]) == parts[0],
        dotted(parts).len() == segments_length(parts) + parts.len() - 1,
    decreases parts.len(),
{
    assert(seq![parts[0]].len() == 1);
    if parts.len() > 1 {
        law_dotted_length(parts.drop_last());
        assert(parts.drop_last()[0] == parts[0]);
    } else {
        assert(parts.drop_last().len() == 0);
        assert(segments_length(parts.drop_last()) == 0);
        assert(parts.last() == parts[0]);
    }
}

/// The characters of all segments together.
pub open spec fn segments_length(parts: Seq<Seq<char>>) -> int
    decreases parts.len(),
{
    if parts.len() == 0 {
        0
    } else {
        segments_length(parts.drop_last()) + parts.last().len()
    }
}

} // verus!
