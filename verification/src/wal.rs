//! The write-ahead log: checksummed records of page after-images and
//! transaction markers, the log's in-memory state, and redo selection.
//!
//! Record layout (36-byte header, big-endian): magic `NVWL` (4), version
//! (2), operation tag (1), reserved zero (1), payload length (4), LSN (8),
//! transaction id (8), CRC-32 of the whole record with this field zero (4),
//! reserved zero (4); then the payload: for a page write, the page id (8)
//! and the page image; for the markers, nothing.
use vstd::prelude::*;

use crate::bytes::{
    be16, be32, be64, copy_range, get_u16, get_u32, get_u64, lemma_read_be16, lemma_read_be32, lemma_read_be64, push_all,
    push_u16, push_u32, push_u64, read_be16, read_be32, read_be64, set_u32,
};
use crate::checksum::{crc32, crc32_of, zeroed};
use crate::error::{NovaError, Result};
use crate::page::{decoded_page, encode_page, page_bytes_valid, page_fits, Page, PageId, PageView, PAGE_SIZE};

verus! {

/// Record magic `NVWL`.
pub const WAL_MAGIC: [u8; 4] = [78u8, 86u8, 87u8, 76u8];

/// Record format version.
pub const WAL_VERSION: u16 = 1;

/// Record header size.
pub const WAL_HEADER_SIZE: usize = 36;

/// Offset of the record checksum.
pub const WAL_CHECKSUM_OFFSET: usize = 28;

/// Largest payload a record may carry: a page id and a page image.
pub const MAX_PAYLOAD: usize = 4104;

/// Durable WAL operation.
#[derive(Debug)]
pub enum Operation {
    /// Starts a transaction.
    Begin,
    /// Stores a complete validated page after-image.
    PageWrite { page_id: PageId, page: Box<Page> },
    /// Makes all preceding writes for the transaction recoverable.
    Commit,
    /// Marks the transaction aborted.
    Abort,
    /// Establishes a synchronization point.
    Checkpoint,
}

/// The abstract value of an operation.
pub enum OpView {
    Begin,
    PageWrite(u64, PageView),
    Commit,
    Abort,
    Checkpoint,
}

impl View for Operation {
    type V = OpView;

    open spec fn view(&self) -> OpView {
        match self {
            Operation::Begin => OpView::Begin,
            Operation::PageWrite { page_id, page } => OpView::PageWrite(page_id@, page@),
            Operation::Commit => OpView::Commit,
            Operation::Abort => OpView::Abort,
            Operation::Checkpoint => OpView::Checkpoint,
        }
    }
}

impl Clone for Operation {
    fn clone(&self) -> (r: Self)
        ensures
            r@ == self@,
    {
        match self {
            Operation::Begin => Operation::Begin,
            Operation::PageWrite { page_id, page } => Operation::PageWrite {
                page_id: *page_id,
                page: Box::new((**page).clone()),
            },
            Operation::Commit => Operation::Commit,
            Operation::Abort => Operation::Abort,
            Operation::Checkpoint => Operation::Checkpoint,
        }
    }
}

/// One decoded WAL record.
#[derive(Debug)]
pub struct LogRecord {
    pub lsn: u64,
    pub transaction_id: u64,
    pub operation: Operation,
}

/// The abstract value of a record.
pub struct RecordView {
    pub lsn: u64,
    pub transaction_id: u64,
    pub op: OpView,
}

impl View for LogRecord {
    type V = RecordView;

    open spec fn view(&self) -> RecordView {
        RecordView { lsn: self.lsn, transaction_id: self.transaction_id, op: self.operation@ }
    }
}

impl Clone for LogRecord {
    fn clone(&self) -> (r: Self)
        ensures
            r@ == self@,
    {
        LogRecord { lsn: self.lsn, transaction_id: self.transaction_id, operation: self.operation.clone() }
    }
}

/// The views of a list of records.
pub open spec fn records_view(rs: Seq<LogRecord>) -> Seq<RecordView> {
    rs.map_values(|r: LogRecord| r@)
}

/// The tag byte of an operation.
pub open spec fn op_tag(op: OpView) -> u8 {
    match op {
        OpView::Begin => 0,
        OpView::PageWrite(..) => 1,
        OpView::Commit => 2,
        OpView::Abort => 3,
        OpView::Checkpoint => 4,
    }
}

/// The payload an operation is written with.
pub open spec fn op_payload(op: OpView) -> Seq<u8> {
    match op {
        OpView::PageWrite(id, page) => be64(id) + encode_page(page),
        _ => Seq::empty(),
    }
}

/// An operation can be written: a page write's page carries its id and
/// fits one page.
pub open spec fn op_encodable(op: OpView) -> bool {
    op matches OpView::PageWrite(id, page) ==> page.id == id && page_fits(page.slots)
}

/// A record header with the given checksum field.
pub open spec fn record_header(tag: u8, len: u32, lsn: u64, txn: u64, checksum: u32) -> Seq<u8> {
    WAL_MAGIC@ + be16(WAL_VERSION) + seq![tag, 0u8] + be32(len) + be64(lsn) + be64(txn) + be32(checksum) + be32(0)
}

/// The complete checksummed bytes of a record.
#[verifier::opaque]
pub open spec fn record_bytes(r: RecordView) -> Seq<u8> {
    let payload = op_payload(r.op);
    let unsummed = record_header(op_tag(r.op), payload.len() as u32, r.lsn, r.transaction_id, 0) + payload;
    record_header(op_tag(r.op), payload.len() as u32, r.lsn, r.transaction_id, crc32_of(zeroed(unsummed, 28, 32)))
        + payload
}

/// Encodes one record. A page write whose id differs from its page's is
/// an `InvalidArgument` error; a page that does not fit is `Storage`.
pub fn encode_record(record: &LogRecord) -> (r: Result<Vec<u8>>)
    ensures
        r is Ok <==> op_encodable(record@.op),
        r matches Ok(b) ==> b@ == record_bytes(record@),
        r matches Err(e) ==> (e is InvalidArgument <==> (record@.op matches OpView::PageWrite(id, page) && page.id
            != id)) && (e is InvalidArgument || e is Storage),
{
    let mut payload: Vec<u8> = Vec::new();
    let tag: u8 = match &record.operation {
        Operation::Begin => 0,
        Operation::PageWrite { page_id, page } => {
            if page.id().get() != page_id.get() {
                return Err(NovaError::InvalidArgument("WAL page id does not match page header".to_owned()));
            }
            let image = match page.to_bytes() {
                Ok(image) => image,
                Err(e) => {
                    return Err(e);
                },
            };
            push_u64(&mut payload, page_id.get());
            push_all(&mut payload, image.as_slice());
            1
        },
        Operation::Commit => 2,
        Operation::Abort => 3,
        Operation::Checkpoint => 4,
    };
    assert(payload@ == op_payload(record@.op));
    assert(payload@.len() <= 4104);
    let mut bytes: Vec<u8> = Vec::new();
    push_all(&mut bytes, WAL_MAGIC.as_slice());
    push_u16(&mut bytes, WAL_VERSION);
    bytes.push(tag);
    bytes.push(0u8);
    push_u32(&mut bytes, payload.len() as u32);
    push_u64(&mut bytes, record.lsn);
    push_u64(&mut bytes, record.transaction_id);
    push_u32(&mut bytes, 0u32);
    push_u32(&mut bytes, 0u32);
    push_all(&mut bytes, payload.as_slice());
    let ghost unsummed = bytes@;
    assert(unsummed =~= record_header(tag, payload@.len() as u32, record.lsn, record.transaction_id, 0) + payload@);
    let checksum = crc32(bytes.as_slice(), WAL_CHECKSUM_OFFSET, WAL_CHECKSUM_OFFSET + 4);
    set_u32(&mut bytes, WAL_CHECKSUM_OFFSET, checksum);
    proof {
        reveal(record_bytes);
    }
    assert(bytes@ =~= record_bytes(record@));
    Ok(bytes)
}

/// The payload length a record of this operation carries.
pub open spec fn payload_len(op: OpView) -> nat {
    match op {
        OpView::PageWrite(..) => (8 + PAGE_SIZE) as nat,
        _ => 0,
    }
}

/// `payload`, read with `tag`, is the operation `op`.
pub open spec fn op_read(tag: u8, payload: Seq<u8>, op: OpView) -> bool {
    &&& tag == op_tag(op)
    &&& payload.len() == payload_len(op)
    &&& op matches OpView::PageWrite(id, page) ==> {
        &&& read_be64(payload, 0) == id
        &&& page_bytes_valid(payload.subrange(8, payload.len() as int))
        &&& decoded_page(payload.subrange(8, payload.len() as int)) == page
        &&& page.id == id
    }
}

/// A `Corruption` error.
fn corruption(message: &str) -> (e: NovaError)
    ensures
        e is Corruption,
{
    NovaError::Corruption(message.to_owned())
}

/// Decodes a record's operation from its tag and payload.
///
/// A marker with a payload, a page write whose payload is not a page id
/// and a valid page image of that id, and an unknown tag are `Corruption`;
/// a page image of another format version is `Unsupported`.
pub fn decode_operation(tag: u8, payload: &[u8]) -> (r: Result<Operation>)
    ensures
        r matches Ok(op) ==> op_read(tag, payload@, op@),
        r matches Err(e) ==> e is Corruption || e is Unsupported,
        forall|v: OpView| op_read(tag, payload@, v) ==> (r matches Ok(op) && op@ == v),
{
    if (tag == 0 || tag == 2 || tag == 3 || tag == 4) && payload.len() != 0 {
        return Err(corruption("marker WAL record has payload"));
    }
    if tag == 0 {
        Ok(Operation::Begin)
    } else if tag == 1 {
        if payload.len() != 8 + PAGE_SIZE {
            return Err(corruption("page-write WAL payload has invalid length"));
        }
        let page_id = get_u64(payload, 0);
        let image = copy_range(payload, 8, payload.len());
        let page = match Page::from_bytes(image.as_slice()) {
            Ok(page) => page,
            Err(e) => {
                return Err(e);
            },
        };
        if page.id().get() != page_id {
            return Err(corruption("WAL page id does not match after-image"));
        }
        let op = Operation::PageWrite { page_id: PageId::new(page_id), page: Box::new(page) };
        Ok(op)
    } else if tag == 2 {
        Ok(Operation::Commit)
    } else if tag == 3 {
        Ok(Operation::Abort)
    } else if tag == 4 {
        Ok(Operation::Checkpoint)
    } else {
        Err(corruption("unknown WAL operation tag"))
    }
}

/// A record header whose magic, version, reserved fields and payload
/// length are acceptable starts at `at`.
pub open spec fn header_ok(b: Seq<u8>, at: int) -> bool {
    &&& 0 <= at && at + WAL_HEADER_SIZE <= b.len()
    &&& b.subrange(at, at + 4) == WAL_MAGIC@
    &&& read_be16(b, at + 4) == WAL_VERSION
    &&& b[at + 7] == 0
    &&& read_be32(b, at + 32) == 0
    &&& read_be32(b, at + 8) <= MAX_PAYLOAD
}

/// `e` is exactly the bytes of record `r`: a good header, a checksum that
/// matches, its LSN and transaction, and a payload that reads as its
/// operation.
pub open spec fn record_slice_ok(e: Seq<u8>, r: RecordView) -> bool {
    &&& header_ok(e, 0)
    &&& e.len() == WAL_HEADER_SIZE + read_be32(e, 8)
    &&& read_be32(e, 28) == crc32_of(zeroed(e, 28, 32))
    &&& read_be64(e, 12) == r.lsn
    &&& read_be64(e, 20) == r.transaction_id
    &&& op_read(e[6], e.subrange(WAL_HEADER_SIZE as int, e.len() as int), r.op)
}

/// The record `r` is stored at `at` of `b`.
pub open spec fn record_at(b: Seq<u8>, at: int, r: RecordView) -> bool {
    let end = at + WAL_HEADER_SIZE + read_be32(b, at + 8);
    &&& 0 <= at && at + WAL_HEADER_SIZE <= b.len()
    &&& end <= b.len()
    &&& record_slice_ok(b.subrange(at, end), r)
}

/// The encoded length of records.
pub open spec fn records_len(rs: Seq<RecordView>) -> nat
    decreases rs.len(),
{
    if rs.len() == 0 {
        0
    } else {
        records_len(rs.drop_last()) + WAL_HEADER_SIZE as nat + payload_len(rs.last().op)
    }
}

/// The records lie back to back from the start of `b`, numbered from
/// zero.
pub open spec fn records_at(b: Seq<u8>, rs: Seq<RecordView>) -> bool {
    forall|i: int| 0 <= i < rs.len() ==> #[trigger] rs[i].lsn == i && record_at(b, records_len(rs.take(i)) as int, rs[i])
}

/// An incomplete record starts at `at`: fewer bytes than a header, or a
/// good header whose payload runs past the end.
pub open spec fn torn_at(b: Seq<u8>, at: int) -> bool {
    ||| b.len() - at < WAL_HEADER_SIZE
    ||| header_ok(b, at) && b.len() - at < WAL_HEADER_SIZE + read_be32(b, at + 8)
}

/// The bytes of a log: its records' bytes, in order.
pub open spec fn wal_bytes(rs: Seq<RecordView>) -> Seq<u8>
    decreases rs.len(),
{
    if rs.len() == 0 {
        Seq::empty()
    } else {
        record_bytes(rs[0]) + wal_bytes(rs.drop_first())
    }
}

/// A log that appends produce: LSNs from zero, every operation writable.
pub open spec fn log_valid(rs: Seq<RecordView>) -> bool {
    &&& forall|i: int| 0 <= i < rs.len() ==> #[trigger] rs[i].lsn == i
    &&& ops_encodable(rs)
}

/// The fields of a record header read back as written.
proof fn lemma_header_reads(tag: u8, len: u32, lsn: u64, txn: u64, c: u32)
    ensures
        ({
            let h = record_header(tag, len, lsn, txn, c);
            &&& h.len() == WAL_HEADER_SIZE
            &&& h.subrange(0, 4) == WAL_MAGIC@
            &&& read_be16(h, 4) == WAL_VERSION
            &&& h[6] == tag
            &&& h[7] == 0
            &&& read_be32(h, 8) == len
            &&& read_be64(h, 12) == lsn
            &&& read_be64(h, 20) == txn
            &&& read_be32(h, 28) == c
            &&& read_be32(h, 32) == 0
        }),
{
    let h = record_header(tag, len, lsn, txn, c);
    assert(h.subrange(0, 4) =~= WAL_MAGIC@);
    assert(h.subrange(4, 6) =~= be16(WAL_VERSION));
    crate::bytes::lemma_be16_round_trip(WAL_VERSION, h, 4);
    assert(h.subrange(8, 12) =~= be32(len));
    crate::bytes::lemma_be32_round_trip(len, h, 8);
    assert(h.subrange(12, 20) =~= be64(lsn));
    crate::bytes::lemma_be64_round_trip(lsn, h, 12);
    assert(h.subrange(20, 28) =~= be64(txn));
    crate::bytes::lemma_be64_round_trip(txn, h, 20);
    assert(h.subrange(28, 32) =~= be32(c));
    crate::bytes::lemma_be32_round_trip(c, h, 28);
    assert(h.subrange(32, 36) =~= be32(0));
    crate::bytes::lemma_be32_round_trip(0, h, 32);
}

/// The payload of a writable operation reads back as the operation.
proof fn lemma_payload_reads(op: OpView)
    requires
        op_encodable(op),
    ensures
        op_payload(op).len() == payload_len(op),
        op_read(op_tag(op), op_payload(op), op),
{
    let payload = op_payload(op);
    match op {
        OpView::PageWrite(id, page) => {
            crate::page::law_page_round_trip(page);
            assert(payload.subrange(8, payload.len() as int) =~= encode_page(page));
            assert(payload.subrange(0, 8) =~= be64(id));
            crate::bytes::lemma_be64_round_trip(id, payload, 0);
        },
        _ => {},
    }
}

/// An encoded record reads back as the record.
proof fn lemma_record_fields(r: RecordView)
    requires
        op_encodable(r.op),
    ensures
        record_bytes(r).len() == WAL_HEADER_SIZE + payload_len(r.op),
        read_be32(record_bytes(r), 8) == payload_len(r.op),
        record_slice_ok(record_bytes(r), r),
{
    reveal(record_bytes);
    let payload = op_payload(r.op);
    lemma_payload_reads(r.op);
    let len = payload.len() as u32;
    let h0 = record_header(op_tag(r.op), len, r.lsn, r.transaction_id, 0);
    let c = crc32_of(zeroed(h0 + payload, 28, 32));
    let h = record_header(op_tag(r.op), len, r.lsn, r.transaction_id, c);
    lemma_header_reads(op_tag(r.op), len, r.lsn, r.transaction_id, c);
    lemma_header_reads(op_tag(r.op), len, r.lsn, r.transaction_id, 0);
    let e = h + payload;
    assert(record_bytes(r) == e);
    assert(e.subrange(0, 4) =~= h.subrange(0, 4));
    assert(read_be16(e, 4) == read_be16(h, 4));
    assert(read_be32(e, 8) == read_be32(h, 8));
    assert(read_be64(e, 12) == read_be64(h, 12));
    assert(read_be64(e, 20) == read_be64(h, 20));
    assert(read_be32(e, 28) == read_be32(h, 28));
    assert(read_be32(e, 32) == read_be32(h, 32));
    assert(e[6] == h[6] && e[7] == h[7]);
    assert(e.subrange(WAL_HEADER_SIZE as int, e.len() as int) =~= payload);
    assert(zeroed(e, 28, 32) =~= zeroed(h0 + payload, 28, 32)) by {
        assert forall|k: int| 0 <= k < e.len() && !(28 <= k < 32) implies (h0 + payload)[k] == e[k] by {
            if k < 36 {
                assert(h0[k] == h[k]);
            }
        }
    }
}

/// Every operation of the records is writable.
pub open spec fn ops_encodable(rs: Seq<RecordView>) -> bool {
    forall|i: int| 0 <= i < rs.len() ==> op_encodable(#[trigger] rs[i].op)
}

/// Equal concatenations with equal-length fronts have equal parts.
proof fn lemma_concat_split(x: Seq<u8>, y: Seq<u8>, z: Seq<u8>, t: Seq<u8>)
    requires
        x + y == z + t,
        x.len() == z.len(),
    ensures
        x == z,
        y == t,
{
    assert(x =~= (x + y).subrange(0, x.len() as int));
    assert(z =~= (z + t).subrange(0, x.len() as int));
    assert(y =~= (x + y).subrange(x.len() as int, (x + y).len() as int));
    assert(t =~= (z + t).subrange(x.len() as int, (x + y).len() as int));
}

/// Two writable records with the same bytes are the same record.
proof fn lemma_record_unique(a: RecordView, b: RecordView)
    requires
        op_encodable(a.op),
        op_encodable(b.op),
        record_bytes(a) == record_bytes(b),
    ensures
        a == b,
{
    lemma_record_fields(a);
    lemma_record_fields(b);
    let e = record_bytes(a);
    let payload = e.subrange(WAL_HEADER_SIZE as int, e.len() as int);
    assert(op_read(e[6], payload, a.op));
    assert(op_read(e[6], payload, b.op));
    match a.op {
        OpView::PageWrite(..) => {
            assert(b.op matches OpView::PageWrite(..));
        },
        _ => {},
    }
}

/// Two logs of writable records with the same bytes are the same log.
proof fn lemma_wal_unique(a: Seq<RecordView>, b: Seq<RecordView>)
    requires
        ops_encodable(a),
        ops_encodable(b),
        wal_bytes(a) == wal_bytes(b),
    ensures
        a == b,
    decreases a.len(),
{
    let w = wal_bytes(a);
    if a.len() == 0 {
        if b.len() > 0 {
            assert(op_encodable(b[0].op));
            lemma_record_fields(b[0]);
            assert(wal_bytes(b) == record_bytes(b[0]) + wal_bytes(b.drop_first()));
            assert(wal_bytes(a).len() == 0);
            assert(false);
        }
        assert(a =~= b);
    } else {
        assert(op_encodable(a[0].op));
        lemma_record_fields(a[0]);
        if b.len() == 0 {
            assert(wal_bytes(a) == record_bytes(a[0]) + wal_bytes(a.drop_first()));
            assert(wal_bytes(b).len() == 0);
            assert(false);
        }
        assert(op_encodable(b[0].op));
        lemma_record_fields(b[0]);
        let ea = record_bytes(a[0]);
        let eb = record_bytes(b[0]);
        let ra = wal_bytes(a.drop_first());
        let rb = wal_bytes(b.drop_first());
        assert(w == ea + ra);
        assert(w == eb + rb);
        assert(ea.len() == eb.len()) by {
            assert(read_be32(w, 8) == read_be32(ea, 8));
            assert(read_be32(w, 8) == read_be32(eb, 8));
        }
        lemma_concat_split(ea, ra, eb, rb);
        lemma_record_unique(a[0], b[0]);
        assert(ops_encodable(a.drop_first())) by {
            assert forall|i: int| 0 <= i < a.drop_first().len() implies op_encodable(#[trigger] a.drop_first()[i].op) by {
                assert(op_encodable(a[i + 1].op));
            }
        }
        assert(ops_encodable(b.drop_first())) by {
            assert forall|i: int| 0 <= i < b.drop_first().len() implies op_encodable(#[trigger] b.drop_first()[i].op) by {
                assert(op_encodable(b[i + 1].op));
            }
        }
        lemma_wal_unique(a.drop_first(), b.drop_first());
        assert(a =~= b) by {
            assert forall|i: int| 0 <= i < a.len() implies a[i] == b[i] by {
                if i > 0 {
                    assert(a.drop_first()[i - 1] == b.drop_first()[i - 1]);
                }
            }
        }
    }
}

/// No valid log has these bytes.
pub open spec fn no_log(b: Seq<u8>) -> bool {
    forall|rs: Seq<RecordView>| !(log_valid(rs) && b == #[trigger] wal_bytes(rs))
}

/// No valid log has bytes for which none exists.
proof fn lemma_no_log(b: Seq<u8>, good: bool)
    requires
        good == exists|rs: Seq<RecordView>| log_valid(rs) && b == #[trigger] wal_bytes(rs),
        !good,
    ensures
        no_log(b),
{
}

/// The header fields of a slice read as those of the whole at its start.
proof fn lemma_slice_reads(b: Seq<u8>, at: int, end: int)
    requires
        0 <= at,
        at + WAL_HEADER_SIZE <= end <= b.len(),
    ensures
        ({
            let e = b.subrange(at, end);
            &&& read_be16(e, 4) == read_be16(b, at + 4)
            &&& read_be32(e, 8) == read_be32(b, at + 8)
            &&& read_be64(e, 12) == read_be64(b, at + 12)
            &&& read_be64(e, 20) == read_be64(b, at + 20)
            &&& read_be32(e, 28) == read_be32(b, at + 28)
            &&& read_be32(e, 32) == read_be32(b, at + 32)
            &&& e[6] == b[at + 6]
            &&& e[7] == b[at + 7]
            &&& e.subrange(0, 4) == b.subrange(at, at + 4)
        }),
{
    let e = b.subrange(at, end);
    assert(e.subrange(0, 4) =~= b.subrange(at, at + 4));
}

/// In a valid log's bytes, the record that follows `k` earlier ones sits
/// at the front of what follows them.
proof fn lemma_log_step(b: Seq<u8>, rs: Seq<RecordView>, k: int, pos: int)
    requires
        log_valid(rs),
        0 <= k <= rs.len(),
        0 <= pos < b.len(),
        b.subrange(pos, b.len() as int) == wal_bytes(rs.skip(k)),
    ensures
        k < rs.len(),
        pos + record_bytes(rs[k]).len() <= b.len(),
        b.subrange(pos, pos + record_bytes(rs[k]).len()) == record_bytes(rs[k]),
        b.subrange(pos + record_bytes(rs[k]).len(), b.len() as int) == wal_bytes(rs.skip(k + 1)),
        record_slice_ok(record_bytes(rs[k]), rs[k]),
        record_bytes(rs[k]).len() == WAL_HEADER_SIZE + payload_len(rs[k].op),
        read_be32(record_bytes(rs[k]), 8) == payload_len(rs[k].op),
{
    if k == rs.len() {
        assert(rs.skip(k).len() == 0);
        assert(wal_bytes(rs.skip(k)).len() == 0);
        assert(false);
    }
    let t = rs.skip(k);
    assert(t[0] == rs[k]);
    assert(t.drop_first() =~= rs.skip(k + 1));
    assert(wal_bytes(t) == record_bytes(rs[k]) + wal_bytes(rs.skip(k + 1)));
    assert(op_encodable(rs[k].op));
    lemma_record_fields(rs[k]);
    let e = record_bytes(rs[k]);
    let rest = b.subrange(pos, b.len() as int);
    assert(b.subrange(pos, pos + e.len()) =~= rest.subrange(0, e.len() as int));
    assert(rest.subrange(0, e.len() as int) =~= e);
    assert(b.subrange(pos + e.len(), b.len() as int) =~= rest.subrange(e.len() as int, rest.len() as int));
    assert(rest.subrange(e.len() as int, rest.len() as int) =~= wal_bytes(rs.skip(k + 1)));
}

/// Decodes the records at the front of a log file, returning them and the
/// length of the bytes they occupy.
///
/// Records must follow one another with LSNs counting from zero. A record
/// of another format version is `Unsupported`; a bad magic, reserved field,
/// payload length, checksum, LSN or operation is `Corruption`. A record
/// cut short at the end of the input is `Corruption` too, unless
/// `allow_torn_tail`, when decoding stops before it.
#[verifier::rlimit(40)]
pub fn decode_records(bytes: &[u8], allow_torn_tail: bool) -> (r: Result<(Vec<LogRecord>, usize)>)
    ensures
        r matches Ok((recs, n)) ==> {
            &&& records_at(bytes@, records_view(recs@))
            &&& n == records_len(records_view(recs@))
            &&& n <= bytes@.len()
            &&& (n == bytes@.len() || (allow_torn_tail && torn_at(bytes@, n as int)))
        },
        r matches Err(e) ==> e is Corruption || e is Unsupported,
        forall|rs: Seq<RecordView>|
            log_valid(rs) && bytes@ == #[trigger] wal_bytes(rs) ==> (r matches Ok((recs, n)) && records_view(recs@) == rs && n
                == bytes@.len()),
{
    let total_len = bytes.len();
    let ghost good = exists|rs: Seq<RecordView>| log_valid(rs) && bytes@ == #[trigger] wal_bytes(rs);
    let ghost rs = choose|rs: Seq<RecordView>| log_valid(rs) && bytes@ == #[trigger] wal_bytes(rs);
    let mut records: Vec<LogRecord> = Vec::new();
    let mut pos: usize = 0;
    proof {
        if good {
            assert(rs.skip(0) =~= rs);
            assert(bytes@.subrange(0, bytes@.len() as int) =~= bytes@);
        }
    }
    loop
        invariant
            total_len == bytes@.len(),
            pos <= total_len,
            records_at(bytes@, records_view(records@)),
            pos == records_len(records_view(records@)),
            good == exists|rs2: Seq<RecordView>| log_valid(rs2) && bytes@ == #[trigger] wal_bytes(rs2),
            good ==> log_valid(rs) && bytes@ == wal_bytes(rs),
            good ==> records@.len() <= rs.len() && records_view(records@) == rs.take(records@.len() as int)
                && bytes@.subrange(pos as int, total_len as int) == wal_bytes(rs.skip(records@.len() as int)),
        ensures
            pos <= total_len,
            records_at(bytes@, records_view(records@)),
            pos == records_len(records_view(records@)),
            pos == total_len || (allow_torn_tail && torn_at(bytes@, pos as int)),
            good ==> records_view(records@) == rs && pos == total_len,
        decreases total_len - pos,
    {
        let k = records.len();
        let ghost views = records_view(records@);
        if pos >= total_len {
            proof {
                if good {
                    let t = rs.skip(k as int);
                    if k < rs.len() {
                        assert(t[0] == rs[k as int]);
                        assert(op_encodable(rs[k as int].op));
                        lemma_record_fields(rs[k as int]);
                        assert(wal_bytes(t) == record_bytes(t[0]) + wal_bytes(t.drop_first()));
                        assert(bytes@.subrange(pos as int, total_len as int).len() == 0);
                        assert(false);
                    }
                    assert(rs.take(k as int) =~= rs);
                }
            }
            break;
        }
        proof {
            if good {
                lemma_log_step(bytes@, rs, k as int, pos as int);
                lemma_slice_reads(bytes@, pos as int, pos + record_bytes(rs[k as int]).len());
            }
        }
        if total_len - pos < WAL_HEADER_SIZE {
            assert(!good);
            if allow_torn_tail {
                break;
            }
            proof {
                lemma_no_log(bytes@, good);
            }
            return Err(corruption("truncated WAL header"));
        }
        if bytes[pos] != WAL_MAGIC[0] || bytes[pos + 1] != WAL_MAGIC[1] || bytes[pos + 2] != WAL_MAGIC[2] || bytes[pos
            + 3] != WAL_MAGIC[3] {
            proof {
                if good {
                    let e = record_bytes(rs[k as int]);
                    assert(e.subrange(0, 4)[0] == e[0]);
                    assert(bytes@.subrange(pos as int, pos + e.len())[0] == bytes@[pos as int]);
                    assert(e.subrange(0, 4)[1] == e[1]);
                    assert(bytes@.subrange(pos as int, pos + e.len())[1] == bytes@[pos + 1]);
                    assert(e.subrange(0, 4)[2] == e[2]);
                    assert(bytes@.subrange(pos as int, pos + e.len())[2] == bytes@[pos + 2]);
                    assert(e.subrange(0, 4)[3] == e[3]);
                    assert(bytes@.subrange(pos as int, pos + e.len())[3] == bytes@[pos + 3]);
                    assert(false);
                }
            }
            proof {
                lemma_no_log(bytes@, good);
            }
            return Err(corruption("invalid WAL magic"));
        }
        let ghost e0 = bytes@.subrange(pos as int, pos + WAL_HEADER_SIZE);
        assert(bytes@.subrange(pos as int, pos + 4) =~= WAL_MAGIC@);
        if get_u16(bytes, pos + 4) != WAL_VERSION {
            proof {
                lemma_no_log(bytes@, good);
            }
            return Err(NovaError::Unsupported("WAL version".to_owned()));
        }
        if bytes[pos + 7] != 0 || get_u32(bytes, pos + 32) != 0 {
            proof {
                lemma_no_log(bytes@, good);
            }
            return Err(corruption("WAL reserved field is non-zero"));
        }
        let plen = get_u32(bytes, pos + 8) as usize;
        if plen > MAX_PAYLOAD {
            proof {
                lemma_no_log(bytes@, good);
            }
            return Err(corruption("WAL payload exceeds maximum"));
        }
        let total = WAL_HEADER_SIZE + plen;
        if total_len - pos < total {
            if allow_torn_tail {
                break;
            }
            proof {
                lemma_no_log(bytes@, good);
            }
            return Err(corruption("truncated WAL payload"));
        }
        let end = pos + total;
        let encoded = copy_range(bytes, pos, end);
        let stored = get_u32(bytes, pos + 28);
        if stored != crc32(encoded.as_slice(), WAL_CHECKSUM_OFFSET, WAL_CHECKSUM_OFFSET + 4) {
            proof {
                lemma_no_log(bytes@, good);
            }
            return Err(corruption("WAL checksum mismatch"));
        }
        let lsn = get_u64(bytes, pos + 12);
        if lsn != k as u64 {
            proof {
                lemma_no_log(bytes@, good);
            }
            return Err(corruption("WAL LSN sequence is not contiguous"));
        }
        let transaction_id = get_u64(bytes, pos + 20);
        let payload = copy_range(bytes, pos + WAL_HEADER_SIZE, end);
        let tag = bytes[pos + 6];
        proof {
            if good {
                let ek = record_bytes(rs[k as int]);
                assert(read_be32(ek, 8) == read_be32(bytes@, pos + 8));
                assert(ek.len() == total);
                assert(ek == bytes@.subrange(pos as int, end as int));
                assert(payload@ =~= ek.subrange(WAL_HEADER_SIZE as int, ek.len() as int));
                assert(ek[6] == tag);
                assert(op_read(tag, payload@, rs[k as int].op));
            }
        }
        let operation = match decode_operation(tag, payload.as_slice()) {
            Ok(op) => op,
            Err(e) => {
                proof {
                    assert(!good);
                    assert(no_log(bytes@));
                }
                return Err(e);
            },
        };
        let record = LogRecord { lsn, transaction_id, operation };
        let ghost rv = record@;
        records.push(record);
        proof {
            let b = bytes@;
            let e = b.subrange(pos as int, end as int);
            assert(e == encoded@);
            assert(read_be16(e, 4) == read_be16(b, pos + 4));
            assert(read_be32(e, 8) == read_be32(b, pos + 8));
            assert(read_be32(e, 32) == read_be32(b, pos + 32));
            assert(read_be32(e, 28) == read_be32(b, pos + 28));
            assert(read_be64(e, 12) == read_be64(b, pos + 12));
            assert(read_be64(e, 20) == read_be64(b, pos + 20));
            assert(e[6] == tag && e[7] == b[pos + 7]);
            assert(e.subrange(0, 4) =~= b.subrange(pos as int, pos + 4));
            assert(e.subrange(WAL_HEADER_SIZE as int, e.len() as int) =~= payload@);
            assert(record_slice_ok(e, rv));
            assert(record_at(b, pos as int, rv));
            let nv = records_view(records@);
            assert(nv =~= views.push(rv));
            assert(nv.drop_last() =~= views);
            assert(records_len(nv) == pos + total);
            assert forall|i: int| 0 <= i < nv.len() implies #[trigger] nv[i].lsn == i && record_at(
                b,
                records_len(nv.take(i)) as int,
                nv[i],
            ) by {
                if i < views.len() {
                    assert(nv.take(i) =~= views.take(i));
                    assert(nv[i] == views[i]);
                    assert(views[i].lsn == i);
                } else {
                    assert(nv.take(i) =~= views);
                }
            }
            if good {
                let rk = rs[k as int];
                let ek = record_bytes(rk);
                assert(b.subrange(pos as int, pos + ek.len()) == ek);
                assert(read_be32(ek, 8) == read_be32(b, pos + 8));
                assert(ek.len() == total);
                assert(e == ek);
                assert(record_slice_ok(ek, rk));
                assert(op_read(tag, payload@, rk.op));
                assert(rv.op == rk.op);
                assert(rv == rk);
                assert(nv =~= rs.take(k + 1));
            }
        }
        pos = end;
    }
    proof {
        if good {
            assert forall|rs2: Seq<RecordView>| log_valid(rs2) && bytes@ == #[trigger] wal_bytes(rs2) implies rs2 == rs by {
                lemma_wal_unique(rs2, rs);
            }
        }
        if !good {
            assert forall|rs2: Seq<RecordView>| !(log_valid(rs2) && bytes@ == #[trigger] wal_bytes(rs2)) by {
                if log_valid(rs2) && bytes@ == wal_bytes(rs2) {
                    assert(good);
                }
            }
        }
    }
    Ok((records, pos))
}

/// Appending a record's bytes to a log's bytes gives the longer log's.
pub proof fn lemma_wal_bytes_push(rs: Seq<RecordView>, r: RecordView)
    ensures
        wal_bytes(rs.push(r)) == wal_bytes(rs) + record_bytes(r),
    decreases rs.len(),
{
    if rs.len() == 0 {
        let one = rs.push(r);
        assert(one.drop_first() =~= Seq::<RecordView>::empty());
        assert(one[0] == r);
        assert(wal_bytes(one.drop_first()) == Seq::<u8>::empty());
        assert(wal_bytes(one) == record_bytes(r) + Seq::<u8>::empty());
        assert(wal_bytes(rs) == Seq::<u8>::empty());
        assert(wal_bytes(one) =~= wal_bytes(rs) + record_bytes(r));
    } else {
        lemma_wal_bytes_push(rs.drop_first(), r);
        assert(rs.push(r).drop_first() =~= rs.drop_first().push(r));
        assert(rs.push(r)[0] == rs[0]);
        assert(wal_bytes(rs.push(r)) =~= wal_bytes(rs) + record_bytes(r));
    }
}

/// Records numbered from zero.
pub open spec fn numbered(rs: Seq<RecordView>) -> bool {
    forall|i: int| 0 <= i < rs.len() ==> #[trigger] rs[i].lsn == i
}

/// The append-only log: the records read or appended so far, the next LSN
/// and the last LSN known to be on stable storage. The file itself is
/// written and synchronized by the caller: `prepare` encodes the next
/// record, `record_written` takes it in once its bytes are written, and
/// `mark_flushed` records a synchronization.
pub struct WriteAheadLog {
    path: String,
    records: Vec<LogRecord>,
    next_lsn: u64,
    durable_lsn: Option<u64>,
}

impl WriteAheadLog {
    /// The log's records.
    pub closed spec fn records_view(&self) -> Seq<RecordView> {
        records_view(self.records@)
    }

    /// The LSN the next record gets.
    pub closed spec fn next_lsn_view(&self) -> u64 {
        self.next_lsn
    }

    /// The last LSN known durable.
    pub closed spec fn durable_view(&self) -> Option<u64> {
        self.durable_lsn
    }

    /// The log's path.
    pub closed spec fn path_view(&self) -> Seq<char> {
        self.path@
    }

    /// The log invariant: records numbered from zero, the next LSN after
    /// them, and a durable LSN among them.
    pub closed spec fn wf(&self) -> bool {
        &&& numbered(self.records_view())
        &&& self.next_lsn == self.records@.len()
        &&& (self.durable_lsn matches Some(d) ==> d < self.records@.len())
    }

    /// Opens a log from the complete contents of its file, keeping the
    /// records before a torn tail. Returns the log and the length of the
    /// valid bytes (the caller truncates the file to it). Fails like
    /// `decode_records`.
    pub fn open_bytes(path: String, bytes: &[u8]) -> (r: Result<(WriteAheadLog, usize)>)
        ensures
            r matches Ok((w, n)) ==> {
                &&& w.wf()
                &&& w.path_view() == path@
                &&& records_at(bytes@, w.records_view())
                &&& n == records_len(w.records_view())
                &&& n <= bytes@.len()
                &&& (n == bytes@.len() || torn_at(bytes@, n as int))
                &&& w.durable_view() == if w.records_view().len() == 0 {
                    None
                } else {
                    Some((w.records_view().len() - 1) as u64)
                }
            },
            r matches Err(e) ==> e is Corruption || e is Unsupported,
            forall|rs: Seq<RecordView>|
                log_valid(rs) && bytes@ == #[trigger] wal_bytes(rs) ==> (r matches Ok((w, n)) && w.records_view() == rs && n
                    == bytes@.len()),
    {
        let (records, valid) = match decode_records(bytes, true) {
            Ok(parts) => parts,
            Err(e) => {
                return Err(e);
            },
        };
        let count = records.len();
        proof {
            let v = records_view(records@);
            assert forall|i: int| 0 <= i < v.len() implies #[trigger] v[i].lsn == i by {
                assert(v[i].lsn == i && record_at(bytes@, records_len(v.take(i)) as int, v[i]));
            }
        }
        let (next_lsn, durable_lsn) = if count == 0 {
            (0u64, None)
        } else {
            let last = records[count - 1].lsn;
            proof {
                let v = records_view(records@);
                assert(v[count - 1].lsn == count - 1);
            }
            (last + 1, Some(last))
        };
        let w = WriteAheadLog { path, records, next_lsn, durable_lsn };
        Ok((w, valid))
    }

    /// Returns the path backing this log.
    pub fn path(&self) -> (r: &str)
        ensures
            r@ == self.path_view(),
    {
        self.path.as_str()
    }

    /// Returns the records in LSN order.
    pub fn records(&self) -> (r: &Vec<LogRecord>)
        ensures
            records_view(r@) == self.records_view(),
    {
        &self.records
    }

    /// Returns the last LSN known to be durable.
    pub fn durable_lsn(&self) -> (r: Option<u64>)
        ensures
            r == self.durable_view(),
    {
        self.durable_lsn
    }

    /// Encodes the next record: the given operation under the next LSN.
    /// Fails like `encode_record`.
    pub fn prepare(&self, transaction_id: u64, operation: Operation) -> (r: Result<(LogRecord, Vec<u8>)>)
        requires
            self.wf(),
        ensures
            r is Ok <==> op_encodable(operation@),
            r matches Ok((rec, b)) ==> rec@ == (RecordView { lsn: self.next_lsn_view(), transaction_id, op: operation@ })
                && b@ == record_bytes(rec@),
            r matches Err(e) ==> e is InvalidArgument || e is Storage,
    {
        let record = LogRecord { lsn: self.next_lsn, transaction_id, operation };
        match encode_record(&record) {
            Ok(bytes) => Ok((record, bytes)),
            Err(e) => Err(e),
        }
    }

    /// Takes in a record whose bytes were written after the log's, and
    /// returns its LSN. Running out of LSNs is a `Storage` error, after the
    /// record is taken in.
    pub fn record_written(&mut self, record: LogRecord) -> (r: Result<u64>)
        requires
            old(self).wf(),
            record.lsn == old(self).next_lsn_view(),
        ensures
            final(self).records_view() == old(self).records_view().push(record@),
            final(self).path_view() == old(self).path_view(),
            final(self).durable_view() == old(self).durable_view(),
            r is Ok ==> final(self).wf(),
            r is Ok <==> record.lsn < u64::MAX,
            r matches Ok(l) ==> l == record.lsn,
            r matches Err(e) ==> e is Storage,
    {
        let lsn = record.lsn;
        let ghost before = self.records_view();
        self.records.push(record);
        proof {
            let v = self.records_view();
            assert(v =~= before.push(record@));
            assert forall|i: int| 0 <= i < v.len() implies #[trigger] v[i].lsn == i by {
                if i < before.len() {
                    assert(v[i] == before[i]);
                    assert(before[i].lsn == i);
                }
            }
        }
        if self.next_lsn == u64::MAX {
            return Err(NovaError::Storage("WAL LSN overflow".to_owned()));
        }
        self.next_lsn = self.next_lsn + 1;
        Ok(lsn)
    }

    /// Records that every record is on stable storage.
    pub fn mark_flushed(&mut self)
        requires
            old(self).wf(),
        ensures
            final(self).wf(),
            final(self).records_view() == old(self).records_view(),
            final(self).next_lsn_view() == old(self).next_lsn_view(),
            final(self).path_view() == old(self).path_view(),
            final(self).durable_view() == if old(self).records_view().len() == 0 {
                None
            } else {
                Some((old(self).records_view().len() - 1) as u64)
            },
    {
        let n = self.records.len();
        if n == 0 {
            self.durable_lsn = None;
        } else {
            self.durable_lsn = Some(self.records[n - 1].lsn);
            proof {
                let v = self.records_view();
                assert(v[n - 1].lsn == n - 1);
            }
        }
    }
}

/// Transaction `t` has a commit record.
pub open spec fn committed(rs: Seq<RecordView>, t: u64) -> bool {
    exists|j: int| 0 <= j < rs.len() && #[trigger] rs[j].op is Commit && rs[j].transaction_id == t
}

/// Transaction `t` has an abort record.
pub open spec fn aborted(rs: Seq<RecordView>, t: u64) -> bool {
    exists|j: int| 0 <= j < rs.len() && #[trigger] rs[j].op is Abort && rs[j].transaction_id == t
}

/// Record `i` is a page write that recovery replays: its transaction
/// committed and did not abort.
pub open spec fn replayed(rs: Seq<RecordView>, i: int) -> bool {
    &&& rs[i].op is PageWrite
    &&& committed(rs, rs[i].transaction_id)
    &&& !aborted(rs, rs[i].transaction_id)
}

/// Whether some record of `kind` (commit when `commit`, else abort) names
/// transaction `t`.
fn has_marker(records: &Vec<LogRecord>, t: u64, commit: bool) -> (r: bool)
    ensures
        r == if commit {
            committed(records_view(records@), t)
        } else {
            aborted(records_view(records@), t)
        },
{
    let ghost v = records_view(records@);
    let mut j: usize = 0;
    while j < records.len()
        invariant
            j <= records@.len(),
            v == records_view(records@),
            forall|q: int|
                0 <= q < j ==> !(if commit {
                    #[trigger] v[q].op is Commit
                } else {
                    v[q].op is Abort
                } && v[q].transaction_id == t),
        decreases records@.len() - j,
    {
        let hit = match &records[j].operation {
            Operation::Commit => commit,
            Operation::Abort => !commit,
            _ => false,
        };
        if hit && records[j].transaction_id == t {
            assert(v[j as int] == records@[j as int]@);
            return true;
        }
        assert(v[j as int] == records@[j as int]@);
        j = j + 1;
    }
    false
}

/// The indices of the page writes that recovery replays, in log order:
/// those of committed transactions that did not abort.
pub fn redo_plan(records: &Vec<LogRecord>) -> (r: Vec<usize>)
    ensures
        forall|k: int| 0 <= k < r@.len() ==> #[trigger] r@[k] < records@.len() && replayed(records_view(records@), r@[k] as int),
        forall|a: int, b: int| 0 <= a < b < r@.len() ==> #[trigger] r@[a] < #[trigger] r@[b],
        forall|i: int| 0 <= i < records@.len() && replayed(records_view(records@), i) ==> r@.contains(i as usize),
{
    let ghost v = records_view(records@);
    let mut plan: Vec<usize> = Vec::new();
    let mut i: usize = 0;
    while i < records.len()
        invariant
            i <= records@.len(),
            v == records_view(records@),
            forall|k: int| 0 <= k < plan@.len() ==> #[trigger] plan@[k] < i && replayed(v, plan@[k] as int),
            forall|a: int, b: int| 0 <= a < b < plan@.len() ==> #[trigger] plan@[a] < #[trigger] plan@[b],
            forall|q: int| 0 <= q < i && replayed(v, q) ==> plan@.contains(q as usize),
        decreases records@.len() - i,
    {
        let is_write = match &records[i].operation {
            Operation::PageWrite { .. } => true,
            _ => false,
        };
        assert(v[i as int] == records@[i as int]@);
        if is_write {
            let t = records[i].transaction_id;
            if has_marker(records, t, true) && !has_marker(records, t, false) {
                let ghost before = plan@;
                plan.push(i);
                proof {
                    assert(plan@[before.len() as int] == i);
                    assert forall|q: int| 0 <= q < i + 1 && replayed(v, q) implies plan@.contains(q as usize) by {
                        if q < i {
                            let k = choose|k: int| 0 <= k < before.len() && before[k] == q as usize;
                            assert(plan@[k] == q as usize);
                        } else {
                            assert(plan@[before.len() as int] == q as usize);
                        }
                    }
                }
            } else {
                proof {
                    assert forall|q: int| 0 <= q < i + 1 && replayed(v, q) implies plan@.contains(q as usize) by {}
                }
            }
        } else {
            proof {
                assert forall|q: int| 0 <= q < i + 1 && replayed(v, q) implies plan@.contains(q as usize) by {}
            }
        }
        i = i + 1;
    }
    plan
}

/// The page after-images a plan writes, in order.
pub open spec fn plan_writes(rs: Seq<RecordView>, plan: Seq<usize>) -> Seq<(u64, PageView)> {
    plan.map_values(|i: usize| (rs[i as int].op->PageWrite_0, rs[i as int].op->PageWrite_1))
}

/// A page store after the writes, each replacing a whole page.
pub open spec fn apply_writes(store: Map<u64, PageView>, ws: Seq<(u64, PageView)>) -> Map<u64, PageView>
    decreases ws.len(),
{
    if ws.len() == 0 {
        store
    } else {
        apply_writes(store, ws.drop_last()).insert(ws.last().0, ws.last().1)
    }
}

/// Applying writes overrides the store with the last write of each page.
proof fn lemma_apply_overrides(store: Map<u64, PageView>, ws: Seq<(u64, PageView)>)
    ensures
        apply_writes(store, ws) == store.union_prefer_right(apply_writes(Map::empty(), ws)),
    decreases ws.len(),
{
    if ws.len() > 0 {
        lemma_apply_overrides(store, ws.drop_last());
        assert(apply_writes(store, ws) =~= store.union_prefer_right(apply_writes(Map::empty(), ws)));
    } else {
        assert(apply_writes(store, ws) =~= store.union_prefer_right(apply_writes(Map::empty(), ws)));
    }
}

/// Replaying the same writes twice leaves the store as replaying them
/// once: recovery is idempotent.
pub proof fn law_replay_idempotent(store: Map<u64, PageView>, ws: Seq<(u64, PageView)>)
    ensures
        apply_writes(apply_writes(store, ws), ws) == apply_writes(store, ws),
{
    let w = apply_writes(Map::empty(), ws);
    lemma_apply_overrides(store, ws);
    lemma_apply_overrides(apply_writes(store, ws), ws);
    assert(store.union_prefer_right(w).union_prefer_right(w) =~= store.union_prefer_right(w));
}

} // verus!
