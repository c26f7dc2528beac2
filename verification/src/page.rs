//! Fixed-size checksummed slotted pages.
//!
//! A page holds opaque record byte strings in stable slots. Serialization lays
//! out a 32-byte header, a slot directory growing forward from the header and
//! the live payloads packed at the end of the page in reverse slot order.
use vstd::prelude::*;
use vstd::slice::{slice_subrange, slice_to_vec};

use crate::bytes::{
    be16, be32, be64, get_u16, get_u32, get_u64, push_all, push_u16, push_u32, push_u64, read_be16,
    read_be32, read_be64, set_u32, lemma_be32_zero, push_zeros,
};
use crate::checksum::{crc32, crc32_of, zeroed};
use crate::error::{NovaError, Result};

verus! {

/// Fixed on-disk page size in bytes.
pub const PAGE_SIZE: usize = 4096;

/// Page format magic at the start of every page (`NVPG`).
pub const PAGE_MAGIC: [u8; 4] = [78u8, 86u8, 80u8, 71u8];

/// Current slotted-page format version.
pub const PAGE_FORMAT_VERSION: u16 = 1;

/// Fixed header size in bytes.
pub const PAGE_HEADER_SIZE: usize = 32;

/// Bytes of one slot-directory entry.
pub const SLOT_SIZE: usize = 4;

/// Directory offset marking a deleted slot.
pub const DELETED_OFFSET: u16 = 0xffff;

/// Stable zero-based identifier of a page in a page file.
#[derive(Debug, Clone, Copy, PartialEq, Eq, PartialOrd, Ord, Hash)]
pub struct PageId(u64);

impl View for PageId {
    type V = u64;

    closed spec fn view(&self) -> u64 {
        self.0
    }
}

impl PageId {
    /// Creates a page identifier from its raw numeric value.
    pub fn new(value: u64) -> (r: Self)
        ensures
            r@ == value,
    {
        PageId(value)
    }

    /// Returns the raw numeric page identifier.
    pub fn get(self) -> (r: u64)
        ensures
            r == self@,
    {
        self.0
    }
}

/// Stable zero-based identifier of a record slot within a page.
#[derive(Debug, Clone, Copy, PartialEq, Eq, PartialOrd, Ord, Hash)]
pub struct SlotId(u16);

impl View for SlotId {
    type V = u16;

    closed spec fn view(&self) -> u16 {
        self.0
    }
}

impl SlotId {
    /// Creates a slot identifier from its raw numeric value.
    pub fn new(value: u16) -> (r: Self)
        ensures
            r@ == value,
    {
        SlotId(value)
    }

    /// Returns the raw numeric slot identifier.
    pub fn get(self) -> (r: u16)
        ensures
            r == self@,
    {
        self.0
    }
}

/// The abstract content of a page: its id and its stable slots.
pub struct PageView {
    pub id: u64,
    pub slots: Seq<Option<Seq<u8>>>,
}

/// Payload bytes held by one slot.
pub open spec fn slot_len(s: Option<Seq<u8>>) -> nat {
    match s {
        Some(r) => r.len(),
        None => 0,
    }
}

/// Total payload bytes held by all slots.
pub open spec fn payload_total(slots: Seq<Option<Seq<u8>>>) -> nat
    decreases slots.len(),
{
    if slots.len() == 0 {
        0
    } else {
        payload_total(slots.drop_last()) + slot_len(slots.last())
    }
}

/// Number of live (non-deleted) slots.
pub open spec fn live_count(slots: Seq<Option<Seq<u8>>>) -> nat
    decreases slots.len(),
{
    if slots.len() == 0 {
        0
    } else {
        live_count(slots.drop_last()) + if slots.last() is Some { 1nat } else { 0nat }
    }
}

/// Whether some slot is deleted and can be reused by the next insert.
pub open spec fn has_free_slot(slots: Seq<Option<Seq<u8>>>) -> bool {
    exists|i: int| 0 <= i < slots.len() && slots[i] is None
}

/// The index of the first deleted slot.
pub open spec fn first_free_slot(slots: Seq<Option<Seq<u8>>>) -> int {
    choose|i: int|
        0 <= i < slots.len() && slots[i] is None && forall|j: int| 0 <= j < i ==> slots[j] is Some
}

/// Header, directory and payload of the slots fit into one page.
pub open spec fn page_fits(slots: Seq<Option<Seq<u8>>>) -> bool {
    PAGE_HEADER_SIZE + SLOT_SIZE * slots.len() + payload_total(slots) <= PAGE_SIZE
}

/// What every page maintains: its payload fits after the header and its slot
/// identifiers fit into `u16`.
pub open spec fn page_bounded(slots: Seq<Option<Seq<u8>>>) -> bool {
    PAGE_HEADER_SIZE + payload_total(slots) <= PAGE_SIZE && slots.len() <= 0x1_0000
}

/// Bytes available for one more record.
pub open spec fn spec_free_space(slots: Seq<Option<Seq<u8>>>) -> int {
    let used = PAGE_HEADER_SIZE + SLOT_SIZE * slots.len() + payload_total(slots);
    let after = if used <= PAGE_SIZE { PAGE_SIZE - used } else { 0 };
    let extra = if has_free_slot(slots) { 0 } else { SLOT_SIZE as int };
    if after >= extra { after - extra } else { 0 }
}

/// A slotted data page containing opaque record byte strings.
#[derive(Debug, PartialEq, Eq)]
pub struct Page {
    id: PageId,
    slots: Vec<Option<Vec<u8>>>,
}

/// The abstract view of one concrete slot.
pub open spec fn slot_view(s: Option<Vec<u8>>) -> Option<Seq<u8>> {
    match s {
        Some(v) => Some(v@),
        None => None,
    }
}

/// The abstract view of concrete slots.
pub open spec fn slots_view(v: Seq<Option<Vec<u8>>>) -> Seq<Option<Seq<u8>>> {
    v.map_values(|s: Option<Vec<u8>>| slot_view(s))
}

impl View for Page {
    type V = PageView;

    closed spec fn view(&self) -> PageView {
        PageView { id: self.id@, slots: slots_view(self.slots@) }
    }
}

pub proof fn lemma_payload_total_take_mono(slots: Seq<Option<Seq<u8>>>, i: int, j: int)
    requires
        0 <= i <= j <= slots.len(),
    ensures
        payload_total(slots.take(i)) <= payload_total(slots.take(j)),
    decreases j - i,
{
    if i < j {
        lemma_payload_total_take_mono(slots, i, j - 1);
        assert(slots.take(j).drop_last() =~= slots.take(j - 1));
    }
}

/// `after` is `before` with `record` inserted as `Page::insert` does, and
/// `r` is what it returns: the first free slot is reused, else a slot is
/// appended; a record that does not fit changes nothing.
pub open spec fn inserted(before: PageView, record: Seq<u8>, r: Result<SlotId>, after: PageView) -> bool {
    &&& after.id == before.id
    &&& (r is Ok) == (record.len() <= spec_free_space(before.slots) && (has_free_slot(before.slots)
        || before.slots.len() < 0x1_0000))
    &&& match r {
        Ok(id) => if has_free_slot(before.slots) {
            &&& id@ == first_free_slot(before.slots)
            &&& after.slots == before.slots.update(id@ as int, Some(record))
        } else {
            &&& id@ == before.slots.len()
            &&& after.slots == before.slots.push(Some(record))
        },
        Err(e) => e is Storage && after == before,
    }
}

/// `after` is `before` with the record in `slot` removed as `Page::remove`
/// does, and `r` is what it returns.
pub open spec fn removed(before: PageView, slot: u16, r: Result<Vec<u8>>, after: PageView) -> bool {
    &&& after.id == before.id
    &&& (r is Ok) == (slot < before.slots.len() && before.slots[slot as int] is Some)
    &&& match r {
        Ok(bytes) => before.slots[slot as int] == Some(bytes@) && after.slots == before.slots.update(
            slot as int,
            None,
        ),
        Err(e) => e is NotFound && after == before,
    }
}

impl Page {
    #[verifier::type_invariant]
    spec fn inv(self) -> bool {
        page_bounded(self@.slots)
    }

    /// Creates an empty page.
    pub fn new(id: PageId) -> (r: Self)
        ensures
            r@.id == id@,
            r@.slots == Seq::<Option<Seq<u8>>>::empty(),
    {
        let r = Page { id, slots: Vec::new() };
        assert(r@.slots =~= Seq::<Option<Seq<u8>>>::empty());
        r
    }

    /// Returns this page's file-relative identifier.
    pub fn id(&self) -> (r: PageId)
        ensures
            r@ == self@.id,
    {
        self.id
    }

    /// Returns the number of live records.
    pub fn len(&self) -> (r: usize)
        ensures
            r == live_count(self@.slots),
    {
        let ghost slots = self@.slots;
        let mut count: usize = 0;
        let mut i: usize = 0;
        while i < self.slots.len()
            invariant
                i <= self.slots.len(),
                slots == self@.slots,
                count == live_count(slots.take(i as int)),
                count <= i,
            decreases self.slots.len() - i,
        {
            proof {
                assert(slots.take(i + 1).drop_last() =~= slots.take(i as int));
            }
            if self.slots[i].is_some() {
                count = count + 1;
            }
            i = i + 1;
        }
        proof {
            assert(slots.take(i as int) =~= slots);
        }
        count
    }

    /// Reports whether the page contains no live records.
    pub fn is_empty(&self) -> (r: bool)
        ensures
            r == (live_count(self@.slots) == 0),
    {
        self.len() == 0
    }

    /// Returns the total number of stable slots, including deleted slots.
    pub fn slot_count(&self) -> (r: usize)
        ensures
            r == self@.slots.len(),
    {
        self.slots.len()
    }

    /// Returns the bytes stored in `slot`, or `None` for a missing/deleted slot.
    pub fn get(&self, slot: SlotId) -> (r: Option<&[u8]>)
        ensures
            match r {
                Some(b) => slot@ < self@.slots.len() && self@.slots[slot@ as int] == Some(b@),
                None => slot@ >= self@.slots.len() || self@.slots[slot@ as int] is None,
            },
    {
        let index = slot.get() as usize;
        if index >= self.slots.len() {
            return None;
        }
        match &self.slots[index] {
            Some(record) => Some(record.as_slice()),
            None => None,
        }
    }

    /// Returns the live records in ascending stable slot order.
    pub fn records(&self) -> (r: Vec<(SlotId, Vec<u8>)>)
        ensures
            forall|k: int|
                0 <= k < r@.len() ==> {
                    let (id, bytes) = #[trigger] r@[k];
                    &&& id@ < self@.slots.len()
                    &&& self@.slots[id@ as int] == Some(bytes@)
                },
            forall|k: int, l: int| 0 <= k < l < r@.len() ==> r@[k].0@ < r@[l].0@,
            forall|i: int|
                0 <= i < self@.slots.len() && #[trigger] self@.slots[i] is Some ==> exists|k: int|
                    0 <= k < r@.len() && r@[k].0@ == i,
    {
        proof {
            use_type_invariant(self);
        }
        let mut out: Vec<(SlotId, Vec<u8>)> = Vec::new();
        let mut i: usize = 0;
        while i < self.slots.len()
            invariant
                i <= self.slots.len(),
                self.slots.len() <= 0x1_0000,
                forall|k: int|
                    0 <= k < out@.len() ==> {
                        let (id, bytes) = #[trigger] out@[k];
                        &&& id@ < i
                        &&& self@.slots[id@ as int] == Some(bytes@)
                    },
                forall|k: int, l: int| 0 <= k < l < out@.len() ==> out@[k].0@ < out@[l].0@,
                forall|j: int|
                    0 <= j < i && #[trigger] self@.slots[j] is Some ==> exists|k: int|
                        0 <= k < out@.len() && out@[k].0@ == j,
            decreases self.slots.len() - i,
        {
            match &self.slots[i] {
                Some(record) => {
                    let copy = slot_to_vec(record);
                    let id = SlotId::new(i as u16);
                    let ghost prev = out@;
                    out.push((id, copy));
                    proof {
                        assert(out@[out@.len() - 1].0@ == i);
                        assert forall|j: int|
                            0 <= j < i + 1 && #[trigger] self@.slots[j] is Some implies exists|k: int|
                            0 <= k < out@.len() && out@[k].0@ == j by {
                            if j == i {
                                assert(out@[out@.len() - 1].0@ == j);
                            } else {
                                let k = choose|k: int| 0 <= k < prev.len() && prev[k].0@ == j;
                                assert(out@[k] == prev[k]);
                            }
                        }
                    }
                },
                None => {},
            }
            i = i + 1;
        }
        out
    }

    /// Returns the number of bytes currently available for a new record.
    ///
    /// A deleted slot is reused first and therefore does not consume another
    /// slot-directory entry.
    pub fn free_space(&self) -> (r: usize)
        ensures
            r == spec_free_space(self@.slots),
    {
        proof {
            use_type_invariant(self);
        }
        let ghost slots = self@.slots;
        let mut payload: usize = 0;
        let mut reusable = false;
        let mut i: usize = 0;
        while i < self.slots.len()
            invariant
                i <= self.slots.len(),
                slots == self@.slots,
                page_bounded(slots),
                payload == payload_total(slots.take(i as int)),
                reusable == exists|j: int| 0 <= j < i && slots[j] is None,
            decreases self.slots.len() - i,
        {
            proof {
                assert(slots.take(i + 1).drop_last() =~= slots.take(i as int));
                lemma_payload_total_take_mono(slots, i + 1, slots.len() as int);
                assert(slots.take(slots.len() as int) =~= slots);
            }
            match &self.slots[i] {
                Some(record) => {
                    payload = payload + record.len();
                },
                None => {
                    reusable = true;
                },
            }
            i = i + 1;
        }
        proof {
            assert(slots.take(i as int) =~= slots);
        }
        let used = PAGE_HEADER_SIZE + self.slots.len() * SLOT_SIZE + payload;
        let after = if used <= PAGE_SIZE {
            PAGE_SIZE - used
        } else {
            0
        };
        let extra = if reusable { 0 } else { SLOT_SIZE };
        if after >= extra {
            after - extra
        } else {
            0
        }
    }
}

pub proof fn lemma_payload_total_update(slots: Seq<Option<Seq<u8>>>, i: int, x: Option<Seq<u8>>)
    requires
        0 <= i < slots.len(),
    ensures
        payload_total(slots.update(i, x)) + slot_len(slots[i]) == payload_total(slots) + slot_len(x),
    decreases slots.len(),
{
    if i < slots.len() - 1 {
        lemma_payload_total_update(slots.drop_last(), i, x);
        assert(slots.update(i, x).drop_last() =~= slots.drop_last().update(i, x));
    } else {
        assert(slots.update(i, x).drop_last() =~= slots.drop_last());
    }
}

pub proof fn lemma_payload_total_push(slots: Seq<Option<Seq<u8>>>, x: Option<Seq<u8>>)
    ensures
        payload_total(slots.push(x)) == payload_total(slots) + slot_len(x),
{
    assert(slots.push(x).drop_last() =~= slots);
}

impl Page {
    /// Inserts an opaque record and returns its stable slot identifier.
    ///
    /// The first deleted slot is reused; otherwise a new slot is appended.
    /// Fails with `Storage` when the record does not fit.
    pub fn insert(&mut self, record: &[u8]) -> (r: Result<SlotId>)
        ensures
            inserted(old(self)@, record@, r, final(self)@),
            final(self)@.id == old(self)@.id,
            (r is Ok) == (record@.len() <= spec_free_space(old(self)@.slots) && (has_free_slot(
                old(self)@.slots,
            ) || old(self)@.slots.len() < 0x1_0000)),
            match r {
                Ok(id) => if has_free_slot(old(self)@.slots) {
                    &&& id@ == first_free_slot(old(self)@.slots)
                    &&& final(self)@.slots == old(self)@.slots.update(id@ as int, Some(record@))
                } else {
                    &&& id@ == old(self)@.slots.len()
                    &&& final(self)@.slots == old(self)@.slots.push(Some(record@))
                },
                Err(e) => e is Storage && final(self)@ == old(self)@,
            },
    {
        proof {
            use_type_invariant(&*self);
        }
        let free = self.free_space();
        if record.len() > free {
            return Err(NovaError::Storage("record does not fit in page".to_owned()));
        }
        let ghost slots = self@.slots;
        let mut index: usize = 0;
        while index < self.slots.len() && self.slots[index].is_some()
            invariant
                index <= self.slots.len(),
                slots == self@.slots,
                forall|j: int| 0 <= j < index ==> slots[j] is Some,
            decreases self.slots.len() - index,
        {
            index = index + 1;
        }
        let copy = slice_to_vec(record);
        if index < self.slots.len() {
            proof {
                assert(slots[index as int] is None);
                assert(has_free_slot(slots));
                let f = first_free_slot(slots);
                assert(f == index) by {
                    if f < index {
                        assert(slots[f] is Some);
                    } else if f > index {
                        assert(slots[index as int] is Some);
                    }
                }
                lemma_payload_total_update(slots, index as int, Some(record@));
                assert(slots_view(self.slots@.update(index as int, Some(copy))) =~= slots.update(
                    index as int,
                    Some(record@),
                ));
            }
            let mut taken_slots: Vec<Option<Vec<u8>>> = Vec::new();
            std::mem::swap(&mut taken_slots, &mut self.slots);
            taken_slots.set(index, Some(copy));
            self.slots = taken_slots;
            return Ok(SlotId::new(index as u16));
        }
        if index >= 0x1_0000 {
            return Err(NovaError::Storage("page slot identifier space exhausted".to_owned()));
        }
        proof {
            assert(!has_free_slot(slots));
            lemma_payload_total_push(slots, Some(record@));
            assert(slots_view(self.slots@.push(Some(copy))) =~= slots.push(Some(record@)));
        }
        let mut taken_slots: Vec<Option<Vec<u8>>> = Vec::new();
        std::mem::swap(&mut taken_slots, &mut self.slots);
        taken_slots.push(Some(copy));
        self.slots = taken_slots;
        Ok(SlotId::new(index as u16))
    }

    /// Removes and returns a record while preserving its slot for reuse.
    ///
    /// Fails with `NotFound` if the slot is outside the directory or already
    /// deleted.
    pub fn remove(&mut self, slot: SlotId) -> (r: Result<Vec<u8>>)
        ensures
            removed(old(self)@, slot@, r, final(self)@),
            final(self)@.id == old(self)@.id,
            (r is Ok) == (slot@ < old(self)@.slots.len() && old(self)@.slots[slot@ as int] is Some),
            match r {
                Ok(bytes) => old(self)@.slots[slot@ as int] == Some(bytes@) && final(self)@.slots
                    == old(self)@.slots.update(slot@ as int, None),
                Err(e) => e is NotFound && final(self)@ == old(self)@,
            },
    {
        proof {
            use_type_invariant(&*self);
        }
        let index = slot.get() as usize;
        if index >= self.slots.len() {
            return Err(NovaError::NotFound("page slot".to_owned()));
        }
        let ghost slots = self@.slots;
        let taken = match &self.slots[index] {
            Some(record) => slot_to_vec(record),
            None => {
                return Err(NovaError::NotFound("page slot".to_owned()));
            },
        };
        proof {
            lemma_payload_total_update(slots, index as int, None);
            assert(slots_view(self.slots@.update(index as int, None)) =~= slots.update(
                index as int,
                None,
            ));
        }
        let mut taken_slots: Vec<Option<Vec<u8>>> = Vec::new();
        std::mem::swap(&mut taken_slots, &mut self.slots);
        taken_slots.set(index, None);
        self.slots = taken_slots;
        Ok(taken)
    }
}

/// The page magic as a byte sequence.
pub open spec fn page_magic() -> Seq<u8> {
    seq![78u8, 86u8, 80u8, 71u8]
}

/// The bytes a slot contributes to the payload area.
pub open spec fn slot_bytes(s: Option<Seq<u8>>) -> Seq<u8> {
    match s {
        Some(r) => r,
        None => Seq::empty(),
    }
}

/// Page offset at which the record of slot `i` starts.
pub open spec fn record_start(slots: Seq<Option<Seq<u8>>>, i: int) -> int {
    PAGE_SIZE - payload_total(slots.take(i + 1))
}

/// The directory entry of slot `i`: record offset and length, or the deleted
/// marker with length zero.
pub open spec fn dir_entry(slots: Seq<Option<Seq<u8>>>, i: int) -> Seq<u8> {
    match slots[i] {
        Some(r) => be16(record_start(slots, i) as u16) + be16(r.len() as u16),
        None => be16(DELETED_OFFSET) + be16(0),
    }
}

/// The directory entries of the first `n` slots.
pub open spec fn directory(slots: Seq<Option<Seq<u8>>>, n: int) -> Seq<u8>
    decreases n,
{
    if n <= 0 {
        Seq::empty()
    } else {
        directory(slots, n - 1) + dir_entry(slots, n - 1)
    }
}

/// All live payloads, highest slot first (they are packed downward from the
/// end of the page).
pub open spec fn payload_area(slots: Seq<Option<Seq<u8>>>) -> Seq<u8>
    decreases slots.len(),
{
    if slots.len() == 0 {
        Seq::empty()
    } else {
        slot_bytes(slots.last()) + payload_area(slots.drop_last())
    }
}

/// The 32-byte page header carrying `checksum`.
pub open spec fn page_header(v: PageView, checksum: u32) -> Seq<u8> {
    let n = v.slots.len();
    page_magic() + be16(PAGE_FORMAT_VERSION) + be16(PAGE_HEADER_SIZE as u16) + be64(v.id) + be32(
        checksum,
    ) + be16(n as u16) + be16(live_count(v.slots) as u16) + be16(
        (PAGE_HEADER_SIZE + SLOT_SIZE * n) as u16,
    ) + be16((PAGE_SIZE - payload_total(v.slots)) as u16) + seq![0u8, 0u8, 0u8, 0u8]
}

/// Everything after the header: directory, free gap and payload area.
pub open spec fn page_body(v: PageView) -> Seq<u8> {
    let n = v.slots.len();
    let gap = PAGE_SIZE - PAGE_HEADER_SIZE - SLOT_SIZE * n - payload_total(v.slots);
    directory(v.slots, n as int) + Seq::new(gap as nat, |i: int| 0u8) + payload_area(v.slots)
}

/// The serialized page: header with the CRC-32 of the whole page (computed
/// with the checksum field zero), followed by the body.
pub open spec fn encode_page(v: PageView) -> Seq<u8> {
    page_header(v, crc32_of(page_header(v, 0) + page_body(v))) + page_body(v)
}

pub proof fn lemma_live_count_le(slots: Seq<Option<Seq<u8>>>)
    ensures
        live_count(slots) <= slots.len(),
    decreases slots.len(),
{
    if slots.len() > 0 {
        lemma_live_count_le(slots.drop_last());
    }
}

pub proof fn lemma_payload_area_len(slots: Seq<Option<Seq<u8>>>)
    ensures
        payload_area(slots).len() == payload_total(slots),
    decreases slots.len(),
{
    if slots.len() > 0 {
        lemma_payload_area_len(slots.drop_last());
    }
}

pub proof fn lemma_directory_len(slots: Seq<Option<Seq<u8>>>, n: int)
    requires
        0 <= n <= slots.len(),
    ensures
        directory(slots, n).len() == SLOT_SIZE * n,
    decreases n,
{
    if n > 0 {
        lemma_directory_len(slots, n - 1);
    }
}

impl Page {
    fn payload_bytes(&self) -> (r: usize)
        ensures
            r == payload_total(self@.slots),
    {
        proof {
            use_type_invariant(self);
        }
        let ghost slots = self@.slots;
        let mut payload: usize = 0;
        let mut i: usize = 0;
        while i < self.slots.len()
            invariant
                i <= self.slots.len(),
                slots == self@.slots,
                page_bounded(slots),
                payload == payload_total(slots.take(i as int)),
            decreases self.slots.len() - i,
        {
            proof {
                assert(slots.take(i + 1).drop_last() =~= slots.take(i as int));
                lemma_payload_total_take_mono(slots, i + 1, slots.len() as int);
                assert(slots.take(slots.len() as int) =~= slots);
            }
            match &self.slots[i] {
                Some(record) => {
                    payload = payload + record.len();
                },
                None => {},
            }
            i = i + 1;
        }
        proof {
            assert(slots.take(i as int) =~= slots);
        }
        payload
    }

    fn write_header(&self, out: &mut Vec<u8>)
        requires
            page_fits(self@.slots),
        ensures
            final(out)@ == old(out)@ + page_header(self@, 0),
    {
        proof {
            use_type_invariant(self);
            lemma_live_count_le(self@.slots);
            lemma_be32_zero();
        }
        let n = self.slots.len();
        let total = self.payload_bytes();
        let live = self.len();
        out.push(78u8);
        out.push(86u8);
        out.push(80u8);
        out.push(71u8);
        push_u16(out, PAGE_FORMAT_VERSION);
        push_u16(out, PAGE_HEADER_SIZE as u16);
        push_u64(out, self.id.get());
        push_u32(out, 0);
        push_u16(out, n as u16);
        push_u16(out, live as u16);
        push_u16(out, (PAGE_HEADER_SIZE + n * SLOT_SIZE) as u16);
        push_u16(out, (PAGE_SIZE - total) as u16);
        push_u32(out, 0);
        assert(final(out)@ =~= old(out)@ + page_header(self@, 0));
    }

    fn write_directory(&self, out: &mut Vec<u8>)
        requires
            page_fits(self@.slots),
        ensures
            final(out)@ == old(out)@ + directory(self@.slots, self@.slots.len() as int),
    {
        let ghost slots = self@.slots;
        let n = self.slots.len();
        let mut start: usize = PAGE_SIZE;
        let mut i: usize = 0;
        while i < n
            invariant
                i <= n,
                n == slots.len(),
                slots == self@.slots,
                page_fits(slots),
                start == PAGE_SIZE - payload_total(slots.take(i as int)),
                out@ == old(out)@ + directory(slots, i as int),
            decreases n - i,
        {
            proof {
                assert(slots.take(i + 1).drop_last() =~= slots.take(i as int));
                lemma_payload_total_take_mono(slots, i + 1, slots.len() as int);
                assert(slots.take(slots.len() as int) =~= slots);
            }
            match &self.slots[i] {
                Some(record) => {
                    start = start - record.len();
                    push_u16(out, start as u16);
                    push_u16(out, record.len() as u16);
                },
                None => {
                    push_u16(out, DELETED_OFFSET);
                    push_u16(out, 0);
                },
            }
            proof {
                assert(out@ =~= old(out)@ + directory(slots, i + 1));
            }
            i = i + 1;
        }
    }

    fn write_payloads(&self, out: &mut Vec<u8>)
        ensures
            final(out)@ == old(out)@ + payload_area(self@.slots),
    {
        let ghost slots = self@.slots;
        let n = self.slots.len();
        let mut k: usize = n;
        proof {
            assert(slots.take(n as int) =~= slots);
            assert(old(out)@.skip(old(out)@.len() as int) =~= Seq::<u8>::empty());
        }
        while k > 0
            invariant
                k <= n,
                n == slots.len(),
                slots == self@.slots,
                old(out)@.len() <= out@.len(),
                out@.take(old(out)@.len() as int) == old(out)@,
                payload_area(slots) == out@.skip(old(out)@.len() as int) + payload_area(
                    slots.take(k as int),
                ),
            decreases k,
        {
            let ghost before = out@;
            match &self.slots[k - 1] {
                Some(record) => {
                    push_all(out, record.as_slice());
                },
                None => {},
            }
            proof {
                let t = slots.take(k as int);
                assert(t.drop_last() =~= slots.take(k - 1));
                assert(t.last() == slots[k - 1]);
                assert(out@.skip(old(out)@.len() as int) =~= before.skip(old(out)@.len() as int)
                    + slot_bytes(slots[k - 1]));
                assert(out@.take(old(out)@.len() as int) =~= before.take(old(out)@.len() as int));
            }
            k = k - 1;
        }
        proof {
            assert(slots.take(0) =~= Seq::<Option<Seq<u8>>>::empty());
            assert(out@ =~= old(out)@ + payload_area(slots));
        }
    }

    /// Serializes the page into its checksummed fixed-size representation of
    /// exactly `PAGE_SIZE` bytes.
    ///
    /// Fails with `Storage` when the slot directory and the payloads together
    /// do not fit into one page.
    pub fn to_bytes(&self) -> (r: Result<Vec<u8>>)
        ensures
            (r is Ok) == page_fits(self@.slots),
            match r {
                Ok(bytes) => bytes@ == encode_page(self@) && bytes@.len() == PAGE_SIZE,
                Err(e) => e is Storage,
            },
    {
        proof {
            use_type_invariant(self);
        }
        let ghost v = self@;
        let n = self.slots.len();
        let total = self.payload_bytes();
        if PAGE_HEADER_SIZE + n * SLOT_SIZE + total > PAGE_SIZE {
            return Err(NovaError::Storage("page payload exceeds page size".to_owned()));
        }
        let mut out: Vec<u8> = Vec::new();
        self.write_header(&mut out);
        self.write_directory(&mut out);
        push_zeros(&mut out, PAGE_SIZE - PAGE_HEADER_SIZE - n * SLOT_SIZE - total);
        self.write_payloads(&mut out);
        proof {
            assert(out@ =~= page_header(v, 0) + page_body(v));
            lemma_payload_area_len(v.slots);
            lemma_directory_len(v.slots, n as int);
        }
        let checksum = crc32(out.as_slice(), 16, 20);
        proof {
            lemma_be32_zero();
            let h = page_header(v, 0);
            assert(h.subrange(16, 20) =~= be32(0));
            assert(h[16] == 0 && h[17] == 0 && h[18] == 0 && h[19] == 0);
            assert(zeroed(out@, 16, 20) =~= out@);
        }
        set_u32(&mut out, 16, checksum);
        proof {
            assert(out@ =~= encode_page(v));
        }
        Ok(out)
    }
}

/// Directory entry `i` of serialized page `b`: record offset.
pub open spec fn entry_off(b: Seq<u8>, i: int) -> int {
    read_be16(b, PAGE_HEADER_SIZE + SLOT_SIZE * i) as int
}

/// Directory entry `i` of serialized page `b`: record length.
pub open spec fn entry_len(b: Seq<u8>, i: int) -> int {
    read_be16(b, PAGE_HEADER_SIZE + SLOT_SIZE * i + 2) as int
}

/// Whether directory entry `i` describes a live record.
pub open spec fn entry_live(b: Seq<u8>, i: int) -> bool {
    entry_off(b, i) != DELETED_OFFSET
}

/// Entry `i` is well formed: a deleted entry has length zero, a live record
/// lies inside the payload area.
pub open spec fn entry_ok(b: Seq<u8>, i: int, free_end: int) -> bool {
    if entry_live(b, i) {
        free_end <= entry_off(b, i) && entry_off(b, i) + entry_len(b, i) <= PAGE_SIZE
    } else {
        entry_len(b, i) == 0
    }
}

/// Live entries `i` and `j` have overlapping byte ranges.
pub open spec fn entries_overlap(b: Seq<u8>, i: int, j: int) -> bool {
    entry_off(b, i) < entry_off(b, j) + entry_len(b, j) && entry_off(b, j) < entry_off(b, i)
        + entry_len(b, i)
}

/// No two live entries among the first `n` overlap.
pub open spec fn entries_disjoint(b: Seq<u8>, n: int) -> bool {
    forall|i: int, j: int|
        0 <= i < j < n && entry_live(b, i) && entry_live(b, j) ==> !entries_overlap(b, i, j)
}

/// Number of live entries among the first `n`.
pub open spec fn live_entries(b: Seq<u8>, n: int) -> nat
    decreases n,
{
    if n <= 0 {
        0
    } else {
        live_entries(b, n - 1) + if entry_live(b, n - 1) { 1nat } else { 0nat }
    }
}

/// Smallest record offset among the first `n` live entries (`PAGE_SIZE` if none).
pub open spec fn min_live_start(b: Seq<u8>, n: int) -> int
    decreases n,
{
    if n <= 0 {
        PAGE_SIZE as int
    } else {
        let m = min_live_start(b, n - 1);
        if entry_live(b, n - 1) && entry_off(b, n - 1) < m {
            entry_off(b, n - 1)
        } else {
            m
        }
    }
}

/// Total record bytes of the first `n` live entries.
pub open spec fn live_bytes(b: Seq<u8>, n: int) -> int
    decreases n,
{
    if n <= 0 {
        0
    } else {
        live_bytes(b, n - 1) + if entry_live(b, n - 1) { entry_len(b, n - 1) } else { 0 }
    }
}

/// Header field: number of slots.
pub open spec fn hdr_slot_count(b: Seq<u8>) -> int {
    read_be16(b, 20) as int
}

/// Header field: end of the slot directory.
pub open spec fn hdr_free_start(b: Seq<u8>) -> int {
    read_be16(b, 24) as int
}

/// Header field: start of the payload area.
pub open spec fn hdr_free_end(b: Seq<u8>) -> int {
    read_be16(b, 26) as int
}

/// A page of a format version this code does not read.
pub open spec fn page_version_unsupported(b: Seq<u8>) -> bool {
    b.len() == PAGE_SIZE && b.take(4) == page_magic() && read_be16(b, 4) != PAGE_FORMAT_VERSION
}

/// Every check a stored page must pass.
pub open spec fn page_bytes_valid(b: Seq<u8>) -> bool {
    let n = hdr_slot_count(b);
    let free_end = hdr_free_end(b);
    &&& b.len() == PAGE_SIZE
    &&& b.take(4) == page_magic()
    &&& read_be16(b, 4) == PAGE_FORMAT_VERSION
    &&& read_be16(b, 6) == PAGE_HEADER_SIZE
    &&& read_be32(b, 16) == crc32_of(zeroed(b, 16, 20))
    &&& b[28] == 0 && b[29] == 0 && b[30] == 0 && b[31] == 0
    &&& hdr_free_start(b) == PAGE_HEADER_SIZE + SLOT_SIZE * n
    &&& hdr_free_start(b) <= free_end <= PAGE_SIZE
    &&& forall|i: int| 0 <= i < n ==> #[trigger] entry_ok(b, i, free_end)
    &&& entries_disjoint(b, n)
    &&& live_entries(b, n) == read_be16(b, 22)
    &&& min_live_start(b, n) == free_end
    &&& live_bytes(b, n) == PAGE_SIZE - free_end
}

/// The slot decoded from directory entry `i`.
pub open spec fn decoded_slot(b: Seq<u8>, i: int) -> Option<Seq<u8>> {
    if entry_live(b, i) {
        Some(b.subrange(entry_off(b, i), entry_off(b, i) + entry_len(b, i)))
    } else {
        None
    }
}

/// The page a valid serialized page describes.
pub open spec fn decoded_page(b: Seq<u8>) -> PageView {
    PageView {
        id: read_be64(b, 8),
        slots: Seq::new(hdr_slot_count(b) as nat, |i: int| decoded_slot(b, i)),
    }
}

fn corruption(message: &str) -> (e: NovaError)
    ensures
        e is Corruption,
{
    NovaError::Corruption(message.to_owned())
}

impl Page {
    /// Decodes and validates one fixed-size page.
    ///
    /// Fails with `Unsupported` for an unknown page version and with
    /// `Corruption` for a wrong length or invalid magic, checksum, header,
    /// slot, or payload metadata.
    pub fn from_bytes(bytes: &[u8]) -> (r: Result<Page>)
        ensures
            (r is Ok) == page_bytes_valid(bytes@),
            match r {
                Ok(p) => p@ == decoded_page(bytes@),
                Err(e) => if page_version_unsupported(bytes@) {
                    e is Unsupported
                } else {
                    e is Corruption
                },
            },
    {
        let ghost b = bytes@;
        if bytes.len() != PAGE_SIZE {
            return Err(corruption("page must be exactly 4096 bytes"));
        }
        if !(bytes[0] == 78u8 && bytes[1] == 86u8 && bytes[2] == 80u8 && bytes[3] == 71u8) {
            proof {
                if b.take(4) == page_magic() {
                    assert(b[0] == b.take(4)[0] && b[1] == b.take(4)[1] && b[2] == b.take(4)[2]
                        && b[3] == b.take(4)[3]);
                }
            }
            return Err(corruption("bad page magic"));
        }
        proof {
            assert(b.take(4) =~= page_magic());
        }
        let version = get_u16(bytes, 4);
        if version != PAGE_FORMAT_VERSION {
            return Err(NovaError::Unsupported("unsupported page format version".to_owned()));
        }
        if get_u16(bytes, 6) as usize != PAGE_HEADER_SIZE {
            return Err(corruption("invalid page header size"));
        }
        let expected_checksum = get_u32(bytes, 16);
        if crc32(bytes, 16, 20) != expected_checksum {
            return Err(corruption("page checksum mismatch"));
        }
        if !(bytes[28] == 0 && bytes[29] == 0 && bytes[30] == 0 && bytes[31] == 0) {
            return Err(corruption("non-zero reserved page header bytes"));
        }
        let id = get_u64(bytes, 8);
        let slot_count = get_u16(bytes, 20) as usize;
        let live_count = get_u16(bytes, 22) as usize;
        let free_start = get_u16(bytes, 24) as usize;
        let free_end = get_u16(bytes, 26) as usize;
        if free_start != PAGE_HEADER_SIZE + slot_count * SLOT_SIZE || free_start > free_end
            || free_end > PAGE_SIZE {
            return Err(corruption("invalid page free-space boundaries"));
        }
        let slots_result = decode_slots(bytes, slot_count, free_end);
        let slots = match slots_result {
            Ok(slots) => slots,
            Err(e) => {
                return Err(e);
            },
        };
        let (slots, live, min_start, payload_bytes) = slots;
        if live != live_count {
            return Err(corruption("live slot count does not match header"));
        }
        if min_start != free_end {
            return Err(corruption("payload boundary does not match live slots"));
        }
        if PAGE_SIZE - free_end != payload_bytes {
            return Err(corruption("payload area contains gaps"));
        }
        proof {
            assert(slots_view(slots@) =~= decoded_page(b).slots);
        }
        Ok(Page { id: PageId::new(id), slots })
    }
}

/// Decodes the slot directory of a page whose header already passed its
/// checks, returning the slots, the live count, the smallest live record
/// offset and the total live record bytes.
fn decode_slots(bytes: &[u8], slot_count: usize, free_end: usize) -> (r: Result<
    (Vec<Option<Vec<u8>>>, usize, usize, usize),
>)
    requires
        bytes@.len() == PAGE_SIZE,
        PAGE_HEADER_SIZE + SLOT_SIZE * slot_count <= free_end <= PAGE_SIZE,
    ensures
        (r is Ok) == ((forall|i: int| 0 <= i < slot_count ==> #[trigger] entry_ok(bytes@, i, free_end as int))
            && entries_disjoint(bytes@, slot_count as int)),
        match r {
            Ok((slots, live, min_start, total)) => {
                &&& slots_view(slots@) == Seq::new(slot_count as nat, |i: int| decoded_slot(bytes@, i))
                &&& live == live_entries(bytes@, slot_count as int)
                &&& min_start == min_live_start(bytes@, slot_count as int)
                &&& total == live_bytes(bytes@, slot_count as int)
                &&& payload_total(slots_view(slots@)) == total
                &&& slots@.len() == slot_count
            },
            Err(e) => e is Corruption,
        },
{
    let ghost b = bytes@;
    let mut slots: Vec<Option<Vec<u8>>> = Vec::new();
    let mut ranges: Vec<(usize, usize, bool)> = Vec::new();
    let mut live: usize = 0;
    let mut min_start: usize = PAGE_SIZE;
    let mut total: usize = 0;
    let mut index: usize = 0;
    while index < slot_count
        invariant
            b == bytes@,
            b.len() == PAGE_SIZE,
            PAGE_HEADER_SIZE + SLOT_SIZE * slot_count <= free_end <= PAGE_SIZE,
            index <= slot_count,
            slots@.len() == index,
            ranges@.len() == index,
            forall|j: int| 0 <= j < index ==> #[trigger] entry_ok(b, j, free_end as int),
            entries_disjoint(b, index as int),
            forall|j: int|
                0 <= j < index ==> #[trigger] ranges@[j] == (
                    entry_off(b, j) as usize,
                    (entry_off(b, j) + entry_len(b, j)) as usize,
                    entry_live(b, j),
                ),
            slots_view(slots@) == Seq::new(index as nat, |i: int| decoded_slot(b, i)),
            live == live_entries(b, index as int),
            live <= index,
            min_start == min_live_start(b, index as int),
            total == live_bytes(b, index as int),
            total <= index * PAGE_SIZE,
            payload_total(slots_view(slots@)) == total,
        decreases slot_count - index,
    {
        let offset = PAGE_HEADER_SIZE + index * SLOT_SIZE;
        let record_offset = get_u16(bytes, offset);
        let record_length = get_u16(bytes, offset + 2) as usize;
        let start = record_offset as usize;
        let end = start + record_length;
        let ghost prev_slots = slots@;
        assert(start == entry_off(b, index as int));
        assert(end == entry_off(b, index as int) + entry_len(b, index as int));
        if record_offset == DELETED_OFFSET {
            if record_length != 0 {
                proof {
                    assert(!entry_ok(b, index as int, free_end as int));
                }
                return Err(corruption("deleted slot has a non-zero length"));
            }
            slots.push(None);
            ranges.push((start, end, false));
            proof {
                lemma_payload_total_push(slots_view(prev_slots), None);
                assert(slots_view(slots@) =~= slots_view(prev_slots).push(None));
                assert(slots_view(slots@) =~= Seq::new((index + 1) as nat, |i: int| decoded_slot(b, i)));
                assert forall|i: int, j: int|
                    0 <= i < j < index + 1 && entry_live(b, i) && entry_live(b, j) implies !entries_overlap(b, i, j) by {
                    if j < index {
                    }
                }
            }
        } else {
            if !(start >= free_end && end <= PAGE_SIZE) {
                proof {
                    assert(!entry_ok(b, index as int, free_end as int));
                }
                return Err(corruption("slot payload lies outside payload area"));
            }
            let mut k: usize = 0;
            while k < index
                invariant
                    b == bytes@,
                    k <= index,
                    index < slot_count,
                    ranges@.len() == index,
                    start == entry_off(b, index as int),
                    end == entry_off(b, index as int) + entry_len(b, index as int),
                    entry_live(b, index as int),
                    forall|j: int|
                        0 <= j < index ==> #[trigger] ranges@[j] == (
                            entry_off(b, j) as usize,
                            (entry_off(b, j) + entry_len(b, j)) as usize,
                            entry_live(b, j),
                        ),
                    forall|j: int|
                        0 <= j < k && entry_live(b, j) ==> !entries_overlap(b, j, index as int),
                decreases index - k,
            {
                let (other_start, other_end, other_live) = ranges[k];
                if other_live && start < other_end && other_start < end {
                    proof {
                        assert(ranges@[k as int] == (
                            entry_off(b, k as int) as usize,
                            (entry_off(b, k as int) + entry_len(b, k as int)) as usize,
                            entry_live(b, k as int),
                        ));
                        assert(entry_live(b, k as int));
                        assert(entry_live(b, index as int));
                        assert(entries_overlap(b, k as int, index as int));
                        assert(!entries_disjoint(b, slot_count as int));
                    }
                    return Err(corruption("slot payloads overlap"));
                }
                k = k + 1;
            }
            let record = slice_to_vec(slice_subrange(bytes, start, end));
            slots.push(Some(record));
            ranges.push((start, end, true));
            live = live + 1;
            if start < min_start {
                min_start = start;
            }
            total = total + record_length;
            proof {
                lemma_payload_total_push(slots_view(prev_slots), Some(record@));
                assert(slots_view(slots@) =~= slots_view(prev_slots).push(Some(record@)));
                assert(slots_view(slots@) =~= Seq::new((index + 1) as nat, |i: int| decoded_slot(b, i)));
            }
        }
        index = index + 1;
    }
    Ok((slots, live, min_start, total))
}

proof fn lemma_total_step(slots: Seq<Option<Seq<u8>>>, i: int)
    requires
        0 <= i < slots.len(),
    ensures
        payload_total(slots.take(i + 1)) == payload_total(slots.take(i)) + slot_len(slots[i]),
{
    assert(slots.take(i + 1).drop_last() =~= slots.take(i));
}

proof fn lemma_directory_entry(slots: Seq<Option<Seq<u8>>>, n: int, i: int)
    requires
        0 <= i < n <= slots.len(),
    ensures
        directory(slots, n).subrange(SLOT_SIZE * i, SLOT_SIZE * i + 4) == dir_entry(slots, i),
    decreases n,
{
    lemma_directory_len(slots, n - 1);
    if i < n - 1 {
        lemma_directory_entry(slots, n - 1, i);
        lemma_directory_len(slots, n - 1);
        assert(directory(slots, n).subrange(SLOT_SIZE * i, SLOT_SIZE * i + 4) =~= directory(
            slots,
            n - 1,
        ).subrange(SLOT_SIZE * i, SLOT_SIZE * i + 4));
    } else {
        assert(directory(slots, n).subrange(SLOT_SIZE * i, SLOT_SIZE * i + 4) =~= dir_entry(
            slots,
            i,
        ));
    }
}

proof fn lemma_payload_area_record(slots: Seq<Option<Seq<u8>>>, i: int)
    requires
        0 <= i < slots.len(),
    ensures
        payload_area(slots).subrange(
            payload_total(slots) - payload_total(slots.take(i + 1)),
            payload_total(slots) - payload_total(slots.take(i)),
        ) == slot_bytes(slots[i]),
    decreases slots.len(),
{
    let n = slots.len() as int;
    let d = slots.drop_last();
    lemma_payload_area_len(d);
    lemma_total_step(slots, i);
    assert(slots.take(n) =~= slots);
    if i < n - 1 {
        lemma_payload_area_record(d, i);
        assert(d.take(i + 1) =~= slots.take(i + 1));
        assert(d.take(i) =~= slots.take(i));
        let last = slot_bytes(slots.last());
        assert(payload_total(slots) == payload_total(d) + last.len());
        assert(payload_area(slots) == last + payload_area(d));
        lemma_payload_total_take_mono(d, i + 1, n - 1);
        lemma_payload_total_take_mono(d, i, i + 1);
        assert(d.take(n - 1) =~= d);
        let x = payload_total(d) - payload_total(d.take(i + 1));
        let y = payload_total(d) - payload_total(d.take(i));
        assert(payload_total(slots) - payload_total(slots.take(i + 1)) == x + last.len());
        assert(payload_total(slots) - payload_total(slots.take(i)) == y + last.len());
        assert(payload_area(slots).subrange(
            payload_total(slots) - payload_total(slots.take(i + 1)),
            payload_total(slots) - payload_total(slots.take(i)),
        ) =~= payload_area(d).subrange(
            payload_total(d) - payload_total(d.take(i + 1)),
            payload_total(d) - payload_total(d.take(i)),
        ));
    } else {
        assert(slots.take(n - 1) =~= d);
        assert(payload_area(slots).subrange(0, slot_len(slots[i]) as int) =~= slot_bytes(slots[i]));
    }
}

/// Facts about the directory entries of an encoded page.
proof fn lemma_encoded_entries(v: PageView, b: Seq<u8>, k: int)
    requires
        page_fits(v.slots),
        b.len() == PAGE_SIZE,
        b.skip(PAGE_HEADER_SIZE as int).take(SLOT_SIZE * v.slots.len()) == directory(
            v.slots,
            v.slots.len() as int,
        ),
        b.skip(PAGE_SIZE - payload_total(v.slots)) == payload_area(v.slots),
        0 <= k <= v.slots.len(),
    ensures
        forall|i: int|
            0 <= i < k ==> {
                &&& #[trigger] entry_live(b, i) == v.slots[i] is Some
                &&& entry_ok(b, i, PAGE_SIZE - payload_total(v.slots))
                &&& entry_live(b, i) ==> entry_off(b, i) == record_start(v.slots, i)
                    && entry_len(b, i) == slot_len(v.slots[i])
                &&& decoded_slot(b, i) == v.slots[i]
            },
        live_entries(b, k) == live_count(v.slots.take(k)),
        live_bytes(b, k) == payload_total(v.slots.take(k)),
        min_live_start(b, k) == PAGE_SIZE - payload_total(v.slots.take(k)),
    decreases k,
{
    let slots = v.slots;
    let n = slots.len() as int;
    if k > 0 {
        lemma_encoded_entries(v, b, k - 1);
        let i = k - 1;
        lemma_total_step(slots, i);
        lemma_payload_total_take_mono(slots, i + 1, n);
        assert(slots.take(n) =~= slots);
        lemma_directory_entry(slots, n, i);
        let e = dir_entry(slots, i);
        let at = PAGE_HEADER_SIZE + SLOT_SIZE * i;
        assert(b.subrange(at, at + 4) =~= e) by {
            assert(b.subrange(at, at + 4) =~= b.skip(PAGE_HEADER_SIZE as int).take(
                SLOT_SIZE * n,
            ).subrange(SLOT_SIZE * i, SLOT_SIZE * i + 4));
        }
        match slots[i] {
            Some(r) => {
                assert(e == be16(record_start(slots, i) as u16) + be16(r.len() as u16));
                assert(e.subrange(0, 2) =~= be16(record_start(slots, i) as u16));
                assert(e.subrange(2, 4) =~= be16(r.len() as u16));
                assert(b.subrange(at, at + 2) =~= e.subrange(0, 2));
                assert(b.subrange(at + 2, at + 4) =~= e.subrange(2, 4));
                crate::bytes::lemma_be16_round_trip(record_start(slots, i) as u16, b, at);
                crate::bytes::lemma_be16_round_trip(r.len() as u16, b, at + 2);
                assert(entry_off(b, i) == record_start(slots, i));
                assert(entry_len(b, i) == r.len());
                let start = record_start(slots, i);
                let base = PAGE_SIZE - payload_total(slots);
                lemma_payload_area_record(slots, i);
                assert(b.subrange(start, start + r.len()) =~= payload_area(slots).subrange(
                    start - base,
                    start - base + r.len(),
                ));
            },
            None => {
                assert(e == be16(DELETED_OFFSET) + be16(0));
                assert(e.subrange(0, 2) =~= be16(DELETED_OFFSET));
                assert(e.subrange(2, 4) =~= be16(0));
                assert(b.subrange(at, at + 2) =~= e.subrange(0, 2));
                assert(b.subrange(at + 2, at + 4) =~= e.subrange(2, 4));
                crate::bytes::lemma_be16_round_trip(DELETED_OFFSET, b, at);
                crate::bytes::lemma_be16_round_trip(0, b, at + 2);
            },
        }
        assert(slots.take(k).drop_last() =~= slots.take(k - 1));
    } else {
        assert(slots.take(0) =~= Seq::<Option<Seq<u8>>>::empty());
    }
}

/// Decoding a serialized page gives back the page: every page that fits is
/// encoded into bytes that pass all validity checks and decode to the same
/// id and the same slots (deleted slots included).
pub proof fn law_page_round_trip(v: PageView)
    requires
        page_fits(v.slots),
    ensures
        page_bytes_valid(encode_page(v)),
        decoded_page(encode_page(v)) == v,
{
    let slots = v.slots;
    let n = slots.len() as int;
    let total = payload_total(slots);
    let body = page_body(v);
    let c = crc32_of(page_header(v, 0) + body);
    let h = page_header(v, c);
    let b = encode_page(v);
    lemma_payload_area_len(slots);
    lemma_directory_len(slots, n);
    lemma_live_count_le(slots);
    assert(h.len() == 32);
    assert(b.len() == PAGE_SIZE);
    assert(b.take(4) =~= page_magic());
    assert(b.subrange(4, 6) =~= be16(PAGE_FORMAT_VERSION));
    crate::bytes::lemma_be16_round_trip(PAGE_FORMAT_VERSION, b, 4);
    assert(b.subrange(6, 8) =~= be16(PAGE_HEADER_SIZE as u16));
    crate::bytes::lemma_be16_round_trip(PAGE_HEADER_SIZE as u16, b, 6);
    assert(b.subrange(8, 16) =~= be64(v.id));
    crate::bytes::lemma_be64_round_trip(v.id, b, 8);
    assert(b.subrange(16, 20) =~= be32(c));
    crate::bytes::lemma_be32_round_trip(c, b, 16);
    lemma_be32_zero();
    let h0 = page_header(v, 0);
    assert(h0.subrange(16, 20) =~= be32(0));
    assert(zeroed(b, 16, 20) =~= h0 + body);
    assert(b.subrange(20, 22) =~= be16(n as u16));
    crate::bytes::lemma_be16_round_trip(n as u16, b, 20);
    assert(b.subrange(22, 24) =~= be16(live_count(slots) as u16));
    crate::bytes::lemma_be16_round_trip(live_count(slots) as u16, b, 22);
    assert(b.subrange(24, 26) =~= be16((PAGE_HEADER_SIZE + SLOT_SIZE * n) as u16));
    crate::bytes::lemma_be16_round_trip((PAGE_HEADER_SIZE + SLOT_SIZE * n) as u16, b, 24);
    assert(b.subrange(26, 28) =~= be16((PAGE_SIZE - total) as u16));
    crate::bytes::lemma_be16_round_trip((PAGE_SIZE - total) as u16, b, 26);
    assert(b[28] == 0 && b[29] == 0 && b[30] == 0 && b[31] == 0);
    assert(b.skip(PAGE_HEADER_SIZE as int).take(SLOT_SIZE * n) =~= directory(slots, n));
    assert(b.skip(PAGE_SIZE - total) =~= payload_area(slots));
    lemma_encoded_entries(v, b, n);
    assert(slots.take(n) =~= slots);
    assert forall|i: int, j: int|
        0 <= i < j < n && entry_live(b, i) && entry_live(b, j) implies !entries_overlap(
        b,
        i,
        j,
    ) by {
        lemma_total_step(slots, i);
        lemma_total_step(slots, j);
        lemma_payload_total_take_mono(slots, i + 1, j);
    }
    assert forall|i: int| 0 <= i < n implies #[trigger] entry_ok(b, i, hdr_free_end(b)) by {
        assert(entry_live(b, i) == slots[i] is Some);
    }
    assert(decoded_page(b).slots =~= slots) by {
        assert forall|i: int| 0 <= i < n implies decoded_page(b).slots[i] == slots[i] by {
            assert(entry_live(b, i) == slots[i] is Some);
        }
    }
}

impl Clone for Page {
    fn clone(&self) -> (r: Self)
        ensures
            r@ == self@,
    {
        proof {
            use_type_invariant(self);
        }
        let mut slots: Vec<Option<Vec<u8>>> = Vec::new();
        let mut i: usize = 0;
        while i < self.slots.len()
            invariant
                i <= self.slots.len(),
                slots@.len() == i,
                forall|k: int| 0 <= k < i ==> slot_view(#[trigger] slots@[k]) == slot_view(self.slots@[k]),
            decreases self.slots.len() - i,
        {
            let copy = match &self.slots[i] {
                Some(record) => Some(slot_to_vec(record)),
                None => None,
            };
            slots.push(copy);
            i = i + 1;
        }
        proof {
            assert(slots_view(slots@) =~= slots_view(self.slots@));
        }
        Page { id: self.id, slots }
    }
}

/// Copies a record into a fresh vector.
fn slot_to_vec(record: &Vec<u8>) -> (r: Vec<u8>)
    ensures
        r@ == record@,
{
    slice_to_vec(record.as_slice())
}

} // verus!
