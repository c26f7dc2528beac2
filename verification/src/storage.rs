//! Page-file bookkeeping and the document location directory.
//!
//! The page file is a sequence of fixed-size pages; this module decides
//! how many pages a file holds, where a page lives, whether bytes read back
//! are the page asked for, and where each document is stored. Reading and
//! writing the file is left to the caller.
use vstd::prelude::*;

use crate::error::{error_detail, NovaError, Result};
use crate::nova_id::{hex_of, ids_equal, NovaId};
use crate::page::{decoded_page, page_bytes_valid, Page, PageId, SlotId, PAGE_SIZE};
use crate::text::{decimal, push_decimal, push_str};

verus! {

/// The bookkeeping of a page file: how many pages it holds.
#[derive(Debug)]
pub struct PageFile {
    page_count: u64,
}

/// The text of a document id: `nova_` and its hex digits.
pub open spec fn id_text(id: Seq<u8>) -> Seq<char> {
    seq!['n', 'o', 'v', 'a', '_'] + hex_of(id)
}

fn storage_error(text: &str) -> (e: NovaError)
    ensures
        e is Storage && error_detail(e) == text@,
{
    let mut m = String::new();
    push_str(&mut m, text);
    NovaError::Storage(m)
}

impl PageFile {
    /// The page count.
    pub closed spec fn count(self) -> u64 {
        self.page_count
    }

    /// The bookkeeping of an existing file of `length` bytes. Fails with
    /// `Corruption` when the length is not a whole number of pages.
    pub fn from_length(length: u64) -> (r: Result<PageFile>)
        ensures
            match r {
                Ok(f) => length % (PAGE_SIZE as u64) == 0 && f.count() == length / (PAGE_SIZE as u64),
                Err(e) => length % (PAGE_SIZE as u64) != 0 && e is Corruption && error_detail(e) == "page file length "@
                    + decimal(length as nat) + " is not a multiple of 4096"@,
            },
    {
        let page_size: u64 = 4096;
        if length % page_size != 0 {
            let mut m = String::new();
            push_str(&mut m, "page file length ");
            push_decimal(&mut m, length as u128);
            push_str(&mut m, " is not a multiple of 4096");
            return Err(NovaError::Corruption(m));
        }
        Ok(PageFile { page_count: length / page_size })
    }

    /// How many pages the file holds.
    pub fn page_count(&self) -> (r: u64)
        ensures
            r == self.count(),
    {
        self.page_count
    }

    /// The page to append next: its id and the bytes of an empty page with
    /// that id.
    pub fn next_page(&self) -> (r: Result<(PageId, Vec<u8>)>)
        ensures
            r matches Ok((id, bytes)) && id@ == self.count() && page_bytes_valid(bytes@) && decoded_page(bytes@).id
                == self.count() && decoded_page(bytes@).slots.len() == 0,
    {
        let id = PageId::new(self.page_count);
        let page = Page::new(id);
        proof {
            assert(crate::page::payload_total(Seq::<Option<Seq<u8>>>::empty()) == 0);
            assert(crate::page::page_fits(page@.slots));
        }
        match page.to_bytes() {
            Ok(bytes) => {
                proof {
                    crate::page::law_page_round_trip(page@);
                }
                Ok((id, bytes))
            },
            Err(e) => Err(e),
        }
    }

    /// Counts a page appended. Fails, changing nothing, when the count
    /// would overflow.
    pub fn appended(&mut self) -> (r: Result<()>)
        ensures
            r is Ok <==> old(self).count() < u64::MAX,
            r is Ok ==> final(self).count() == old(self).count() + 1,
            r matches Err(e) ==> e is Storage && error_detail(e) == "page count overflow"@ && final(self).count()
                == old(self).count(),
    {
        if self.page_count == u64::MAX {
            return Err(storage_error("page count overflow"));
        }
        self.page_count = self.page_count + 1;
        Ok(())
    }

    /// Succeeds exactly for a page the file holds.
    pub fn ensure_allocated(&self, id: PageId) -> (r: Result<()>)
        ensures
            r is Ok <==> id@ < self.count(),
            r matches Err(e) ==> e is NotFound && error_detail(e) == "page "@ + decimal(id@ as nat),
    {
        if id.get() >= self.page_count {
            let mut m = String::new();
            push_str(&mut m, "page ");
            push_decimal(&mut m, id.get() as u128);
            return Err(NovaError::NotFound(m));
        }
        Ok(())
    }
}

/// The byte offset of a page in the file. Fails when it does not fit a
/// `u64`.
pub fn page_offset(id: PageId) -> (r: Result<u64>)
    ensures
        r is Ok <==> id@ * 4096 <= u64::MAX,
        r matches Ok(o) ==> o == id@ * 4096,
        r matches Err(e) ==> e is Storage && error_detail(e) == "page file offset overflow"@,
{
    let v = id.get();
    if v > u64::MAX / 4096 {
        return Err(storage_error("page file offset overflow"));
    }
    Ok(v * 4096)
}

/// The page stored in bytes read for page `id`. Fails when the bytes are
/// not a valid page, or hold another page's header.
pub fn read_page(id: PageId, bytes: &[u8]) -> (r: Result<Page>)
    ensures
        r is Ok <==> page_bytes_valid(bytes@) && decoded_page(bytes@).id == id@,
        r matches Ok(p) ==> p@ == decoded_page(bytes@),
        r matches Err(e) ==> if page_bytes_valid(bytes@) {
            e is Corruption && error_detail(e) == "page "@ + decimal(id@ as nat) + " contains header for page "@
                + decimal(decoded_page(bytes@).id as nat)
        } else {
            e is Corruption || e is Unsupported
        },
{
    let page = match Page::from_bytes(bytes) {
        Ok(p) => p,
        Err(e) => {
            return Err(e);
        },
    };
    let found = page.id().get();
    if found != id.get() {
        let mut m = String::new();
        push_str(&mut m, "page ");
        push_decimal(&mut m, id.get() as u128);
        push_str(&mut m, " contains header for page ");
        push_decimal(&mut m, found as u128);
        return Err(NovaError::Corruption(m));
    }
    Ok(page)
}

/// Where a document is stored.
#[derive(Debug, Clone, Copy, PartialEq, Eq)]
pub struct Location {
    pub page: PageId,
    pub slot: SlotId,
}

/// The location of every stored document, by id.
pub struct DocumentDirectory {
    entries: Vec<(NovaId, Location)>,
}

/// The position of a document's entry, if any.
spec fn entry_index(entries: Seq<(NovaId, Location)>, id: Seq<u8>) -> Option<int> {
    if exists|i: int| 0 <= i < entries.len() && (#[trigger] entries[i]).0@ == id {
        Some(choose|i: int| 0 <= i < entries.len() && (#[trigger] entries[i]).0@ == id)
    } else {
        None
    }
}

/// Entries name distinct documents.
spec fn distinct_ids(entries: Seq<(NovaId, Location)>) -> bool {
    forall|i: int, j: int| 0 <= i < j < entries.len() ==> (#[trigger] entries[i]).0@ != (#[trigger] entries[j]).0@
}

proof fn lemma_entry_index_at(entries: Seq<(NovaId, Location)>, id: Seq<u8>, i: int)
    requires
        distinct_ids(entries),
        0 <= i < entries.len(),
        entries[i].0@ == id,
    ensures
        entry_index(entries, id) == Some(i),
{
    let k = entry_index(entries, id)->0;
    assert(entries[i].0@ == id);
    if k != i {
        if k < i {
            assert(entries[k].0@ != entries[i].0@);
        } else {
            assert(entries[i].0@ != entries[k].0@);
        }
    }
}

impl DocumentDirectory {
    /// The location of a document, if stored.
    pub closed spec fn location(self, id: Seq<u8>) -> Option<Location> {
        match entry_index(self.entries@, id) {
            Some(i) => Some(self.entries@[i].1),
            None => None,
        }
    }

    /// How many documents are stored.
    pub closed spec fn size(self) -> nat {
        self.entries@.len()
    }

    /// The invariant: one entry per document.
    pub closed spec fn wf(self) -> bool {
        distinct_ids(self.entries@)
    }

    /// An empty directory.
    pub fn new() -> (r: Self)
        ensures
            r.wf(),
            r.size() == 0,
            forall|id: Seq<u8>| #[trigger] r.location(id) is None,
    {
        DocumentDirectory { entries: Vec::new() }
    }

    /// How many documents are stored.
    pub fn len(&self) -> (r: usize)
        ensures
            r == self.size(),
    {
        self.entries.len()
    }

    /// Whether no document is stored.
    pub fn is_empty(&self) -> (r: bool)
        ensures
            r == (self.size() == 0),
    {
        self.entries.len() == 0
    }

    /// The location of a document, if stored.
    pub fn locate(&self, id: &NovaId) -> (r: Option<Location>)
        requires
            self.wf(),
        ensures
            r == self.location(id@),
    {
        let mut i: usize = 0;
        while i < self.entries.len()
            invariant
                i <= self.entries@.len(),
                self.wf(),
                forall|j: int| 0 <= j < i ==> (#[trigger] self.entries@[j]).0@ != id@,
            decreases self.entries@.len() - i,
        {
            if ids_equal(&self.entries[i].0, id) {
                proof {
                    lemma_entry_index_at(self.entries@, id@, i as int);
                }
                return Some(self.entries[i].1);
            }
            i = i + 1;
        }
        None
    }

    /// Records a new document's location.
    fn add(&mut self, id: NovaId, at: Location)
        requires
            old(self).wf(),
            old(self).location(id@) is None,
        ensures
            final(self).wf(),
            final(self).size() == old(self).size() + 1,
            final(self).location(id@) == Some(at),
            forall|o: Seq<u8>| o != id@ ==> #[trigger] final(self).location(o) == old(self).location(o),
    {
        let ghost before = self.entries@;
        self.entries.push((id, at));
        proof {
            let after = self.entries@;
            assert forall|a: int, b: int| 0 <= a < b < after.len() implies (#[trigger] after[a]).0@ != (
            #[trigger] after[b]).0@ by {
                assert(after[a] == before[a]);
                if b == before.len() {
                    if before[a].0@ == id@ {
                        assert(exists|j: int| 0 <= j < before.len() && (#[trigger] before[j]).0@ == id@);
                    }
                } else {
                    assert(after[b] == before[b]);
                }
            }
            lemma_entry_index_at(after, id@, before.len() as int);
            assert forall|o: Seq<u8>| o != id@ implies #[trigger] self.location(o) == old(self).location(o) by {
                if exists|j: int| 0 <= j < before.len() && (#[trigger] before[j]).0@ == o {
                    let j = choose|j: int| 0 <= j < before.len() && (#[trigger] before[j]).0@ == o;
                    lemma_entry_index_at(before, o, j);
                    assert(after[j] == before[j]);
                    lemma_entry_index_at(after, o, j);
                } else {
                    assert forall|j: int| 0 <= j < after.len() implies (#[trigger] after[j]).0@ != o by {
                        if j < before.len() {
                            assert(after[j] == before[j]);
                        }
                    }
                }
            }
        }
    }

    /// Records a document found while scanning the page file. A document
    /// found twice means the file is corrupt; nothing changes then.
    pub fn record_scanned(&mut self, id: NovaId, at: Location) -> (r: Result<()>)
        requires
            old(self).wf(),
        ensures
            final(self).wf(),
            r is Ok <==> old(self).location(id@) is None,
            r is Ok ==> final(self).location(id@) == Some(at) && final(self).size() == old(self).size() + 1
                && forall|o: Seq<u8>| o != id@ ==> #[trigger] final(self).location(o) == old(self).location(o),
            r matches Err(e) ==> e is Corruption && error_detail(e) == "duplicate document id "@ + id_text(id@)
                + " in page file"@ && *final(self) == *old(self),
    {
        if self.locate(&id).is_some() {
            let mut m = String::new();
            push_str(&mut m, "duplicate document id ");
            let text = id.to_string();
            push_str(&mut m, text.as_str());
            push_str(&mut m, " in page file");
            return Err(NovaError::Corruption(m));
        }
        self.add(id, at);
        Ok(())
    }

    /// Checks that a new document may be stored: its id is not stored yet
    /// and its encoding fits an empty page.
    pub fn check_insert(&self, id: &NovaId, encoded_len: usize) -> (r: Result<()>)
        requires
            self.wf(),
        ensures
            r is Ok <==> self.location(id@) is None && encoded_len <= 4060,
            r matches Err(e) ==> if self.location(id@) is Some {
                e is AlreadyExists && error_detail(e) == "document "@ + id_text(id@)
            } else {
                e is Storage && error_detail(e) == "encoded document "@ + id_text(id@) + " is "@ + decimal(
                    encoded_len as nat,
                ) + " bytes; page record capacity is "@ + decimal(4060)
            },
    {
        if self.locate(id).is_some() {
            let mut m = String::new();
            push_str(&mut m, "document ");
            let text = id.to_string();
            push_str(&mut m, text.as_str());
            return Err(NovaError::AlreadyExists(m));
        }
        let capacity = Page::new(PageId::new(0)).free_space();
        proof {
            assert(crate::page::payload_total(Seq::<Option<Seq<u8>>>::empty()) == 0);
            assert(!crate::page::has_free_slot(Seq::<Option<Seq<u8>>>::empty()));
            assert(capacity == 4060);
        }
        if encoded_len > capacity {
            let mut m = String::new();
            push_str(&mut m, "encoded document ");
            let text = id.to_string();
            push_str(&mut m, text.as_str());
            push_str(&mut m, " is ");
            push_decimal(&mut m, encoded_len as u128);
            push_str(&mut m, " bytes; page record capacity is ");
            push_decimal(&mut m, capacity as u128);
            return Err(NovaError::Storage(m));
        }
        Ok(())
    }

    /// Records where a new document was stored.
    pub fn record_inserted(&mut self, id: NovaId, at: Location)
        requires
            old(self).wf(),
            old(self).location(id@) is None,
        ensures
            final(self).wf(),
            final(self).size() == old(self).size() + 1,
            final(self).location(id@) == Some(at),
            forall|o: Seq<u8>| o != id@ ==> #[trigger] final(self).location(o) == old(self).location(o),
    {
        self.add(id, at);
    }
}

/// The record a directory entry points to in the page read for it. Fails
/// with `Corruption` when the slot holds none.
pub fn stored_record<'a>(id: &NovaId, at: Location, page: &'a Page) -> (r: Result<&'a [u8]>)
    ensures
        r is Ok <==> at.slot@ < page@.slots.len() && page@.slots[at.slot@ as int] is Some,
        r matches Ok(b) ==> page@.slots[at.slot@ as int] == Some(b@),
        r matches Err(e) ==> e is Corruption && error_detail(e) == "document "@ + id_text(id@) + " points to missing page "@
            + decimal(at.page@ as nat) + " slot "@ + decimal(at.slot@ as nat),
{
    match page.get(at.slot) {
        Some(b) => Ok(b),
        None => {
            let mut m = String::new();
            push_str(&mut m, "document ");
            let text = id.to_string();
            push_str(&mut m, text.as_str());
            push_str(&mut m, " points to missing page ");
            push_decimal(&mut m, at.page.get() as u128);
            push_str(&mut m, " slot ");
            push_decimal(&mut m, at.slot.get() as u128);
            Err(NovaError::Corruption(m))
        },
    }
}

/// Checks that the document decoded from a record has the id the directory
/// filed it under.
pub fn check_stored_id(expected: &NovaId, stored: &NovaId) -> (r: Result<()>)
    ensures
        r is Ok <==> expected@ == stored@,
        r matches Err(e) ==> e is Corruption && error_detail(e) == "document index id "@ + id_text(expected@)
            + " does not match stored id "@ + id_text(stored@),
{
    if ids_equal(expected, stored) {
        return Ok(());
    }
    let mut m = String::new();
    push_str(&mut m, "document index id ");
    let a = expected.to_string();
    push_str(&mut m, a.as_str());
    push_str(&mut m, " does not match stored id ");
    let b = stored.to_string();
    push_str(&mut m, b.as_str());
    Err(NovaError::Corruption(m))
}

} // verus!
