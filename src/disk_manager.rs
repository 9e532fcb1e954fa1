//! Offset bookkeeping of the disk manager: where each page lives in the
//! data file, which slots are free for reuse, how large the file must be,
//! and the operation counters. The file I/O itself is done by the caller at
//! the offsets handed out here.
use std::collections::HashMap;
use vstd::prelude::*;

use crate::common::{PageId, GRIMOIRE_PAGE_SIZE};
pub use crate::errors::DiskError;

verus! {

broadcast use vstd::std_specs::hash::group_hash_axioms;

/// Number of page slots the data file is created with.
pub const INITIAL_PAGE_CAPACITY: u64 = 128;

/// Largest number of live pages for which a new slot is handed out.
pub const MAX_PAGES: u64 = 1099511627776;

/// Mathematical state of an [`OffsetTable`].
#[verifier::ext_equal]
pub struct OffsetState {
    /// Byte offset of every live page.
    pub pages: Map<PageId, u64>,
    /// Offsets of deleted pages, reused last-freed first.
    pub free: Seq<u64>,
    /// Number of page slots the data file has room for.
    pub capacity: nat,
    pub writes: nat,
    pub reads: nat,
    pub deletes: nat,
}

/// Where a page write goes.
#[derive(Debug, Clone, Copy, PartialEq, Eq)]
pub struct WriteSlot {
    /// Byte offset of the page in the data file.
    pub offset: u64,
    /// New length the data file must be given before the write, if it grew.
    pub grow_to: Option<u64>,
}

/// Length in bytes of a data file with room for `capacity` slots (one spare).
pub open spec fn file_len_for(capacity: nat) -> nat {
    (capacity + 1) * GRIMOIRE_PAGE_SIZE as nat
}

/// `x + 1`, staying at `u64::MAX` there.
pub open spec fn bump(x: nat) -> nat {
    if x >= u64::MAX {
        x
    } else {
        x + 1
    }
}

impl OffsetState {
    /// Number of slots ever handed out: live ones and free ones.
    pub open spec fn slots(self) -> nat {
        self.pages.dom().len() + self.free.len()
    }

    /// `o` is a page-aligned slot among the first `self.slots()`.
    pub open spec fn valid_slot(self, o: u64) -> bool {
        &&& o % GRIMOIRE_PAGE_SIZE as u64 == 0
        &&& o < self.slots() * GRIMOIRE_PAGE_SIZE as nat
    }

    pub open spec fn wf(self) -> bool {
        &&& self.pages.dom().finite()
        &&& self.free.no_duplicates()
        &&& self.slots() <= self.capacity
        &&& 1 <= self.capacity <= 2 * MAX_PAGES
        &&& self.writes <= u64::MAX
        &&& self.reads <= u64::MAX
        &&& self.deletes <= u64::MAX
        &&& forall|p: PageId| #[trigger] self.pages.contains_key(p) ==> self.valid_slot(self.pages[p])
        &&& forall|i: int| 0 <= i < self.free.len() ==> self.valid_slot(#[trigger] self.free[i])
        &&& forall|p: PageId, q: PageId|
            self.pages.contains_key(p) && self.pages.contains_key(q) && p != q
                ==> #[trigger] self.pages[p] != #[trigger] self.pages[q]
        &&& forall|p: PageId| #[trigger]
            self.pages.contains_key(p) ==> !self.free.contains(self.pages[p])
    }

    /// A write of page `p` needs no slot or can get one.
    pub open spec fn has_room(self, p: PageId) -> bool {
        self.pages.contains_key(p) || self.pages.dom().len() < MAX_PAGES
    }

    /// Offset that a write of page `p` uses: its own, else the last freed
    /// slot, else the next slot at the end of the file.
    pub open spec fn write_offset(self, p: PageId) -> u64 {
        if self.pages.contains_key(p) {
            self.pages[p]
        } else if self.free.len() > 0 {
            self.free.last()
        } else {
            (self.pages.dom().len() * GRIMOIRE_PAGE_SIZE as nat) as u64
        }
    }

    /// The file must grow (its slot count doubles) for a write of page `p`.
    pub open spec fn write_grows(self, p: PageId) -> bool {
        !self.pages.contains_key(p) && self.free.len() == 0 && self.pages.dom().len()
            >= self.capacity
    }

    /// State after a write of page `p` is located.
    pub open spec fn after_write(self, p: PageId) -> OffsetState {
        if self.pages.contains_key(p) {
            self
        } else if self.free.len() > 0 {
            OffsetState {
                pages: self.pages.insert(p, self.free.last()),
                free: self.free.drop_last(),
                ..self
            }
        } else {
            OffsetState {
                pages: self.pages.insert(p, self.write_offset(p)),
                capacity: if self.write_grows(p) {
                    self.capacity * 2
                } else {
                    self.capacity
                },
                ..self
            }
        }
    }

    /// State after page `p` is deleted: its offset joins the free slots.
    pub open spec fn after_delete(self, p: PageId) -> OffsetState {
        OffsetState {
            pages: self.pages.remove(p),
            free: self.free.push(self.pages[p]),
            deletes: bump(self.deletes),
            ..self
        }
    }

    /// Locating a write keeps the state well formed.
    pub proof fn lemma_write_wf(self, page_id: PageId)
        requires
            self.wf(),
            self.has_room(page_id),
        ensures
            self.after_write(page_id).wf(),
            self.after_write(page_id).pages.contains_key(page_id),
            self.after_write(page_id).pages[page_id] == self.write_offset(page_id),
    {
        let s = self;
        let t = self.after_write(page_id);
        if s.pages.contains_key(page_id) {
        } else if s.free.len() > 0 {
            let offset = s.free.last();
            assert(s.free[s.free.len() - 1] == offset);
            assert forall|x: u64| t.free.contains(x) implies s.free.contains(x) && x != offset by {
                let k = choose|k: int| 0 <= k < t.free.len() && t.free[k] == x;
                assert(s.free[k] == x);
            }
            assert(t.pages.dom() =~= s.pages.dom().insert(page_id));
            assert forall|p: PageId| #[trigger] t.pages.contains_key(p) implies t.valid_slot(
                t.pages[p],
            ) by {
                if p != page_id {
                    assert(s.pages.contains_key(p));
                }
            }
            assert forall|i: int| 0 <= i < t.free.len() implies t.valid_slot(#[trigger] t.free[i]) by {
                assert(s.free[i] == t.free[i]);
            }
            assert forall|p: PageId, q: PageId|
                t.pages.contains_key(p) && t.pages.contains_key(q) && p != q implies #[trigger] t.pages[p]
                != #[trigger] t.pages[q] by {
                if p != page_id && q != page_id {
                    assert(s.pages[p] != s.pages[q]);
                } else if p == page_id {
                    assert(s.pages.contains_key(q));
                    assert(!s.free.contains(s.pages[q]));
                } else {
                    assert(s.pages.contains_key(p));
                    assert(!s.free.contains(s.pages[p]));
                }
            }
        } else {
            let n = s.pages.dom().len();
            let offset = s.write_offset(page_id);
            assert(offset % 4096 == 0) by (nonlinear_arith)
                requires
                    offset == n * 4096,
            ;
            assert(t.pages.dom() =~= s.pages.dom().insert(page_id));
            assert forall|p: PageId| #[trigger] t.pages.contains_key(p) implies t.valid_slot(
                t.pages[p],
            ) by {
                if p != page_id {
                    assert(s.pages.contains_key(p));
                    assert(s.valid_slot(s.pages[p]));
                }
            }
            assert forall|p: PageId, q: PageId|
                t.pages.contains_key(p) && t.pages.contains_key(q) && p != q implies #[trigger] t.pages[p]
                != #[trigger] t.pages[q] by {
                if p != page_id && q != page_id {
                    assert(s.pages[p] != s.pages[q]);
                } else if p == page_id {
                    assert(s.pages.contains_key(q));
                    assert(s.valid_slot(s.pages[q]));
                } else {
                    assert(s.pages.contains_key(p));
                    assert(s.valid_slot(s.pages[p]));
                }
            }
        }
    }

    /// Deleting a live page keeps the state well formed.
    pub proof fn lemma_delete_wf(self, page_id: PageId)
        requires
            self.wf(),
            self.pages.contains_key(page_id),
        ensures
            self.after_delete(page_id).wf(),
    {
        let s = self;
        let t = self.after_delete(page_id);
        let offset = s.pages[page_id];
        assert(t.pages.dom() =~= s.pages.dom().remove(page_id));
        assert forall|i: int| 0 <= i < t.free.len() implies t.valid_slot(#[trigger] t.free[i]) by {
            if i < s.free.len() {
                assert(s.free[i] == t.free[i]);
            }
        }
        assert forall|p: PageId| #[trigger] t.pages.contains_key(p) implies !t.free.contains(
            t.pages[p],
        ) by {
            assert(s.pages.contains_key(p));
            assert(s.pages[p] != offset);
            if t.free.contains(t.pages[p]) {
                let k = choose|k: int| 0 <= k < t.free.len() && t.free[k] == t.pages[p];
                if k < s.free.len() {
                    assert(s.free[k] == t.free[k]);
                }
            }
        }
        assert forall|i: int, j: int|
            0 <= i < t.free.len() && 0 <= j < t.free.len() && i != j implies t.free[i]
            != t.free[j] by {
            if i < s.free.len() && j < s.free.len() {
                assert(s.free[i] == t.free[i]);
                assert(s.free[j] == t.free[j]);
            } else if i < s.free.len() {
                assert(s.free.contains(t.free[i]));
            } else {
                assert(s.free.contains(t.free[j]));
            }
        }
    }
}

/// Two distinct page-aligned offsets are at least a page apart.
proof fn lemma_aligned_apart(a: u64, b: u64)
    requires
        a % GRIMOIRE_PAGE_SIZE as u64 == 0,
        b % GRIMOIRE_PAGE_SIZE as u64 == 0,
        a < b,
    ensures
        a + GRIMOIRE_PAGE_SIZE <= b,
{
    assert(a + 4096 <= b) by (nonlinear_arith)
        requires
            a % 4096 == 0,
            b % 4096 == 0,
            a < b,
    ;
}

/// Live pages occupy disjoint byte ranges of the data file, inside its length.
pub proof fn lemma_live_pages_disjoint(s: OffsetState, p: PageId, q: PageId)
    requires
        s.wf(),
        s.pages.contains_key(p),
        s.pages.contains_key(q),
        p != q,
    ensures
        s.pages[p] + GRIMOIRE_PAGE_SIZE <= s.pages[q] || s.pages[q] + GRIMOIRE_PAGE_SIZE
            <= s.pages[p],
        s.pages[p] + GRIMOIRE_PAGE_SIZE <= file_len_for(s.capacity),
{
    if s.pages[p] < s.pages[q] {
        lemma_aligned_apart(s.pages[p], s.pages[q]);
    } else {
        lemma_aligned_apart(s.pages[q], s.pages[p]);
    }
    let o = s.pages[p];
    let n = s.slots();
    let c = s.capacity;
    assert(o + 4096 <= (c + 1) * 4096) by (nonlinear_arith)
        requires
            o < n * 4096,
            n <= c,
    ;
}

/// Once the write of page `p` is located, a read of `p` is located at the
/// same offset, whose page-sized range overlaps no other live page; locating
/// a write of another page `q`, or deleting `q`, leaves that offset to `p`.
pub proof fn lemma_write_then_read_same_slot(s: OffsetState, p: PageId, q: PageId)
    requires
        s.wf(),
        s.has_room(p),
        q != p,
    ensures
        ({
            let t = s.after_write(p);
            &&& t.pages.contains_key(p)
            &&& t.pages[p] == s.write_offset(p)
            &&& forall|r: PageId|
                #![trigger t.pages[r]]
                t.pages.contains_key(r) && r != p ==> t.pages[r] + GRIMOIRE_PAGE_SIZE <= t.pages[p]
                    || t.pages[p] + GRIMOIRE_PAGE_SIZE <= t.pages[r]
            &&& t.has_room(q) ==> t.after_write(q).pages.contains_key(p) && t.after_write(
                q,
            ).pages[p] == t.pages[p]
            &&& t.pages.contains_key(q) ==> t.after_delete(q).pages.contains_key(p)
                && t.after_delete(q).pages[p] == t.pages[p]
        }),
{
    s.lemma_write_wf(p);
    let t = s.after_write(p);
    assert forall|r: PageId|
        #![trigger t.pages[r]]
        t.pages.contains_key(r) && r != p implies t.pages[r] + GRIMOIRE_PAGE_SIZE <= t.pages[p]
        || t.pages[p] + GRIMOIRE_PAGE_SIZE <= t.pages[r] by {
        lemma_live_pages_disjoint(t, r, p);
    }
}

/// After page `p` is deleted, the next page to be given a new slot gets
/// exactly the offset `p` had.
pub proof fn lemma_delete_then_allocate_reuses_slot(s: OffsetState, p: PageId, q: PageId)
    requires
        s.wf(),
        s.pages.contains_key(p),
        q == p || !s.pages.contains_key(q),
    ensures
        s.after_delete(p).write_offset(q) == s.pages[p],
        s.after_delete(p).after_write(q).pages[q] == s.pages[p],
        s.after_delete(p).after_write(q).free == s.free,
{
    let t = s.after_delete(p);
    assert(t.free.drop_last() =~= s.free);
}

/// Page table of the data file.
pub struct OffsetTable {
    pages: HashMap<PageId, u64>,
    free_slots: Vec<u64>,
    page_capacity: u64,
    num_writes: u64,
    num_reads: u64,
    num_deletes: u64,
}

impl View for OffsetTable {
    type V = OffsetState;

    closed spec fn view(&self) -> OffsetState {
        OffsetState {
            pages: self.pages@,
            free: self.free_slots@,
            capacity: self.page_capacity as nat,
            writes: self.num_writes as nat,
            reads: self.num_reads as nat,
            deletes: self.num_deletes as nat,
        }
    }
}

impl OffsetTable {
    pub open spec fn wf(&self) -> bool {
        self@.wf()
    }

    /// An empty table for a file of [`INITIAL_PAGE_CAPACITY`] slots.
    pub fn new() -> (r: Self)
        ensures
            r.wf(),
            r@.pages.is_empty(),
            r@.free.len() == 0,
            r@.capacity == INITIAL_PAGE_CAPACITY,
            r@.writes == 0,
            r@.reads == 0,
            r@.deletes == 0,
    {
        let r = OffsetTable {
            pages: HashMap::new(),
            free_slots: Vec::new(),
            page_capacity: INITIAL_PAGE_CAPACITY,
            num_writes: 0,
            num_reads: 0,
            num_deletes: 0,
        };
        assert(r@.pages =~= Map::empty());
        r
    }

    /// Length in bytes the data file must have.
    pub fn file_len(&self) -> (r: u64)
        requires
            self.wf(),
        ensures
            r == file_len_for(self@.capacity),
    {
        (self.page_capacity + 1) * (GRIMOIRE_PAGE_SIZE as u64)
    }

    /// Offset of page `page_id`, if it is live.
    pub fn offset_of(&self, page_id: PageId) -> (r: Option<u64>)
        ensures
            r == (if self@.pages.contains_key(page_id) {
                Some(self@.pages[page_id])
            } else {
                None
            }),
    {
        match self.pages.get(&page_id) {
            Some(o) => Some(*o),
            None => None,
        }
    }

    /// Offset a read of page `page_id` uses; `PageNotFound` if none is recorded.
    pub fn read_offset(&self, page_id: PageId) -> (r: Result<u64, DiskError>)
        ensures
            self@.pages.contains_key(page_id) ==> r == Ok::<u64, DiskError>(self@.pages[page_id]),
            !self@.pages.contains_key(page_id) ==> (r matches Err(DiskError::PageNotFound(id))
                && id == page_id),
    {
        match self.pages.get(&page_id) {
            Some(o) => Ok(*o),
            None => Err(DiskError::PageNotFound(page_id)),
        }
    }

    /// Whether a write of page `page_id` can be located.
    pub fn has_room(&self, page_id: PageId) -> (r: bool)
        ensures
            r == self@.has_room(page_id),
    {
        self.pages.contains_key(&page_id) || (self.pages.len() as u64) < MAX_PAGES
    }

    /// Locates a write of page `page_id`: the page's own offset, else a
    /// newly allocated one, which is recorded.
    pub fn write_offset(&mut self, page_id: PageId) -> (r: WriteSlot)
        requires
            old(self).wf(),
            old(self)@.has_room(page_id),
        ensures
            final(self).wf(),
            final(self)@ == old(self)@.after_write(page_id),
            r.offset == old(self)@.write_offset(page_id),
            r.grow_to == (if old(self)@.write_grows(page_id) {
                Some(file_len_for(final(self)@.capacity) as u64)
            } else {
                None::<u64>
            }),
    {
        match self.pages.get(&page_id) {
            Some(o) => WriteSlot { offset: *o, grow_to: None },
            None => self.allocate_page(page_id),
        }
    }

    fn allocate_page(&mut self, page_id: PageId) -> (r: WriteSlot)
        requires
            old(self).wf(),
            !old(self)@.pages.contains_key(page_id),
            old(self)@.pages.dom().len() < MAX_PAGES,
        ensures
            final(self).wf(),
            final(self)@ == old(self)@.after_write(page_id),
            r.offset == old(self)@.write_offset(page_id),
            r.grow_to == (if old(self)@.write_grows(page_id) {
                Some(file_len_for(final(self)@.capacity) as u64)
            } else {
                None::<u64>
            }),
    {
        proof {
            self@.lemma_write_wf(page_id);
        }
        let ghost s = self@;
        if let Some(offset) = self.free_slots.pop() {
            self.pages.insert(page_id, offset);
            assert(self@ =~= s.after_write(page_id));
            return WriteSlot { offset, grow_to: None };
        }
        let n = self.pages.len() as u64;
        let mut grow_to: Option<u64> = None;
        if n >= self.page_capacity {
            self.page_capacity = self.page_capacity * 2;
            grow_to = Some((self.page_capacity + 1) * (GRIMOIRE_PAGE_SIZE as u64));
        }
        let offset = n * (GRIMOIRE_PAGE_SIZE as u64);
        self.pages.insert(page_id, offset);
        assert(self@ =~= s.after_write(page_id));
        WriteSlot { offset, grow_to }
    }

    /// Deletes page `page_id`: its offset goes to the free slots and the
    /// delete counter rises. `PageNotFound`, changing nothing, if it is not live.
    pub fn delete_page(&mut self, page_id: PageId) -> (r: Result<(), DiskError>)
        requires
            old(self).wf(),
        ensures
            final(self).wf(),
            old(self)@.pages.contains_key(page_id) ==> r is Ok && final(self)@ == old(
                self,
            )@.after_delete(page_id),
            !old(self)@.pages.contains_key(page_id) ==> (r matches Err(DiskError::PageNotFound(id))
                && id == page_id) && final(self)@ == old(self)@,
    {
        let ghost s = self@;
        match self.pages.remove(&page_id) {
            Some(offset) => {
                self.free_slots.push(offset);
                if self.num_deletes < u64::MAX {
                    self.num_deletes = self.num_deletes + 1;
                }
                proof {
                    s.lemma_delete_wf(page_id);
                }
                assert(self@ =~= s.after_delete(page_id));
                Ok(())
            },
            None => Err(DiskError::PageNotFound(page_id)),
        }
    }

    /// Counts a completed page write.
    pub fn record_write(&mut self)
        requires
            old(self).wf(),
        ensures
            final(self).wf(),
            final(self)@ == (OffsetState { writes: bump(old(self)@.writes), ..old(self)@ }),
    {
        if self.num_writes < u64::MAX {
            self.num_writes = self.num_writes + 1;
        }
        assert(self@ =~= (OffsetState { writes: bump(old(self)@.writes), ..old(self)@ }));
    }

    /// Counts a completed page read.
    pub fn record_read(&mut self)
        requires
            old(self).wf(),
        ensures
            final(self).wf(),
            final(self)@ == (OffsetState { reads: bump(old(self)@.reads), ..old(self)@ }),
    {
        if self.num_reads < u64::MAX {
            self.num_reads = self.num_reads + 1;
        }
        assert(self@ =~= (OffsetState { reads: bump(old(self)@.reads), ..old(self)@ }));
    }

    pub fn get_num_writes(&self) -> (r: u64)
        ensures
            r == self@.writes,
    {
        self.num_writes
    }

    pub fn get_num_reads(&self) -> (r: u64)
        ensures
            r == self@.reads,
    {
        self.num_reads
    }

    pub fn get_num_deletes(&self) -> (r: u64)
        ensures
            r == self@.deletes,
    {
        self.num_deletes
    }
}

} // verus!
