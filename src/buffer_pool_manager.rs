//! Buffer pool manager: a fixed array of frames, the directory of which page
//! each frame holds, the free-frame list and the replacement policy.
//!
//! Disk traffic is left to the caller. A fetch whose victim frame is dirty
//! changes nothing and hands out the victim's bytes; once they are written
//! and reported with `mark_flushed`, the fetch is made again and reuses the
//! frame. A fetch that takes a frame says whether the page must be read
//! into it. A flush hands out the bytes to write, and `mark_flushed` cleans
//! the page once they are on disk.
use std::collections::VecDeque;
use vstd::prelude::*;

use crate::arc_replacer::{lemma_access_adds_frame, AccessType, ArcReplacer, ArcState, FrameStatus};
use crate::common::{FrameId, PageId, GRIMOIRE_PAGE_SIZE};

verus! {

/// A page-sized slot of memory.
pub struct Frame {
    /// The page held, if any.
    pub page_id: Option<PageId>,
    /// Number of callers holding the frame.
    pub pin_count: usize,
    /// The bytes differ from those on disk.
    pub is_dirty: bool,
    pub data: Vec<u8>,
}

/// Bytes of a page that must reach the disk before its frame is reused.
pub struct WriteBack {
    pub page_id: PageId,
    pub data: Vec<u8>,
}

/// A frame handed out by a fetch, pinned.
pub struct FetchOutcome {
    pub frame_id: FrameId,
    /// The page's bytes must be read from disk into the frame.
    pub load: bool,
}

/// Result of a fetch or a new page.
pub enum FetchStep {
    /// The page holds a frame.
    Ready(FetchOutcome),
    /// The frame to reuse holds a dirty page: nothing changed; these bytes
    /// must reach the disk, and be reported by `mark_flushed`, before the
    /// request is made again.
    WriteBackFirst(WriteBack),
}

/// Failure of a buffer pool operation.
#[derive(Debug, Clone, Copy, PartialEq, Eq)]
pub enum BufferError {
    /// No free frame and no evictable frame: every frame is pinned.
    PoolExhausted,
    /// The page is not resident.
    PageNotFound(PageId),
    /// The page is pinned and cannot be deleted.
    PagePinned(PageId),
    /// The page is resident but nobody holds it.
    NotPinned(PageId),
    /// A new page was requested under an id that is already resident.
    PageResident(PageId),
    /// The pin count of the page cannot grow any further.
    TooManyPins(PageId),
}

/// Mathematical state of a [`BufferPoolManager`].
#[verifier::ext_equal]
pub struct PoolState {
    pub frames: Seq<Frame>,
    pub free: Seq<FrameId>,
    pub replacer: ArcState,
}

/// A page of zero bytes.
pub open spec fn zero_page() -> Seq<u8> {
    Seq::new(GRIMOIRE_PAGE_SIZE as nat, |i: int| 0u8)
}

impl PoolState {
    pub open spec fn size(self) -> nat {
        self.frames.len()
    }

    /// Frame `f` holds page `pid`.
    pub open spec fn holds(self, f: FrameId, pid: PageId) -> bool {
        f < self.frames.len() && self.frames[f as int].page_id == Some(pid)
    }

    pub open spec fn resident(self, pid: PageId) -> bool {
        exists|f: FrameId| self.holds(f, pid)
    }

    pub open spec fn occupied(self, f: FrameId) -> bool {
        f < self.frames.len() && self.frames[f as int].page_id is Some
    }

    pub open spec fn wf(self) -> bool {
        &&& self.replacer.wf()
        &&& self.replacer.capacity == self.frames.len()
        &&& self.free.no_duplicates()
        &&& self.replacer.table.dom().len() + self.free.len() == self.frames.len()
        &&& forall|f: int|
            0 <= f < self.frames.len() ==> (#[trigger] self.frames[f]).data@.len()
                == GRIMOIRE_PAGE_SIZE
        &&& forall|f: FrameId, g: FrameId|
            f != g && self.occupied(f) && self.occupied(g) ==> #[trigger] self.frames[f as int].page_id
                != #[trigger] self.frames[g as int].page_id
        &&& forall|i: int|
            0 <= i < self.free.len() ==> #[trigger] self.free[i] < self.frames.len()
                && self.frames[self.free[i] as int].page_id is None
        &&& forall|f: FrameId|
            f < self.frames.len() && self.frames[f as int].page_id is None ==> #[trigger] self.free.contains(f)
        &&& forall|f: int|
            0 <= f < self.frames.len() && (#[trigger] self.frames[f]).page_id is None
                ==> !self.frames[f].is_dirty && self.frames[f].pin_count == 0
        &&& forall|f: FrameId| #[trigger]
            self.replacer.table.contains_key(f) <==> self.occupied(f)
        &&& forall|f: FrameId| #[trigger]
            self.occupied(f) ==> {
                &&& self.frames[f as int].page_id == Some(self.replacer.table[f].page_id)
                &&& self.replacer.table[f].evictable <==> self.frames[f as int].pin_count == 0
            }
    }

    /// Frame `f` reset to hold page `pid`, pinned once, clean and zeroed.
    pub open spec fn fresh_frame(self, f: FrameId, pid: PageId) -> bool {
        &&& self.frames[f as int].page_id == Some(pid)
        &&& self.frames[f as int].pin_count == 1
        &&& !self.frames[f as int].is_dirty
        &&& self.frames[f as int].data@ == zero_page()
    }

    /// Every frame but `f` is as in `old`.
    pub open spec fn same_but(self, old: PoolState, f: FrameId) -> bool {
        &&& self.frames.len() == old.frames.len()
        &&& forall|g: int| 0 <= g < self.frames.len() && g != f ==> self.frames[g] == old.frames[g]
    }
}

/// Effect of taking a frame for page `pid`, which is not resident, from
/// `old` to `new` with result `r`: the first free frame if any; else the
/// replacer's victim, which is evicted and reused if clean, and whose bytes
/// are handed back with nothing changed if dirty; `PoolExhausted` if every
/// frame is pinned. A taken frame is reset to hold `pid`, pinned once.
pub open spec fn acquired(
    old: PoolState,
    new: PoolState,
    pid: PageId,
    load: bool,
    r: Result<FetchStep, BufferError>,
) -> bool {
    if old.free.len() > 0 {
        let f = old.free[0];
        &&& r matches Ok(FetchStep::Ready(o)) && o.frame_id == f && o.load == load
        &&& new.fresh_frame(f, pid)
        &&& new.same_but(old, f)
        &&& new.free == old.free.drop_first()
        &&& new.replacer == old.replacer.after_access(f, pid)
    } else {
        match old.replacer.victim() {
            Some(v) => if old.frames[v as int].is_dirty {
                &&& r matches Ok(FetchStep::WriteBackFirst(w)) && old.frames[v as int].page_id
                    == Some(w.page_id) && w.data@ == old.frames[v as int].data@
                &&& new == old
            } else {
                &&& r matches Ok(FetchStep::Ready(o)) && o.frame_id == v && o.load == load
                &&& new.fresh_frame(v, pid)
                &&& new.same_but(old, v)
                &&& new.free == old.free
                &&& new.replacer == old.replacer.after_evict().after_access(v, pid)
            },
            None => (r matches Err(e) && e == BufferError::PoolExhausted) && new == old,
        }
    }
}

/// Pages held by some frame.
pub open spec fn resident_pages(s: PoolState) -> Set<PageId> {
    Set::new(|p: PageId| s.resident(p))
}

/// In every well-formed pool, which every operation keeps, the resident
/// pages number at most the frames of the pool, and no page is held by two
/// frames.
pub proof fn lemma_resident_pages_bounded(s: PoolState)
    requires
        s.wf(),
    ensures
        resident_pages(s).finite(),
        resident_pages(s).len() <= s.size(),
        forall|f: FrameId, g: FrameId, p: PageId|
            f != g && #[trigger] s.holds(f, p) ==> !#[trigger] s.holds(g, p),
{
    let dom = s.replacer.table.dom();
    let page = |f: FrameId| s.replacer.table[f].page_id;
    assert forall|p: PageId| resident_pages(s).contains(p) <==> #[trigger] dom.map(page).contains(p) by {
        if resident_pages(s).contains(p) {
            let f = choose|f: FrameId| s.holds(f, p);
            assert(s.occupied(f));
            assert(dom.contains(f));
            assert(page(f) == p);
        }
        if dom.map(page).contains(p) {
            let f = choose|f: FrameId| dom.contains(f) && page(f) == p;
            assert(s.occupied(f));
            assert(s.holds(f, p));
        }
    }
    assert(resident_pages(s) =~= dom.map(page));
    vstd::set_lib::lemma_map_size_bound(dom, resident_pages(s), page);
    assert forall|f: FrameId, g: FrameId, p: PageId|
        f != g && #[trigger] s.holds(f, p) implies !#[trigger] s.holds(g, p) by {
        if s.holds(g, p) {
            assert(s.occupied(f) && s.occupied(g));
        }
    }
}

/// Fixed-size pool of page frames.
pub struct BufferPoolManager {
    frames: Vec<Frame>,
    free_list: VecDeque<FrameId>,
    replacer: ArcReplacer,
}

impl View for BufferPoolManager {
    type V = PoolState;

    closed spec fn view(&self) -> PoolState {
        PoolState { frames: self.frames@, free: self.free_list@, replacer: self.replacer@ }
    }
}

proof fn lemma_same_flag(s: ArcState, f: FrameId, flag: bool)
    requires
        s.table.contains_key(f),
        s.table[f].evictable == flag,
    ensures
        s.after_set_evictable(f, flag) == s,
{
    let st = FrameStatus { evictable: flag, ..s.table[f] };
    assert(st == s.table[f]);
    assert(s.table.insert(f, st) =~= s.table);
    assert(s.after_set_evictable(f, flag) =~= s);
}

proof fn lemma_drop_first_no_dup(s: Seq<FrameId>)
    requires
        s.no_duplicates(),
        s.len() > 0,
    ensures
        s.drop_first().no_duplicates(),
{
    assert forall|i: int, j: int|
        0 <= i < s.drop_first().len() && 0 <= j < s.drop_first().len() && i != j implies s.drop_first()[i]
        != s.drop_first()[j] by {
        assert(s[i + 1] != s[j + 1]);
    }
}

fn copy_bytes(src: &Vec<u8>) -> (r: Vec<u8>)
    ensures
        r@ == src@,
{
    let mut v: Vec<u8> = Vec::new();
    let mut i: usize = 0;
    while i < src.len()
        invariant
            i <= src@.len(),
            v@ == src@.take(i as int),
        decreases src@.len() - i,
    {
        v.push(src[i]);
        i += 1;
        assert(v@ =~= src@.take(i as int));
    }
    assert(src@.take(i as int) =~= src@);
    v
}

fn same_bytes(a: &Vec<u8>, b: &Vec<u8>) -> (r: bool)
    ensures
        r == (a@ == b@),
{
    if a.len() != b.len() {
        return false;
    }
    let mut i: usize = 0;
    while i < a.len()
        invariant
            a@.len() == b@.len(),
            i <= a@.len(),
            forall|k: int| 0 <= k < i ==> a@[k] == b@[k],
        decreases a@.len() - i,
    {
        if a[i] != b[i] {
            return false;
        }
        i += 1;
    }
    assert(a@ =~= b@);
    true
}

fn zeroed_page() -> (r: Vec<u8>)
    ensures
        r@ == zero_page(),
{
    let mut v: Vec<u8> = Vec::new();
    let mut i: usize = 0;
    while i < GRIMOIRE_PAGE_SIZE
        invariant
            i <= GRIMOIRE_PAGE_SIZE,
            v@ == Seq::new(i as nat, |k: int| 0u8),
        decreases GRIMOIRE_PAGE_SIZE - i,
    {
        v.push(0u8);
        i += 1;
        assert(v@ =~= Seq::new(i as nat, |k: int| 0u8));
    }
    v
}

impl BufferPoolManager {
    pub open spec fn wf(&self) -> bool {
        self@.wf()
    }

    /// A pool of `pool_size` empty frames, all of them free.
    pub fn new(pool_size: usize) -> (r: Self)
        ensures
            r.wf(),
            r@.size() == pool_size,
            r@.free == Seq::new(pool_size as nat, |i: int| i as FrameId),
            forall|f: FrameId| !(#[trigger] r@.occupied(f)),
    {
        let mut frames: Vec<Frame> = Vec::new();
        let mut free_list: VecDeque<FrameId> = VecDeque::new();
        let mut i: usize = 0;
        while i < pool_size
            invariant
                i <= pool_size,
                frames@.len() == i,
                free_list@ == Seq::new(i as nat, |k: int| k as FrameId),
                forall|k: int|
                    0 <= k < i ==> (#[trigger] frames@[k]).page_id is None && frames@[k].data@.len()
                        == GRIMOIRE_PAGE_SIZE && frames@[k].pin_count == 0 && !frames@[k].is_dirty,
            decreases pool_size - i,
        {
            frames.push(Frame { page_id: None, pin_count: 0, is_dirty: false, data: zeroed_page() });
            free_list.push_back(i);
            i += 1;
            assert(free_list@ =~= Seq::new(i as nat, |k: int| k as FrameId));
        }
        let r = BufferPoolManager { frames, free_list, replacer: ArcReplacer::new(pool_size) };
        proof {
            let s = r@;
            assert forall|f: FrameId|
                f < s.frames.len() && s.frames[f as int].page_id is None implies #[trigger] s.free.contains(
                f,
            ) by {
                assert(s.free[f as int] == f);
            }
            assert forall|i: int, j: int|
                0 <= i < s.free.len() && 0 <= j < s.free.len() && i != j implies s.free[i]
                != s.free[j] by {}
        }
        r
    }

    /// Takes a frame for page `pid`, which is not resident, as [`acquired`]
    /// says.
    fn acquire_frame(&mut self, pid: PageId, load: bool) -> (r: Result<FetchStep, BufferError>)
        requires
            old(self).wf(),
            !old(self)@.resident(pid),
        ensures
            final(self).wf(),
            acquired(old(self)@, final(self)@, pid, load, r),
    {
        let ghost s = self@;
        let f: FrameId;
        if self.free_list.len() > 0 {
            f = self.free_list.pop_front().unwrap();
            proof {
                assert(s.free[0] == f);
                assert(s.free.contains(f));
                assert(!s.replacer.table.contains_key(f));
            }
        } else {
            match self.replacer.victim() {
                Some(v) => {
                    proof {
                        assert(s.replacer.table.contains_key(v));
                        assert(s.occupied(v));
                    }
                    if self.frames[v].is_dirty {
                        let page_id = self.frames[v].page_id.unwrap();
                        let data = copy_bytes(&self.frames[v].data);
                        return Ok(FetchStep::WriteBackFirst(WriteBack { page_id, data }));
                    }
                    self.replacer.evict();
                    f = v;
                },
                None => {
                    return Err(BufferError::PoolExhausted);
                },
            }
        }
        let ghost mid = self@;
        let _ = self.frames.remove(f);
        self.frames.insert(
            f,
            Frame { page_id: Some(pid), pin_count: 1, is_dirty: false, data: zeroed_page() },
        );
        proof {
            assert(mid.replacer.table.dom().len() < mid.replacer.capacity);
            assert forall|g: FrameId| #[trigger]
                mid.replacer.table.contains_key(g) && g != f implies mid.replacer.table[g].page_id
                != pid by {
                assert(s.occupied(g));
                assert(!s.holds(g, pid));
            }
            lemma_access_adds_frame(mid.replacer, f, pid);
        }
        self.replacer.record_access(f, pid, AccessType::Unknown);
        proof {
            let t = self@;
            assert(t.frames[f as int].page_id == Some(pid));
            assert forall|g: int| 0 <= g < t.frames.len() && g != f implies t.frames[g]
                == s.frames[g] by {
                assert(t.frames[g] == mid.frames[g]);
            }
            self.lemma_acquired_wf(s, mid, f, pid);
        }
        Ok(FetchStep::Ready(FetchOutcome { frame_id: f, load }))
    }

    proof fn lemma_acquired_wf(&self, s: PoolState, mid: PoolState, f: FrameId, pid: PageId)
        requires
            s.wf(),
            !s.resident(pid),
            f < s.frames.len(),
            mid.frames == s.frames,
            s.free.len() > 0 ==> f == s.free[0] && mid.free == s.free.drop_first() && mid.replacer
                == s.replacer,
            s.free.len() == 0 ==> s.replacer.victim() == Some(f) && mid.free == s.free
                && mid.replacer == s.replacer.after_evict(),
            self@.fresh_frame(f, pid),
            self@.same_but(s, f),
            self@.free == mid.free,
            self@.replacer == mid.replacer.after_access(f, pid),
            self@.replacer.wf(),
        ensures
            self@.wf(),
    {
        let t = self@;
        s.replacer.lemma_evict_wf();
        if s.free.len() > 0 {
            assert(s.free.contains(f));
            assert(!s.replacer.table.contains_key(f));
            assert(s.replacer.table.dom().len() < s.replacer.capacity);
        } else {
            assert(s.replacer.table.contains_key(f));
            assert(s.replacer.table.dom().len() == s.replacer.capacity);
        }
        assert forall|g: FrameId| #[trigger]
            mid.replacer.table.contains_key(g) && g != f implies mid.replacer.table[g].page_id
            != pid by {
            assert(s.occupied(g));
            assert(!s.holds(g, pid));
        }
        lemma_access_adds_frame(mid.replacer, f, pid);
        assert forall|g: FrameId| #[trigger] t.replacer.table.contains_key(g) <==> t.occupied(g) by {
            if g != f && g < t.frames.len() {
                assert(t.frames[g as int] == s.frames[g as int]);
            }
        }
        assert forall|g: FrameId| #[trigger] t.occupied(g) implies {
            &&& t.frames[g as int].page_id == Some(t.replacer.table[g].page_id)
            &&& t.replacer.table[g].evictable <==> t.frames[g as int].pin_count == 0
        } by {
            if g != f {
                assert(t.frames[g as int] == s.frames[g as int]);
                assert(s.occupied(g));
                assert(s.replacer.table.contains_key(g));
                assert(mid.replacer.table[g] == s.replacer.table[g]);
                assert(t.replacer.table[g] == mid.replacer.table[g]);
            }
        }
        assert forall|g: FrameId, h: FrameId|
            g != h && t.occupied(g) && t.occupied(h) implies #[trigger] t.frames[g as int].page_id
            != #[trigger] t.frames[h as int].page_id by {
            if g != f && h != f {
                assert(t.frames[g as int] == s.frames[g as int]);
                assert(t.frames[h as int] == s.frames[h as int]);
            } else if g == f {
                assert(t.frames[h as int] == s.frames[h as int]);
                assert(!s.holds(h, pid));
            } else {
                assert(t.frames[g as int] == s.frames[g as int]);
                assert(!s.holds(g, pid));
            }
        }
        assert forall|i: int| 0 <= i < t.free.len() implies #[trigger] t.free[i] < t.frames.len()
            && t.frames[t.free[i] as int].page_id is None by {
            if s.free.len() > 0 {
                assert(t.free[i] == s.free[i + 1]);
            }
        }
        assert forall|g: FrameId|
            g < t.frames.len() && t.frames[g as int].page_id is None implies #[trigger] t.free.contains(
            g,
        ) by {
            assert(g != f);
            assert(t.frames[g as int] == s.frames[g as int]);
            assert(s.free.contains(g));
            let k = choose|k: int| 0 <= k < s.free.len() && s.free[k] == g;
            if s.free.len() > 0 {
                assert(k != 0);
                assert(t.free[k - 1] == g);
            }
        }
        assert forall|g: int|
            0 <= g < t.frames.len() && (#[trigger] t.frames[g]).page_id is None implies !t.frames[g].is_dirty
            && t.frames[g].pin_count == 0 by {
            assert(t.frames[g] == s.frames[g]);
        }
        assert forall|g: int| 0 <= g < t.frames.len() implies (#[trigger] t.frames[g]).data@.len()
            == GRIMOIRE_PAGE_SIZE by {
            if g != f {
                assert(t.frames[g] == s.frames[g]);
            }
        }
        if s.free.len() > 0 {
            lemma_drop_first_no_dup(s.free);
        }
    }

    /// Pins page `page_id` in a frame. A resident page only gains a pin and
    /// an access. Otherwise a frame is taken as [`acquired`] says, and `load`
    /// asks the caller to read the page into it.
    pub fn fetch_page(&mut self, page_id: PageId) -> (r: Result<FetchStep, BufferError>)
        requires
            old(self).wf(),
        ensures
            final(self).wf(),
            forall|f: FrameId| #[trigger]
                old(self)@.holds(f, page_id) ==> if old(self)@.frames[f as int].pin_count
                    == usize::MAX {
                    (r matches Err(e) && e == BufferError::TooManyPins(page_id)) && final(self)@
                        == old(self)@
                } else {
                    &&& r matches Ok(FetchStep::Ready(o)) && o.frame_id == f && !o.load
                    &&& final(self)@.same_but(old(self)@, f)
                    &&& final(self)@.frames[f as int].pin_count == old(self)@.frames[f as int].pin_count + 1
                    &&& final(self)@.frames[f as int].page_id == Some(page_id)
                    &&& final(self)@.frames[f as int].is_dirty == old(self)@.frames[f as int].is_dirty
                    &&& final(self)@.frames[f as int].data == old(self)@.frames[f as int].data
                    &&& final(self)@.free == old(self)@.free
                    &&& final(self)@.replacer == old(self)@.replacer.after_access(
                        f,
                        page_id,
                    ).after_set_evictable(f, false)
                },
            !old(self)@.resident(page_id) ==> acquired(old(self)@, final(self)@, page_id, true, r),
    {
        match self.lookup(page_id) {
            Some(f) => {
                if self.frames[f].pin_count == usize::MAX {
                    return Err(BufferError::TooManyPins(page_id));
                }
                let ghost s = self@;
                let mut fr = self.frames.remove(f);
                fr.pin_count = fr.pin_count + 1;
                self.frames.insert(f, fr);
                proof {
                    assert(s.occupied(f));
                    assert forall|g: FrameId| #[trigger]
                        s.replacer.table.contains_key(g) && g != f implies s.replacer.table[g].page_id
                        != page_id by {
                        assert(s.occupied(g));
                    }
                }
                self.replacer.record_access(f, page_id, AccessType::Unknown);
                let _ = self.replacer.set_keep(f);
                proof {
                    self.lemma_pin_wf(s, f);
                }
                Ok(FetchStep::Ready(FetchOutcome { frame_id: f, load: false }))
            },
            None => self.acquire_frame(page_id, true),
        }
    }

    proof fn lemma_pin_wf(&self, s: PoolState, f: FrameId)
        requires
            s.wf(),
            s.occupied(f),
            self@.same_but(s, f),
            self@.frames[f as int].page_id == s.frames[f as int].page_id,
            self@.frames[f as int].pin_count > 0,
            self@.frames[f as int].data@.len() == GRIMOIRE_PAGE_SIZE,
            self@.free == s.free,
            self@.replacer.wf(),
            self@.replacer == s.replacer.after_access(f, s.replacer.table[f].page_id).after_set_evictable(
                f,
                false,
            ),
        ensures
            self@.wf(),
    {
        let t = self@;
        assert(t.replacer.table.dom() =~= s.replacer.table.dom());
        assert forall|g: FrameId| #[trigger] t.occupied(g) <==> s.occupied(g) by {
            if g != f && g < t.frames.len() {
                assert(t.frames[g as int] == s.frames[g as int]);
            }
        }
        assert forall|g: FrameId| #[trigger] t.occupied(g) implies {
            &&& t.frames[g as int].page_id == Some(t.replacer.table[g].page_id)
            &&& t.replacer.table[g].evictable <==> t.frames[g as int].pin_count == 0
        } by {
            if g != f {
                assert(t.frames[g as int] == s.frames[g as int]);
                assert(s.occupied(g));
            }
        }
        assert forall|g: FrameId, h: FrameId|
            g != h && t.occupied(g) && t.occupied(h) implies #[trigger] t.frames[g as int].page_id
            != #[trigger] t.frames[h as int].page_id by {
            assert(s.occupied(g) && s.occupied(h));
            assert(s.frames[g as int].page_id != s.frames[h as int].page_id);
            if g != f {
                assert(t.frames[g as int] == s.frames[g as int]);
            }
            if h != f {
                assert(t.frames[h as int] == s.frames[h as int]);
            }
        }
        assert forall|i: int| 0 <= i < t.free.len() implies #[trigger] t.free[i] < t.frames.len()
            && t.frames[t.free[i] as int].page_id is None by {
            assert(s.free[i] != f);
            assert(t.frames[t.free[i] as int] == s.frames[s.free[i] as int]);
        }
        assert forall|g: FrameId|
            g < t.frames.len() && t.frames[g as int].page_id is None implies #[trigger] t.free.contains(
            g,
        ) by {
            assert(t.frames[g as int] == s.frames[g as int]);
        }
        assert forall|g: int|
            0 <= g < t.frames.len() && (#[trigger] t.frames[g]).page_id is None implies !t.frames[g].is_dirty
            && t.frames[g].pin_count == 0 by {
            assert(t.frames[g] == s.frames[g]);
        }
        assert forall|g: int| 0 <= g < t.frames.len() implies (#[trigger] t.frames[g]).data@.len()
            == GRIMOIRE_PAGE_SIZE by {
            if g != f {
                assert(t.frames[g] == s.frames[g]);
            }
        }
    }

    /// Puts the new page `page_id` into a frame, zero-filled and pinned; the
    /// frame is taken as in a fetch that misses, with nothing to read.
    /// `PageResident` when the id is already in the pool.
    pub fn new_page(&mut self, page_id: PageId) -> (r: Result<FetchStep, BufferError>)
        requires
            old(self).wf(),
        ensures
            final(self).wf(),
            old(self)@.resident(page_id) ==> (r matches Err(e) && e == BufferError::PageResident(
                page_id,
            )) && final(self)@ == old(self)@,
            !old(self)@.resident(page_id) ==> acquired(old(self)@, final(self)@, page_id, false, r),
    {
        if self.lookup(page_id).is_some() {
            return Err(BufferError::PageResident(page_id));
        }
        self.acquire_frame(page_id, false)
    }

    /// Drops one pin of page `page_id` and marks it dirty if `is_dirty`; a
    /// frame left without pins becomes evictable.
    pub fn unpin_page(&mut self, page_id: PageId, is_dirty: bool) -> (r: Result<(), BufferError>)
        requires
            old(self).wf(),
        ensures
            final(self).wf(),
            !old(self)@.resident(page_id) ==> r == Err::<(), BufferError>(
                BufferError::PageNotFound(page_id),
            ) && final(self)@ == old(self)@,
            forall|f: FrameId| #[trigger]
                old(self)@.holds(f, page_id) ==> if old(self)@.frames[f as int].pin_count == 0 {
                    r == Err::<(), BufferError>(BufferError::NotPinned(page_id)) && final(self)@
                        == old(self)@
                } else {
                    &&& r is Ok
                    &&& final(self)@.same_but(old(self)@, f)
                    &&& final(self)@.frames[f as int].pin_count == old(self)@.frames[f as int].pin_count - 1
                    &&& final(self)@.frames[f as int].is_dirty == (old(self)@.frames[f as int].is_dirty
                        || is_dirty)
                    &&& final(self)@.frames[f as int].page_id == Some(page_id)
                    &&& final(self)@.frames[f as int].data == old(self)@.frames[f as int].data
                    &&& final(self)@.free == old(self)@.free
                    &&& final(self)@.replacer == if old(self)@.frames[f as int].pin_count == 1 {
                        old(self)@.replacer.after_set_evictable(f, true)
                    } else {
                        old(self)@.replacer
                    }
                },
    {
        let f = match self.lookup(page_id) {
            Some(f) => f,
            None => {
                return Err(BufferError::PageNotFound(page_id));
            },
        };
        if self.frames[f].pin_count == 0 {
            return Err(BufferError::NotPinned(page_id));
        }
        let ghost s = self@;
        let mut fr = self.frames.remove(f);
        fr.pin_count = fr.pin_count - 1;
        fr.is_dirty = fr.is_dirty || is_dirty;
        let unpinned = fr.pin_count == 0;
        self.frames.insert(f, fr);
        if unpinned {
            let _ = self.replacer.set_evicted(f);
        }
        proof {
            assert(s.occupied(f));
            if !unpinned {
                lemma_same_flag(s.replacer, f, false);
            }
            self.lemma_frame_kept_wf(s, f);
        }
        Ok(())
    }

    /// Frame `f` changed only in its pins, dirty flag or bytes, with the
    /// replacer's flag following the pins: the pool stays well formed.
    proof fn lemma_frame_kept_wf(&self, s: PoolState, f: FrameId)
        requires
            s.wf(),
            s.occupied(f),
            self@.same_but(s, f),
            self@.frames[f as int].page_id == s.frames[f as int].page_id,
            self@.frames[f as int].data@.len() == GRIMOIRE_PAGE_SIZE,
            self@.free == s.free,
            self@.replacer.wf(),
            self@.replacer == s.replacer.after_set_evictable(f, self@.frames[f as int].pin_count == 0),
        ensures
            self@.wf(),
    {
        let t = self@;
        assert(s.replacer.table.contains_key(f));
        assert(t.replacer.table.dom() =~= s.replacer.table.dom());
        assert forall|g: FrameId| #[trigger] t.occupied(g) <==> s.occupied(g) by {
            if g != f && g < t.frames.len() {
                assert(t.frames[g as int] == s.frames[g as int]);
            }
        }
        assert forall|g: FrameId| #[trigger] t.occupied(g) implies {
            &&& t.frames[g as int].page_id == Some(t.replacer.table[g].page_id)
            &&& t.replacer.table[g].evictable <==> t.frames[g as int].pin_count == 0
        } by {
            if g != f {
                assert(t.frames[g as int] == s.frames[g as int]);
                assert(s.occupied(g));
            }
        }
        assert forall|g: FrameId, h: FrameId|
            g != h && t.occupied(g) && t.occupied(h) implies #[trigger] t.frames[g as int].page_id
            != #[trigger] t.frames[h as int].page_id by {
            assert(s.occupied(g) && s.occupied(h));
            assert(s.frames[g as int].page_id != s.frames[h as int].page_id);
            if g != f {
                assert(t.frames[g as int] == s.frames[g as int]);
            }
            if h != f {
                assert(t.frames[h as int] == s.frames[h as int]);
            }
        }
        assert forall|i: int| 0 <= i < t.free.len() implies #[trigger] t.free[i] < t.frames.len()
            && t.frames[t.free[i] as int].page_id is None by {
            assert(s.free[i] != f);
            assert(t.frames[t.free[i] as int] == s.frames[s.free[i] as int]);
        }
        assert forall|g: FrameId|
            g < t.frames.len() && t.frames[g as int].page_id is None implies #[trigger] t.free.contains(
            g,
        ) by {
            assert(t.frames[g as int] == s.frames[g as int]);
        }
        assert forall|g: int|
            0 <= g < t.frames.len() && (#[trigger] t.frames[g]).page_id is None implies !t.frames[g].is_dirty
            && t.frames[g].pin_count == 0 by {
            assert(t.frames[g] == s.frames[g]);
        }
        assert forall|g: int| 0 <= g < t.frames.len() implies (#[trigger] t.frames[g]).data@.len()
            == GRIMOIRE_PAGE_SIZE by {
            if g != f {
                assert(t.frames[g] == s.frames[g]);
            }
        }
    }

    /// A copy of the bytes of page `page_id`, to be written to disk whether
    /// or not it is dirty; `PageNotFound` if it is not resident. The pool is
    /// left as it is: `mark_flushed` records the write once it succeeded.
    pub fn flush_page(&self, page_id: PageId) -> (r: Result<Vec<u8>, BufferError>)
        requires
            self.wf(),
        ensures
            !self@.resident(page_id) ==> r == Err::<Vec<u8>, BufferError>(
                BufferError::PageNotFound(page_id),
            ),
            forall|f: FrameId| #[trigger]
                self@.holds(f, page_id) ==> (r matches Ok(bytes) && bytes@ == self@.frames[
                    f as int].data@),
    {
        match self.lookup(page_id) {
            Some(f) => Ok(copy_bytes(&self.frames[f].data)),
            None => Err(BufferError::PageNotFound(page_id)),
        }
    }

    /// Records that `data` reached the disk as page `page_id`: the page
    /// turns clean if its bytes are still `data` (`true`), and stays as it
    /// is if they changed meanwhile (`false`). `PageNotFound` if the page is
    /// not resident.
    pub fn mark_flushed(&mut self, page_id: PageId, data: &Vec<u8>) -> (r: Result<bool, BufferError>)
        requires
            old(self).wf(),
        ensures
            final(self).wf(),
            !old(self)@.resident(page_id) ==> r == Err::<bool, BufferError>(
                BufferError::PageNotFound(page_id),
            ) && final(self)@ == old(self)@,
            forall|f: FrameId| #[trigger]
                old(self)@.holds(f, page_id) ==> if old(self)@.frames[f as int].data@ == data@ {
                    &&& r == Ok::<bool, BufferError>(true)
                    &&& final(self)@.same_but(old(self)@, f)
                    &&& !final(self)@.frames[f as int].is_dirty
                    &&& final(self)@.frames[f as int].pin_count == old(self)@.frames[f as int].pin_count
                    &&& final(self)@.frames[f as int].page_id == Some(page_id)
                    &&& final(self)@.frames[f as int].data == old(self)@.frames[f as int].data
                    &&& final(self)@.free == old(self)@.free
                    &&& final(self)@.replacer == old(self)@.replacer
                } else {
                    r == Ok::<bool, BufferError>(false) && final(self)@ == old(self)@
                },
    {
        let f = match self.lookup(page_id) {
            Some(f) => f,
            None => {
                return Err(BufferError::PageNotFound(page_id));
            },
        };
        if !same_bytes(&self.frames[f].data, data) {
            return Ok(false);
        }
        let ghost s = self@;
        let mut fr = self.frames.remove(f);
        fr.is_dirty = false;
        self.frames.insert(f, fr);
        proof {
            assert(s.occupied(f));
            lemma_same_flag(s.replacer, f, s.frames[f as int].pin_count == 0);
            self.lemma_frame_kept_wf(s, f);
        }
        Ok(true)
    }

    /// Drops page `page_id` from the pool: its frame is emptied and freed
    /// and the replacer forgets it. Nothing to do if the page is not
    /// resident; `PagePinned` if it is pinned.
    pub fn delete_page(&mut self, page_id: PageId) -> (r: Result<(), BufferError>)
        requires
            old(self).wf(),
        ensures
            final(self).wf(),
            !old(self)@.resident(page_id) ==> r is Ok && final(self)@ == old(self)@,
            forall|f: FrameId| #[trigger]
                old(self)@.holds(f, page_id) ==> if old(self)@.frames[f as int].pin_count > 0 {
                    r == Err::<(), BufferError>(BufferError::PagePinned(page_id)) && final(self)@
                        == old(self)@
                } else {
                    &&& r is Ok
                    &&& final(self)@.same_but(old(self)@, f)
                    &&& final(self)@.frames[f as int].page_id is None
                    &&& final(self)@.frames[f as int].pin_count == 0
                    &&& !final(self)@.frames[f as int].is_dirty
                    &&& final(self)@.frames[f as int].data@ == zero_page()
                    &&& final(self)@.free == old(self)@.free.push(f)
                    &&& final(self)@.replacer == old(self)@.replacer.after_remove(f)
                },
    {
        let f = match self.lookup(page_id) {
            Some(f) => f,
            None => {
                return Ok(());
            },
        };
        if self.frames[f].pin_count > 0 {
            return Err(BufferError::PagePinned(page_id));
        }
        let ghost s = self@;
        proof {
            assert(s.occupied(f));
        }
        let _ = self.replacer.remove(f);
        let _ = self.frames.remove(f);
        self.frames.insert(f, Frame { page_id: None, pin_count: 0, is_dirty: false, data: zeroed_page() });
        self.free_list.push_back(f);
        proof {
            self.lemma_freed_wf(s, f);
        }
        Ok(())
    }

    proof fn lemma_freed_wf(&self, s: PoolState, f: FrameId)
        requires
            s.wf(),
            s.occupied(f),
            self@.same_but(s, f),
            self@.frames[f as int].page_id is None,
            self@.frames[f as int].pin_count == 0,
            !self@.frames[f as int].is_dirty,
            self@.frames[f as int].data@.len() == GRIMOIRE_PAGE_SIZE,
            self@.free == s.free.push(f),
            self@.replacer.wf(),
            self@.replacer == s.replacer.after_remove(f),
        ensures
            self@.wf(),
    {
        let t = self@;
        assert(s.replacer.table.contains_key(f));
        assert(t.replacer.table.dom() =~= s.replacer.table.dom().remove(f));
        assert(!s.free.contains(f));
        assert forall|g: FrameId| #[trigger] t.occupied(g) <==> (s.occupied(g) && g != f) by {
            if g != f && g < t.frames.len() {
                assert(t.frames[g as int] == s.frames[g as int]);
            }
        }
        assert forall|g: FrameId| #[trigger] t.occupied(g) implies {
            &&& t.frames[g as int].page_id == Some(t.replacer.table[g].page_id)
            &&& t.replacer.table[g].evictable <==> t.frames[g as int].pin_count == 0
        } by {
            assert(t.frames[g as int] == s.frames[g as int]);
            assert(s.occupied(g));
        }
        assert forall|g: FrameId, h: FrameId|
            g != h && t.occupied(g) && t.occupied(h) implies #[trigger] t.frames[g as int].page_id
            != #[trigger] t.frames[h as int].page_id by {
            assert(s.occupied(g) && s.occupied(h));
            assert(t.frames[g as int] == s.frames[g as int]);
            assert(t.frames[h as int] == s.frames[h as int]);
        }
        assert forall|i: int| 0 <= i < t.free.len() implies #[trigger] t.free[i] < t.frames.len()
            && t.frames[t.free[i] as int].page_id is None by {
            if i < s.free.len() {
                assert(t.free[i] == s.free[i]);
                assert(s.free[i] != f);
                assert(t.frames[t.free[i] as int] == s.frames[s.free[i] as int]);
            }
        }
        assert forall|g: FrameId|
            g < t.frames.len() && t.frames[g as int].page_id is None implies #[trigger] t.free.contains(
            g,
        ) by {
            if g == f {
                assert(t.free[t.free.len() - 1] == f);
            } else {
                assert(t.frames[g as int] == s.frames[g as int]);
                assert(s.free.contains(g));
                let k = choose|k: int| 0 <= k < s.free.len() && s.free[k] == g;
                assert(t.free[k] == g);
            }
        }
        assert forall|g: int|
            0 <= g < t.frames.len() && (#[trigger] t.frames[g]).page_id is None implies !t.frames[g].is_dirty
            && t.frames[g].pin_count == 0 by {
            if g != f {
                assert(t.frames[g] == s.frames[g]);
            }
        }
        assert forall|g: int| 0 <= g < t.frames.len() implies (#[trigger] t.frames[g]).data@.len()
            == GRIMOIRE_PAGE_SIZE by {
            if g != f {
                assert(t.frames[g] == s.frames[g]);
            }
        }
        assert forall|i: int, j: int|
            0 <= i < t.free.len() && 0 <= j < t.free.len() && i != j implies t.free[i]
            != t.free[j] by {
            if i < s.free.len() && j < s.free.len() {
                assert(t.free[i] == s.free[i]);
                assert(t.free[j] == s.free[j]);
            } else if i < s.free.len() {
                assert(s.free.contains(t.free[i]));
            } else {
                assert(s.free.contains(t.free[j]));
            }
        }
    }

    /// Replaces the bytes of frame `frame_id`, as when a page is read into
    /// it or a caller holding the page writes to it.
    pub fn write_frame(&mut self, frame_id: FrameId, data: Vec<u8>)
        requires
            old(self).wf(),
            frame_id < old(self)@.size(),
            data@.len() == GRIMOIRE_PAGE_SIZE,
        ensures
            final(self).wf(),
            final(self)@.same_but(old(self)@, frame_id),
            final(self)@.frames[frame_id as int].data == data,
            final(self)@.frames[frame_id as int].page_id == old(self)@.frames[frame_id as int].page_id,
            final(self)@.frames[frame_id as int].pin_count == old(self)@.frames[frame_id as int].pin_count,
            final(self)@.frames[frame_id as int].is_dirty == old(self)@.frames[frame_id as int].is_dirty,
            final(self)@.free == old(self)@.free,
            final(self)@.replacer == old(self)@.replacer,
    {
        let ghost s = self@;
        let mut fr = self.frames.remove(frame_id);
        fr.data = data;
        self.frames.insert(frame_id, fr);
        proof {
            let t = self@;
            if s.occupied(frame_id) {
                lemma_same_flag(s.replacer, frame_id, s.frames[frame_id as int].pin_count == 0);
                self.lemma_frame_kept_wf(s, frame_id);
            } else {
                assert forall|g: FrameId| #[trigger] t.occupied(g) <==> s.occupied(g) by {
                    if g != frame_id && g < t.frames.len() {
                        assert(t.frames[g as int] == s.frames[g as int]);
                    }
                }
                assert forall|g: FrameId| #[trigger] t.occupied(g) implies {
                    &&& t.frames[g as int].page_id == Some(t.replacer.table[g].page_id)
                    &&& t.replacer.table[g].evictable <==> t.frames[g as int].pin_count == 0
                } by {
                    assert(t.frames[g as int] == s.frames[g as int]);
                }
                assert forall|g: FrameId, h: FrameId|
                    g != h && t.occupied(g) && t.occupied(h) implies #[trigger] t.frames[g as int].page_id
                    != #[trigger] t.frames[h as int].page_id by {
                    assert(t.frames[g as int] == s.frames[g as int]);
                    assert(t.frames[h as int] == s.frames[h as int]);
                }
                assert forall|i: int| 0 <= i < t.free.len() implies #[trigger] t.free[i] < t.frames.len()
                    && t.frames[t.free[i] as int].page_id is None by {
                    if s.free[i] != frame_id {
                        assert(t.frames[t.free[i] as int] == s.frames[s.free[i] as int]);
                    }
                }
                assert forall|g: FrameId|
                    g < t.frames.len() && t.frames[g as int].page_id is None implies #[trigger] t.free.contains(
                    g,
                ) by {
                    if g != frame_id {
                        assert(t.frames[g as int] == s.frames[g as int]);
                    }
                }
                assert forall|g: int|
                    0 <= g < t.frames.len() && (#[trigger] t.frames[g]).page_id is None implies !t.frames[g].is_dirty
                    && t.frames[g].pin_count == 0 by {
                    if g != frame_id {
                        assert(t.frames[g] == s.frames[g]);
                    }
                }
                assert forall|g: int| 0 <= g < t.frames.len() implies (#[trigger] t.frames[g]).data@.len()
                    == GRIMOIRE_PAGE_SIZE by {
                    if g != frame_id {
                        assert(t.frames[g] == s.frames[g]);
                    }
                }
            }
        }
    }

    /// The frame holding page `page_id`, if any.
    pub fn lookup(&self, page_id: PageId) -> (r: Option<FrameId>)
        requires
            self.wf(),
        ensures
            match r {
                Some(f) => self@.holds(f, page_id),
                None => !self@.resident(page_id),
            },
    {
        let mut f: usize = 0;
        while f < self.frames.len()
            invariant
                f <= self@.frames.len(),
                forall|g: FrameId| g < f ==> !#[trigger] self@.holds(g, page_id),
            decreases self@.frames.len() - f,
        {
            match self.frames[f].page_id {
                Some(p) => {
                    if p == page_id {
                        return Some(f);
                    }
                },
                None => {},
            }
            f += 1;
        }
        None
    }

    /// Bytes of frame `frame_id`.
    pub fn frame_data(&self, frame_id: FrameId) -> (r: &Vec<u8>)
        requires
            frame_id < self@.size(),
        ensures
            r@ == self@.frames[frame_id as int].data@,
    {
        &self.frames[frame_id].data
    }

    /// Number of frames of the pool.
    pub fn pool_size(&self) -> (r: usize)
        ensures
            r == self@.size(),
    {
        self.frames.len()
    }
}

} // verus!
