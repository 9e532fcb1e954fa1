//! Adaptive replacement cache (ARC) that chooses which buffer-pool frame to
//! give up next.
//!
//! Resident frames sit in a recency list (touched once) or a frequency list
//! (touched again); the pages of evicted frames are remembered in two ghost
//! lists. Lists are ordered from least to most recently used.
use std::collections::{HashMap, VecDeque};
use vstd::prelude::*;

use crate::common::{FrameId, PageId};

verus! {

broadcast use vstd::std_specs::hash::group_hash_axioms;

/// How a page is being accessed; recorded for callers, not used by the policy.
#[derive(Debug, Clone, Copy, PartialEq, Eq)]
pub enum AccessType {
    Scan,
    Lookup,
    Index,
    Unknown,
}

/// Membership tag of a tracked entry.
#[derive(Debug, Clone, Copy, PartialEq, Eq)]
pub enum ArcStatus {
    /// Resident, in the recency list.
    MRU,
    /// Resident, in the frequency list.
    MFU,
    /// Evicted from the recency list; only the page id is kept.
    MRUGhost,
    /// Evicted from the frequency list; only the page id is kept.
    MFUGhost,
}

/// Bookkeeping of one resident frame.
#[derive(Debug, Clone, Copy)]
pub struct FrameStatus {
    pub page_id: PageId,
    pub frame_id: FrameId,
    pub evictable: bool,
    pub arc_status: ArcStatus,
}

/// Failure of a replacer operation.
#[derive(Debug, Clone, Copy, PartialEq, Eq)]
pub enum ReplacerError {
    /// The frame is pinned and may not be dropped.
    NotEvictable(FrameId),
    /// The replacer does not track this frame.
    FrameNotFound(FrameId),
}

/// Mathematical state of an [`ArcReplacer`].
#[verifier::ext_equal]
pub struct ArcState {
    /// Maximal number of resident frames, and bound on each ghost list.
    pub capacity: nat,
    /// Adaptive share of the capacity reserved for the recency partition.
    pub target: nat,
    pub mru: Seq<FrameId>,
    pub mfu: Seq<FrameId>,
    pub mru_ghost: Seq<PageId>,
    pub mfu_ghost: Seq<PageId>,
    /// Status of every resident frame.
    pub table: Map<FrameId, FrameStatus>,
}

/// `list` without its occurrence of `x`, if any.
pub open spec fn without<T>(list: Seq<T>, x: T) -> Seq<T> {
    if list.contains(x) {
        list.remove(list.index_of(x))
    } else {
        list
    }
}

/// A ghost list after its least recently used entry is dropped if it holds
/// more than `cap` entries.
pub open spec fn trimmed(g: Seq<PageId>, cap: nat) -> Seq<PageId> {
    if g.len() > cap {
        g.drop_first()
    } else {
        g
    }
}

/// Amount by which a ghost hit moves the target: `max(1, other / hit)`.
pub open spec fn adapt_step(other: nat, hit: nat) -> nat {
    if hit == 0 || other / hit < 1 {
        1
    } else {
        other / hit
    }
}

proof fn lemma_remove_index<T>(s: Seq<T>, i: int)
    requires
        s.no_duplicates(),
        0 <= i < s.len(),
    ensures
        s.remove(i).no_duplicates(),
        s.remove(i).len() == s.len() - 1,
        forall|x: T| s.remove(i).contains(x) <==> s.contains(x) && x != s[i],
{
    let r = s.remove(i);
    assert forall|x: T| r.contains(x) <==> s.contains(x) && x != s[i] by {
        if r.contains(x) {
            let k = choose|k: int| 0 <= k < r.len() && r[k] == x;
            if k < i {
                assert(s[k] == x);
            } else {
                assert(s[k + 1] == x);
            }
        }
        if s.contains(x) && x != s[i] {
            let k = choose|k: int| 0 <= k < s.len() && s[k] == x;
            if k < i {
                assert(r[k] == x);
            } else {
                assert(r[k - 1] == x);
            }
        }
    }
}

proof fn lemma_without_at<T>(s: Seq<T>, x: T, i: int)
    requires
        s.no_duplicates(),
        0 <= i < s.len(),
        s[i] == x,
    ensures
        without(s, x) == s.remove(i),
{
    assert(s.contains(x));
    let k = s.index_of(x);
    assert(s[k] == x);
}

proof fn lemma_push_trimmed(g: Seq<PageId>, x: PageId, cap: nat)
    requires
        g.no_duplicates(),
        !g.contains(x),
        g.len() <= cap,
    ensures
        trimmed(g.push(x), cap).no_duplicates(),
        trimmed(g.push(x), cap).len() <= cap,
        forall|y: PageId| #[trigger] trimmed(g.push(x), cap).contains(y) ==> g.contains(y) || y == x,
        cap > 0 ==> trimmed(g.push(x), cap).contains(x),
{
    let p = g.push(x);
    assert(p[p.len() - 1] == x);
    assert forall|y: PageId| #[trigger] trimmed(p, cap).contains(y) implies g.contains(y) || y == x by {
        let t = trimmed(p, cap);
        let k = choose|k: int| 0 <= k < t.len() && t[k] == y;
        if p.len() > cap {
            assert(p[k + 1] == y);
            if k + 1 < g.len() {
                assert(g[k + 1] == y);
            }
        } else {
            assert(p[k] == y);
            if k < g.len() {
                assert(g[k] == y);
            }
        }
    }
    if cap > 0 {
        let t = trimmed(p, cap);
        if p.len() > cap {
            assert(t[t.len() - 1] == x);
        } else {
            assert(t[t.len() - 1] == x);
        }
    }
}

proof fn lemma_least_evictable(s: ArcState, list: Seq<FrameId>, j: int)
    requires
        0 <= j < list.len(),
        s.evictable(list[j]),
    ensures
        exists|k: int| s.is_first_evictable(list, k),
    decreases j,
{
    if exists|b: int| 0 <= b < j && #[trigger] s.evictable(list[b]) {
        let b = choose|b: int| 0 <= b < j && #[trigger] s.evictable(list[b]);
        lemma_least_evictable(s, list, b);
    } else {
        assert(s.is_first_evictable(list, j));
    }
}

impl ArcState {
    pub open spec fn is_resident(self, f: FrameId) -> bool {
        self.table.contains_key(f)
    }

    pub open spec fn evictable(self, f: FrameId) -> bool {
        self.table.contains_key(f) && self.table[f].evictable
    }

    /// The page held by a resident frame.
    pub open spec fn page_of(self, f: FrameId) -> PageId {
        self.table[f].page_id
    }

    /// Some resident frame holds page `p`.
    pub open spec fn resident_page(self, p: PageId) -> bool {
        exists|f: FrameId| self.is_resident(f) && #[trigger] self.page_of(f) == p
    }

    pub open spec fn wf(self) -> bool {
        &&& self.target <= self.capacity
        &&& self.table.dom().finite()
        &&& self.mru.no_duplicates()
        &&& self.mfu.no_duplicates()
        &&& self.mru_ghost.no_duplicates()
        &&& self.mfu_ghost.no_duplicates()
        &&& self.mru_ghost.disjoint(self.mfu_ghost)
        &&& self.mru_ghost.len() <= self.capacity
        &&& self.mfu_ghost.len() <= self.capacity
        &&& self.mru.len() + self.mfu.len() == self.table.dom().len()
        &&& self.mru.len() + self.mfu.len() <= self.capacity
        &&& forall|i: int|
            0 <= i < self.mru.len() ==> self.table.contains_key(#[trigger] self.mru[i])
                && self.table[self.mru[i]].arc_status == ArcStatus::MRU
        &&& forall|i: int|
            0 <= i < self.mfu.len() ==> self.table.contains_key(#[trigger] self.mfu[i])
                && self.table[self.mfu[i]].arc_status == ArcStatus::MFU
        &&& forall|f: FrameId| #[trigger]
            self.table.contains_key(f) ==> {
                &&& self.table[f].frame_id == f
                &&& self.table[f].arc_status == ArcStatus::MRU ==> self.mru.contains(f)
                &&& self.table[f].arc_status == ArcStatus::MFU ==> self.mfu.contains(f)
                &&& (self.table[f].arc_status == ArcStatus::MRU || self.table[f].arc_status
                    == ArcStatus::MFU)
                &&& !self.mru_ghost.contains(self.table[f].page_id)
                &&& !self.mfu_ghost.contains(self.table[f].page_id)
            }
        &&& forall|f: FrameId, g: FrameId|
            self.table.contains_key(f) && self.table.contains_key(g) && f != g
                ==> #[trigger] self.page_of(f) != #[trigger] self.page_of(g)
    }

    /// The arguments of an access agree with the frames already resident:
    /// no other frame holds `pg`, and `f`, if resident, holds `pg`.
    pub open spec fn access_fits(self, f: FrameId, pg: PageId) -> bool {
        &&& forall|g: FrameId| #[trigger]
            self.table.contains_key(g) && g != f ==> self.table[g].page_id != pg
        &&& self.table.contains_key(f) ==> self.table[f].page_id == pg
    }

    /// `i` is the position of the first evictable frame of `list`.
    pub open spec fn is_first_evictable(self, list: Seq<FrameId>, i: int) -> bool {
        &&& 0 <= i < list.len()
        &&& self.evictable(list[i])
        &&& forall|j: int| 0 <= j < i ==> !#[trigger] self.evictable(list[j])
    }

    /// Position of the first evictable frame of `list`, or its length if none is.
    pub open spec fn first_evictable(self, list: Seq<FrameId>) -> int {
        if exists|i: int| self.is_first_evictable(list, i) {
            choose|i: int| self.is_first_evictable(list, i)
        } else {
            list.len() as int
        }
    }

    /// The frame that eviction gives up: the least recently used evictable
    /// frame of the recency list, else of the frequency list.
    pub open spec fn victim(self) -> Option<FrameId> {
        let i = self.first_evictable(self.mru);
        let j = self.first_evictable(self.mfu);
        if i < self.mru.len() {
            Some(self.mru[i])
        } else if j < self.mfu.len() {
            Some(self.mfu[j])
        } else {
            None
        }
    }

    /// State after eviction: the victim leaves its list and the table, and
    /// its page joins the matching ghost list, which is trimmed to capacity.
    pub open spec fn after_evict(self) -> ArcState {
        let i = self.first_evictable(self.mru);
        let j = self.first_evictable(self.mfu);
        if i < self.mru.len() {
            let f = self.mru[i];
            ArcState {
                mru: self.mru.remove(i),
                mru_ghost: trimmed(self.mru_ghost.push(self.page_of(f)), self.capacity),
                table: self.table.remove(f),
                ..self
            }
        } else if j < self.mfu.len() {
            let f = self.mfu[j];
            ArcState {
                mfu: self.mfu.remove(j),
                mfu_ghost: trimmed(self.mfu_ghost.push(self.page_of(f)), self.capacity),
                table: self.table.remove(f),
                ..self
            }
        } else {
            self
        }
    }

    /// Before a new frame is admitted: evict once if the resident frames
    /// already fill the capacity.
    pub open spec fn make_room(self) -> ArcState {
        if self.table.dom().len() >= self.capacity {
            self.after_evict()
        } else {
            self
        }
    }

    /// Frame `f` enters at the most recently used end of the list `status`
    /// names, pinned.
    pub open spec fn enter(self, f: FrameId, pg: PageId, status: ArcStatus) -> ArcState {
        let st = FrameStatus { page_id: pg, frame_id: f, evictable: false, arc_status: status };
        if status == ArcStatus::MRU {
            ArcState { mru: self.mru.push(f), table: self.table.insert(f, st), ..self }
        } else {
            ArcState { mfu: self.mfu.push(f), table: self.table.insert(f, st), ..self }
        }
    }

    /// State after an access to page `pg` held by frame `f`.
    pub open spec fn after_access(self, f: FrameId, pg: PageId) -> ArcState {
        if self.is_resident(f) {
            ArcState {
                mru: without(self.mru, f),
                mfu: without(self.mfu, f).push(f),
                table: self.table.insert(
                    f,
                    FrameStatus { arc_status: ArcStatus::MFU, ..self.table[f] },
                ),
                ..self
            }
        } else if self.mru_ghost.contains(pg) {
            let step = adapt_step(self.mfu_ghost.len(), self.mru_ghost.len());
            let target = if self.target + step > self.capacity {
                self.capacity
            } else {
                self.target + step
            };
            ArcState {
                target,
                mru_ghost: without(self.mru_ghost, pg),
                ..self
            }.make_room().enter(f, pg, ArcStatus::MFU)
        } else if self.mfu_ghost.contains(pg) {
            let step = adapt_step(self.mru_ghost.len(), self.mfu_ghost.len());
            let target = if step > self.target {
                0
            } else {
                (self.target - step) as nat
            };
            ArcState {
                target,
                mfu_ghost: without(self.mfu_ghost, pg),
                ..self
            }.make_room().enter(f, pg, ArcStatus::MFU)
        } else {
            let s = if self.mru.len() + self.mru_ghost.len() >= self.capacity
                && self.mru_ghost.len() > 0 {
                ArcState { mru_ghost: self.mru_ghost.drop_first(), ..self }
            } else {
                self
            };
            s.make_room().enter(f, pg, ArcStatus::MRU)
        }
    }

    /// State after the evictable flag of `f` is set to `flag`.
    pub open spec fn after_set_evictable(self, f: FrameId, flag: bool) -> ArcState {
        if self.is_resident(f) {
            ArcState {
                table: self.table.insert(f, FrameStatus { evictable: flag, ..self.table[f] }),
                ..self
            }
        } else {
            self
        }
    }

    /// State after `f` is dropped from tracking.
    pub open spec fn after_remove(self, f: FrameId) -> ArcState {
        ArcState {
            mru: without(self.mru, f),
            mfu: without(self.mfu, f),
            table: self.table.remove(f),
            ..self
        }
    }

    proof fn lemma_set_evictable_wf(self, f: FrameId, flag: bool)
        requires
            self.wf(),
        ensures
            self.after_set_evictable(f, flag).wf(),
    {
        let t = self.after_set_evictable(f, flag);
        if self.is_resident(f) {
            assert(t.table.dom() =~= self.table.dom());
            assert forall|g: FrameId| #[trigger] t.table.contains_key(g) implies t.table[g].page_id
                == self.table[g].page_id && t.table[g].arc_status == self.table[g].arc_status
                && t.table[g].frame_id == self.table[g].frame_id by {}
            assert forall|g: FrameId, h: FrameId|
                t.table.contains_key(g) && t.table.contains_key(h) && g != h implies #[trigger] t.page_of(g)
                    != #[trigger] t.page_of(h) by {
                assert(self.page_of(g) != self.page_of(h));
            }
        }
    }

    proof fn lemma_first_evictable(self, list: Seq<FrameId>, i: int)
        requires
            self.is_first_evictable(list, i),
        ensures
            self.first_evictable(list) == i,
    {
        let k = self.first_evictable(list);
        assert(self.is_first_evictable(list, k));
        if k < i {
            assert(!self.evictable(list[k]));
        } else if k > i {
            assert(!self.evictable(list[i]));
        }
    }

    proof fn lemma_none_evictable(self, list: Seq<FrameId>)
        requires
            forall|j: int| 0 <= j < list.len() ==> !#[trigger] self.evictable(list[j]),
        ensures
            self.first_evictable(list) == list.len(),
    {
        if exists|i: int| self.is_first_evictable(list, i) {
            let i = choose|i: int| self.is_first_evictable(list, i);
            assert(self.evictable(list[i]));
        }
    }

    /// The victim depends on the resident lists and the table alone.
    proof fn lemma_victim_of_residents(self, t: ArcState)
        requires
            t.mru == self.mru,
            t.mfu == self.mfu,
            t.table == self.table,
        ensures
            t.victim() == self.victim(),
            t.first_evictable(t.mru) == self.first_evictable(self.mru),
            t.first_evictable(t.mfu) == self.first_evictable(self.mfu),
    {
        self.lemma_first_evictable_same(t, self.mru);
        self.lemma_first_evictable_same(t, self.mfu);
    }

    proof fn lemma_first_evictable_same(self, t: ArcState, list: Seq<FrameId>)
        requires
            t.table == self.table,
        ensures
            t.first_evictable(list) == self.first_evictable(list),
    {
        let i = self.first_evictable(list);
        if exists|k: int| self.is_first_evictable(list, k) {
            assert(self.is_first_evictable(list, i));
            assert forall|j: int| 0 <= j < i implies !#[trigger] t.evictable(list[j]) by {
                assert(!self.evictable(list[j]));
            }
            assert(t.is_first_evictable(list, i));
            t.lemma_first_evictable(list, i);
        } else {
            assert forall|j: int| 0 <= j < list.len() implies !#[trigger] t.evictable(list[j]) by {
                if t.evictable(list[j]) {
                    lemma_least_evictable(self, list, j);
                }
            }
            t.lemma_none_evictable(list);
        }
    }

    /// Eviction keeps the state well formed.
    pub proof fn lemma_evict_wf(self)
        requires
            self.wf(),
        ensures
            self.after_evict().wf(),
            self.after_evict().capacity == self.capacity,
            self.after_evict().target == self.target,
            self.victim() is None ==> self.after_evict() == self,
            self.victim() matches Some(f) ==> {
                &&& self.evictable(f)
                &&& self.after_evict().table == self.table.remove(f)
                &&& forall|x: PageId| #[trigger]
                    self.after_evict().mru_ghost.contains(x) ==> self.mru_ghost.contains(x) || x
                        == self.page_of(f)
                &&& forall|x: PageId| #[trigger]
                    self.after_evict().mfu_ghost.contains(x) ==> self.mfu_ghost.contains(x) || x
                        == self.page_of(f)
            },
    {
        let i = self.first_evictable(self.mru);
        let j = self.first_evictable(self.mfu);
        let t = self.after_evict();
        if i < self.mru.len() {
            assert(self.is_first_evictable(self.mru, i));
            let f = self.mru[i];
            let pf = self.page_of(f);
            lemma_remove_index(self.mru, i);
            lemma_push_trimmed(self.mru_ghost, pf, self.capacity);
            self.lemma_remove_resident_wf(f, t);
        } else if j < self.mfu.len() {
            assert(self.is_first_evictable(self.mfu, j));
            let f = self.mfu[j];
            let pf = self.page_of(f);
            lemma_remove_index(self.mfu, j);
            lemma_push_trimmed(self.mfu_ghost, pf, self.capacity);
            self.lemma_remove_resident_wf(f, t);
        }
    }

    /// A state whose resident part loses frame `f` and whose ghost lists
    /// gain at most `f`'s page, with the rest kept, is well formed.
    proof fn lemma_remove_resident_wf(self, f: FrameId, t: ArcState)
        requires
            self.wf(),
            self.is_resident(f),
            t.capacity == self.capacity,
            t.target == self.target,
            t.table == self.table.remove(f),
            forall|x: FrameId| t.mru.contains(x) <==> self.mru.contains(x) && x != f,
            forall|x: FrameId| t.mfu.contains(x) <==> self.mfu.contains(x) && x != f,
            t.mru.no_duplicates(),
            t.mfu.no_duplicates(),
            t.mru.len() + t.mfu.len() == self.mru.len() + self.mfu.len() - 1,
            forall|x: PageId|
                t.mru_ghost.contains(x) ==> self.mru_ghost.contains(x) || x == self.page_of(f),
            forall|x: PageId|
                t.mfu_ghost.contains(x) ==> self.mfu_ghost.contains(x) || x == self.page_of(f),
            t.mru_ghost.no_duplicates(),
            t.mfu_ghost.no_duplicates(),
            t.mru_ghost.disjoint(t.mfu_ghost),
            t.mru_ghost.len() <= t.capacity,
            t.mfu_ghost.len() <= t.capacity,
        ensures
            t.wf(),
    {
        assert forall|k: int| 0 <= k < t.mru.len() implies t.table.contains_key(#[trigger] t.mru[k])
            && t.table[t.mru[k]].arc_status == ArcStatus::MRU by {
            assert(t.mru.contains(t.mru[k]));
            let m = choose|m: int| 0 <= m < self.mru.len() && self.mru[m] == t.mru[k];
            assert(self.mru[m] == t.mru[k]);
        }
        assert forall|k: int| 0 <= k < t.mfu.len() implies t.table.contains_key(#[trigger] t.mfu[k])
            && t.table[t.mfu[k]].arc_status == ArcStatus::MFU by {
            assert(t.mfu.contains(t.mfu[k]));
            let m = choose|m: int| 0 <= m < self.mfu.len() && self.mfu[m] == t.mfu[k];
            assert(self.mfu[m] == t.mfu[k]);
        }
        assert forall|g: FrameId| #[trigger] t.table.contains_key(g) implies {
            &&& t.table[g].frame_id == g
            &&& t.table[g].arc_status == ArcStatus::MRU ==> t.mru.contains(g)
            &&& t.table[g].arc_status == ArcStatus::MFU ==> t.mfu.contains(g)
            &&& (t.table[g].arc_status == ArcStatus::MRU || t.table[g].arc_status
                == ArcStatus::MFU)
            &&& !t.mru_ghost.contains(t.table[g].page_id)
            &&& !t.mfu_ghost.contains(t.table[g].page_id)
        } by {
            assert(self.table.contains_key(g));
            assert(self.page_of(g) != self.page_of(f));
        }
        assert forall|g: FrameId, h: FrameId|
            t.table.contains_key(g) && t.table.contains_key(h) && g != h implies #[trigger] t.page_of(
            g) != #[trigger] t.page_of(h) by {
            assert(self.page_of(g) != self.page_of(h));
        }
    }

    /// Changing the target within the capacity and forgetting ghost entries
    /// keeps the state well formed.
    proof fn lemma_shrink_ghosts_wf(self, t: ArcState)
        requires
            self.wf(),
            t.target <= t.capacity,
            t.capacity == self.capacity,
            t.mru == self.mru,
            t.mfu == self.mfu,
            t.table == self.table,
            t.mru_ghost.no_duplicates(),
            t.mfu_ghost.no_duplicates(),
            t.mru_ghost.len() <= self.mru_ghost.len(),
            t.mfu_ghost.len() <= self.mfu_ghost.len(),
            forall|x: PageId| t.mru_ghost.contains(x) ==> self.mru_ghost.contains(x),
            forall|x: PageId| t.mfu_ghost.contains(x) ==> self.mfu_ghost.contains(x),
        ensures
            t.wf(),
    {
        assert forall|g: FrameId| #[trigger] t.table.contains_key(g) implies {
            &&& !t.mru_ghost.contains(t.table[g].page_id)
            &&& !t.mfu_ghost.contains(t.table[g].page_id)
        } by {
            assert(self.table.contains_key(g));
        }
        assert forall|i: int, j: int|
            0 <= i < t.mru_ghost.len() && 0 <= j < t.mfu_ghost.len() implies t.mru_ghost[i]
            != t.mfu_ghost[j] by {
            assert(t.mru_ghost.contains(t.mru_ghost[i]));
            assert(t.mfu_ghost.contains(t.mfu_ghost[j]));
        }
        assert forall|g: FrameId, h: FrameId|
            t.table.contains_key(g) && t.table.contains_key(h) && g != h implies #[trigger] t.page_of(
            g) != #[trigger] t.page_of(h) by {
            assert(self.page_of(g) != self.page_of(h));
        }
    }

    /// A new frame entering the resident lists keeps the state well formed.
    proof fn lemma_enter_wf(self, f: FrameId, pg: PageId, status: ArcStatus)
        requires
            self.wf(),
            !self.is_resident(f),
            forall|g: FrameId| #[trigger] self.table.contains_key(g) ==> self.page_of(g) != pg,
            !self.mru_ghost.contains(pg),
            !self.mfu_ghost.contains(pg),
            status == ArcStatus::MRU || status == ArcStatus::MFU,
            self.table.dom().len() < self.capacity,
        ensures
            self.enter(f, pg, status).wf(),
    {
        let t = self.enter(f, pg, status);
        assert(!self.mru.contains(f));
        assert(!self.mfu.contains(f));
        assert(t.table.dom() =~= self.table.dom().insert(f));
        assert forall|g: FrameId| #[trigger] t.table.contains_key(g) implies {
            &&& t.table[g].frame_id == g
            &&& t.table[g].arc_status == ArcStatus::MRU ==> t.mru.contains(g)
            &&& t.table[g].arc_status == ArcStatus::MFU ==> t.mfu.contains(g)
            &&& (t.table[g].arc_status == ArcStatus::MRU || t.table[g].arc_status
                == ArcStatus::MFU)
            &&& !t.mru_ghost.contains(t.table[g].page_id)
            &&& !t.mfu_ghost.contains(t.table[g].page_id)
        } by {
            if g == f {
                if status == ArcStatus::MRU {
                    assert(t.mru[t.mru.len() - 1] == f);
                } else {
                    assert(t.mfu[t.mfu.len() - 1] == f);
                }
            } else {
                if self.table[g].arc_status == ArcStatus::MRU {
                    let m = choose|m: int| 0 <= m < self.mru.len() && self.mru[m] == g;
                    assert(t.mru[m] == g);
                } else {
                    let m = choose|m: int| 0 <= m < self.mfu.len() && self.mfu[m] == g;
                    assert(t.mfu[m] == g);
                }
            }
        }
        assert forall|g: FrameId, h: FrameId|
            t.table.contains_key(g) && t.table.contains_key(h) && g != h implies #[trigger] t.page_of(
            g) != #[trigger] t.page_of(h) by {
            if g != f && h != f {
                assert(self.page_of(g) != self.page_of(h));
            }
        }
    }

    /// Moving a resident frame to the frequency list keeps the state well formed.
    proof fn lemma_touch_wf(self, f: FrameId)
        requires
            self.wf(),
            self.is_resident(f),
        ensures
            self.after_access(f, self.page_of(f)).wf(),
    {
        let t = self.after_access(f, self.page_of(f));
        let u = ArcState { mru: without(self.mru, f), mfu: without(self.mfu, f), ..self };
        if self.table[f].arc_status == ArcStatus::MRU {
            let i = self.mru.index_of(f);
            lemma_remove_index(self.mru, i);
            assert(!self.mfu.contains(f));
        } else {
            let i = self.mfu.index_of(f);
            lemma_remove_index(self.mfu, i);
            assert(!self.mru.contains(f));
        }
        assert(!u.mfu.contains(f));
        assert(!u.mru.contains(f));
        assert(t.table.dom() =~= self.table.dom());
        assert forall|k: int| 0 <= k < t.mru.len() implies t.table.contains_key(#[trigger] t.mru[k])
            && t.table[t.mru[k]].arc_status == ArcStatus::MRU by {
            assert(u.mru.contains(t.mru[k]));
            let m = choose|m: int| 0 <= m < self.mru.len() && self.mru[m] == t.mru[k];
            assert(self.mru[m] == t.mru[k]);
        }
        assert forall|k: int| 0 <= k < t.mfu.len() implies t.table.contains_key(#[trigger] t.mfu[k])
            && t.table[t.mfu[k]].arc_status == ArcStatus::MFU by {
            if k < t.mfu.len() - 1 {
                assert(u.mfu[k] == t.mfu[k]);
                assert(u.mfu.contains(t.mfu[k]));
                let m = choose|m: int| 0 <= m < self.mfu.len() && self.mfu[m] == t.mfu[k];
                assert(self.mfu[m] == t.mfu[k]);
            }
        }
        assert forall|g: FrameId| #[trigger] t.table.contains_key(g) implies {
            &&& t.table[g].frame_id == g
            &&& t.table[g].arc_status == ArcStatus::MRU ==> t.mru.contains(g)
            &&& t.table[g].arc_status == ArcStatus::MFU ==> t.mfu.contains(g)
            &&& (t.table[g].arc_status == ArcStatus::MRU || t.table[g].arc_status
                == ArcStatus::MFU)
            &&& !t.mru_ghost.contains(t.table[g].page_id)
            &&& !t.mfu_ghost.contains(t.table[g].page_id)
        } by {
            if g == f {
                assert(t.mfu[t.mfu.len() - 1] == f);
            } else {
                if self.table[g].arc_status == ArcStatus::MRU {
                    assert(self.mru.contains(g));
                    assert(u.mru.contains(g));
                } else {
                    assert(self.mfu.contains(g));
                    assert(u.mfu.contains(g));
                    let m = choose|m: int| 0 <= m < u.mfu.len() && u.mfu[m] == g;
                    assert(t.mfu[m] == g);
                }
            }
        }
        assert forall|g: FrameId, h: FrameId|
            t.table.contains_key(g) && t.table.contains_key(h) && g != h implies #[trigger] t.page_of(
            g) != #[trigger] t.page_of(h) by {
            assert(self.page_of(g) != self.page_of(h));
        }
    }

    /// Number of resident frames flagged evictable.
    pub open spec fn evictable_count(self) -> nat {
        (self.mru + self.mfu).filter(|f: FrameId| self.evictable(f)).len()
    }
}

/// Right after an eviction, the page of the evicted frame is remembered in
/// exactly one ghost list, the frame is in neither resident list, and no
/// resident frame holds the page.
pub proof fn lemma_evicted_page_in_one_ghost_list(s: ArcState)
    requires
        s.wf(),
        s.victim() is Some,
    ensures
        ({
            let f = s.victim()->0;
            let p = s.page_of(f);
            let t = s.after_evict();
            &&& t.mru_ghost.contains(p) != t.mfu_ghost.contains(p)
            &&& !t.mru.contains(f)
            &&& !t.mfu.contains(f)
            &&& !t.resident_page(p)
        }),
{
    s.lemma_evict_wf();
    let f = s.victim()->0;
    let p = s.page_of(f);
    let t = s.after_evict();
    let i = s.first_evictable(s.mru);
    let j = s.first_evictable(s.mfu);
    if i < s.mru.len() {
        lemma_remove_index(s.mru, i);
        lemma_push_trimmed(s.mru_ghost, p, s.capacity);
        assert(!s.mfu.contains(f));
    } else {
        lemma_remove_index(s.mfu, j);
        lemma_push_trimmed(s.mfu_ghost, p, s.capacity);
        assert(!s.mru.contains(f));
    }
    if t.resident_page(p) {
        let g = choose|g: FrameId| t.is_resident(g) && #[trigger] t.page_of(g) == p;
        assert(s.page_of(g) != s.page_of(f));
    }
}

/// `s` after `n` accesses to page `pg` through frame `f`.
pub open spec fn accessed_times(s: ArcState, f: FrameId, pg: PageId, n: nat) -> ArcState
    decreases n,
{
    if n == 0 {
        s
    } else {
        accessed_times(s, f, pg, (n - 1) as nat).after_access(f, pg)
    }
}

/// Any number of accesses to a resident page leave its frame resident and
/// holding the page, with its evictable flag as it was.
pub proof fn lemma_repeated_access_keeps_evictable(s: ArcState, f: FrameId, pg: PageId, n: nat)
    requires
        s.wf(),
        s.is_resident(f),
        s.page_of(f) == pg,
    ensures
        accessed_times(s, f, pg, n).wf(),
        accessed_times(s, f, pg, n).is_resident(f),
        accessed_times(s, f, pg, n).page_of(f) == pg,
        accessed_times(s, f, pg, n).table[f].evictable == s.table[f].evictable,
    decreases n,
{
    if n > 0 {
        lemma_repeated_access_keeps_evictable(s, f, pg, (n - 1) as nat);
        accessed_times(s, f, pg, (n - 1) as nat).lemma_touch_wf(f);
    }
}

/// While the resident frames do not fill the capacity, an access through a
/// frame that is not resident adds just that frame, pinned, to the table.
pub proof fn lemma_access_adds_frame(s: ArcState, f: FrameId, pg: PageId)
    requires
        s.wf(),
        !s.is_resident(f),
        s.table.dom().len() < s.capacity,
    ensures
        s.after_access(f, pg).table.dom() == s.table.dom().insert(f),
        s.after_access(f, pg).table[f].page_id == pg,
        !s.after_access(f, pg).table[f].evictable,
        forall|g: FrameId| g != f ==> #[trigger] s.after_access(f, pg).table[g] == s.table[g],
        s.after_access(f, pg).capacity == s.capacity,
{
    let t = s.after_access(f, pg);
    assert(t.table.dom() =~= s.table.dom().insert(f));
}

/// Adaptive Replacement Cache replacer.
pub struct ArcReplacer {
    replacer_size: usize,
    target_size: usize,
    mru_list: VecDeque<FrameId>,
    mfu_list: VecDeque<FrameId>,
    mru_ghost_list: VecDeque<PageId>,
    mfu_ghost_list: VecDeque<PageId>,
    pin_table: HashMap<FrameId, FrameStatus>,
}

impl View for ArcReplacer {
    type V = ArcState;

    closed spec fn view(&self) -> ArcState {
        ArcState {
            capacity: self.replacer_size as nat,
            target: self.target_size as nat,
            mru: self.mru_list@,
            mfu: self.mfu_list@,
            mru_ghost: self.mru_ghost_list@,
            mfu_ghost: self.mfu_ghost_list@,
            table: self.pin_table@,
        }
    }
}

fn position_of_frame(list: &VecDeque<FrameId>, f: FrameId) -> (r: Option<usize>)
    ensures
        match r {
            Some(i) => i < list@.len() && list@[i as int] == f,
            None => !list@.contains(f),
        },
{
    let mut i: usize = 0;
    while i < list.len()
        invariant
            i <= list@.len(),
            forall|j: int| 0 <= j < i ==> list@[j] != f,
        decreases list@.len() - i,
    {
        if list[i] == f {
            return Some(i);
        }
        i += 1;
    }
    None
}

fn position_of_page(list: &VecDeque<PageId>, p: PageId) -> (r: Option<usize>)
    ensures
        match r {
            Some(i) => i < list@.len() && list@[i as int] == p,
            None => !list@.contains(p),
        },
{
    let mut i: usize = 0;
    while i < list.len()
        invariant
            i <= list@.len(),
            forall|j: int| 0 <= j < i ==> list@[j] != p,
        decreases list@.len() - i,
    {
        if list[i] == p {
            return Some(i);
        }
        i += 1;
    }
    None
}

impl ArcReplacer {
    pub open spec fn wf(&self) -> bool {
        self@.wf()
    }

    /// An empty replacer for `num_frames` frames.
    pub fn new(num_frames: usize) -> (r: Self)
        ensures
            r.wf(),
            r@.capacity == num_frames,
            r@.target == 0,
            r@.mru.len() == 0,
            r@.mfu.len() == 0,
            r@.mru_ghost.len() == 0,
            r@.mfu_ghost.len() == 0,
            r@.table.is_empty(),
    {
        let r = ArcReplacer {
            replacer_size: num_frames,
            target_size: 0,
            mru_list: VecDeque::new(),
            mfu_list: VecDeque::new(),
            mru_ghost_list: VecDeque::new(),
            mfu_ghost_list: VecDeque::new(),
            pin_table: HashMap::new(),
        };
        assert(r@.table =~= Map::empty());
        r
    }

    /// Pins frame `frame_id`: it may not be evicted. Untracked frames are ignored.
    pub fn set_keep(&mut self, frame_id: FrameId) -> (r: Result<(), ReplacerError>)
        requires
            old(self).wf(),
        ensures
            final(self).wf(),
            final(self)@ == old(self)@.after_set_evictable(frame_id, false),
            r is Ok,
    {
        self.set_flag(frame_id, false);
        Ok(())
    }

    /// Unpins frame `frame_id`: it may be evicted. Untracked frames are ignored.
    pub fn set_evicted(&mut self, frame_id: FrameId) -> (r: Result<(), ReplacerError>)
        requires
            old(self).wf(),
        ensures
            final(self).wf(),
            final(self)@ == old(self)@.after_set_evictable(frame_id, true),
            r is Ok,
    {
        self.set_flag(frame_id, true);
        Ok(())
    }

    fn set_flag(&mut self, frame_id: FrameId, flag: bool)
        requires
            old(self).wf(),
        ensures
            final(self).wf(),
            final(self)@ == old(self)@.after_set_evictable(frame_id, flag),
    {
        match self.pin_table.get(&frame_id) {
            Some(status) => {
                let updated = FrameStatus { evictable: flag, ..*status };
                self.pin_table.insert(frame_id, updated);
                proof {
                    old(self)@.lemma_set_evictable_wf(frame_id, flag);
                }
            },
            None => {},
        }
    }

    /// Gives up the least recently used evictable frame of the recency list,
    /// else of the frequency list; `None` when no resident frame is evictable.
    /// The victim's page is remembered in the matching ghost list.
    pub fn evict(&mut self) -> (r: Option<FrameId>)
        requires
            old(self).wf(),
        ensures
            final(self).wf(),
            r == old(self)@.victim(),
            final(self)@ == old(self)@.after_evict(),
            r matches Some(f) ==> old(self)@.evictable(f),
    {
        proof {
            old(self)@.lemma_evict_wf();
        }
        match self.find_victim() {
            Some((true, idx)) => {
                let victim = self.mru_list.remove(idx).unwrap();
                let page = self.pin_table.remove(&victim).unwrap().page_id;
                self.mru_ghost_list.push_back(page);
                self.delete_ghost();
                assert(self@ =~= old(self)@.after_evict());
                Some(victim)
            },
            Some((false, idx)) => {
                let victim = self.mfu_list.remove(idx).unwrap();
                let page = self.pin_table.remove(&victim).unwrap().page_id;
                self.mfu_ghost_list.push_back(page);
                self.delete_ghost();
                assert(self@ =~= old(self)@.after_evict());
                Some(victim)
            },
            None => None,
        }
    }

    /// The frame that `evict` would give up, leaving the replacer as it is.
    pub fn victim(&self) -> (r: Option<FrameId>)
        requires
            self.wf(),
        ensures
            r == self@.victim(),
            r matches Some(f) ==> self@.evictable(f),
    {
        match self.find_victim() {
            Some((true, idx)) => Some(self.mru_list[idx]),
            Some((false, idx)) => Some(self.mfu_list[idx]),
            None => None,
        }
    }

    /// Where the victim stands: in the recency list (`true`) or the
    /// frequency list, at the given position.
    fn find_victim(&self) -> (r: Option<(bool, usize)>)
        requires
            self.wf(),
        ensures
            match r {
                Some((true, i)) => i < self@.mru.len() && self@.first_evictable(self@.mru) == i
                    && self@.evictable(self@.mru[i as int]),
                Some((false, i)) => self@.first_evictable(self@.mru) == self@.mru.len() && i
                    < self@.mfu.len() && self@.first_evictable(self@.mfu) == i && self@.evictable(
                    self@.mfu[i as int],
                ),
                None => self@.first_evictable(self@.mru) == self@.mru.len()
                    && self@.first_evictable(self@.mfu) == self@.mfu.len(),
            },
    {
        let mut idx: usize = 0;
        while idx < self.mru_list.len()
            invariant
                idx <= self@.mru.len(),
                forall|j: int| 0 <= j < idx ==> !#[trigger] self@.evictable(self@.mru[j]),
            decreases self@.mru.len() - idx,
        {
            if self.is_evictable(self.mru_list[idx]) {
                proof {
                    self@.lemma_first_evictable(self@.mru, idx as int);
                }
                return Some((true, idx));
            }
            idx += 1;
        }
        proof {
            self@.lemma_none_evictable(self@.mru);
        }
        let mut k: usize = 0;
        while k < self.mfu_list.len()
            invariant
                self@.first_evictable(self@.mru) == self@.mru.len(),
                k <= self@.mfu.len(),
                forall|j: int| 0 <= j < k ==> !#[trigger] self@.evictable(self@.mfu[j]),
            decreases self@.mfu.len() - k,
        {
            if self.is_evictable(self.mfu_list[k]) {
                proof {
                    self@.lemma_first_evictable(self@.mfu, k as int);
                }
                return Some((false, k));
            }
            k += 1;
        }
        proof {
            self@.lemma_none_evictable(self@.mfu);
        }
        None
    }

    /// Drops the least recently used entry of each ghost list that holds
    /// more entries than the capacity.
    fn delete_ghost(&mut self)
        ensures
            final(self)@ == (ArcState {
                mru_ghost: trimmed(old(self)@.mru_ghost, old(self)@.capacity),
                mfu_ghost: trimmed(old(self)@.mfu_ghost, old(self)@.capacity),
                ..old(self)@
            }),
    {
        if self.mru_ghost_list.len() > self.replacer_size {
            self.mru_ghost_list.pop_front();
        }
        if self.mfu_ghost_list.len() > self.replacer_size {
            self.mfu_ghost_list.pop_front();
        }
        assert(self@ =~= (ArcState {
            mru_ghost: trimmed(old(self)@.mru_ghost, old(self)@.capacity),
            mfu_ghost: trimmed(old(self)@.mfu_ghost, old(self)@.capacity),
            ..old(self)@
        }));
    }

    /// Records an access to page `page_id`, held by frame `frame_id`.
    ///
    /// A resident frame moves to the most recently used end of the frequency
    /// list. A page remembered in the recency ghost list raises the target
    /// by `max(1, |frequency ghosts| / |recency ghosts|)` (at most to the
    /// capacity), one in the frequency ghost list lowers it by
    /// `max(1, |recency ghosts| / |frequency ghosts|)` (at least to 0); either
    /// way the page leaves its ghost list and the frame enters the frequency
    /// list. Any other page enters the recency list, after the oldest
    /// recency ghost is forgotten if the recency partition is full. Before a
    /// new frame enters, one victim is evicted if the resident frames
    /// already fill the capacity. New frames start pinned.
    pub fn record_access(&mut self, frame_id: FrameId, page_id: PageId, _access_type: AccessType)
        requires
            old(self).wf(),
            old(self)@.access_fits(frame_id, page_id),
            old(self)@.is_resident(frame_id) || old(self)@.table.dom().len() < old(self)@.capacity
                || old(self)@.victim() is Some,
        ensures
            final(self).wf(),
            final(self)@ == old(self)@.after_access(frame_id, page_id),
            final(self)@.is_resident(frame_id),
            old(self)@.is_resident(frame_id) ==> final(self)@.table[frame_id].evictable == old(
                self,
            )@.table[frame_id].evictable,
    {
        let ghost s = self@;
        if let Some(st) = self.pin_table.get(&frame_id) {
            let status = *st;
            match status.arc_status {
                ArcStatus::MRU => {
                    let pos = position_of_frame(&self.mru_list, frame_id).unwrap();
                    proof {
                        lemma_without_at(s.mru, frame_id, pos as int);
                        assert(!s.mfu.contains(frame_id));
                    }
                    self.mru_list.remove(pos);
                },
                _ => {
                    let pos = position_of_frame(&self.mfu_list, frame_id).unwrap();
                    proof {
                        lemma_without_at(s.mfu, frame_id, pos as int);
                        assert(!s.mru.contains(frame_id));
                    }
                    self.mfu_list.remove(pos);
                },
            }
            self.mfu_list.push_back(frame_id);
            self.pin_table.insert(frame_id, FrameStatus { arc_status: ArcStatus::MFU, ..status });
            proof {
                s.lemma_touch_wf(frame_id);
            }
            assert(self@ =~= s.after_access(frame_id, page_id));
            return;
        }
        if let Some(pos) = position_of_page(&self.mru_ghost_list, page_id) {
            let hit = self.mru_ghost_list.len();
            let other = self.mfu_ghost_list.len();
            let step = if other / hit < 1 {
                1
            } else {
                other / hit
            };
            self.target_size = if step > self.replacer_size - self.target_size {
                self.replacer_size
            } else {
                self.target_size + step
            };
            proof {
                lemma_without_at(s.mru_ghost, page_id, pos as int);
                lemma_remove_index(s.mru_ghost, pos as int);
            }
            self.mru_ghost_list.remove(pos);
            proof {
                s.lemma_shrink_ghosts_wf(self@);
                s.lemma_victim_of_residents(self@);
            }
            self.make_room(page_id);
            self.enter(frame_id, page_id, ArcStatus::MFU);
        } else if let Some(pos) = position_of_page(&self.mfu_ghost_list, page_id) {
            let hit = self.mfu_ghost_list.len();
            let other = self.mru_ghost_list.len();
            let step = if other / hit < 1 {
                1
            } else {
                other / hit
            };
            self.target_size = if step > self.target_size {
                0
            } else {
                self.target_size - step
            };
            proof {
                lemma_without_at(s.mfu_ghost, page_id, pos as int);
                lemma_remove_index(s.mfu_ghost, pos as int);
            }
            self.mfu_ghost_list.remove(pos);
            proof {
                s.lemma_shrink_ghosts_wf(self@);
                s.lemma_victim_of_residents(self@);
            }
            self.make_room(page_id);
            self.enter(frame_id, page_id, ArcStatus::MFU);
        } else {
            let recency_full = self.mru_list.len() >= self.replacer_size
                || self.mru_ghost_list.len() >= self.replacer_size - self.mru_list.len();
            if recency_full && self.mru_ghost_list.len() > 0 {
                self.mru_ghost_list.pop_front();
                proof {
                    lemma_remove_index(s.mru_ghost, 0);
                    assert(s.mru_ghost.remove(0) =~= s.mru_ghost.drop_first());
                    s.lemma_shrink_ghosts_wf(self@);
                    s.lemma_victim_of_residents(self@);
                }
            }
            self.make_room(page_id);
            self.enter(frame_id, page_id, ArcStatus::MRU);
        }
        assert(self@ =~= s.after_access(frame_id, page_id));
    }

    /// Evicts once if the resident frames fill the capacity. Page `pg`,
    /// which no resident frame holds, stays out of the ghost lists.
    fn make_room(&mut self, pg: PageId)
        requires
            old(self).wf(),
            !old(self)@.mru_ghost.contains(pg),
            !old(self)@.mfu_ghost.contains(pg),
            forall|g: FrameId| #[trigger]
                old(self)@.table.contains_key(g) ==> old(self)@.page_of(g) != pg,
            old(self)@.table.dom().len() < old(self)@.capacity || old(self)@.victim() is Some,
        ensures
            final(self).wf(),
            final(self)@ == old(self)@.make_room(),
            final(self)@.table.dom().len() < final(self)@.capacity,
            !final(self)@.mru_ghost.contains(pg),
            !final(self)@.mfu_ghost.contains(pg),
            forall|g: FrameId| #[trigger]
                final(self)@.table.contains_key(g) ==> old(self)@.table.contains_key(g)
                    && final(self)@.page_of(g) == old(self)@.page_of(g),
    {
        proof {
            old(self)@.lemma_evict_wf();
        }
        if self.pin_table.len() >= self.replacer_size {
            self.evict();
        }
    }

    /// Frame `f`, not resident, enters the list `status` names, pinned.
    fn enter(&mut self, f: FrameId, pg: PageId, status: ArcStatus)
        requires
            old(self).wf(),
            !old(self)@.is_resident(f),
            forall|g: FrameId| #[trigger] old(self)@.table.contains_key(g) ==> old(self)@.page_of(g) != pg,
            !old(self)@.mru_ghost.contains(pg),
            !old(self)@.mfu_ghost.contains(pg),
            status == ArcStatus::MRU || status == ArcStatus::MFU,
            old(self)@.table.dom().len() < old(self)@.capacity,
        ensures
            final(self).wf(),
            final(self)@ == old(self)@.enter(f, pg, status),
    {
        proof {
            old(self)@.lemma_enter_wf(f, pg, status);
        }
        match status {
            ArcStatus::MRU => self.mru_list.push_back(f),
            _ => self.mfu_list.push_back(f),
        }
        self.pin_table.insert(
            f,
            FrameStatus { page_id: pg, frame_id: f, evictable: false, arc_status: status },
        );
        assert(self@ =~= old(self)@.enter(f, pg, status));
    }

    /// Drops frame `frame_id` from the replacer. Fails, changing nothing,
    /// when the frame is pinned or not tracked.
    pub fn remove(&mut self, frame_id: FrameId) -> (r: Result<(), ReplacerError>)
        requires
            old(self).wf(),
        ensures
            final(self).wf(),
            !old(self)@.is_resident(frame_id) ==> r == Err::<(), ReplacerError>(
                ReplacerError::FrameNotFound(frame_id),
            ) && final(self)@ == old(self)@,
            old(self)@.is_resident(frame_id) && !old(self)@.evictable(frame_id) ==> r == Err::<
                (),
                ReplacerError,
            >(ReplacerError::NotEvictable(frame_id)) && final(self)@ == old(self)@,
            old(self)@.evictable(frame_id) ==> r is Ok && final(self)@ == old(self)@.after_remove(
                frame_id,
            ),
    {
        let status = match self.pin_table.get(&frame_id) {
            Some(st) => *st,
            None => {
                return Err(ReplacerError::FrameNotFound(frame_id));
            },
        };
        if !status.evictable {
            return Err(ReplacerError::NotEvictable(frame_id));
        }
        let ghost s = self@;
        match status.arc_status {
            ArcStatus::MRU => {
                let pos = position_of_frame(&self.mru_list, frame_id).unwrap();
                proof {
                    lemma_without_at(s.mru, frame_id, pos as int);
                    lemma_remove_index(s.mru, pos as int);
                    assert(!s.mfu.contains(frame_id));
                }
                self.mru_list.remove(pos);
            },
            _ => {
                let pos = position_of_frame(&self.mfu_list, frame_id).unwrap();
                proof {
                    lemma_without_at(s.mfu, frame_id, pos as int);
                    lemma_remove_index(s.mfu, pos as int);
                    assert(!s.mru.contains(frame_id));
                }
                self.mfu_list.remove(pos);
            },
        }
        self.pin_table.remove(&frame_id);
        assert(self@ =~= s.after_remove(frame_id));
        proof {
            s.lemma_remove_resident_wf(frame_id, self@);
        }
        Ok(())
    }

    /// Number of resident frames flagged evictable.
    pub fn size(&self) -> (r: usize)
        requires
            self.wf(),
        ensures
            r == self@.evictable_count(),
    {
        let ghost s = self@;
        let ghost pred = |f: FrameId| s.evictable(f);
        let ghost all = s.mru + s.mfu;
        let len = self.pin_table.len();
        let mut count: usize = 0;
        let mut idx: usize = 0;
        while idx < self.mru_list.len()
            invariant
                s == self@,
                pred == (|f: FrameId| s.evictable(f)),
                all == s.mru + s.mfu,
                len == s.mru.len() + s.mfu.len(),
                idx <= s.mru.len(),
                count == all.take(idx as int).filter(pred).len(),
            decreases s.mru.len() - idx,
        {
            proof {
                all.lemma_take_succ_push(idx as int);
                all.take(idx as int).lemma_filter_len_push(pred, all[idx as int]);
                all.take(idx as int).filter_lemma(pred);
            }
            if self.is_evictable(self.mru_list[idx]) {
                count += 1;
            }
            idx += 1;
        }
        let mut k: usize = 0;
        while k < self.mfu_list.len()
            invariant
                s == self@,
                pred == (|f: FrameId| s.evictable(f)),
                all == s.mru + s.mfu,
                len == s.mru.len() + s.mfu.len(),
                k <= s.mfu.len(),
                count == all.take(s.mru.len() + k).filter(pred).len(),
            decreases s.mfu.len() - k,
        {
            proof {
                let n = s.mru.len() + k;
                all.lemma_take_succ_push(n);
                all.take(n).lemma_filter_len_push(pred, all[n]);
                all.take(n).filter_lemma(pred);
            }
            if self.is_evictable(self.mfu_list[k]) {
                count += 1;
            }
            k += 1;
        }
        assert(all.take(all.len() as int) =~= all);
        count
    }

    fn is_evictable(&self, frame_id: FrameId) -> (r: bool)
        ensures
            r == self@.evictable(frame_id),
    {
        match self.pin_table.get(&frame_id) {
            Some(status) => status.evictable,
            None => false,
        }
    }

    /// The status of a resident frame.
    pub fn frame_status(&self, frame_id: FrameId) -> (r: Option<FrameStatus>)
        ensures
            r == (if self@.is_resident(frame_id) {
                Some(self@.table[frame_id])
            } else {
                None
            }),
    {
        match self.pin_table.get(&frame_id) {
            Some(status) => Some(*status),
            None => None,
        }
    }

    /// Which ghost list remembers page `page_id`, if any.
    pub fn ghost_status(&self, page_id: PageId) -> (r: Option<ArcStatus>)
        requires
            self.wf(),
        ensures
            r == Some(ArcStatus::MRUGhost) <==> self@.mru_ghost.contains(page_id),
            r == Some(ArcStatus::MFUGhost) <==> self@.mfu_ghost.contains(page_id),
            r is None <==> !self@.mru_ghost.contains(page_id) && !self@.mfu_ghost.contains(
                page_id,
            ),
    {
        if position_of_page(&self.mru_ghost_list, page_id).is_some() {
            Some(ArcStatus::MRUGhost)
        } else if position_of_page(&self.mfu_ghost_list, page_id).is_some() {
            Some(ArcStatus::MFUGhost)
        } else {
            None
        }
    }

    /// Current adaptive target size of the recency partition.
    pub fn target_size(&self) -> (r: usize)
        ensures
            r == self@.target,
    {
        self.target_size
    }
}

} // verus!
