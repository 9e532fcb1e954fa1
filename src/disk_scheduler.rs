//! Request queue of the disk scheduler: requests wait in submission order
//! and leave in batches, split by page so that the requests of one page can
//! run one after another while distinct pages run side by side.
use std::collections::VecDeque;
use tokio::sync::oneshot;
use vstd::prelude::*;

use crate::common::PageId;
use crate::errors::DiskError;

verus! {

/// The completion channel of a request is carried through unchanged.
#[verifier::external_type_specification]
#[verifier::external_body]
#[verifier::reject_recursive_types(T)]
pub struct ExOneshotSender<T>(oneshot::Sender<T>);

/// A request to read or write a page.
pub struct DiskRequest {
    pub is_write: bool,
    pub data: Vec<u8>,
    pub page_id: PageId,
    pub callback: oneshot::Sender<Result<Vec<u8>, DiskError>>,
}

/// `i` is the first group of `groups` whose requests are for page `pid`.
pub open spec fn is_first_group(groups: Seq<Seq<DiskRequest>>, pid: PageId, i: int) -> bool {
    &&& 0 <= i < groups.len()
    &&& groups[i].len() > 0
    &&& groups[i][0].page_id == pid
    &&& forall|j: int|
        0 <= j < i ==> !(#[trigger] groups[j].len() > 0 && groups[j][0].page_id == pid)
}

/// Index of the group of page `pid`, or the number of groups if it has none.
pub open spec fn group_of(groups: Seq<Seq<DiskRequest>>, pid: PageId) -> int {
    if exists|i: int| is_first_group(groups, pid, i) {
        choose|i: int| is_first_group(groups, pid, i)
    } else {
        groups.len() as int
    }
}

/// `reqs` split by page: one group per page, in order of first appearance,
/// each holding that page's requests in submission order.
pub open spec fn grouped(reqs: Seq<DiskRequest>) -> Seq<Seq<DiskRequest>>
    decreases reqs.len(),
{
    if reqs.len() == 0 {
        Seq::empty()
    } else {
        let g = grouped(reqs.drop_last());
        let x = reqs.last();
        let i = group_of(g, x.page_id);
        if i < g.len() {
            g.update(i, g[i].push(x))
        } else {
            g.push(seq![x])
        }
    }
}

/// The contents of a list of groups.
pub open spec fn group_views(groups: Seq<Vec<DiskRequest>>) -> Seq<Seq<DiskRequest>> {
    groups.map_values(|g: Vec<DiskRequest>| g@)
}

/// Requests of page `pid` among `reqs`, in submission order.
pub open spec fn for_page(reqs: Seq<DiskRequest>, pid: PageId) -> Seq<DiskRequest> {
    reqs.filter(|r: DiskRequest| r.page_id == pid)
}

proof fn lemma_first_group(groups: Seq<Seq<DiskRequest>>, pid: PageId, i: int)
    requires
        is_first_group(groups, pid, i),
    ensures
        group_of(groups, pid) == i,
{
    let k = group_of(groups, pid);
    assert(is_first_group(groups, pid, k));
    if k < i {
        assert(groups[k].len() > 0 && groups[k][0].page_id == pid);
    } else if k > i {
        assert(groups[i].len() > 0 && groups[i][0].page_id == pid);
    }
}

proof fn lemma_no_group(groups: Seq<Seq<DiskRequest>>, pid: PageId)
    requires
        forall|j: int|
            0 <= j < groups.len() ==> !(#[trigger] groups[j].len() > 0 && groups[j][0].page_id
                == pid),
    ensures
        group_of(groups, pid) == groups.len(),
{
    if exists|i: int| is_first_group(groups, pid, i) {
        let i = choose|i: int| is_first_group(groups, pid, i);
        assert(groups[i].len() > 0 && groups[i][0].page_id == pid);
    }
}

/// Splitting a batch by page: every group is non-empty, holds exactly the
/// requests of its page in submission order, and no two groups share a page.
pub proof fn lemma_grouped_by_page(reqs: Seq<DiskRequest>)
    ensures
        forall|i: int|
            #![trigger grouped(reqs)[i]]
            0 <= i < grouped(reqs).len() ==> grouped(reqs)[i].len() > 0 && grouped(reqs)[i]
                == for_page(reqs, grouped(reqs)[i][0].page_id),
        forall|i: int, j: int|
            0 <= i < grouped(reqs).len() && 0 <= j < grouped(reqs).len() && i != j
                ==> #[trigger] grouped(reqs)[i][0].page_id != #[trigger] grouped(reqs)[j][0].page_id,
        forall|k: int|
            0 <= k < reqs.len() ==> group_of(grouped(reqs), #[trigger] reqs[k].page_id)
                < grouped(reqs).len(),
    decreases reqs.len(),
{
    if reqs.len() > 0 {
        let prev = reqs.drop_last();
        lemma_grouped_by_page(prev);
        let g = grouped(prev);
        let x = reqs.last();
        let i = group_of(g, x.page_id);
        let h = grouped(reqs);
        assert(reqs =~= prev.push(x));
        if i < g.len() {
            assert(is_first_group(g, x.page_id, i));
            assert forall|a: int| #![trigger h[a]] 0 <= a < h.len() implies h[a].len() > 0 && h[a]
                == for_page(reqs, h[a][0].page_id) by {
                let pa = |r: DiskRequest| r.page_id == h[a][0].page_id;
                prev.lemma_filter_push(x, pa);
                assert(h[a][0] == g[a][0]);
            }
            assert forall|k: int| 0 <= k < reqs.len() implies group_of(h, #[trigger] reqs[k].page_id)
                < h.len() by {
                let pk = reqs[k].page_id;
                if k < prev.len() {
                    assert(prev[k] == reqs[k]);
                    let m = group_of(g, pk);
                    assert(is_first_group(g, pk, m));
                    assert(is_first_group(h, pk, m));
                    lemma_first_group(h, pk, m);
                } else {
                    assert(is_first_group(h, pk, i));
                    lemma_first_group(h, pk, i);
                }
            }
        } else {
            assert forall|j: int| 0 <= j < g.len() implies g[j][0].page_id != x.page_id by {
                if g[j][0].page_id == x.page_id {
                    assert(g[j].len() > 0);
                    lemma_least_group(g, x.page_id, j);
                }
            }
            assert forall|a: int| #![trigger h[a]] 0 <= a < h.len() implies h[a].len() > 0 && h[a]
                == for_page(reqs, h[a][0].page_id) by {
                let pa = |r: DiskRequest| r.page_id == h[a][0].page_id;
                prev.lemma_filter_push(x, pa);
                if a == g.len() {
                    assert(h[a] == seq![x]);
                    assert forall|k: int| 0 <= k < prev.len() implies prev[k].page_id != x.page_id by {
                        let m = group_of(g, prev[k].page_id);
                        assert(is_first_group(g, prev[k].page_id, m));
                    }
                    assert(prev.filter(pa) =~= Seq::<DiskRequest>::empty()) by {
                        prev.lemma_all_neg_filter_empty(pa);
                    }
                } else {
                    assert(h[a][0] == g[a][0]);
                }
            }
            assert forall|k: int| 0 <= k < reqs.len() implies group_of(h, #[trigger] reqs[k].page_id)
                < h.len() by {
                let pk = reqs[k].page_id;
                if k < prev.len() {
                    assert(prev[k] == reqs[k]);
                    let m = group_of(g, pk);
                    assert(is_first_group(g, pk, m));
                    assert(is_first_group(h, pk, m));
                    lemma_first_group(h, pk, m);
                } else {
                    assert(is_first_group(h, pk, g.len() as int));
                    lemma_first_group(h, pk, g.len() as int);
                }
            }
        }
    }
}

proof fn lemma_least_group(groups: Seq<Seq<DiskRequest>>, pid: PageId, j: int)
    requires
        0 <= j < groups.len(),
        groups[j].len() > 0,
        groups[j][0].page_id == pid,
    ensures
        exists|a: int| is_first_group(groups, pid, a),
    decreases j,
{
    if exists|b: int|
        0 <= b < j && #[trigger] groups[b].len() > 0 && groups[b][0].page_id == pid {
        let b = choose|b: int|
            0 <= b < j && #[trigger] groups[b].len() > 0 && groups[b][0].page_id == pid;
        lemma_least_group(groups, pid, b);
    } else {
        assert(is_first_group(groups, pid, j));
    }
}

/// FIFO queue of disk requests.
pub struct RequestQueue {
    requests: VecDeque<DiskRequest>,
}

impl View for RequestQueue {
    type V = Seq<DiskRequest>;

    closed spec fn view(&self) -> Seq<DiskRequest> {
        self.requests@
    }
}

impl RequestQueue {
    /// An empty queue.
    pub fn new() -> (r: Self)
        ensures
            r@.len() == 0,
    {
        RequestQueue { requests: VecDeque::new() }
    }

    /// Appends `req` behind every waiting request.
    pub fn enqueue(&mut self, req: DiskRequest)
        ensures
            final(self)@ == old(self)@.push(req),
    {
        self.requests.push_back(req);
    }

    /// Number of waiting requests.
    pub fn len(&self) -> (r: usize)
        ensures
            r == self@.len(),
    {
        self.requests.len()
    }

    /// Takes the first `count` waiting requests (all of them if fewer wait),
    /// split by page as [`grouped`] says.
    pub fn take_batch(&mut self, count: usize) -> (r: Vec<Vec<DiskRequest>>)
        ensures
            ({
                let n = if count < old(self)@.len() {
                    count as int
                } else {
                    old(self)@.len() as int
                };
                &&& final(self)@ == old(self)@.skip(n)
                &&& group_views(r@) == grouped(old(self)@.take(n))
            }),
    {
        let ghost taken = if count < self@.len() {
            self@.take(count as int)
        } else {
            self@
        };
        let mut groups: Vec<Vec<DiskRequest>> = Vec::new();
        let mut i: usize = 0;
        while i < count && self.requests.len() > 0
            invariant
                i <= count,
                old(self)@.len() >= i,
                self@ == old(self)@.skip(i as int),
                group_views(groups@) == grouped(old(self)@.take(i as int)),
            decreases count - i,
        {
            let ghost before = groups@;
            let req = self.requests.pop_front().unwrap();
            proof {
                assert(old(self)@.take(i + 1) =~= old(self)@.take(i as int).push(req));
                assert(old(self)@.take(i + 1).drop_last() =~= old(self)@.take(i as int));
                assert(self@ =~= old(self)@.skip(i + 1));
            }
            let pos = find_group(&groups, req.page_id);
            if pos < groups.len() {
                let mut g = groups.remove(pos);
                g.push(req);
                groups.insert(pos, g);
                proof {
                    assert(group_views(groups@) =~= group_views(before).update(
                        pos as int,
                        group_views(before)[pos as int].push(req),
                    ));
                }
            } else {
                groups.push(vec![req]);
                proof {
                    assert(groups@[groups@.len() - 1]@ =~= seq![req]);
                    assert(group_views(groups@) =~= group_views(before).push(seq![req]));
                }
            }
            i += 1;
        }
        proof {
            if i < count {
                assert(old(self)@.take(i as int) =~= old(self)@);
            }
        }
        groups
    }
}

fn find_group(groups: &Vec<Vec<DiskRequest>>, pid: PageId) -> (r: usize)
    ensures
        r == group_of(group_views(groups@), pid),
        r <= groups@.len(),
{
    let ghost gv = group_views(groups@);
    let mut i: usize = 0;
    while i < groups.len()
        invariant
            gv == group_views(groups@),
            i <= groups@.len(),
            forall|j: int| 0 <= j < i ==> !(#[trigger] gv[j].len() > 0 && gv[j][0].page_id == pid),
        decreases groups@.len() - i,
    {
        if groups[i].len() > 0 && groups[i][0].page_id == pid {
            proof {
                assert(is_first_group(gv, pid, i as int));
                lemma_first_group(gv, pid, i as int);
            }
            return i;
        }
        i += 1;
    }
    proof {
        lemma_no_group(gv, pid);
    }
    i
}

} // verus!
