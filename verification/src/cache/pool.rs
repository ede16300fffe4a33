//! A bounded pool of pages, each with a count of its holders.
use vstd::prelude::*;

verus! {

/// Positions per page.
pub const PAGE_SIZE: usize = 16;

/// How many pages a sequence of `positions` takes in a model of `n_layers`.
pub open spec fn pages_needed(positions: nat, n_layers: nat) -> nat {
    ((positions + PAGE_SIZE - 1) / PAGE_SIZE as int * n_layers) as nat
}

/// How many holders page `id` has. A page that was never handed out has none.
pub open spec fn holders(refs: Seq<usize>, id: int) -> int {
    if 0 <= id < refs.len() {
        refs[id] as int
    } else {
        0
    }
}

/// Every page of `pages` has a holder.
pub open spec fn all_held(refs: Seq<usize>, pages: Seq<usize>) -> bool {
    forall|k: int| 0 <= k < pages.len() ==> holders(refs, #[trigger] pages[k] as int) > 0
}

/// How many pages have a holder.
pub open spec fn live_count(refs: Seq<usize>) -> nat
    decreases refs.len(),
{
    if refs.len() == 0 {
        0
    } else {
        live_count(refs.drop_last()) + if refs.last() > 0 {
            1nat
        } else {
            0
        }
    }
}

/// The counts after one holder gives up `pages`.
pub open spec fn released(refs: Seq<usize>, pages: Seq<usize>) -> Seq<usize> {
    Seq::new(
        refs.len(),
        |i: int|
            if pages.contains(i as usize) {
                (refs[i] - 1) as usize
            } else {
                refs[i]
            },
    )
}

/// The counts after one more holder takes `pages`.
pub open spec fn retained(refs: Seq<usize>, pages: Seq<usize>) -> Seq<usize> {
    Seq::new(
        refs.len(),
        |i: int|
            if pages.contains(i as usize) {
                (refs[i] + 1) as usize
            } else {
                refs[i]
            },
    )
}

/// How many of the page lists hold page `id`.
pub open spec fn held(lists: Seq<Seq<usize>>, id: usize) -> nat
    decreases lists.len(),
{
    if lists.len() == 0 {
        0
    } else {
        held(lists.drop_last(), id) + if lists.last().contains(id) {
            1nat
        } else {
            0
        }
    }
}

/// Every page list is backed by the counts: no list names a page twice, and a
/// page has at least as many holders as there are lists that name it.
pub open spec fn backed(refs: Seq<usize>, lists: Seq<Seq<usize>>) -> bool {
    &&& forall|i: int| 0 <= i < lists.len() ==> (#[trigger] lists[i]).no_duplicates()
    &&& forall|id: usize| #[trigger] held(lists, id) <= holders(refs, id as int)
}

/// Occupancy of a pool.
#[derive(Clone, Copy, Debug, PartialEq, Eq, Structural)]
pub struct PoolStats {
    /// Pages that the pool may hand out.
    pub capacity: usize,
    /// Pages that have a holder.
    pub live: usize,
    /// The largest `live` so far.
    pub peak_live: usize,
    /// Pages that were handed out and came back.
    pub pooled: usize,
}

/// A pool of at most `capacity` pages.
#[derive(Debug)]
pub struct PagePool {
    capacity: usize,
    refs: Vec<usize>,
    live: usize,
    peak_live: usize,
}

impl PagePool {
    pub closed spec fn refs(&self) -> Seq<usize> {
        self.refs@
    }

    pub closed spec fn capacity(&self) -> nat {
        self.capacity as nat
    }

    pub closed spec fn peak(&self) -> nat {
        self.peak_live as nat
    }

    pub open spec fn live(&self) -> nat {
        live_count(self.refs())
    }

    /// Pages that can still be handed out.
    pub open spec fn available(&self) -> int {
        self.capacity() - self.live()
    }

    pub closed spec fn wf(&self) -> bool {
        &&& self.refs@.len() <= self.capacity
        &&& self.live == live_count(self.refs@)
        &&& self.live <= self.peak_live <= self.capacity
    }

    pub proof fn lemma_sizes(&self)
        requires
            self.wf(),
        ensures
            self.refs().len() <= self.capacity() <= usize::MAX,
            self.live() <= self.capacity(),
    {
    }

    /// An empty pool.
    pub fn new(capacity: usize) -> (p: Self)
        ensures
            p.wf(),
            p.capacity() == capacity,
            p.refs().len() == 0,
            p.peak() == 0,
    {
        PagePool { capacity, refs: Vec::new(), live: 0, peak_live: 0 }
    }

    /// The pages that a sequence of `positions` takes in a model of `n_layers`,
    /// `None` where the number does not fit the machine's word.
    pub fn pages_for(positions: usize, n_layers: usize) -> (n: Option<usize>)
        ensures
            match n {
                Some(n) => n == pages_needed(positions as nat, n_layers as nat),
                None => pages_needed(positions as nat, n_layers as nat) > usize::MAX,
            },
    {
        let whole: usize = positions / PAGE_SIZE;
        let part: usize = if positions % PAGE_SIZE == 0 {
            0
        } else {
            1
        };
        let per_layer: usize = whole + part;
        assert(per_layer == (positions + PAGE_SIZE - 1) / PAGE_SIZE as int);
        per_layer.checked_mul(n_layers)
    }

    pub fn available_pages(&self) -> (n: usize)
        requires
            self.wf(),
        ensures
            n == self.available(),
    {
        self.capacity - self.live
    }

    pub fn live_pages(&self) -> (n: usize)
        requires
            self.wf(),
        ensures
            n == self.live(),
    {
        self.live
    }

    pub fn stats(&self) -> (s: PoolStats)
        requires
            self.wf(),
        ensures
            s.capacity == self.capacity(),
            s.live == self.live(),
            s.peak_live == self.peak(),
            s.pooled == self.refs().len() - self.live(),
    {
        proof {
            lemma_live_count_bound(self.refs@);
        }
        PoolStats {
            capacity: self.capacity,
            live: self.live,
            peak_live: self.peak_live,
            pooled: self.refs.len() - self.live,
        }
    }

    /// Hand out one page. A page that came back is used before a new one.
    pub fn claim(&mut self) -> (id: usize)
        requires
            old(self).wf(),
            old(self).available() > 0,
        ensures
            final(self).wf(),
            final(self).capacity() == old(self).capacity(),
            final(self).live() == old(self).live() + 1,
            final(self).peak() == if old(self).live() + 1 > old(self).peak() {
                old(self).live() + 1
            } else {
                old(self).peak()
            },
            holders(old(self).refs(), id as int) == 0,
            holders(final(self).refs(), id as int) == 1,
            forall|j: usize|
                j != id ==> #[trigger] holders(final(self).refs(), j as int) == holders(
                    old(self).refs(),
                    j as int,
                ),
            id <= old(self).refs().len(),
            final(self).refs() == if id < old(self).refs().len() {
                old(self).refs().update(id as int, 1)
            } else {
                old(self).refs().push(1)
            },
    {
        let mut id: usize = 0;
        while id < self.refs.len() && self.refs[id] != 0
            invariant
                *self == *old(self),
                id <= self.refs@.len(),
                forall|j: int| 0 <= j < id ==> self.refs@[j] > 0,
            decreases self.refs@.len() - id,
        {
            id = id + 1;
        }
        if id < self.refs.len() {
            self.refs.set(id, 1);
            proof {
                lemma_live_count_update(old(self).refs@, id as int, 1);
            }
        } else {
            proof {
                lemma_live_count_full(self.refs@);
            }
            self.refs.push(1);
            assert(self.refs@.drop_last() =~= old(self).refs@);
        }
        self.live = self.live + 1;
        if self.live > self.peak_live {
            self.peak_live = self.live;
        }
        id
    }

    /// One holder gives up `pages`. A page without holders is free again.
    pub fn release(&mut self, pages: &Vec<usize>)
        requires
            old(self).wf(),
            pages@.no_duplicates(),
            all_held(old(self).refs(), pages@),
        ensures
            final(self).wf(),
            final(self).capacity() == old(self).capacity(),
            final(self).peak() == old(self).peak(),
            final(self).refs() == released(old(self).refs(), pages@),
    {
        let ghost r0 = self.refs@;
        let mut k: usize = 0;
        assert(self.refs@ =~= released(r0, pages@.take(0)));
        while k < pages.len()
            invariant
                self.wf(),
                self.capacity == old(self).capacity,
                self.peak_live == old(self).peak_live,
                pages@.no_duplicates(),
                all_held(r0, pages@),
                k <= pages@.len(),
                self.refs@ == released(r0, pages@.take(k as int)),
            decreases pages@.len() - k,
        {
            let id: usize = pages[k];
            let ghost before = self.refs@;
            proof {
                assert(holders(r0, pages@[k as int] as int) > 0);
                assert(!pages@.take(k as int).contains(id));
                lemma_live_count_update(before, id as int, (before[id as int] - 1) as usize);
                lemma_live_count_bound(before);
            }
            let n: usize = self.refs[id];
            self.refs.set(id, n - 1);
            if n == 1 {
                proof {
                    lemma_live_count_positive(before, id as int);
                }
                self.live = self.live - 1;
            }
            proof {
                let now = pages@.take(k + 1);
                assert(now[k as int] == id);
                assert(now =~= pages@.take(k as int).push(id));
                assert forall|i: int| 0 <= i < r0.len() implies self.refs@[i] == released(
                    r0,
                    now,
                )[i] by {
                    if now.contains(i as usize) && i != id {
                        let w = choose|w: int| 0 <= w < now.len() && now[w] == i as usize;
                        assert(pages@.take(k as int)[w] == i as usize);
                    }
                    if pages@.take(k as int).contains(i as usize) {
                        let w = choose|w: int|
                            0 <= w < k && pages@.take(k as int)[w] == i as usize;
                        assert(now[w] == i as usize);
                    }
                }
                assert(self.refs@ =~= released(r0, now));
            }
            k = k + 1;
        }
        assert(pages@.take(k as int) =~= pages@);
    }

    /// True if every page of `pages` can take one more holder.
    pub fn can_retain(&self, pages: &Vec<usize>) -> (b: bool)
        requires
            all_held(self.refs(), pages@),
        ensures
            b == (forall|k: int|
                0 <= k < pages@.len() ==> holders(self.refs(), #[trigger] pages@[k] as int)
                    < usize::MAX),
    {
        let mut k: usize = 0;
        while k < pages.len()
            invariant
                all_held(self.refs@, pages@),
                k <= pages@.len(),
                forall|j: int|
                    0 <= j < k ==> holders(self.refs@, #[trigger] pages@[j] as int) < usize::MAX,
            decreases pages@.len() - k,
        {
            assert(holders(self.refs@, pages@[k as int] as int) > 0);
            if self.refs[pages[k]] == usize::MAX {
                return false;
            }
            k = k + 1;
        }
        true
    }

    /// One more holder takes `pages`.
    pub fn retain(&mut self, pages: &Vec<usize>)
        requires
            old(self).wf(),
            pages@.no_duplicates(),
            forall|k: int|
                0 <= k < pages@.len() ==> 0 < holders(old(self).refs(), #[trigger] pages@[k] as int)
                    < usize::MAX,
        ensures
            final(self).wf(),
            final(self).capacity() == old(self).capacity(),
            final(self).peak() == old(self).peak(),
            final(self).live() == old(self).live(),
            final(self).refs() == retained(old(self).refs(), pages@),
    {
        let ghost r0 = self.refs@;
        let mut k: usize = 0;
        assert(self.refs@ =~= retained(r0, pages@.take(0)));
        while k < pages.len()
            invariant
                self.wf(),
                self.capacity == old(self).capacity,
                self.peak_live == old(self).peak_live,
                self.live == old(self).live,
                pages@.no_duplicates(),
                forall|j: int|
                    0 <= j < pages@.len() ==> 0 < holders(r0, #[trigger] pages@[j] as int)
                        < usize::MAX,
                k <= pages@.len(),
                self.refs@ == retained(r0, pages@.take(k as int)),
            decreases pages@.len() - k,
        {
            let id: usize = pages[k];
            let ghost before = self.refs@;
            proof {
                assert(holders(r0, pages@[k as int] as int) > 0);
                assert(!pages@.take(k as int).contains(id));
                lemma_live_count_update(before, id as int, (before[id as int] + 1) as usize);
            }
            let n: usize = self.refs[id];
            self.refs.set(id, n + 1);
            proof {
                let now = pages@.take(k + 1);
                assert(now[k as int] == id);
                assert forall|i: int| 0 <= i < r0.len() implies self.refs@[i] == retained(
                    r0,
                    now,
                )[i] by {
                    if now.contains(i as usize) && i != id {
                        let w = choose|w: int| 0 <= w < now.len() && now[w] == i as usize;
                        assert(pages@.take(k as int)[w] == i as usize);
                    }
                    if pages@.take(k as int).contains(i as usize) {
                        let w = choose|w: int|
                            0 <= w < k && pages@.take(k as int)[w] == i as usize;
                        assert(now[w] == i as usize);
                    }
                }
                assert(self.refs@ =~= retained(r0, now));
            }
            k = k + 1;
        }
        assert(pages@.take(k as int) =~= pages@);
    }
}

// ── Counting ─────────────────────────────────────────────────────────────────

pub proof fn lemma_live_count_bound(refs: Seq<usize>)
    ensures
        live_count(refs) <= refs.len(),
    decreases refs.len(),
{
    if refs.len() > 0 {
        lemma_live_count_bound(refs.drop_last());
    }
}

proof fn lemma_live_count_positive(refs: Seq<usize>, i: int)
    requires
        0 <= i < refs.len(),
        refs[i] > 0,
    ensures
        live_count(refs) > 0,
    decreases refs.len(),
{
    if i < refs.len() - 1 {
        lemma_live_count_positive(refs.drop_last(), i);
    }
}

proof fn lemma_live_count_full(refs: Seq<usize>)
    requires
        forall|j: int| 0 <= j < refs.len() ==> refs[j] > 0,
    ensures
        live_count(refs) == refs.len(),
    decreases refs.len(),
{
    if refs.len() > 0 {
        lemma_live_count_full(refs.drop_last());
    }
}

proof fn lemma_live_count_update(refs: Seq<usize>, i: int, v: usize)
    requires
        0 <= i < refs.len(),
    ensures
        live_count(refs.update(i, v)) == live_count(refs) - (if refs[i] > 0 {
            1int
        } else {
            0
        }) + (if v > 0 {
            1int
        } else {
            0
        }),
    decreases refs.len(),
{
    let u = refs.update(i, v);
    if i == refs.len() - 1 {
        assert(u.drop_last() =~= refs.drop_last());
    } else {
        lemma_live_count_update(refs.drop_last(), i, v);
        assert(u.drop_last() =~= refs.drop_last().update(i, v));
    }
}

/// Giving pages back frees at most as many as are given back.
pub proof fn lemma_live_count_released(refs: Seq<usize>, pages: Seq<usize>)
    requires
        refs.len() <= usize::MAX,
        pages.no_duplicates(),
        all_held(refs, pages),
    ensures
        live_count(refs) <= live_count(released(refs, pages)) + pages.len(),
    decreases pages.len(),
{
    if pages.len() == 0 {
        assert(released(refs, pages) =~= refs);
    } else {
        let rest = pages.drop_last();
        let id = pages.last();
        assert(all_held(refs, rest)) by {
            assert forall|k: int| 0 <= k < rest.len() implies holders(
                refs,
                #[trigger] rest[k] as int,
            ) > 0 by {
                assert(rest[k] == pages[k]);
            }
        }
        lemma_live_count_released(refs, rest);
        let r = released(refs, rest);
        assert(holders(refs, pages[pages.len() - 1] as int) > 0);
        assert(!rest.contains(id));
        lemma_live_count_update(r, id as int, (r[id as int] - 1) as usize);
        assert forall|i: int| 0 <= i < refs.len() implies released(refs, pages)[i] == r.update(
            id as int,
            (r[id as int] - 1) as usize,
        )[i] by {
            if rest.contains(i as usize) {
                let w = choose|w: int| 0 <= w < rest.len() && rest[w] == i as usize;
                assert(pages[w] == i as usize);
            }
            if pages.contains(i as usize) && i != id {
                let w = choose|w: int| 0 <= w < pages.len() && pages[w] == i as usize;
                assert(rest[w] == i as usize);
            }
            if i == id {
                assert(pages[pages.len() - 1] == i as usize);
            }
        }
        assert(released(refs, pages) =~= r.update(id as int, (r[id as int] - 1) as usize));
    }
}

/// Giving up pages undoes taking them: every page has as many holders as before, and in
/// between those pages have one more and no other page has.
pub proof fn law_releasing_undoes_retaining(refs: Seq<usize>, pages: Seq<usize>, id: usize)
    requires
        refs.len() <= usize::MAX,
        forall|k: int|
            0 <= k < pages.len() ==> 0 < holders(refs, #[trigger] pages[k] as int) < usize::MAX,
    ensures
        released(retained(refs, pages), pages) == refs,
        holders(retained(refs, pages), id as int) == holders(refs, id as int) + if pages.contains(
            id,
        ) {
            1int
        } else {
            0
        },
{
    assert forall|i: int| 0 <= i < refs.len() implies released(retained(refs, pages), pages)[i]
        == refs[i] by {
        if pages.contains(i as usize) {
            let k = choose|k: int| 0 <= k < pages.len() && pages[k] == i as usize;
            assert(holders(refs, pages[k] as int) == refs[i]);
        }
    }
    assert(released(retained(refs, pages), pages) =~= refs);
    if pages.contains(id) {
        let k = choose|k: int| 0 <= k < pages.len() && pages[k] == id;
        assert(holders(refs, pages[k] as int) < usize::MAX);
    }
}

/// A prompt needs room for every position in every layer, and no page more.
pub proof fn law_pages_are_needed_for_every_layer(positions: nat, n_layers: nat, pages: nat)
    requires
        n_layers > 0,
    ensures
        pages_needed(positions, n_layers) * PAGE_SIZE >= positions * n_layers,
        pages * PAGE_SIZE >= positions ==> pages * n_layers >= pages_needed(positions, n_layers),
{
    let blocks = (positions + PAGE_SIZE - 1) / PAGE_SIZE as int;
    assert(blocks * PAGE_SIZE >= positions);
    assert(blocks * n_layers >= 0) by (nonlinear_arith)
        requires
            blocks >= 0,
            n_layers > 0,
    ;
    assert(blocks * n_layers * PAGE_SIZE >= positions * n_layers) by (nonlinear_arith)
        requires
            blocks * PAGE_SIZE >= positions,
            n_layers > 0,
    ;
    if pages * PAGE_SIZE >= positions {
        assert(pages >= blocks);
        assert(pages * n_layers >= blocks * n_layers) by (nonlinear_arith)
            requires
                pages >= blocks,
                n_layers > 0,
        ;
    }
}

} // verus!
