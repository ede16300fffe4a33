//! The page table of one sequence.
use vstd::prelude::*;

use crate::cache::pool::{all_held, holders, live_count, released, PagePool, PAGE_SIZE};
use crate::error::GlintError;

verus! {

/// Whole pages that `positions` reach into.
pub open spec fn page_count(positions: nat) -> nat {
    ((positions + PAGE_SIZE - 1) / PAGE_SIZE as int) as nat
}

/// A sequence's page table: the same number of pages for every layer, stored
/// page by page, the layers of one page next to each other.
#[derive(Debug)]
pub struct PagedKvCache {
    n_layers: usize,
    per_layer: usize,
    pages: Vec<usize>,
    len: usize,
}

/// Pages that a reservation of `total` positions adds to a table of `have`
/// pages per layer.
pub open spec fn pages_missing(total: nat, have: nat, n_layers: nat) -> nat {
    if page_count(total) > have {
        ((page_count(total) - have) * n_layers) as nat
    } else {
        0
    }
}

/// Pages per layer after a reservation of `total` positions.
pub open spec fn reserved_per_layer(total: nat, have: nat) -> nat {
    if page_count(total) > have {
        page_count(total)
    } else {
        have
    }
}

impl PagedKvCache {
    pub closed spec fn pages(&self) -> Seq<usize> {
        self.pages@
    }

    pub closed spec fn n_layers(&self) -> nat {
        self.n_layers as nat
    }

    pub closed spec fn per_layer(&self) -> nat {
        self.per_layer as nat
    }

    /// Positions that have been written.
    pub closed spec fn length(&self) -> nat {
        self.len as nat
    }

    pub closed spec fn wf(&self) -> bool {
        &&& self.pages@.len() == self.per_layer * self.n_layers
        &&& self.pages@.no_duplicates()
        &&& self.len <= self.per_layer * PAGE_SIZE
    }

    pub proof fn lemma_shape(&self)
        requires
            self.wf(),
        ensures
            self.pages().len() == self.per_layer() * self.n_layers(),
            self.pages().no_duplicates(),
            self.length() <= self.per_layer() * PAGE_SIZE,
    {
    }

    /// Every page of the table has a holder.
    pub open spec fn backed_by(&self, pool: &PagePool) -> bool {
        all_held(pool.refs(), self.pages())
    }

    /// An empty table.
    pub fn new(n_layers: usize) -> (c: Self)
        ensures
            c.wf(),
            c.n_layers() == n_layers,
            c.per_layer() == 0,
            c.pages().len() == 0,
            c.length() == 0,
    {
        let c = PagedKvCache { n_layers, per_layer: 0, pages: Vec::new(), len: 0 };
        assert(c.per_layer * c.n_layers == 0) by (nonlinear_arith)
            requires
                c.per_layer == 0,
        ;
        c
    }

    /// A table over pages that another holder shares, already written up to
    /// their end.
    pub fn over(n_layers: usize, per_layer: usize, pages: Vec<usize>) -> (c: Self)
        requires
            pages@.len() == per_layer * n_layers,
            pages@.no_duplicates(),
            per_layer * PAGE_SIZE <= usize::MAX,
        ensures
            c.wf(),
            c.n_layers() == n_layers,
            c.per_layer() == per_layer,
            c.pages() == pages@,
            c.length() == per_layer * PAGE_SIZE,
    {
        PagedKvCache { n_layers, per_layer, pages, len: per_layer * PAGE_SIZE }
    }

    pub fn len(&self) -> (n: usize)
        ensures
            n == self.length(),
    {
        self.len
    }

    pub fn layers(&self) -> (n: usize)
        ensures
            n == self.n_layers(),
    {
        self.n_layers
    }

    pub fn pages_per_layer(&self) -> (n: usize)
        ensures
            n == self.per_layer(),
    {
        self.per_layer
    }

    pub fn allocated_pages(&self) -> (n: usize)
        ensures
            n == self.pages().len(),
    {
        self.pages.len()
    }

    /// The first `n` pages of the table.
    pub fn first_pages(&self, n: usize) -> (v: Vec<usize>)
        requires
            n <= self.pages().len(),
        ensures
            v@ == self.pages().take(n as int),
    {
        let mut v: Vec<usize> = Vec::new();
        let mut i: usize = 0;
        while i < n
            invariant
                i <= n <= self.pages@.len(),
                v@ == self.pages@.take(i as int),
            decreases n - i,
        {
            v.push(self.pages[i]);
            i = i + 1;
            assert(v@ =~= self.pages@.take(i as int));
        }
        v
    }

    /// Where the keys and values of a position are kept in `layer`: the page, and the
    /// place in it.
    pub fn slot(&self, layer: usize, pos: usize) -> (at: (usize, usize))
        requires
            self.wf(),
            layer < self.n_layers(),
            pos < self.per_layer() * PAGE_SIZE,
        ensures
            at == slot_of(self.pages(), self.n_layers(), layer as nat, pos as nat),
            self.pages().contains(at.0),
            at.1 < PAGE_SIZE,
    {
        let block: usize = pos / PAGE_SIZE;
        let total: usize = self.pages.len();
        proof {
            lemma_place(self.per_layer(), self.n_layers(), layer as nat, pos as nat);
            assert(block * self.n_layers + layer < total);
            assert(0 <= block * self.n_layers) by (nonlinear_arith)
                requires
                    block >= 0,
                    self.n_layers >= 0,
            ;
        }
        let i: usize = block * self.n_layers + layer;
        assert(self.pages()[i as int] == self.pages@[i as int]);
        (self.pages[i], pos % PAGE_SIZE)
    }

    /// Record that one more position has been written.
    pub fn advance(&mut self)
        requires
            old(self).wf(),
            old(self).length() < old(self).per_layer() * PAGE_SIZE,
            old(self).length() < usize::MAX,
        ensures
            final(self).wf(),
            final(self).length() == old(self).length() + 1,
            final(self).pages() == old(self).pages(),
            final(self).n_layers() == old(self).n_layers(),
            final(self).per_layer() == old(self).per_layer(),
    {
        self.len = self.len + 1;
    }

    /// Give every page back to the pool.
    pub fn release(&mut self, pool: &mut PagePool)
        requires
            old(self).wf(),
            old(pool).wf(),
            old(self).backed_by(old(pool)),
        ensures
            final(self).wf(),
            final(pool).wf(),
            final(self).pages().len() == 0,
            final(self).per_layer() == 0,
            final(self).length() == 0,
            final(self).n_layers() == old(self).n_layers(),
            final(pool).capacity() == old(pool).capacity(),
            final(pool).peak() == old(pool).peak(),
            final(pool).refs() == released(old(pool).refs(), old(self).pages()),
    {
        pool.release(&self.pages);
        self.pages = Vec::new();
        self.per_layer = 0;
        self.len = 0;
        assert(self.per_layer * self.n_layers == 0) by (nonlinear_arith)
            requires
                self.per_layer == 0,
        ;
    }

    /// Make room for `total_positions`: take from the pool what is missing, all
    /// of it or nothing.
    pub fn reserve(&mut self, pool: &mut PagePool, total_positions: usize) -> (r: Result<
        (),
        GlintError,
    >)
        requires
            old(self).wf(),
            old(pool).wf(),
            old(self).backed_by(old(pool)),
        ensures
            final(self).wf(),
            final(pool).wf(),
            final(self).backed_by(final(pool)),
            final(pool).capacity() == old(pool).capacity(),
            final(self).n_layers() == old(self).n_layers(),
            final(self).length() == old(self).length(),
            ({
                let missing = pages_missing(
                    total_positions as nat,
                    old(self).per_layer(),
                    old(self).n_layers(),
                );
                match r {
                    Ok(_) => {
                        &&& missing <= old(pool).available()
                        &&& reserved(
                            old(self).pages(),
                            final(self).pages(),
                            old(pool).refs(),
                            final(pool).refs(),
                            missing,
                        )
                        &&& final(self).per_layer() == reserved_per_layer(
                            total_positions as nat,
                            old(self).per_layer(),
                        )
                    },
                    Err(e) => {
                        &&& missing > old(pool).available()
                        &&& e == (GlintError::KvPagePoolExhausted {
                            needed: if missing > usize::MAX {
                                usize::MAX
                            } else {
                                missing as usize
                            },
                            available: old(pool).available() as usize,
                        })
                        &&& *final(self) == *old(self)
                        &&& *final(pool) == *old(pool)
                    },
                }
            }),
    {
        let part: usize = if total_positions % PAGE_SIZE == 0 {
            0
        } else {
            1
        };
        let want: usize = total_positions / PAGE_SIZE + part;
        assert(want == page_count(total_positions as nat));
        let available: usize = pool.available_pages();
        if want <= self.per_layer {
            proof {
                assert(self.pages@.skip(self.pages@.len() as int) =~= Seq::empty());
                assert(self.pages@.take(self.pages@.len() as int) =~= self.pages@);
            }
            return Ok(());
        }
        let needed: usize = match (want - self.per_layer).checked_mul(self.n_layers) {
            Some(n) => n,
            None => {
                return Err(
                    GlintError::KvPagePoolExhausted { needed: usize::MAX, available },
                );
            },
        };
        if needed > available {
            return Err(GlintError::KvPagePoolExhausted { needed, available });
        }
        let ghost pages0 = self.pages@;
        let ghost refs0 = pool.refs();
        let mut i: usize = 0;
        while i < needed
            invariant
                i <= needed,
                pool.wf(),
                pool.capacity() == old(pool).capacity(),
                pool.live() == old(pool).live() + i,
                needed <= old(pool).available(),
                refs0 == old(pool).refs(),
                pages0 == old(self).pages@,
                self.n_layers == old(self).n_layers,
                self.per_layer == old(self).per_layer,
                self.len == old(self).len,
                self.pages@.len() == pages0.len() + i,
                self.pages@.take(pages0.len() as int) == pages0,
                self.pages@.no_duplicates(),
                all_held(pool.refs(), self.pages@),
                forall|k: int|
                    pages0.len() <= k < self.pages@.len() ==> holders(
                        refs0,
                        #[trigger] self.pages@[k] as int,
                    ) == 0,
                forall|id: usize| #[trigger]
                    holders(pool.refs(), id as int) == holders(refs0, id as int) + (if self.pages@.skip(
                        pages0.len() as int,
                    ).contains(id) {
                        1int
                    } else {
                        0
                    }),
            decreases needed - i,
        {
            let ghost before = self.pages@;
            let ghost fresh0 = before.skip(pages0.len() as int);
            let ghost refs1 = pool.refs();
            let id: usize = pool.claim();
            self.pages.push(id);
            proof {
                assert(holders(refs1, id as int) == 0);
                assert(!before.contains(id)) by {
                    if before.contains(id) {
                        let w = choose|w: int| 0 <= w < before.len() && before[w] == id;
                        assert(holders(refs1, before[w] as int) > 0);
                    }
                }
                let fresh1 = self.pages@.skip(pages0.len() as int);
                assert(fresh1 =~= fresh0.push(id));
                assert(!fresh0.contains(id)) by {
                    if fresh0.contains(id) {
                        let w = choose|w: int| 0 <= w < fresh0.len() && fresh0[w] == id;
                        assert(before[w + pages0.len()] == id);
                    }
                }
                assert forall|j: usize| fresh1.contains(j) == (fresh0.contains(j) || j == id) by {
                    if fresh0.contains(j) {
                        let w = choose|w: int| 0 <= w < fresh0.len() && fresh0[w] == j;
                        assert(fresh1[w] == j);
                    }
                    if j == id {
                        assert(fresh1[fresh0.len() as int] == j);
                    }
                    if fresh1.contains(j) && j != id {
                        let w = choose|w: int| 0 <= w < fresh1.len() && fresh1[w] == j;
                        assert(fresh0[w] == j);
                    }
                }
                assert(self.pages@.take(pages0.len() as int) =~= pages0);
                assert(holders(refs0, id as int) == 0);
                assert forall|k: int| 0 <= k < self.pages@.len() implies holders(
                    pool.refs(),
                    #[trigger] self.pages@[k] as int,
                ) > 0 by {
                    if k < before.len() {
                        assert(holders(refs1, before[k] as int) > 0);
                    }
                }
            }
            i = i + 1;
        }
        proof {
            let w = want as int;
            let p = self.per_layer as int;
            let n = self.n_layers as int;
            assert((w - p) * n + p * n == w * n) by (nonlinear_arith);
        }
        self.per_layer = want;
        assert(self.len <= self.per_layer * PAGE_SIZE);
        Ok(())
    }
}

/// A reservation added `missing` pages: none of them had a holder, each has one
/// now, and no other page is touched.
pub open spec fn reserved(
    before: Seq<usize>,
    after: Seq<usize>,
    refs0: Seq<usize>,
    refs1: Seq<usize>,
    missing: nat,
) -> bool {
    let fresh = after.skip(before.len() as int);
    &&& after.len() == before.len() + missing
    &&& after.take(before.len() as int) == before
    &&& after.no_duplicates()
    &&& live_count(refs1) == live_count(refs0) + missing
    &&& forall|k: int| 0 <= k < fresh.len() ==> holders(refs0, #[trigger] fresh[k] as int) == 0
    &&& forall|id: usize| #[trigger]
        holders(refs1, id as int) == holders(refs0, id as int) + (if fresh.contains(id) {
            1int
        } else {
            0
        })
}

// ── Where a position is kept ─────────────────────────────────────────────────

/// The index in a page table of the page that holds a position of `layer`.
pub open spec fn place_of(n_layers: nat, layer: nat, pos: nat) -> nat {
    pos / PAGE_SIZE as nat * n_layers + layer
}

/// The page that holds a position of `layer`, and the place in it.
pub open spec fn slot_of(pages: Seq<usize>, n_layers: nat, layer: nat, pos: nat) -> (usize, usize) {
    (pages[place_of(n_layers, layer, pos) as int], (pos % PAGE_SIZE as nat) as usize)
}

proof fn lemma_place(per_layer: nat, n_layers: nat, layer: nat, pos: nat)
    requires
        layer < n_layers,
        pos < per_layer * PAGE_SIZE,
    ensures
        place_of(n_layers, layer, pos) < per_layer * n_layers,
{
    let block = pos / PAGE_SIZE as nat;
    assert(block < per_layer);
    assert(block * n_layers + n_layers <= per_layer * n_layers) by (nonlinear_arith)
        requires
            block + 1 <= per_layer,
    ;
}

/// Different positions are kept in different places: no write of a sequence lands on
/// another position of it.
pub proof fn law_positions_have_their_own_slots(
    c: PagedKvCache,
    layer_a: nat,
    pos_a: nat,
    layer_b: nat,
    pos_b: nat,
)
    requires
        c.wf(),
        layer_a < c.n_layers(),
        layer_b < c.n_layers(),
        pos_a < c.per_layer() * PAGE_SIZE,
        pos_b < c.per_layer() * PAGE_SIZE,
        slot_of(c.pages(), c.n_layers(), layer_a, pos_a) == slot_of(
            c.pages(),
            c.n_layers(),
            layer_b,
            pos_b,
        ),
    ensures
        layer_a == layer_b,
        pos_a == pos_b,
{
    let n = c.n_layers();
    c.lemma_shape();
    lemma_place(c.per_layer(), n, layer_a, pos_a);
    lemma_place(c.per_layer(), n, layer_b, pos_b);
    let (a, b) = (pos_a / PAGE_SIZE as nat, pos_b / PAGE_SIZE as nat);
    assert(a * n + layer_a == b * n + layer_b);
    assert(a == b && layer_a == layer_b) by {
        vstd::arithmetic::div_mod::lemma_fundamental_div_mod_converse(
            (a * n + layer_a) as int,
            n as int,
            a as int,
            layer_a as int,
        );
        vstd::arithmetic::div_mod::lemma_fundamental_div_mod_converse(
            (a * n + layer_a) as int,
            n as int,
            b as int,
            layer_b as int,
        );
    }
}

/// A reservation leaves room for all positions asked for and takes no page that was there;
/// one page fewer in each layer would not do, unless it was there before.
pub proof fn law_reservations_are_as_small_as_they_can_be(total: nat, have: nat, n_layers: nat)
    ensures
        ({
            let per_layer = reserved_per_layer(total, have);
            &&& per_layer >= have
            &&& per_layer * PAGE_SIZE >= total
            &&& per_layer > have ==> (per_layer - 1) * PAGE_SIZE < total
            &&& have * n_layers + pages_missing(total, have, n_layers) == per_layer * n_layers
        }),
{
    let per_layer = reserved_per_layer(total, have);
    assert(have * n_layers + (per_layer - have) * n_layers == per_layer * n_layers)
        by (nonlinear_arith);
    assert((per_layer - have) * n_layers >= 0) by (nonlinear_arith)
        requires
            per_layer >= have,
            n_layers >= 0,
    ;
}

} // verus!
