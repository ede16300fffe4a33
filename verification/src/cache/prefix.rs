//! The registry of prompt prefixes whose pages are kept for reuse.
use vstd::prelude::*;

use crate::cache::paged::{reserved, PagedKvCache};
use crate::cache::pool::{
    all_held, backed, held, holders, live_count, released, retained, PagePool, PAGE_SIZE,
};

verus! {

/// Bounds of a registry.
#[derive(Clone, Copy, Debug, PartialEq, Eq, Structural)]
pub struct PrefixCacheConfig {
    /// Prefixes kept at most.
    pub max_entries: usize,
}

/// Counters of a registry.
#[derive(Clone, Copy, Debug, PartialEq, Eq, Structural)]
pub struct PrefixCacheStats {
    pub hits: u64,
    pub misses: u64,
    pub evictions: u64,
    pub tokens_reused: u64,
    /// Prefixes kept right now.
    pub entries: usize,
    /// Pages that they hold.
    pub pages: usize,
}

/// One kept prefix: whole pages of prompt tokens, the adapter that they were
/// computed with, and the pages that hold their keys and values.
#[derive(Debug)]
pub struct PrefixEntry {
    pub tokens: Vec<u32>,
    pub lora: Option<String>,
    pub pages: Vec<usize>,
}

/// The page lists of a sequence of entries.
pub open spec fn page_lists(entries: Seq<PrefixEntry>) -> Seq<Seq<usize>> {
    Seq::new(entries.len(), |i: int| entries[i].pages@)
}

/// Kept prefixes, the least recently used first.
#[derive(Debug)]
pub struct PrefixCache {
    pub max_entries: usize,
    pub entries: Vec<PrefixEntry>,
    pub hits: u64,
    pub misses: u64,
    pub evictions: u64,
    pub tokens_reused: u64,
}

/// `a + b`, held at the largest counter value.
pub open spec fn counted(a: u64, b: int) -> u64 {
    if a + b > u64::MAX {
        u64::MAX
    } else {
        (a + b) as u64
    }
}

impl PrefixCache {
    pub fn new(cfg: PrefixCacheConfig) -> (c: Self)
        ensures
            c.max_entries == cfg.max_entries,
            c.entries@.len() == 0,
            c.hits == 0,
            c.misses == 0,
            c.evictions == 0,
            c.tokens_reused == 0,
    {
        PrefixCache {
            max_entries: cfg.max_entries,
            entries: Vec::new(),
            hits: 0,
            misses: 0,
            evictions: 0,
            tokens_reused: 0,
        }
    }

    pub fn len(&self) -> (n: usize)
        ensures
            n == self.entries@.len(),
    {
        self.entries.len()
    }

    pub fn is_empty(&self) -> (b: bool)
        ensures
            b == (self.entries@.len() == 0),
    {
        self.entries.len() == 0
    }

    /// Give up the least recently used prefix. False if there is none.
    pub fn evict_lru(&mut self, pool: &mut PagePool) -> (b: bool)
        requires
            old(pool).wf(),
            old(self).entries@.len() > 0 ==> {
                &&& old(self).entries@[0].pages@.no_duplicates()
                &&& all_held(old(pool).refs(), old(self).entries@[0].pages@)
            },
        ensures
            final(pool).wf(),
            final(pool).capacity() == old(pool).capacity(),
            b == (old(self).entries@.len() > 0),
            final(self).max_entries == old(self).max_entries,
            final(self).hits == old(self).hits,
            final(self).misses == old(self).misses,
            final(self).tokens_reused == old(self).tokens_reused,
            b ==> {
                &&& final(self).entries@ == old(self).entries@.skip(1)
                &&& final(self).evictions == counted(old(self).evictions, 1)
                &&& final(pool).refs() == released(
                    old(pool).refs(),
                    old(self).entries@[0].pages@,
                )
            },
            !b ==> *final(self) == *old(self) && *final(pool) == *old(pool),
    {
        if self.entries.len() == 0 {
            return false;
        }
        let e = self.entries.remove(0);
        assert(self.entries@ =~= old(self).entries@.skip(1));
        pool.release(&e.pages);
        self.evictions = self.evictions.saturating_add(1);
        true
    }
}

// ── Reservation under pressure ───────────────────────────────────────────────

/// The counts after the first `k` lists have been given up, in order.
pub open spec fn after_evictions(refs: Seq<usize>, lists: Seq<Seq<usize>>, k: nat) -> Seq<usize>
    decreases k,
{
    if k == 0 {
        refs
    } else {
        released(after_evictions(refs, lists, (k - 1) as nat), lists[k - 1])
    }
}

/// True if `missing` pages can be handed out once the first `k` lists are gone.
pub open spec fn fits_after(
    refs: Seq<usize>,
    lists: Seq<Seq<usize>>,
    k: nat,
    capacity: nat,
    missing: nat,
) -> bool {
    missing + live_count(after_evictions(refs, lists, k)) <= capacity
}

/// The entries of a registry, none where there is no registry.
pub open spec fn entries_of(prefix: Option<PrefixCache>) -> Seq<PrefixEntry> {
    match prefix {
        Some(p) => p.entries@,
        None => Seq::empty(),
    }
}

/// The page lists of a registry and of one sequence beside it.
pub open spec fn lists_with(prefix: Option<PrefixCache>, pages: Seq<usize>) -> Seq<Seq<usize>> {
    page_lists(entries_of(prefix)).push(pages)
}

/// What stays the same about the counts: the holders of a page that are not
/// among `lists0` before are exactly those that are not among `lists1` after.
pub open spec fn conserved(
    refs0: Seq<usize>,
    lists0: Seq<Seq<usize>>,
    refs1: Seq<usize>,
    lists1: Seq<Seq<usize>>,
) -> bool {
    forall|id: usize|
        #![trigger held(lists1, id)]
        #![trigger holders(refs1, id as int)]
        holders(refs1, id as int) - held(lists1, id) == holders(refs0, id as int) - held(
            lists0,
            id,
        )
}

pub proof fn lemma_held_concat(a: Seq<Seq<usize>>, b: Seq<Seq<usize>>, id: usize)
    ensures
        held(a + b, id) == held(a, id) + held(b, id),
    decreases b.len(),
{
    if b.len() == 0 {
        assert(a + b =~= a);
    } else {
        lemma_held_concat(a, b.drop_last(), id);
        assert((a + b).drop_last() =~= a + b.drop_last());
    }
}

pub proof fn lemma_held_single(p: Seq<usize>, id: usize)
    ensures
        held(seq![p], id) == (if p.contains(id) {
            1nat
        } else {
            0
        }),
{
    reveal_with_fuel(held, 2);
    assert(seq![p].drop_last() =~= Seq::empty());
}

pub proof fn lemma_held_skip(lists: Seq<Seq<usize>>, id: usize)
    requires
        lists.len() > 0,
    ensures
        held(lists, id) == held(lists.skip(1), id) + (if lists[0].contains(id) {
            1nat
        } else {
            0
        }),
{
    lemma_held_concat(seq![lists[0]], lists.skip(1), id);
    lemma_held_single(lists[0], id);
    assert(seq![lists[0]] + lists.skip(1) =~= lists);
}

pub proof fn lemma_held_member(lists: Seq<Seq<usize>>, i: int, id: usize)
    requires
        0 <= i < lists.len(),
        lists[i].contains(id),
    ensures
        held(lists, id) > 0,
    decreases lists.len(),
{
    if i < lists.len() - 1 {
        lemma_held_member(lists.drop_last(), i, id);
    }
}

/// A backed list is held.
pub proof fn lemma_backed_list_is_held(refs: Seq<usize>, lists: Seq<Seq<usize>>, i: int)
    requires
        backed(refs, lists),
        0 <= i < lists.len(),
    ensures
        lists[i].no_duplicates(),
        all_held(refs, lists[i]),
{
    assert forall|k: int| 0 <= k < lists[i].len() implies holders(
        refs,
        #[trigger] lists[i][k] as int,
    ) > 0 by {
        lemma_held_member(lists, i, lists[i][k]);
    }
}

/// Giving up the first list leaves the others backed and conserves the rest.
pub proof fn lemma_first_list_given_up(refs: Seq<usize>, lists: Seq<Seq<usize>>)
    requires
        backed(refs, lists),
        lists.len() > 0,
    ensures
        backed(released(refs, lists[0]), lists.skip(1)),
        conserved(refs, lists, released(refs, lists[0]), lists.skip(1)),
{
    let r1 = released(refs, lists[0]);
    lemma_backed_list_is_held(refs, lists, 0);
    assert forall|id: usize| #[trigger] holders(r1, id as int) == holders(refs, id as int) - (
    if lists[0].contains(id) {
        1int
    } else {
        0
    }) by {
        if lists[0].contains(id) {
            let k = choose|k: int| 0 <= k < lists[0].len() && lists[0][k] == id;
            assert(holders(refs, lists[0][k] as int) > 0);
        }
    }
    assert forall|id: usize| #[trigger] held(lists.skip(1), id) <= holders(r1, id as int) by {
        lemma_held_skip(lists, id);
        assert(held(lists, id) <= holders(refs, id as int));
        assert(holders(r1, id as int) == holders(refs, id as int) - (if lists[0].contains(id) {
            1int
        } else {
            0
        }));
    }
    assert forall|id: usize|
        holders(r1, id as int) - #[trigger] held(lists.skip(1), id) == holders(refs, id as int)
            - held(lists, id) by {
        lemma_held_skip(lists, id);
        assert(holders(r1, id as int) == holders(refs, id as int) - (if lists[0].contains(id) {
            1int
        } else {
            0
        }));
    }
}

/// Reserving pages for the last list leaves all lists backed and conserves the
/// rest.
pub proof fn lemma_last_list_extended(
    refs0: Seq<usize>,
    refs1: Seq<usize>,
    lists: Seq<Seq<usize>>,
    before: Seq<usize>,
    after: Seq<usize>,
    missing: nat,
)
    requires
        backed(refs0, lists.push(before)),
        reserved(before, after, refs0, refs1, missing),
    ensures
        backed(refs1, lists.push(after)),
        conserved(refs0, lists.push(before), refs1, lists.push(after)),
{
    let l0 = lists.push(before);
    let l1 = lists.push(after);
    let fresh = after.skip(before.len() as int);
    assert(l0.drop_last() =~= lists);
    assert(l1.drop_last() =~= lists);
    assert forall|id: usize|
        after.contains(id) == (before.contains(id) || fresh.contains(id)) by {
        if after.contains(id) {
            let w = choose|w: int| 0 <= w < after.len() && after[w] == id;
            if w < before.len() {
                assert(after.take(before.len() as int)[w] == id);
            } else {
                assert(fresh[w - before.len()] == id);
            }
        }
        if before.contains(id) {
            let w = choose|w: int| 0 <= w < before.len() && before[w] == id;
            assert(after.take(before.len() as int)[w] == after[w]);
        }
        if fresh.contains(id) {
            let w = choose|w: int| 0 <= w < fresh.len() && fresh[w] == id;
            assert(after[w + before.len()] == id);
        }
    }
    assert forall|id: usize| fresh.contains(id) implies !before.contains(id) by {
        if fresh.contains(id) && before.contains(id) {
            let w = choose|w: int| 0 <= w < fresh.len() && fresh[w] == id;
            assert(holders(refs0, fresh[w] as int) == 0);
            lemma_held_member(l0, lists.len() as int, id);
            assert(held(l0, id) <= holders(refs0, id as int));
        }
    }
    assert forall|id: usize|
        holders(refs1, id as int) - #[trigger] held(l1, id) == holders(refs0, id as int) - held(
            l0,
            id,
        ) by {
        assert(holders(refs1, id as int) == holders(refs0, id as int) + (if fresh.contains(id) {
            1int
        } else {
            0
        }));
        assert(held(l1, id) == held(lists, id) + if after.contains(id) {
            1nat
        } else {
            0
        });
        assert(held(l0, id) == held(lists, id) + if before.contains(id) {
            1nat
        } else {
            0
        });
    }
    assert forall|id: usize| #[trigger] held(l1, id) <= holders(refs1, id as int) by {
        assert(held(l0, id) <= holders(refs0, id as int));
    }
    assert forall|i: int| 0 <= i < l1.len() implies (#[trigger] l1[i]).no_duplicates() by {
        if i < lists.len() {
            assert(l0[i] == l1[i]);
        }
    }
}

// ── Lookup and insertion ─────────────────────────────────────────────────────

/// How many leading tokens two sequences share.
pub open spec fn shared_len(a: Seq<u32>, b: Seq<u32>) -> nat
    decreases a.len(),
{
    if a.len() == 0 || b.len() == 0 || a[0] != b[0] {
        0
    } else {
        1 + shared_len(a.skip(1), b.skip(1))
    }
}

/// What two texts share is the same in both.
pub proof fn lemma_shared_is_common(a: Seq<u32>, b: Seq<u32>, n: nat)
    requires
        n <= shared_len(a, b),
    ensures
        n <= a.len(),
        n <= b.len(),
        a.take(n as int) == b.take(n as int),
    decreases a.len(),
{
    if n > 0 {
        lemma_shared_is_common(a.skip(1), b.skip(1), (n - 1) as nat);
        assert forall|i: int| 0 <= i < n implies a[i] == b[i] by {
            if i > 0 {
                assert(a.skip(1).take(n - 1)[i - 1] == a[i]);
                assert(b.skip(1).take(n - 1)[i - 1] == b[i]);
            }
        }
    }
    assert(a.take(n as int) =~= b.take(n as int));
}

/// Whole pages of a kept prefix that a prompt can start from. At least one
/// token of the prompt is left to compute, since its logits are needed.
pub open spec fn reusable_pages(kept: Seq<u32>, prompt: Seq<u32>) -> nat {
    let shared = shared_len(kept, prompt);
    if prompt.len() == 0 {
        0
    } else if shared < prompt.len() {
        shared / PAGE_SIZE as nat
    } else {
        ((prompt.len() - 1) / PAGE_SIZE as int) as nat
    }
}

/// The adapter name that an entry is kept under.
pub open spec fn adapter_key(o: Option<String>) -> Option<Seq<char>> {
    match o {
        Some(s) => Some(s@),
        None => None,
    }
}

/// What `e` saves a prompt that runs with adapter `lora`, in pages per layer.
pub open spec fn entry_saves(e: PrefixEntry, prompt: Seq<u32>, lora: Option<Seq<char>>) -> nat {
    if adapter_key(e.lora) == lora {
        reusable_pages(e.tokens@, prompt)
    } else {
        0
    }
}

/// An entry holds whole pages: one page per layer for each run of tokens.
pub open spec fn entry_wf(e: PrefixEntry, n_layers: nat) -> bool {
    &&& e.tokens@.len() % PAGE_SIZE as nat == 0
    &&& e.pages@.len() == e.tokens@.len() / PAGE_SIZE as nat * n_layers
}

pub open spec fn entries_wf(entries: Seq<PrefixEntry>, n_layers: nat) -> bool {
    forall|i: int| 0 <= i < entries.len() ==> entry_wf(#[trigger] entries[i], n_layers)
}

/// Entry `i` saves the prompt the most, and no earlier entry saves as much.
pub open spec fn best_entry(
    entries: Seq<PrefixEntry>,
    prompt: Seq<u32>,
    lora: Option<Seq<char>>,
    i: int,
) -> bool {
    &&& 0 <= i < entries.len()
    &&& entry_saves(entries[i], prompt, lora) > 0
    &&& forall|j: int|
        0 <= j < entries.len() ==> entry_saves(#[trigger] entries[j], prompt, lora)
            <= entry_saves(entries[i], prompt, lora)
    &&& forall|j: int|
        0 <= j < i ==> entry_saves(#[trigger] entries[j], prompt, lora) < entry_saves(
            entries[i],
            prompt,
            lora,
        )
}

/// The most that any entry saves the prompt, in pages per layer.
pub open spec fn most_saved(
    entries: Seq<PrefixEntry>,
    prompt: Seq<u32>,
    lora: Option<Seq<char>>,
) -> nat
    decreases entries.len(),
{
    if entries.len() == 0 {
        0
    } else {
        let rest = most_saved(entries.drop_last(), prompt, lora);
        let last = entry_saves(entries.last(), prompt, lora);
        if last > rest {
            last
        } else {
            rest
        }
    }
}

pub proof fn lemma_most_saved_bounds(
    entries: Seq<PrefixEntry>,
    prompt: Seq<u32>,
    lora: Option<Seq<char>>,
)
    ensures
        forall|j: int|
            0 <= j < entries.len() ==> entry_saves(#[trigger] entries[j], prompt, lora)
                <= most_saved(entries, prompt, lora),
        most_saved(entries, prompt, lora) > 0 ==> exists|j: int|
            0 <= j < entries.len() && entry_saves(#[trigger] entries[j], prompt, lora)
                == most_saved(entries, prompt, lora),
    decreases entries.len(),
{
    if entries.len() > 0 {
        let front = entries.drop_last();
        lemma_most_saved_bounds(front, prompt, lora);
        assert forall|j: int| 0 <= j < entries.len() implies entry_saves(
            #[trigger] entries[j],
            prompt,
            lora,
        ) <= most_saved(entries, prompt, lora) by {
            if j < front.len() {
                assert(front[j] == entries[j]);
            }
        }
        if most_saved(entries, prompt, lora) > 0 {
            let last = entry_saves(entries.last(), prompt, lora);
            if last == most_saved(entries, prompt, lora) {
                assert(entries[entries.len() - 1] == entries.last());
            } else {
                let j = choose|j: int|
                    0 <= j < front.len() && entry_saves(#[trigger] front[j], prompt, lora)
                        == most_saved(front, prompt, lora);
                assert(entries[j] == front[j]);
            }
        }
    }
}

fn same_adapter(a: &Option<String>, b: &Option<String>) -> (r: bool)
    ensures
        r == (adapter_key(*a) == adapter_key(*b)),
{
    match (a, b) {
        (None, None) => true,
        (Some(x), Some(y)) => *x == *y,
        _ => false,
    }
}

fn count_shared(a: &[u32], b: &[u32]) -> (n: usize)
    ensures
        n == shared_len(a@, b@),
        n <= a@.len(),
        n <= b@.len(),
{
    let mut n: usize = 0;
    assert(a@.skip(0) =~= a@);
    assert(b@.skip(0) =~= b@);
    while n < a.len() && n < b.len() && a[n] == b[n]
        invariant
            n <= a@.len(),
            n <= b@.len(),
            shared_len(a@, b@) == n + shared_len(a@.skip(n as int), b@.skip(n as int)),
        decreases a@.len() - n,
    {
        assert(a@.skip(n as int).skip(1) =~= a@.skip(n as int + 1));
        assert(b@.skip(n as int).skip(1) =~= b@.skip(n as int + 1));
        n = n + 1;
    }
    n
}

fn count_reusable(kept: &[u32], prompt: &[u32]) -> (n: usize)
    ensures
        n == reusable_pages(kept@, prompt@),
        n * PAGE_SIZE <= kept@.len(),
        prompt@.len() > 0 ==> n * PAGE_SIZE < prompt@.len(),
{
    let shared: usize = count_shared(kept, prompt);
    if prompt.len() == 0 {
        0
    } else if shared < prompt.len() {
        shared / PAGE_SIZE
    } else {
        (prompt.len() - 1) / PAGE_SIZE
    }
}

impl PrefixCache {
    /// Find the kept prefix that saves `prompt` the most and fork its pages.
    ///
    /// A hit makes the entry the most recently used one. `None` is a miss: no
    /// whole page can be reused, or a page has as many holders as can be
    /// counted.
    pub fn lookup(
        &mut self,
        pool: &mut PagePool,
        prompt: &[u32],
        lora: &Option<String>,
        n_layers: usize,
    ) -> (r: Option<PagedKvCache>)
        requires
            old(pool).wf(),
            entries_wf(old(self).entries@, n_layers as nat),
            backed(old(pool).refs(), page_lists(old(self).entries@)),
        ensures
            final(pool).wf(),
            final(pool).capacity() == old(pool).capacity(),
            final(pool).live() == old(pool).live(),
            final(self).max_entries == old(self).max_entries,
            final(self).evictions == old(self).evictions,
            r is None ==> missed(
                *old(self),
                *final(self),
                *old(pool),
                *final(pool),
                prompt@,
                adapter_key(*lora),
            ),
            r is Some ==> exists|i: int| #[trigger]
                looked_up(
                    *old(self),
                    *final(self),
                    *old(pool),
                    *final(pool),
                    prompt@,
                    adapter_key(*lora),
                    n_layers as nat,
                    i,
                    r->0,
                ),
    {
        let ghost entries = self.entries@;
        let ghost key = adapter_key(*lora);
        let mut best: usize = 0;
        let mut saves: usize = 0;
        let mut i: usize = 0;
        while i < self.entries.len()
            invariant
                *self == *old(self),
                entries == self.entries@,
                key == adapter_key(*lora),
                i <= entries.len(),
                saves > 0 ==> {
                    &&& best < i
                    &&& entry_saves(entries[best as int], prompt@, key) == saves
                    &&& saves * PAGE_SIZE <= entries[best as int].tokens@.len()
                    &&& saves * PAGE_SIZE < prompt@.len()
                },
                forall|j: int|
                    0 <= j < i ==> entry_saves(#[trigger] entries[j], prompt@, key) <= saves,
                saves > 0 ==> forall|j: int|
                    0 <= j < best ==> entry_saves(#[trigger] entries[j], prompt@, key) < saves,
            decreases entries.len() - i,
        {
            if same_adapter(&self.entries[i].lora, lora) {
                let n: usize = count_reusable(self.entries[i].tokens.as_slice(), prompt);
                if n > saves {
                    best = i;
                    saves = n;
                }
            }
            i = i + 1;
        }
        if saves == 0 {
            self.misses = self.misses.saturating_add(1);
            return None;
        }
        let ghost lists = page_lists(entries);
        proof {
            lemma_backed_list_is_held(pool.refs(), lists, best as int);
            assert(lists[best as int] == entries[best as int].pages@);
            assert(entry_wf(entries[best as int], n_layers as nat));
            let whole = entries[best as int].tokens@.len() / PAGE_SIZE as nat;
            assert(saves <= whole);
            assert(saves * n_layers <= whole * n_layers) by (nonlinear_arith)
                requires
                    saves <= whole,
            ;
        }
        let have: usize = self.entries[best].pages.len();
        let prompt_len: usize = prompt.len();
        assert(saves * n_layers <= have);
        assert(saves * PAGE_SIZE <= prompt_len);
        let take: usize = saves * n_layers;
        let mut pages: Vec<usize> = Vec::new();
        let mut k: usize = 0;
        while k < take
            invariant
                *self == *old(self),
                entries == self.entries@,
                best < entries.len(),
                k <= take <= entries[best as int].pages@.len(),
                pages@ == entries[best as int].pages@.take(k as int),
            decreases take - k,
        {
            pages.push(self.entries[best].pages[k]);
            k = k + 1;
            assert(pages@ =~= entries[best as int].pages@.take(k as int));
        }
        assert(all_held(pool.refs(), pages@)) by {
            assert forall|j: int| 0 <= j < pages@.len() implies holders(
                pool.refs(),
                #[trigger] pages@[j] as int,
            ) > 0 by {
                assert(pages@[j] == entries[best as int].pages@[j]);
            }
        }
        if !pool.can_retain(&pages) {
            self.misses = self.misses.saturating_add(1);
            proof {
                let j = choose|j: int|
                    0 <= j < pages@.len() && !(holders(pool.refs(), #[trigger] pages@[j] as int)
                        < usize::MAX);
                assert(holders(pool.refs(), pages@[j] as int) == usize::MAX);
            }
            return None;
        }
        pool.retain(&pages);
        let e = self.entries.remove(best);
        self.entries.push(e);
        self.hits = self.hits.saturating_add(1);
        self.tokens_reused = self.tokens_reused.saturating_add((saves * PAGE_SIZE) as u64);
        let c = PagedKvCache::over(n_layers, saves, pages);
        let found = Some(c);
        assert(looked_up(
            *old(self),
            *self,
            *old(pool),
            *pool,
            prompt@,
            adapter_key(*lora),
            n_layers as nat,
            best as int,
            found->0,
        ));
        found
    }
}

/// A lookup that found nothing to reuse.
pub open spec fn missed(
    p0: PrefixCache,
    p1: PrefixCache,
    pool0: PagePool,
    pool1: PagePool,
    prompt: Seq<u32>,
    lora: Option<Seq<char>>,
) -> bool {
    &&& p1.entries@ == p0.entries@
    &&& pool1.refs() == pool0.refs()
    &&& p1.hits == p0.hits
    &&& p1.misses == counted(p0.misses, 1)
    &&& p1.tokens_reused == p0.tokens_reused
    &&& (forall|i: int|
        0 <= i < p0.entries@.len() ==> entry_saves(#[trigger] p0.entries@[i], prompt, lora) == 0)
        || (exists|id: usize| #[trigger] holders(pool0.refs(), id as int) == usize::MAX)
}

/// A lookup that forked the first pages of entry `i`.
pub open spec fn looked_up(
    p0: PrefixCache,
    p1: PrefixCache,
    pool0: PagePool,
    pool1: PagePool,
    prompt: Seq<u32>,
    lora: Option<Seq<char>>,
    n_layers: nat,
    i: int,
    c: PagedKvCache,
) -> bool {
    let e = p0.entries@[i];
    let saves = entry_saves(e, prompt, lora);
    &&& best_entry(p0.entries@, prompt, lora, i)
    &&& c.wf()
    &&& c.n_layers() == n_layers
    &&& c.per_layer() == saves
    &&& c.length() == saves * PAGE_SIZE
    &&& c.length() < prompt.len()
    &&& c.pages() == e.pages@.take((saves * n_layers) as int)
    &&& all_held(pool0.refs(), c.pages())
    &&& forall|k: int|
        0 <= k < c.pages().len() ==> holders(pool0.refs(), #[trigger] c.pages()[k] as int)
            < usize::MAX
    &&& pool1.refs() == retained(pool0.refs(), c.pages())
    &&& p1.entries@ == p0.entries@.remove(i).push(e)
    &&& p1.hits == counted(p0.hits, 1)
    &&& p1.misses == p0.misses
    &&& p1.tokens_reused == counted(p0.tokens_reused, saves * PAGE_SIZE)
}

/// Giving up one list leaves the others backed and conserves the rest.
pub proof fn lemma_list_given_up(
    refs: Seq<usize>,
    a: Seq<Seq<usize>>,
    x: Seq<usize>,
    b: Seq<Seq<usize>>,
)
    requires
        backed(refs, a + seq![x] + b),
    ensures
        x.no_duplicates(),
        all_held(refs, x),
        backed(released(refs, x), a + b),
        conserved(refs, a + seq![x] + b, released(refs, x), a + b),
{
    let l0 = a + seq![x] + b;
    let r1 = released(refs, x);
    assert(l0[a.len() as int] == x);
    lemma_backed_list_is_held(refs, l0, a.len() as int);
    assert forall|id: usize|
        holders(r1, id as int) - #[trigger] held(a + b, id) == holders(refs, id as int) - held(
            l0,
            id,
        ) && held(a + b, id) <= holders(r1, id as int) by {
        lemma_held_concat(a, b, id);
        lemma_held_concat(a + seq![x], b, id);
        lemma_held_concat(a, seq![x], id);
        lemma_held_single(x, id);
        assert(held(l0, id) <= holders(refs, id as int));
        if x.contains(id) {
            let k = choose|k: int| 0 <= k < x.len() && x[k] == id;
            assert(holders(refs, x[k] as int) > 0);
        }
    }
    assert forall|i: int| 0 <= i < (a + b).len() implies (#[trigger] (a + b)[i]).no_duplicates() by {
        if i < a.len() {
            assert((a + b)[i] == l0[i]);
        } else {
            assert((a + b)[i] == l0[i + 1]);
        }
    }
}

/// Taking one more list of held pages keeps all lists backed and conserves the
/// rest.
pub proof fn lemma_list_added(
    refs: Seq<usize>,
    a: Seq<Seq<usize>>,
    x: Seq<usize>,
    b: Seq<Seq<usize>>,
)
    requires
        backed(refs, a + b),
        x.no_duplicates(),
        forall|k: int| 0 <= k < x.len() ==> 0 < holders(refs, #[trigger] x[k] as int) < usize::MAX,
    ensures
        backed(retained(refs, x), a + seq![x] + b),
        conserved(refs, a + b, retained(refs, x), a + seq![x] + b),
{
    let l1 = a + seq![x] + b;
    let r1 = retained(refs, x);
    assert forall|id: usize|
        holders(r1, id as int) - #[trigger] held(l1, id) == holders(refs, id as int) - held(
            a + b,
            id,
        ) && held(l1, id) <= holders(r1, id as int) by {
        lemma_held_concat(a, b, id);
        lemma_held_concat(a + seq![x], b, id);
        lemma_held_concat(a, seq![x], id);
        lemma_held_single(x, id);
        assert(held(a + b, id) <= holders(refs, id as int));
        if x.contains(id) {
            let k = choose|k: int| 0 <= k < x.len() && x[k] == id;
            assert(holders(refs, x[k] as int) > 0);
        }
    }
    assert forall|i: int| 0 <= i < l1.len() implies (#[trigger] l1[i]).no_duplicates() by {
        if i < a.len() {
            assert(l1[i] == (a + b)[i]);
        } else if i > a.len() {
            assert(l1[i] == (a + b)[i - 1]);
        }
    }
}

/// Entry `e` already covers the whole pages `aligned`.
pub open spec fn covers(e: PrefixEntry, aligned: Seq<u32>, lora: Option<Seq<char>>) -> bool {
    &&& adapter_key(e.lora) == lora
    &&& aligned.len() <= e.tokens@.len()
    &&& shared_len(e.tokens@, aligned) == aligned.len()
}

/// Entry `e` is the beginning of `aligned` and nothing more.
pub open spec fn superseded(e: PrefixEntry, aligned: Seq<u32>, lora: Option<Seq<char>>) -> bool {
    &&& adapter_key(e.lora) == lora
    &&& shared_len(e.tokens@, aligned) == e.tokens@.len()
}

/// The entries that `aligned` does not supersede, in order.
pub open spec fn not_superseded(
    entries: Seq<PrefixEntry>,
    aligned: Seq<u32>,
    lora: Option<Seq<char>>,
) -> Seq<PrefixEntry>
    decreases entries.len(),
{
    if entries.len() == 0 {
        Seq::empty()
    } else {
        let rest = not_superseded(entries.drop_last(), aligned, lora);
        if superseded(entries.last(), aligned, lora) {
            rest
        } else {
            rest.push(entries.last())
        }
    }
}

/// The whole pages of a prompt.
pub open spec fn whole_pages(tokens: Seq<u32>) -> Seq<u32> {
    tokens.take((tokens.len() / PAGE_SIZE as nat * PAGE_SIZE as nat) as int)
}

/// What an insertion does to the entries: nothing for a prompt shorter than a
/// page, a refresh where entry `i` already covers it, and else a new entry in
/// place of those that it supersedes, the oldest leaving where there is no room.
pub open spec fn inserted(
    p0: PrefixCache,
    p1: PrefixCache,
    refs0: Seq<usize>,
    tokens: Seq<u32>,
    lora: Option<Seq<char>>,
    pages: Seq<usize>,
    i: int,
    e: PrefixEntry,
) -> bool {
    let aligned = whole_pages(tokens);
    if aligned.len() == 0 {
        p1.entries@ == p0.entries@ && p1.evictions == p0.evictions
    } else if exists|j: int|
        0 <= j < p0.entries@.len() && covers(#[trigger] p0.entries@[j], aligned, lora) {
        &&& 0 <= i < p0.entries@.len()
        &&& covers(p0.entries@[i], aligned, lora)
        &&& forall|j: int| 0 <= j < i ==> !covers(#[trigger] p0.entries@[j], aligned, lora)
        &&& p1.entries@ == p0.entries@.remove(i).push(p0.entries@[i])
        &&& p1.evictions == p0.evictions
    } else if exists|k: int|
        0 <= k < pages.len() && holders(refs0, #[trigger] pages[k] as int) >= usize::MAX {
        p1.entries@ == p0.entries@ && p1.evictions == p0.evictions
    } else {
        let all = not_superseded(p0.entries@, aligned, lora).push(e);
        let over = if all.len() > p0.max_entries {
            all.len() - p0.max_entries
        } else {
            0
        };
        &&& e.tokens@ == aligned
        &&& adapter_key(e.lora) == lora
        &&& e.pages@ == pages
        &&& p1.entries@ == all.skip(over)
        &&& p1.evictions == counted(p0.evictions, over)
    }
}

/// Every entry of `a` is one of `b`.
pub open spec fn all_from(a: Seq<PrefixEntry>, b: Seq<PrefixEntry>) -> bool {
    forall|i: int| 0 <= i < a.len() ==> b.contains(#[trigger] a[i])
}

pub proof fn lemma_not_superseded_from(
    entries: Seq<PrefixEntry>,
    aligned: Seq<u32>,
    lora: Option<Seq<char>>,
)
    ensures
        all_from(not_superseded(entries, aligned, lora), entries),
    decreases entries.len(),
{
    if entries.len() > 0 {
        let front = entries.drop_last();
        let rest = not_superseded(front, aligned, lora);
        let all = not_superseded(entries, aligned, lora);
        lemma_not_superseded_from(front, aligned, lora);
        assert forall|i: int| 0 <= i < all.len() implies entries.contains(#[trigger] all[i]) by {
            if i < rest.len() {
                assert(front.contains(rest[i]));
                let j = choose|j: int| 0 <= j < front.len() && front[j] == rest[i];
                assert(entries[j] == all[i]);
            } else {
                assert(entries[entries.len() - 1] == all[i]);
            }
        }
    }
}

/// An insertion keeps entries that were there, or adds the one it is about.
pub proof fn lemma_inserted_from(
    p0: PrefixCache,
    p1: PrefixCache,
    refs0: Seq<usize>,
    tokens: Seq<u32>,
    lora: Option<Seq<char>>,
    pages: Seq<usize>,
    i: int,
    e: PrefixEntry,
    k: int,
)
    requires
        inserted(p0, p1, refs0, tokens, lora, pages, i, e),
        0 <= k < p1.entries@.len(),
    ensures
        p0.entries@.contains(p1.entries@[k]) || (p1.entries@[k].tokens@ == whole_pages(tokens)
            && adapter_key(p1.entries@[k].lora) == lora && p1.entries@[k].pages@ == pages),
{
    let aligned = whole_pages(tokens);
    let kept = not_superseded(p0.entries@, aligned, lora);
    lemma_not_superseded_from(p0.entries@, aligned, lora);
    if p1.entries@ == p0.entries@ {
        assert(p0.entries@.contains(p0.entries@[k]));
    } else if exists|j: int|
        0 <= j < p0.entries@.len() && covers(#[trigger] p0.entries@[j], aligned, lora) {
        lemma_moved_from(p0.entries@, i);
        assert(p0.entries@.contains(p1.entries@[k]));
    } else {
        let all = kept.push(e);
        let over = all.len() - p1.entries@.len();
        assert(p1.entries@[k] == all[k + over]);
        if k + over < kept.len() {
            assert(p0.entries@.contains(kept[k + over]));
        }
    }
}

/// Moving an entry to the end adds none.
pub proof fn lemma_moved_from(entries: Seq<PrefixEntry>, i: int)
    requires
        0 <= i < entries.len(),
    ensures
        all_from(entries.remove(i).push(entries[i]), entries),
{
    let moved = entries.remove(i).push(entries[i]);
    assert forall|j: int| 0 <= j < moved.len() implies entries.contains(#[trigger] moved[j]) by {
        if j < i {
            assert(entries[j] == moved[j]);
        } else if j < moved.len() - 1 {
            assert(entries[j + 1] == moved[j]);
        } else {
            assert(entries[i] == moved[j]);
        }
    }
}

proof fn lemma_not_superseded_step(
    entries: Seq<PrefixEntry>,
    i: int,
    aligned: Seq<u32>,
    lora: Option<Seq<char>>,
)
    requires
        0 <= i < entries.len(),
    ensures
        not_superseded(entries.take(i + 1), aligned, lora) == if superseded(
            entries[i],
            aligned,
            lora,
        ) {
            not_superseded(entries.take(i), aligned, lora)
        } else {
            not_superseded(entries.take(i), aligned, lora).push(entries[i])
        },
{
    assert(entries.take(i + 1).drop_last() =~= entries.take(i));
}

proof fn lemma_conserved_chain(
    r0: Seq<usize>,
    l0: Seq<Seq<usize>>,
    r1: Seq<usize>,
    l1: Seq<Seq<usize>>,
    r2: Seq<usize>,
    l2: Seq<Seq<usize>>,
)
    requires
        conserved(r0, l0, r1, l1),
        conserved(r1, l1, r2, l2),
    ensures
        conserved(r0, l0, r2, l2),
{
    assert forall|id: usize|
        #![trigger held(l2, id)]
        #![trigger holders(r2, id as int)]
        holders(r2, id as int) - held(l2, id) == holders(r0, id as int) - held(l0, id) by {
        assert(holders(r1, id as int) - held(l1, id) == holders(r0, id as int) - held(l0, id));
        assert(holders(r2, id as int) - held(l2, id) == holders(r1, id as int) - held(l1, id));
    }
}

impl PrefixCache {
    /// The first entry that covers `aligned`.
    fn find_covering(&self, aligned: &[u32], lora: &Option<String>) -> (r: Option<usize>)
        ensures
            match r {
                Some(i) => {
                    &&& i < self.entries@.len()
                    &&& covers(self.entries@[i as int], aligned@, adapter_key(*lora))
                    &&& forall|j: int|
                        0 <= j < i ==> !covers(
                            #[trigger] self.entries@[j],
                            aligned@,
                            adapter_key(*lora),
                        )
                },
                None => forall|j: int|
                    0 <= j < self.entries@.len() ==> !covers(
                        #[trigger] self.entries@[j],
                        aligned@,
                        adapter_key(*lora),
                    ),
            },
    {
        let mut i: usize = 0;
        while i < self.entries.len()
            invariant
                i <= self.entries@.len(),
                forall|j: int|
                    0 <= j < i ==> !covers(
                        #[trigger] self.entries@[j],
                        aligned@,
                        adapter_key(*lora),
                    ),
            decreases self.entries@.len() - i,
        {
            let e = &self.entries[i];
            if same_adapter(&e.lora, lora) && aligned.len() <= e.tokens.len() && count_shared(
                e.tokens.as_slice(),
                aligned,
            ) == aligned.len() {
                return Some(i);
            }
            i = i + 1;
        }
        None
    }

    /// Remove the entries that `aligned` supersedes and give their pages back.
    fn drop_superseded(
        &mut self,
        pool: &mut PagePool,
        aligned: &[u32],
        lora: &Option<String>,
        Ghost(tail): Ghost<Seq<Seq<usize>>>,
        n_layers: usize,
    )
        requires
            old(pool).wf(),
            entries_wf(old(self).entries@, n_layers as nat),
            backed(old(pool).refs(), page_lists(old(self).entries@) + tail),
        ensures
            final(pool).wf(),
            final(pool).capacity() == old(pool).capacity(),
            final(self).entries@ == not_superseded(
                old(self).entries@,
                aligned@,
                adapter_key(*lora),
            ),
            entries_wf(final(self).entries@, n_layers as nat),
            final(self).max_entries == old(self).max_entries,
            final(self).hits == old(self).hits,
            final(self).misses == old(self).misses,
            final(self).evictions == old(self).evictions,
            final(self).tokens_reused == old(self).tokens_reused,
            backed(final(pool).refs(), page_lists(final(self).entries@) + tail),
            conserved(
                old(pool).refs(),
                page_lists(old(self).entries@) + tail,
                final(pool).refs(),
                page_lists(final(self).entries@) + tail,
            ),
    {
        let ghost all = self.entries@;
        let ghost key = adapter_key(*lora);
        let ghost refs0 = pool.refs();
        let mut kept: Vec<PrefixEntry> = Vec::new();
        let ghost mut i: int = 0;
        proof {
            assert(all.skip(0) =~= all);
            assert(all.take(0) =~= Seq::empty());
            assert(page_lists(kept@) + page_lists(all) + tail =~= page_lists(all) + tail);
        }
        while self.entries.len() > 0
            invariant
                pool.wf(),
                pool.capacity() == old(pool).capacity(),
                all == old(self).entries@,
                key == adapter_key(*lora),
                refs0 == old(pool).refs(),
                entries_wf(all, n_layers as nat),
                0 <= i <= all.len(),
                self.entries@ == all.skip(i),
                kept@ == not_superseded(all.take(i), aligned@, key),
                entries_wf(kept@, n_layers as nat),
                self.max_entries == old(self).max_entries,
                self.hits == old(self).hits,
                self.misses == old(self).misses,
                self.evictions == old(self).evictions,
                self.tokens_reused == old(self).tokens_reused,
                backed(pool.refs(), page_lists(kept@) + page_lists(self.entries@) + tail),
                conserved(
                    refs0,
                    page_lists(all) + tail,
                    pool.refs(),
                    page_lists(kept@) + page_lists(self.entries@) + tail,
                ),
            decreases self.entries@.len(),
        {
            let ghost rest0 = self.entries@;
            let ghost kept0 = kept@;
            let ghost refs_i = pool.refs();
            let e = self.entries.remove(0);
            let drop_it = same_adapter(&e.lora, lora) && count_shared(e.tokens.as_slice(), aligned)
                == e.tokens.len();
            proof {
                lemma_not_superseded_step(all, i, aligned@, key);
                assert(e == all[i]);
                assert(entry_wf(all[i], n_layers as nat));
                assert(self.entries@ =~= all.skip(i + 1));
                let a = page_lists(kept0);
                let b = page_lists(self.entries@) + tail;
                assert(page_lists(kept0) + page_lists(rest0) + tail =~= a + seq![e.pages@] + b);
                lemma_list_given_up(refs_i, a, e.pages@, b);
                assert(a + b =~= page_lists(kept0) + page_lists(self.entries@) + tail);
            }
            if drop_it {
                pool.release(&e.pages);
                proof {
                    lemma_conserved_chain(
                        refs0,
                        page_lists(all) + tail,
                        refs_i,
                        page_lists(kept0) + page_lists(rest0) + tail,
                        pool.refs(),
                        page_lists(kept0) + page_lists(self.entries@) + tail,
                    );
                }
            } else {
                kept.push(e);
                proof {
                    assert(page_lists(kept@) + page_lists(self.entries@) + tail =~= page_lists(
                        kept0,
                    ) + page_lists(rest0) + tail);
                }
            }
            proof {
                i = i + 1;
            }
        }
        proof {
            assert(all.take(i) =~= all);
            assert(page_lists(kept@) + page_lists(self.entries@) + tail =~= page_lists(kept@)
                + tail);
        }
        self.entries = kept;
    }

    /// Keep the whole pages of a prompt that `cache` has just been filled with.
    pub fn insert(
        &mut self,
        pool: &mut PagePool,
        tokens: &[u32],
        cache: &PagedKvCache,
        lora: &Option<String>,
    )
        requires
            old(pool).wf(),
            cache.wf(),
            tokens@.len() / PAGE_SIZE as nat <= cache.per_layer(),
            entries_wf(old(self).entries@, cache.n_layers()),
            backed(old(pool).refs(), page_lists(old(self).entries@).push(cache.pages())),
        ensures
            final(pool).wf(),
            final(pool).capacity() == old(pool).capacity(),
            entries_wf(final(self).entries@, cache.n_layers()),
            backed(final(pool).refs(), page_lists(final(self).entries@).push(cache.pages())),
            conserved(
                old(pool).refs(),
                page_lists(old(self).entries@).push(cache.pages()),
                final(pool).refs(),
                page_lists(final(self).entries@).push(cache.pages()),
            ),
            final(self).max_entries == old(self).max_entries,
            final(self).hits == old(self).hits,
            final(self).misses == old(self).misses,
            final(self).tokens_reused == old(self).tokens_reused,
            exists|i: int, e: PrefixEntry| #[trigger]
                inserted(
                    *old(self),
                    *final(self),
                    old(pool).refs(),
                    tokens@,
                    adapter_key(*lora),
                    cache.pages().take(
                        (tokens@.len() / PAGE_SIZE as nat * cache.n_layers()) as int,
                    ),
                    i,
                    e,
                ),
    {
        let ghost p0 = *self;
        let ghost refs0 = pool.refs();
        let ghost key = adapter_key(*lora);
        let ghost cp = cache.pages();
        proof {
            cache.lemma_shape();
        }
        let n: usize = tokens.len() / PAGE_SIZE;
        let ghost np = cache.pages().take(
            (tokens@.len() / PAGE_SIZE as nat * cache.n_layers()) as int,
        );
        assert(n as nat == tokens@.len() / PAGE_SIZE as nat);
        let ghost some_entry = PrefixEntry { tokens: arbitrary(), lora: None, pages: arbitrary() };
        assert(n * PAGE_SIZE <= tokens@.len());
        if n == 0 {
            assert(whole_pages(tokens@).len() == 0);
            assert(inserted(
                *old(self),
                *self,
                old(pool).refs(),
                tokens@,
                adapter_key(*lora),
                np,
                0,
                some_entry,
            ));
            return;
        }
        let aligned = vstd::slice::slice_subrange(tokens, 0, n * PAGE_SIZE);
        assert(aligned@ =~= whole_pages(tokens@));
        if let Some(i) = self.find_covering(aligned, lora) {
            let ghost lists0 = page_lists(self.entries@).push(cp);
            let e = self.entries.remove(i);
            self.entries.push(e);
            proof {
                let a = page_lists(p0.entries@.take(i as int));
                let b = page_lists(p0.entries@.skip(i as int + 1));
                let x = p0.entries@[i as int].pages@;
                assert(lists0 =~= a + seq![x] + (b + seq![cp]));
                let lists1 = page_lists(self.entries@).push(cp);
                assert(lists1 =~= a + b + seq![x] + seq![cp]);
                assert forall|id: usize| #[trigger] held(lists1, id) == held(lists0, id) by {
                    lemma_held_concat(a + seq![x], b + seq![cp], id);
                    lemma_held_concat(a, seq![x], id);
                    lemma_held_concat(b, seq![cp], id);
                    lemma_held_concat(a + b + seq![x], seq![cp], id);
                    lemma_held_concat(a + b, seq![x], id);
                    lemma_held_concat(a, b, id);
                }
                assert forall|j: int| 0 <= j < lists1.len() implies (
                #[trigger] lists1[j]).no_duplicates() by {
                    if j < i {
                        assert(lists1[j] == lists0[j]);
                    } else if j < lists1.len() - 2 {
                        assert(lists1[j] == lists0[j + 1]);
                    } else if j == lists1.len() - 2 {
                        assert(lists1[j] == lists0[i as int]);
                    } else {
                        assert(lists1[j] == lists0[j]);
                    }
                }
                assert(backed(refs0, lists1)) by {
                    assert forall|id: usize| #[trigger] held(lists1, id) <= holders(
                        refs0,
                        id as int,
                    ) by {
                        assert(held(lists0, id) <= holders(refs0, id as int));
                    }
                }
                assert(inserted(p0, *self, refs0, tokens@, key, np, i as int, some_entry));
            }
            return;
        }
        proof {
            assert(n * cache.n_layers() <= cache.per_layer() * cache.n_layers()) by (nonlinear_arith)
                requires
                    n <= cache.per_layer(),
            ;
        }
        // Bounds the number of pages below.
        let _total: usize = cache.allocated_pages();
        let n_layers: usize = cache.layers();
        let pages = cache.first_pages(n * n_layers);
        let ghost lists0 = page_lists(self.entries@).push(cp);
        proof {
            assert(pages@ == np);
            lemma_backed_list_is_held(refs0, lists0, page_lists(self.entries@).len() as int);
            assert(lists0[page_lists(self.entries@).len() as int] == cp);
            assert(all_held(refs0, np)) by {
                assert forall|j: int| 0 <= j < np.len() implies holders(
                    refs0,
                    #[trigger] np[j] as int,
                ) > 0 by {
                    assert(np[j] == cp[j]);
                }
            }
            assert(np.no_duplicates());
        }
        if !pool.can_retain(&pages) {
            proof {
                let j = choose|j: int|
                    0 <= j < np.len() && !(holders(refs0, #[trigger] np[j] as int) < usize::MAX);
                assert(holders(refs0, np[j] as int) >= usize::MAX);
                assert(inserted(p0, *self, refs0, tokens@, key, np, 0, some_entry));
            }
            return;
        }
        pool.retain(&pages);
        let ghost tail = seq![np, cp];
        proof {
            assert(page_lists(self.entries@) + seq![cp] =~= lists0);
            lemma_list_added(refs0, page_lists(self.entries@), np, seq![cp]);
            assert(page_lists(self.entries@) + seq![np] + seq![cp] =~= page_lists(self.entries@)
                + tail);
        }
        let ghost refs1 = pool.refs();
        self.drop_superseded(pool, aligned, lora, Ghost(tail), n_layers);
        let ghost kept = self.entries@;
        proof {
            lemma_conserved_chain(
                refs0,
                lists0,
                refs1,
                page_lists(p0.entries@) + tail,
                pool.refs(),
                page_lists(kept) + tail,
            );
        }
        let e = PrefixEntry {
            tokens: vstd::slice::slice_to_vec(aligned),
            lora: lora.clone(),
            pages,
        };
        let ghost ge = e;
        self.entries.push(e);
        let ghost all = self.entries@;
        proof {
            assert(page_lists(all).push(cp) =~= page_lists(kept) + tail);
            assert(all.skip(0) =~= all);
            assert(adapter_key(ge.lora) == key);
        }
        let ghost mut over: int = 0;
        while self.entries.len() > self.max_entries
            invariant
                pool.wf(),
                pool.capacity() == old(pool).capacity(),
                refs0 == old(pool).refs(),
                p0 == *old(self),
                cp == cache.pages(),
                lists0 == page_lists(p0.entries@).push(cp),
                entries_wf(self.entries@, cache.n_layers()),
                0 <= over <= all.len(),
                over > 0 ==> over <= all.len() - p0.max_entries,
                self.entries@ == all.skip(over),
                self.max_entries == p0.max_entries,
                self.hits == p0.hits,
                self.misses == p0.misses,
                self.tokens_reused == p0.tokens_reused,
                self.evictions == counted(p0.evictions, over),
                backed(pool.refs(), page_lists(self.entries@).push(cp)),
                conserved(refs0, lists0, pool.refs(), page_lists(self.entries@).push(cp)),
            decreases self.entries@.len(),
        {
            let ghost lists_i = page_lists(self.entries@).push(cp);
            let ghost refs_i = pool.refs();
            proof {
                lemma_backed_list_is_held(refs_i, lists_i, 0);
                lemma_first_list_given_up(refs_i, lists_i);
                assert(lists_i[0] == self.entries@[0].pages@);
                assert(all.skip(over).skip(1) =~= all.skip(over + 1));
                assert(lists_i.skip(1) =~= page_lists(all.skip(over + 1)).push(cp));
            }
            let _ = self.evict_lru(pool);
            proof {
                lemma_conserved_chain(
                    refs0,
                    lists0,
                    refs_i,
                    lists_i,
                    pool.refs(),
                    page_lists(self.entries@).push(cp),
                );
                over = over + 1;
            }
        }
        assert(inserted(p0, *self, refs0, tokens@, key, np, 0, ge));
    }
}

/// Pages that a sequence of entries holds, a page counted once per entry.
pub open spec fn total_pages(entries: Seq<PrefixEntry>) -> nat
    decreases entries.len(),
{
    if entries.len() == 0 {
        0
    } else {
        total_pages(entries.drop_last()) + entries.last().pages@.len()
    }
}

impl PrefixCache {
    pub fn stats(&self) -> (s: PrefixCacheStats)
        ensures
            s.hits == self.hits,
            s.misses == self.misses,
            s.evictions == self.evictions,
            s.tokens_reused == self.tokens_reused,
            s.entries == self.entries@.len(),
            s.pages == if total_pages(self.entries@) > usize::MAX {
                usize::MAX as nat
            } else {
                total_pages(self.entries@)
            },
    {
        let mut pages: usize = 0;
        let mut i: usize = 0;
        while i < self.entries.len()
            invariant
                i <= self.entries@.len(),
                pages == if total_pages(self.entries@.take(i as int)) > usize::MAX {
                    usize::MAX as nat
                } else {
                    total_pages(self.entries@.take(i as int))
                },
            decreases self.entries@.len() - i,
        {
            assert(self.entries@.take(i + 1).drop_last() =~= self.entries@.take(i as int));
            pages = pages.saturating_add(self.entries[i].pages.len());
            i = i + 1;
        }
        assert(self.entries@.take(i as int) =~= self.entries@);
        PrefixCacheStats {
            hits: self.hits,
            misses: self.misses,
            evictions: self.evictions,
            tokens_reused: self.tokens_reused,
            entries: self.entries.len(),
            pages,
        }
    }
}

/// Kept prefixes never cost a reservation: one that would fit if the registry
/// were empty fits after giving up some number of prefixes, and there is a least
/// such number.
pub proof fn law_kept_prefixes_never_cost_a_reservation(
    refs: Seq<usize>,
    lists: Seq<Seq<usize>>,
    capacity: nat,
    missing: nat,
) -> (k: nat)
    requires
        fits_after(refs, lists, lists.len(), capacity, missing),
    ensures
        k <= lists.len(),
        fits_after(refs, lists, k, capacity, missing),
        forall|j: nat| j < k ==> !#[trigger] fits_after(refs, lists, j, capacity, missing),
{
    lemma_least_fit(refs, lists, lists.len(), capacity, missing)
}

proof fn lemma_least_fit(
    refs: Seq<usize>,
    lists: Seq<Seq<usize>>,
    n: nat,
    capacity: nat,
    missing: nat,
) -> (k: nat)
    requires
        fits_after(refs, lists, n, capacity, missing),
    ensures
        k <= n,
        fits_after(refs, lists, k, capacity, missing),
        forall|j: nat| j < k ==> !#[trigger] fits_after(refs, lists, j, capacity, missing),
    decreases n,
{
    if exists|j: nat| j < n && #[trigger] fits_after(refs, lists, j, capacity, missing) {
        let j = choose|j: nat| j < n && #[trigger] fits_after(refs, lists, j, capacity, missing);
        lemma_least_fit(refs, lists, j, capacity, missing)
    } else {
        n
    }
}

/// What an entry saves a prompt is what both start with: the tokens of so many pages are the
/// same, the adapter is the same, a token of the prompt is left over, and no more whole pages
/// than that have all of this.
pub proof fn law_what_is_reused_is_shared(
    e: PrefixEntry,
    prompt: Seq<u32>,
    lora: Option<Seq<char>>,
    more: nat,
)
    ensures
        ({
            let saved = entry_saves(e, prompt, lora);
            let tokens = (saved * PAGE_SIZE) as int;
            &&& saved > 0 ==> adapter_key(e.lora) == lora && tokens < prompt.len() && tokens
                <= e.tokens@.len() && e.tokens@.take(tokens) == prompt.take(tokens)
            &&& adapter_key(e.lora) == lora && more * PAGE_SIZE < prompt.len() && more * PAGE_SIZE
                <= e.tokens@.len() && e.tokens@.take((more * PAGE_SIZE) as int) == prompt.take(
                (more * PAGE_SIZE) as int,
            ) ==> more <= saved
        }),
{
    let kept = e.tokens@;
    let saved = entry_saves(e, prompt, lora);
    if saved > 0 {
        let tokens = saved * PAGE_SIZE as nat;
        lemma_shared_at_most(kept, prompt);
        assert(tokens <= shared_len(kept, prompt));
        lemma_shared_is_common(kept, prompt, tokens);
    }
    if adapter_key(e.lora) == lora && more * PAGE_SIZE < prompt.len() && more * PAGE_SIZE
        <= kept.len() && kept.take((more * PAGE_SIZE) as int) == prompt.take(
        (more * PAGE_SIZE) as int,
    ) {
        lemma_common_is_shared(kept, prompt, more * PAGE_SIZE as nat);
    }
}

proof fn lemma_shared_at_most(a: Seq<u32>, b: Seq<u32>)
    ensures
        shared_len(a, b) <= a.len(),
        shared_len(a, b) <= b.len(),
    decreases a.len(),
{
    if a.len() > 0 && b.len() > 0 {
        lemma_shared_at_most(a.skip(1), b.skip(1));
    }
}

proof fn lemma_common_is_shared(a: Seq<u32>, b: Seq<u32>, n: nat)
    requires
        n <= a.len(),
        n <= b.len(),
        a.take(n as int) == b.take(n as int),
    ensures
        n <= shared_len(a, b),
    decreases n,
{
    if n > 0 {
        let (a0, b0) = (a.take(n as int), b.take(n as int));
        assert(a[0] == a0[0] && b[0] == b0[0]);
        let (a1, b1) = (a.skip(1), b.skip(1));
        assert forall|i: int| 0 <= i < n - 1 implies #[trigger] a1[i] == b1[i] by {
            assert(a1[i] == a[i + 1] && a[i + 1] == a0[i + 1]);
            assert(b1[i] == b[i + 1] && b[i + 1] == b0[i + 1]);
        }
        assert(a1.take(n - 1) =~= b1.take(n - 1));
        lemma_common_is_shared(a1, b1, (n - 1) as nat);
    }
}

/// A lookup that finds something takes an entry that saves the prompt as much as any, gives
/// out its first pages, as many as it saves in each layer, and makes it the last one to be
/// given up. The others keep their order.
pub proof fn law_entries_in_use_are_given_up_last(
    p0: PrefixCache,
    p1: PrefixCache,
    pool0: PagePool,
    pool1: PagePool,
    prompt: Seq<u32>,
    lora: Option<Seq<char>>,
    n_layers: nat,
    i: int,
    c: PagedKvCache,
    j: int,
)
    requires
        looked_up(p0, p1, pool0, pool1, prompt, lora, n_layers, i, c),
        entries_wf(p0.entries@, n_layers),
        0 <= j < p0.entries@.len(),
    ensures
        entry_saves(p0.entries@[j], prompt, lora) * PAGE_SIZE <= c.length() < prompt.len(),
        c.pages().len() * PAGE_SIZE == c.length() * n_layers,
        c.pages().is_prefix_of(p0.entries@[i].pages@),
        p1.entries@.len() == p0.entries@.len(),
        p1.entries@.last() == p0.entries@[i],
        j < i ==> p1.entries@[j] == p0.entries@[j],
        j > i ==> p1.entries@[j - 1] == p0.entries@[j],
{
    let e = p0.entries@[i];
    let saves = entry_saves(e, prompt, lora);
    let page = PAGE_SIZE as nat;
    assert(entry_saves(p0.entries@[j], prompt, lora) * page <= saves * page) by (nonlinear_arith)
        requires
            entry_saves(p0.entries@[j], prompt, lora) <= saves,
    ;
    lemma_shared_at_most(e.tokens@, prompt);
    assert(entry_wf(e, n_layers));
    assert(saves <= e.tokens@.len() / page);
    assert(saves * n_layers <= e.tokens@.len() / page * n_layers) by (nonlinear_arith)
        requires
            saves <= e.tokens@.len() / page,
    ;
    assert(saves * n_layers * page == saves * page * n_layers) by (nonlinear_arith);
    assert(c.pages() =~= e.pages@.take(c.pages().len() as int));
}

/// A prompt that was kept is found again: behind an insertion there is an entry, the last to
/// be given up, that starts with all whole pages of the prompt under the same adapter, unless
/// the prompt fills no page, the registry keeps nothing or a page has no room for one more
/// holder. The registry keeps no more entries than it may, nor did it before.
pub proof fn law_a_kept_prompt_is_found(
    p0: PrefixCache,
    p1: PrefixCache,
    refs0: Seq<usize>,
    tokens: Seq<u32>,
    lora: Option<Seq<char>>,
    pages: Seq<usize>,
    i: int,
    e: PrefixEntry,
)
    requires
        inserted(p0, p1, refs0, tokens, lora, pages, i, e),
        p0.entries@.len() <= p0.max_entries,
    ensures
        p1.entries@.len() <= p0.max_entries,
        ({
            let whole = (tokens.len() / PAGE_SIZE as nat * PAGE_SIZE as nat) as int;
            ||| whole == 0
            ||| p0.max_entries == 0
            ||| exists|k: int|
                0 <= k < pages.len() && holders(refs0, #[trigger] pages[k] as int) >= usize::MAX
            ||| p1.entries@.len() > 0 && adapter_key(p1.entries@.last().lora) == lora
                && p1.entries@.last().tokens@.len() >= whole && p1.entries@.last().tokens@.take(
                whole,
            ) == tokens.take(whole)
        }),
{
    let aligned = whole_pages(tokens);
    if aligned.len() > 0 {
        if exists|j: int|
            0 <= j < p0.entries@.len() && covers(#[trigger] p0.entries@[j], aligned, lora) {
            lemma_shared_is_common(p0.entries@[i].tokens@, aligned, aligned.len());
            assert(aligned.take(aligned.len() as int) =~= aligned);
        } else {
            assert(e.tokens@ == aligned ==> e.tokens@.take(aligned.len() as int) =~= aligned);
        }
    }
}

/// Only entries that start a kept prompt, under the same adapter, make room for it; all
/// others stay.
pub proof fn law_only_beginnings_are_superseded(
    entries: Seq<PrefixEntry>,
    aligned: Seq<u32>,
    lora: Option<Seq<char>>,
    e: PrefixEntry,
)
    requires
        entries.contains(e),
    ensures
        !not_superseded(entries, aligned, lora).contains(e) <==> adapter_key(e.lora) == lora
            && e.tokens@.is_prefix_of(aligned),
    decreases entries.len(),
{
    let all = not_superseded(entries, aligned, lora);
    let front = entries.drop_last();
    let rest = not_superseded(front, aligned, lora);
    let last = entries.last();
    lemma_starts_with(e.tokens@, aligned);
    if front.contains(e) {
        law_only_beginnings_are_superseded(front, aligned, lora, e);
        if rest.contains(e) {
            let k = choose|k: int| 0 <= k < rest.len() && rest[k] == e;
            assert(all[k] == e);
        }
    } else {
        let at = choose|at: int| 0 <= at < entries.len() && entries[at] == e;
        if at < front.len() {
            assert(front[at] == e);
        }
        assert(last == e);
        lemma_not_superseded_from(front, aligned, lora);
        if rest.contains(e) {
            let k = choose|k: int| 0 <= k < rest.len() && rest[k] == e;
            assert(front.contains(rest[k]));
        }
        if !superseded(last, aligned, lora) {
            assert(all.last() == e);
        }
    }
    if all.contains(e) && superseded(e, aligned, lora) {
        let k = choose|k: int| 0 <= k < all.len() && all[k] == e;
        if k < rest.len() {
            assert(rest[k] == e);
            lemma_not_superseded_from(front, aligned, lora);
            assert(front.contains(rest[k]));
        }
    }
}

proof fn lemma_starts_with(a: Seq<u32>, b: Seq<u32>)
    ensures
        shared_len(a, b) == a.len() <==> a.is_prefix_of(b),
{
    lemma_shared_at_most(a, b);
    if shared_len(a, b) == a.len() {
        lemma_shared_is_common(a, b, a.len());
        assert(a.take(a.len() as int) =~= a);
        assert(a =~= b.take(a.len() as int));
    }
    if a.is_prefix_of(b) {
        assert(a.take(a.len() as int) =~= b.take(a.len() as int));
        lemma_common_is_shared(a, b, a.len());
    }
}

} // verus!
