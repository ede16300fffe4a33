//! Pages that are shared are never written.
//!
//! Sequences and the registry of prefixes share pages, but only those that a prompt fills
//! from end to end. Whatever a sequence writes behind them goes to pages that nobody else
//! names.
use vstd::prelude::*;

use crate::cache::paged::{page_count, pages_missing, place_of, reserved, PagedKvCache};
use crate::cache::pool::{backed, held, holders, PAGE_SIZE};
use crate::cache::prefix::{
    adapter_key, after_evictions, all_from, entries_of, entry_wf, fits_after, inserted,
    lemma_held_concat, lemma_held_member, lemma_held_skip, lemma_inserted_from, lemma_moved_from,
    lemma_shared_is_common, looked_up, page_lists, shared_len, whole_pages, PrefixEntry,
};
use crate::server::batch::{
    admission, all_took_turns, ascending, cache_lists, claim_made, claimed, claimed_in_turn, exact,
    fork_found, from_scratch, lemma_exact_list_moved, lemma_held_update, lemma_lookup_exact,
    next_claimed, offered, some_retired, swap_removed, went_through, Admission, Claim, Engine,
    InferenceRequest, Moment,
};
use crate::server::engine::{ActiveSequence, Finish};
use crate::server::history::{
    at_one_place, done, lemma_from_trans, lemma_paired, lemma_refused_from, lemma_skipped_from,
    lemma_thinned, Deed, Run,
};
use crate::server::reserve::reserved_after;
use crate::server::run::Machine;

verus! {

/// Nobody but the sequence at place `i` names page `id`.
pub open spec fn only_of(
    active: Seq<ActiveSequence>,
    entries: Seq<PrefixEntry>,
    i: int,
    id: usize,
) -> bool {
    &&& forall|j: int|
        0 <= j < active.len() && j != i ==> !(#[trigger] active[j]).pages.pages().contains(id)
    &&& forall|m: int|
        0 <= m < entries.len() ==> !(#[trigger] entries[m]).pages@.contains(id)
}

/// The first index in a sequence's page table behind the pages that its prompt fills.
pub open spec fn first_own(s: ActiveSequence, n_layers: nat) -> int {
    (s.state().prompt_len / PAGE_SIZE as nat * n_layers) as int
}

/// Behind the pages that a prompt fills, every page is named by its sequence alone.
pub open spec fn apart(
    active: Seq<ActiveSequence>,
    entries: Seq<PrefixEntry>,
    n_layers: nat,
) -> bool {
    forall|i: int, q: int|
        0 <= i < active.len() && first_own(active[i], n_layers) <= q
            < active[i].pages.pages().len() ==> only_of(
            active,
            entries,
            i,
            #[trigger] active[i].pages.pages()[q],
        )
}

/// That holds of an engine.
pub open spec fn pages_apart(e: Engine) -> bool {
    apart(e.active@, entries_of(e.prefix), e.shape.n_layers as nat)
}

/// What a sequence decodes is written where nobody else looks: the page of any position
/// behind the prompt is named by this sequence alone.
pub proof fn law_decoded_positions_are_private(e: Engine, i: int, layer: nat, pos: nat)
    requires
        pages_apart(e),
        0 <= i < e.active@.len(),
        layer < e.shape.n_layers,
        e.active@[i].state().prompt_len <= pos,
        place_of(e.shape.n_layers as nat, layer, pos) < e.active@[i].pages.pages().len(),
    ensures
        only_of(
            e.active@,
            entries_of(e.prefix),
            i,
            e.active@[i].pages.pages()[place_of(e.shape.n_layers as nat, layer, pos) as int],
        ),
{
    let n = e.shape.n_layers as nat;
    let p = e.active@[i].state().prompt_len;
    assert(p / PAGE_SIZE as nat * n <= pos / PAGE_SIZE as nat * n) by (nonlinear_arith)
        requires
            p / PAGE_SIZE as nat <= pos / PAGE_SIZE as nat,
    ;
}

// ── Lists and counts ─────────────────────────────────────────────────────────

proof fn lemma_nobodys(refs: Seq<usize>, lists: Seq<Seq<usize>>, i: int, id: usize)
    requires
        backed(refs, lists),
        holders(refs, id as int) == 0,
        0 <= i < lists.len(),
    ensures
        !lists[i].contains(id),
{
    if lists[i].contains(id) {
        lemma_held_member(lists, i, id);
        assert(held(lists, id) <= holders(refs, id as int));
    }
}

proof fn lemma_evicted_backed(
    refs: Seq<usize>,
    a: Seq<Seq<usize>>,
    lists: Seq<Seq<usize>>,
    k: nat,
)
    requires
        backed(refs, a + lists),
        k <= lists.len(),
    ensures
        backed(after_evictions(refs, lists, k), a + lists.skip(k as int)),
    decreases k,
{
    if k == 0 {
        assert(lists.skip(0) =~= lists);
    } else {
        let j = (k - 1) as nat;
        lemma_evicted_backed(refs, a, lists, j);
        let before = after_evictions(refs, lists, j);
        let after = after_evictions(refs, lists, k);
        let rest = lists.skip(j as int);
        let left = lists.skip(k as int);
        assert(rest.skip(1) =~= left);
        assert(rest[0] == lists[j as int]);
        assert forall|i: int| 0 <= i < (a + left).len() implies (
        #[trigger] (a + left)[i]).no_duplicates() by {
            if i < a.len() {
                assert((a + left)[i] == (a + rest)[i]);
            } else {
                assert((a + left)[i] == (a + rest)[i + 1]);
            }
        }
        assert forall|id: usize| #[trigger] held(a + left, id) <= holders(after, id as int) by {
            lemma_held_concat(a, rest, id);
            lemma_held_concat(a, left, id);
            lemma_held_skip(rest, id);
            assert(held(a + rest, id) <= holders(before, id as int));
        }
    }
}

proof fn lemma_lists_skip(entries: Seq<PrefixEntry>, k: int)
    requires
        0 <= k <= entries.len(),
    ensures
        page_lists(entries).skip(k) == page_lists(entries.skip(k)),
{
    assert(page_lists(entries).skip(k) =~= page_lists(entries.skip(k)));
}

// ── Turns and departures ─────────────────────────────────────────────────────

/// Turns leave everyone's pages apart.
pub proof fn law_turns_keep_pages_apart(
    e0: Engine,
    e1: Engine,
    next: Seq<u32>,
    now: u64,
    leaving: Seq<usize>,
)
    requires
        pages_apart(e0),
        all_took_turns(e0, e1, next, now, leaving),
    ensures
        pages_apart(e1),
{
    let n = e0.shape.n_layers as nat;
    let entries = entries_of(e0.prefix);
    assert forall|i: int| 0 <= i < e0.active@.len() implies (
    #[trigger] e1.active@[i]).pages == e0.active@[i].pages && e1.active@[i].state().prompt_len
        == e0.active@[i].state().prompt_len by {
        assert(went_through(
            e0.active@[i],
            e1.active@[i],
            leaving.contains(i as usize),
            next[i],
            now,
            e0.shape.context_length as nat,
        ));
    }
    lemma_same_pages(e0.active@, e1.active@, entries, n);
}

/// Departures leave the pages of those who stay apart.
pub proof fn law_departures_keep_pages_apart(
    e0: Engine,
    e1: Engine,
    leaving: Seq<usize>,
    gone: Seq<ActiveSequence>,
)
    requires
        pages_apart(e0),
        ascending(leaving, e0.active@.len()),
        some_retired(e0, e1, leaving, gone),
    ensures
        pages_apart(e1),
{
    let n = e0.shape.n_layers as nat;
    let entries = entries_of(e0.prefix);
    let numbers = Seq::new(e0.active@.len(), |i: int| i);
    let seats = swap_removed(numbers, leaving);
    assert(e0.active.len() <= usize::MAX);
    lemma_thinned(numbers, leaving);
    lemma_paired(numbers, e0.active@, leaving);
    assert forall|j: int| 0 <= j < e1.active@.len() implies 0 <= seats[j] < e0.active@.len() && (
    #[trigger] e1.active@[j]) == e0.active@[seats[j]] by {
        assert(at_one_place(numbers, e0.active@, seats[j], e1.active@[j]));
    }
    assert forall|j: int, q: int|
        0 <= j < e1.active@.len() && first_own(e1.active@[j], n) <= q
            < e1.active@[j].pages.pages().len() implies only_of(
        e1.active@,
        entries,
        j,
        #[trigger] e1.active@[j].pages.pages()[q],
    ) by {
        let i = seats[j];
        let id = e0.active@[i].pages.pages()[q];
        assert(e1.active@[j] == e0.active@[i]);
        assert(only_of(e0.active@, entries, i, id));
        assert forall|m: int| 0 <= m < e1.active@.len() && m != j implies !(
        #[trigger] e1.active@[m]).pages.pages().contains(id) by {
            assert(seats[m] != seats[j]);
            assert(!e0.active@[seats[m]].pages.pages().contains(id));
        }
    }
}

// ── Claims ───────────────────────────────────────────────────────────────────

/// The batch when the first `i` sequences have claimed.
spec fn halfway(before: Seq<ActiveSequence>, after: Seq<ActiveSequence>, i: int) -> Seq<
    ActiveSequence,
> {
    after.take(i) + before.skip(i)
}

spec fn sound_at(active: Seq<ActiveSequence>, m: Moment, n_layers: nat) -> bool {
    &&& backed(m.refs, cache_lists(active) + page_lists(entries_of(m.prefix)))
    &&& apart(active, entries_of(m.prefix), n_layers)
}

proof fn lemma_fewer_entries(
    active: Seq<ActiveSequence>,
    a: Seq<PrefixEntry>,
    b: Seq<PrefixEntry>,
    n_layers: nat,
)
    requires
        apart(active, b, n_layers),
        all_from(a, b),
    ensures
        apart(active, a, n_layers),
{
    assert forall|i: int, q: int|
        0 <= i < active.len() && first_own(active[i], n_layers) <= q
            < active[i].pages.pages().len() implies only_of(
        active,
        a,
        i,
        #[trigger] active[i].pages.pages()[q],
    ) by {
        let id = active[i].pages.pages()[q];
        assert(only_of(active, b, i, id));
        assert forall|m: int| 0 <= m < a.len() implies !(#[trigger] a[m]).pages@.contains(id) by {
            assert(b.contains(a[m]));
            let x = choose|x: int| 0 <= x < b.len() && b[x] == a[m];
            assert(!b[x].pages@.contains(id));
        }
    }
}

/// One sequence got more pages, which nobody named.
proof fn lemma_extended(
    active: Seq<ActiveSequence>,
    x: int,
    s: ActiveSequence,
    entries: Seq<PrefixEntry>,
    refs0: Seq<usize>,
    refs1: Seq<usize>,
    missing: nat,
    n_layers: nat,
)
    requires
        0 <= x < active.len(),
        s.state().prompt_len == active[x].state().prompt_len,
        backed(refs0, cache_lists(active) + page_lists(entries)),
        apart(active, entries, n_layers),
        reserved(active[x].pages.pages(), s.pages.pages(), refs0, refs1, missing),
    ensures
        backed(refs1, cache_lists(active.update(x, s)) + page_lists(entries)),
        apart(active.update(x, s), entries, n_layers),
{
    let now = active.update(x, s);
    let before = active[x].pages.pages();
    let after = s.pages.pages();
    let fresh = after.skip(before.len() as int);
    let p = page_lists(entries);
    let l0 = cache_lists(active);
    let l1 = cache_lists(now);
    assert(l1 =~= l0.update(x, after));
    assert forall|id: usize| #[trigger] after.contains(id) <==> before.contains(id)
        || fresh.contains(id) by {
        if after.contains(id) {
            let q = choose|q: int| 0 <= q < after.len() && after[q] == id;
            if q < before.len() {
                assert(after.take(before.len() as int)[q] == id);
                assert(before[q] == id);
            } else {
                assert(fresh[q - before.len()] == id);
            }
        }
        if before.contains(id) {
            let q = choose|q: int| 0 <= q < before.len() && before[q] == id;
            assert(after.take(before.len() as int)[q] == id);
            assert(after[q] == id);
        }
        if fresh.contains(id) {
            let q = choose|q: int| 0 <= q < fresh.len() && fresh[q] == id;
            assert(after[q + before.len()] == id);
        }
    }
    assert forall|id: usize| fresh.contains(id) implies !#[trigger] before.contains(id) by {
        let q = choose|q: int| 0 <= q < fresh.len() && fresh[q] == id;
        assert(holders(refs0, fresh[q] as int) == 0);
        lemma_nobodys(refs0, l0 + p, x, id);
        assert((l0 + p)[x] == before);
    }
    assert forall|i: int| 0 <= i < (l1 + p).len() implies (
    #[trigger] (l1 + p)[i]).no_duplicates() by {
        assert(i != x ==> (l1 + p)[i] == (l0 + p)[i]);
    }
    assert forall|id: usize| #[trigger] held(l1 + p, id) <= holders(refs1, id as int) by {
        lemma_held_concat(l0, p, id);
        lemma_held_concat(l1, p, id);
        lemma_held_update(l0, x, after, id);
        assert(held(l0 + p, id) <= holders(refs0, id as int));
        assert(after.contains(id) <==> before.contains(id) || fresh.contains(id));
    }
    assert forall|i: int, q: int|
        0 <= i < now.len() && first_own(now[i], n_layers) <= q
            < now[i].pages.pages().len() implies only_of(
        now,
        entries,
        i,
        #[trigger] now[i].pages.pages()[q],
    ) by {
        let id = now[i].pages.pages()[q];
        if i == x && q >= before.len() {
            assert(fresh[q - before.len()] == id);
            assert(holders(refs0, id as int) == 0);
            assert forall|j: int| 0 <= j < now.len() && j != i implies !(
            #[trigger] now[j]).pages.pages().contains(id) by {
                lemma_nobodys(refs0, l0 + p, j, id);
                assert((l0 + p)[j] == active[j].pages.pages());
            }
            assert forall|m: int| 0 <= m < entries.len() implies !(
            #[trigger] entries[m]).pages@.contains(id) by {
                lemma_nobodys(refs0, l0 + p, l0.len() + m, id);
                assert((l0 + p)[l0.len() + m] == entries[m].pages@);
            }
        } else {
            if i == x {
                assert(after.take(before.len() as int)[q] == id);
            }
            assert(id == active[i].pages.pages()[q]);
            assert(only_of(active, entries, i, id));
            assert forall|j: int| 0 <= j < now.len() && j != i implies !(
            #[trigger] now[j]).pages.pages().contains(id) by {
                assert(!active[j].pages.pages().contains(id));
                if j == x && fresh.contains(id) {
                    let r = choose|r: int| 0 <= r < fresh.len() && fresh[r] == id;
                    assert(holders(refs0, fresh[r] as int) == 0);
                    lemma_nobodys(refs0, l0 + p, i, id);
                    assert((l0 + p)[i] == active[i].pages.pages());
                }
            }
        }
    }
}

proof fn lemma_claim_keeps_apart(
    active: Seq<ActiveSequence>,
    x: int,
    s: ActiveSequence,
    m0: Moment,
    m1: Moment,
    capacity: nat,
    now: u64,
    n_layers: nat,
)
    requires
        0 <= x < active.len(),
        sound_at(active, m0, n_layers),
        claimed(active[x], s, m0, m1, capacity, now),
    ensures
        sound_at(active.update(x, s), m1, n_layers),
{
    let entries = entries_of(m0.prefix);
    let lists = page_lists(entries);
    let a = cache_lists(active);
    if active[x].state().draining is Some {
        assert(active.update(x, s) =~= active);
    } else {
        let tokens = active[x].state().tokens.len();
        let have = active[x].pages.per_layer();
        let missing = pages_missing(tokens, have, active[x].pages.n_layers());
        if exists|k: nat|
            k <= lists.len() && #[trigger] fits_after(m0.refs, lists, k, capacity, missing) {
            let k = choose|k: nat| #[trigger]
                reserved_after(
                    k,
                    m0.prefix,
                    m1.prefix,
                    active[x].pages.pages(),
                    s.pages.pages(),
                    m0.refs,
                    m1.refs,
                    capacity,
                    missing,
                );
            lemma_evicted_backed(m0.refs, a, lists, k);
            lemma_lists_skip(entries, k as int);
            lemma_skipped_from(entries, k as int);
            lemma_fewer_entries(active, entries.skip(k as int), entries, n_layers);
            lemma_extended(
                active,
                x,
                s,
                entries.skip(k as int),
                after_evictions(m0.refs, lists, k),
                m1.refs,
                missing,
                n_layers,
            );
        } else {
            let k = lists.len();
            lemma_evicted_backed(m0.refs, a, lists, k);
            lemma_lists_skip(entries, k as int);
            assert(entries.skip(k as int) =~= entries_of(m1.prefix));
            lemma_fewer_entries(active, entries_of(m1.prefix), entries, n_layers);
            lemma_same_pages(active, active.update(x, s), entries_of(m1.prefix), n_layers);
            assert(cache_lists(active.update(x, s)) =~= a);
        }
    }
}

proof fn lemma_same_pages(
    a: Seq<ActiveSequence>,
    b: Seq<ActiveSequence>,
    entries: Seq<PrefixEntry>,
    n_layers: nat,
)
    requires
        a.len() == b.len(),
        forall|i: int|
            0 <= i < a.len() ==> (#[trigger] b[i]).pages.pages() == a[i].pages.pages()
                && b[i].state().prompt_len == a[i].state().prompt_len,
        apart(a, entries, n_layers),
    ensures
        apart(b, entries, n_layers),
{
    assert forall|i: int, q: int|
        0 <= i < b.len() && first_own(b[i], n_layers) <= q
            < b[i].pages.pages().len() implies only_of(
        b,
        entries,
        i,
        #[trigger] b[i].pages.pages()[q],
    ) by {
        let id = a[i].pages.pages()[q];
        assert(only_of(a, entries, i, id));
        assert forall|j: int| 0 <= j < b.len() && j != i implies !(
        #[trigger] b[j]).pages.pages().contains(id) by {
            assert(!a[j].pages.pages().contains(id));
        }
    }
}

proof fn lemma_claims_keep_apart(
    before: Seq<ActiveSequence>,
    after: Seq<ActiveSequence>,
    ms: Seq<Moment>,
    capacity: nat,
    now: u64,
    n_layers: nat,
    i: int,
)
    requires
        claimed_in_turn(before, after, ms, capacity, now),
        sound_at(before, ms[0], n_layers),
        0 <= i <= before.len(),
    ensures
        sound_at(halfway(before, after, i), ms[i], n_layers),
    decreases i,
{
    if i == 0 {
        assert(halfway(before, after, 0) =~= before);
    } else {
        lemma_claims_keep_apart(before, after, ms, capacity, now, n_layers, i - 1);
        let h = halfway(before, after, i - 1);
        assert(h[i - 1] == before[i - 1]);
        assert(claimed(before[i - 1], after[i - 1], ms[i - 1], ms[i - 1 + 1], capacity, now));
        lemma_claim_keeps_apart(
            h,
            i - 1,
            after[i - 1],
            ms[i - 1],
            ms[i],
            capacity,
            now,
            n_layers,
        );
        assert(h.update(i - 1, after[i - 1]) =~= halfway(before, after, i));
    }
}

/// Claims of memory leave everyone's pages apart.
pub proof fn law_claims_keep_pages_apart(e0: Engine, e1: Engine, now: u64)
    requires
        e0.wf(),
        pages_apart(e0),
        next_claimed(e0, e1, now),
    ensures
        pages_apart(e1),
{
    if e0.paged() {
        let capacity = e0.pool->0.capacity();
        let ms = choose|ms: Seq<Moment>|
            {
                &&& #[trigger] claimed_in_turn(e0.active@, e1.active@, ms, capacity, now)
                &&& ms[0] == e0.moment()
                &&& ms.last() == e1.moment()
            };
        let n = e0.active@.len() as int;
        assert(backed(ms[0].refs, e0.lists())) by {
            assert(exact(e0.pool->0.refs(), e0.lists()));
        }
        lemma_claims_keep_apart(
            e0.active@,
            e1.active@,
            ms,
            capacity,
            now,
            e0.shape.n_layers as nat,
            n,
        );
        assert(halfway(e0.active@, e1.active@, n) =~= e1.active@);
    }
}

// ── Admissions ───────────────────────────────────────────────────────────────

/// Every page of `fork` is one of a kept prefix.
spec fn within_one(fork: Seq<usize>, entries: Seq<PrefixEntry>) -> bool {
    exists|m: int| 0 <= m < entries.len() && #[trigger] all_among(fork, entries[m].pages@)
}

spec fn all_among(a: Seq<usize>, b: Seq<usize>) -> bool {
    forall|id: usize| #[trigger] a.contains(id) ==> b.contains(id)
}

proof fn lemma_looked_up(
    c: Claim,
    e: Engine,
    prompt: Seq<u32>,
    lora: Option<Seq<char>>,
    i: int,
)
    requires
        e.wf(),
        e.paged(),
        e.prefix is Some && c.found is Some,
        looked_up(
            e.prefix->0,
            c.found->0,
            e.pool->0,
            c.pool,
            prompt,
            lora,
            e.shape.n_layers as nat,
            i,
            c.fork,
        ),
    ensures
        backed(
            c.pool.refs(),
            cache_lists(e.active@).push(c.fork.pages()) + page_lists(entries_of(c.found)),
        ),
        all_from(entries_of(c.found), entries_of(e.prefix)),
        c.fork.pages().len() == c.fork.per_layer() * e.shape.n_layers as nat,
        within_one(c.fork.pages(), entries_of(e.prefix)),
{
    let others = cache_lists(e.active@);
    let n_layers = e.shape.n_layers as nat;
    let (p0, p1) = (e.prefix->0, c.found->0);
    let lists = page_lists(p1.entries@);
    lemma_lookup_exact(others, p0, p1, e.pool->0, c.pool, prompt, lora, n_layers, i, c.fork);
    lemma_exact_list_moved(c.pool.refs(), others, lists, c.fork.pages());
    assert(exact(c.pool.refs(), others.push(c.fork.pages()) + lists));
    lemma_moved_from(p0.entries@, i);
    c.fork.lemma_shape();
    let entry = p0.entries@[i];
    let per = c.fork.per_layer();
    let kept = entry.tokens@.len();
    assert(entry_wf(entry, n_layers));
    assert(per <= kept / PAGE_SIZE as nat) by {
        lemma_shared_is_common(entry.tokens@, prompt, shared_len(entry.tokens@, prompt));
    }
    assert(per * n_layers <= kept / PAGE_SIZE as nat * n_layers) by (nonlinear_arith)
        requires
            per <= kept / PAGE_SIZE as nat,
    ;
    assert(all_among(c.fork.pages(), entry.pages@)) by {
        assert forall|id: usize| #[trigger] c.fork.pages().contains(
            id,
        ) implies entry.pages@.contains(id) by {
            let q = choose|q: int| 0 <= q < c.fork.pages().len() && c.fork.pages()[q] == id;
            assert(entry.pages@[q] == id);
        }
    }
}

proof fn lemma_missed(c: Claim, e: Engine)
    requires
        e.wf(),
        e.paged(),
        c.fork.pages().len() == 0,
        c.pool.refs() == e.pool->0.refs(),
        entries_of(c.found) == entries_of(e.prefix),
    ensures
        backed(
            c.pool.refs(),
            cache_lists(e.active@).push(c.fork.pages()) + page_lists(entries_of(c.found)),
        ),
        all_from(entries_of(c.found), entries_of(e.prefix)),
{
    let others = cache_lists(e.active@);
    let lists = page_lists(entries_of(e.prefix));
    let refs = e.pool->0.refs();
    let l = others + lists;
    let m = others.push(c.fork.pages()) + lists;
    assert(exact(refs, l));
    assert forall|id: usize| #[trigger] held(m, id) <= holders(refs, id as int) by {
        lemma_held_concat(others, lists, id);
        lemma_held_concat(others.push(c.fork.pages()), lists, id);
        assert(others.push(c.fork.pages()).drop_last() =~= others);
        assert(held(l, id) == holders(refs, id as int));
    }
    assert forall|x: int| 0 <= x < m.len() implies (#[trigger] m[x]).no_duplicates() by {
        if x < others.len() {
            assert(m[x] == l[x]);
        } else if x > others.len() {
            assert(m[x] == l[x - 1]);
        }
    }
    let entries = entries_of(e.prefix);
    assert(entries.skip(0) =~= entries);
    lemma_skipped_from(entries, 0);
}

/// What a prompt starts from: pages of a kept prefix, counted for it.
proof fn lemma_forked(c: Claim, e: Engine, prompt: Seq<u32>, lora: Option<Seq<char>>)
    requires
        e.wf(),
        e.paged(),
        fork_found(
            e.prefix,
            c.found,
            e.pool->0,
            c.pool,
            prompt,
            lora,
            e.shape.n_layers as nat,
            c.fork,
        ),
    ensures
        backed(
            c.pool.refs(),
            cache_lists(e.active@).push(c.fork.pages()) + page_lists(entries_of(c.found)),
        ),
        all_from(entries_of(c.found), entries_of(e.prefix)),
        c.fork.pages().len() == c.fork.per_layer() * e.shape.n_layers as nat,
        c.fork.length() == c.fork.per_layer() * PAGE_SIZE,
        c.fork.pages().len() > 0 ==> within_one(c.fork.pages(), entries_of(e.prefix)),
{
    let n_layers = e.shape.n_layers as nat;
    if e.prefix is Some && c.fork.length() > 0 {
        let i = choose|i: int| #[trigger]
            looked_up(
                e.prefix->0,
                c.found->0,
                e.pool->0,
                c.pool,
                prompt,
                lora,
                n_layers,
                i,
                c.fork,
            );
        lemma_looked_up(c, e, prompt, lora, i);
    } else {
        assert(from_scratch(c.fork));
        lemma_missed(c, e);
        assert(c.fork.per_layer() * n_layers == 0) by (nonlinear_arith)
            requires
                c.fork.per_layer() == 0,
        ;
    }
}

/// Entry `e` keeps the pages that `prompt` fills, out of `pages` that it was given.
pub open spec fn keeps_prompt(
    e: PrefixEntry,
    prompt: Seq<u32>,
    pages: Seq<usize>,
    n_layers: nat,
) -> bool {
    &&& e.tokens@ == whole_pages(prompt)
    &&& e.pages@ == pages.take((prompt.len() / PAGE_SIZE as nat * n_layers) as int)
}

/// An admission leaves everyone's pages apart. What the new prompt writes, behind the
/// positions that it reuses, goes to pages that no other sequence names, and no kept
/// prefix but its own.
pub proof fn law_admission_keeps_pages_apart(
    e0: Engine,
    e1: Engine,
    req: InferenceRequest,
    start: usize,
)
    requires
        e0.wf(),
        e1.wf(),
        e1.shape == e0.shape,
        (e1.prefix is Some) == (e0.prefix is Some),
        pages_apart(e0),
        admission(e0, e1, req, true, Admission::Admitted { start }),
    ensures
        pages_apart(e1),
        ({
            let pages = e1.active@.last().pages.pages();
            let n_layers = e0.shape.n_layers as nat;
            let entries = entries_of(e1.prefix);
            forall|q: int|
                start as nat / PAGE_SIZE as nat * n_layers <= q < pages.len() ==> {
                    &&& forall|j: int|
                        0 <= j < e0.active@.len() ==> !(
                        #[trigger] e0.active@[j]).pages.pages().contains(#[trigger] pages[q])
                    &&& forall|m: int|
                        0 <= m < entries.len() && (#[trigger] entries[m]).pages@.contains(pages[q])
                            ==> keeps_prompt(entries[m], req.prompt_tokens@, pages, n_layers)
                }
        }),
{
    let n_layers = e0.shape.n_layers as nat;
    let pages = e1.active@.last().pages.pages();
    if e0.paged() {
        let prompt = req.prompt_tokens@;
        let lora = adapter_key(req.lora_name);
        let c = choose|c: Claim|
            {
                &&& #[trigger] claim_made(
                    c,
                    e0.prefix,
                    e0.pool->0,
                    prompt,
                    lora,
                    n_layers,
                    pages,
                )
                &&& c.fork.length() == start
                &&& offered(c, e1.prefix, prompt, lora, n_layers, pages)
            };
        lemma_new_pages(e0, e1, req, start, c);
        lemma_kept_by(e0, e1, req, c);
        let entries = entries_of(e1.prefix);
        assert forall|q: int|
            start as nat / PAGE_SIZE as nat * n_layers <= q < pages.len() implies {
            &&& forall|j: int|
                0 <= j < e0.active@.len() ==> !(#[trigger] e0.active@[j]).pages.pages().contains(
                    #[trigger] pages[q],
                )
            &&& forall|m: int|
                0 <= m < entries.len() && (#[trigger] entries[m]).pages@.contains(pages[q])
                    ==> keeps_prompt(entries[m], prompt, pages, n_layers)
        } by {
            assert(nobody_else(e0.active@, entries_of(c.left), pages[q]));
            assert forall|m: int|
                0 <= m < entries.len() && (#[trigger] entries[m]).pages@.contains(
                    pages[q],
                ) implies keeps_prompt(entries[m], prompt, pages, n_layers) by {
                if entries_of(c.left).contains(entries[m]) {
                    let y = choose|y: int|
                        0 <= y < entries_of(c.left).len() && entries_of(c.left)[y] == entries[m];
                    assert(!entries_of(c.left)[y].pages@.contains(pages[q]));
                }
            }
        }
        lemma_admitted_apart(e0, e1, req, start, c);
    } else {
        assert forall|i: int| 0 <= i < e1.active@.len() implies (
        #[trigger] e1.active@[i]).pages.pages().len() == 0 by {
            if i < e0.active@.len() {
                assert(e1.active@.drop_last()[i] == e0.active@[i]);
            }
        }
    }
}

spec fn nobody_else(
    active: Seq<ActiveSequence>,
    entries: Seq<PrefixEntry>,
    id: usize,
) -> bool {
    &&& forall|j: int|
        0 <= j < active.len() ==> !(#[trigger] active[j]).pages.pages().contains(id)
    &&& forall|m: int|
        0 <= m < entries.len() ==> !(#[trigger] entries[m]).pages@.contains(id)
}

/// The registry keeps what it had left, or the new prompt.
proof fn lemma_kept_by(e0: Engine, e1: Engine, req: InferenceRequest, c: Claim)
    requires
        (e1.prefix is Some) == (e0.prefix is Some),
        claim_made(
            c,
            e0.prefix,
            e0.pool->0,
            req.prompt_tokens@,
            adapter_key(req.lora_name),
            e0.shape.n_layers as nat,
            e1.active@.last().pages.pages(),
        ),
        offered(
            c,
            e1.prefix,
            req.prompt_tokens@,
            adapter_key(req.lora_name),
            e0.shape.n_layers as nat,
            e1.active@.last().pages.pages(),
        ),
    ensures
        forall|m: int|
            0 <= m < entries_of(e1.prefix).len() ==> entries_of(c.left).contains(
                #[trigger] entries_of(e1.prefix)[m],
            ) || keeps_prompt(
                entries_of(e1.prefix)[m],
                req.prompt_tokens@,
                e1.active@.last().pages.pages(),
                e0.shape.n_layers as nat,
            ),
{
    if e1.prefix is Some {
        let prompt = req.prompt_tokens@;
        let lora = adapter_key(req.lora_name);
        let n_layers = e0.shape.n_layers as nat;
        let pages = e1.active@.last().pages.pages();
        let p0 = c.left->0;
        let p1 = e1.prefix->0;
        let head = pages.take((prompt.len() / PAGE_SIZE as nat * n_layers) as int);
        let (x, f) = choose|x: int, f: PrefixEntry| #[trigger]
            inserted(p0, p1, c.refs, prompt, lora, head, x, f);
        assert forall|m: int| 0 <= m < p1.entries@.len() implies p0.entries@.contains(
            #[trigger] p1.entries@[m],
        ) || keeps_prompt(p1.entries@[m], prompt, pages, n_layers) by {
            lemma_inserted_from(p0, p1, c.refs, prompt, lora, head, x, f, m);
        }
    }
}

proof fn lemma_new_pages(
    e0: Engine,
    e1: Engine,
    req: InferenceRequest,
    start: usize,
    c: Claim,
)
    requires
        e0.wf(),
        e0.paged(),
        claim_made(
            c,
            e0.prefix,
            e0.pool->0,
            req.prompt_tokens@,
            adapter_key(req.lora_name),
            e0.shape.n_layers as nat,
            e1.active@.last().pages.pages(),
        ),
        c.fork.length() == start,
    ensures
        ({
            let pages = e1.active@.last().pages.pages();
            let fork = c.fork.pages();
            &&& fork.len() == start as nat / PAGE_SIZE as nat * e0.shape.n_layers as nat
            &&& fork.len() <= pages.len()
            &&& pages.take(fork.len() as int) == fork
            &&& pages.no_duplicates()
            &&& forall|q: int|
                fork.len() <= q < pages.len() ==> nobody_else(
                    e0.active@,
                    entries_of(c.left),
                    #[trigger] pages[q],
                )
        }),
{
    let prompt = req.prompt_tokens@;
    let lora = adapter_key(req.lora_name);
    let n_layers = e0.shape.n_layers as nat;
    let pages = e1.active@.last().pages.pages();
    let fork = c.fork.pages();
    lemma_forked(c, e0, prompt, lora);
    let a = cache_lists(e0.active@).push(fork);
    let entries = entries_of(c.found);
    let lists = page_lists(entries);
    let refs = after_evictions(c.pool.refs(), lists, c.evicted);
    lemma_evicted_backed(c.pool.refs(), a, lists, c.evicted);
    lemma_lists_skip(entries, c.evicted as int);
    let left = page_lists(entries_of(c.left));
    assert(backed(refs, a + left));
    assert(start as nat / PAGE_SIZE as nat == c.fork.per_layer());
    let fresh = pages.skip(fork.len() as int);
    assert forall|q: int| fork.len() <= q < pages.len() implies nobody_else(
        e0.active@,
        entries_of(c.left),
        #[trigger] pages[q],
    ) by {
        let id = pages[q];
        assert(fresh[q - fork.len()] == id);
        assert(holders(refs, id as int) == 0);
        assert forall|j: int| 0 <= j < e0.active@.len() implies !(
        #[trigger] e0.active@[j]).pages.pages().contains(id) by {
            lemma_nobodys(refs, a + left, j, id);
            assert((a + left)[j] == e0.active@[j].pages.pages());
        }
        assert forall|m: int| 0 <= m < entries_of(c.left).len() implies !(
        #[trigger] entries_of(c.left)[m]).pages@.contains(id) by {
            lemma_nobodys(refs, a + left, a.len() + m, id);
            assert((a + left)[a.len() + m] == entries_of(c.left)[m].pages@);
        }
    }
}

proof fn lemma_admitted_apart(
    e0: Engine,
    e1: Engine,
    req: InferenceRequest,
    start: usize,
    c: Claim,
)
    requires
        e0.wf(),
        e1.wf(),
        e0.paged(),
        e1.shape == e0.shape,
        (e1.prefix is Some) == (e0.prefix is Some),
        pages_apart(e0),
        admission(e0, e1, req, true, Admission::Admitted { start }),
        claim_made(
            c,
            e0.prefix,
            e0.pool->0,
            req.prompt_tokens@,
            adapter_key(req.lora_name),
            e0.shape.n_layers as nat,
            e1.active@.last().pages.pages(),
        ),
        c.fork.length() == start,
        offered(
            c,
            e1.prefix,
            req.prompt_tokens@,
            adapter_key(req.lora_name),
            e0.shape.n_layers as nat,
            e1.active@.last().pages.pages(),
        ),
    ensures
        pages_apart(e1),
{
    let n = e0.active@.len() as int;
    let n_layers = e0.shape.n_layers as nat;
    let prompt = req.prompt_tokens@;
    let lora = adapter_key(req.lora_name);
    let pages = e1.active@.last().pages.pages();
    let fork = c.fork.pages();
    let entries0 = entries_of(e0.prefix);
    let entries1 = entries_of(e1.prefix);
    let left = entries_of(c.left);
    let whole = (prompt.len() / PAGE_SIZE as nat * n_layers) as int;
    lemma_forked(c, e0, prompt, lora);
    lemma_new_pages(e0, e1, req, start, c);
    lemma_kept_by(e0, e1, req, c);
    assert(all_from(left, entries0)) by {
        lemma_skipped_from(entries_of(c.found), c.evicted as int);
        lemma_from_trans(left, entries_of(c.found), entries0);
    }
    assert forall|i: int| 0 <= i < n implies (#[trigger] e1.active@[i]) == e0.active@[i] by {
        assert(e1.active@.drop_last()[i] == e0.active@[i]);
    }
    assert(e1.active@[n] == e1.active@.last());
    assert(e1.active@[n].state().prompt_len == prompt.len());
    lemma_fork_fits(prompt.len(), start as nat, e1.active@[n].pages, n_layers);
    assert forall|i: int, q: int|
        0 <= i < e1.active@.len() && first_own(e1.active@[i], n_layers) <= q
            < e1.active@[i].pages.pages().len() implies only_of(
        e1.active@,
        entries1,
        i,
        #[trigger] e1.active@[i].pages.pages()[q],
    ) by {
        let id = e1.active@[i].pages.pages()[q];
        if i < n {
            assert(e1.active@[i] == e0.active@[i]);
            assert(id == e0.active@[i].pages.pages()[q]);
            assert(only_of(e0.active@, entries0, i, id));
            assert(!pages.contains(id)) by {
                if pages.contains(id) {
                    let r = choose|r: int| 0 <= r < pages.len() && pages[r] == id;
                    if r < fork.len() {
                        assert(pages.take(fork.len() as int)[r] == id);
                        assert(fork.contains(id));
                        let m = choose|m: int|
                            0 <= m < entries0.len() && #[trigger] all_among(
                                fork,
                                entries0[m].pages@,
                            );
                        assert(entries0[m].pages@.contains(id));
                    } else {
                        assert(nobody_else(e0.active@, left, pages[r]));
                        assert(e0.active@[i].pages.pages().contains(id));
                    }
                }
            }
            assert forall|m: int| 0 <= m < entries1.len() implies !(
            #[trigger] entries1[m]).pages@.contains(id) by {
                if left.contains(entries1[m]) {
                    let y = choose|y: int| 0 <= y < left.len() && left[y] == entries1[m];
                    assert(entries0.contains(left[y]));
                    let z = choose|z: int| 0 <= z < entries0.len() && entries0[z] == left[y];
                    assert(!entries0[z].pages@.contains(id));
                } else {
                    assert(keeps_prompt(entries1[m], prompt, pages, n_layers));
                    lemma_taken(pages, whole, id);
                }
            }
        } else {
            assert(nobody_else(e0.active@, left, pages[q]));
            assert forall|m: int| 0 <= m < entries1.len() implies !(
            #[trigger] entries1[m]).pages@.contains(id) by {
                if left.contains(entries1[m]) {
                    let y = choose|y: int| 0 <= y < left.len() && left[y] == entries1[m];
                    assert(!left[y].pages@.contains(id));
                } else {
                    assert(keeps_prompt(entries1[m], prompt, pages, n_layers));
                    if entries1[m].pages@.contains(id) {
                        let r = choose|r: int|
                            0 <= r < entries1[m].pages@.len() && entries1[m].pages@[r] == id;
                        assert(pages[r] == id && pages[q] == id);
                    }
                }
            }
        }
    }
}

proof fn lemma_fork_fits(len: nat, start: nat, c: PagedKvCache, n_layers: nat)
    requires
        start < len,
        c.wf(),
        c.n_layers() == n_layers,
        c.per_layer() >= page_count(len),
    ensures
        start / PAGE_SIZE as nat * n_layers <= len / PAGE_SIZE as nat * n_layers,
        len / PAGE_SIZE as nat * n_layers <= c.pages().len(),
{
    c.lemma_shape();
    let per = c.per_layer();
    assert(start / PAGE_SIZE as nat * n_layers <= len / PAGE_SIZE as nat * n_layers && len
        / PAGE_SIZE as nat * n_layers <= per * n_layers) by (nonlinear_arith)
        requires
            start / PAGE_SIZE as nat <= len / PAGE_SIZE as nat <= per,
    ;
}

proof fn lemma_taken(pages: Seq<usize>, whole: int, id: usize)
    requires
        !pages.contains(id),
        0 <= whole <= pages.len(),
    ensures
        !pages.take(whole).contains(id),
{
    if pages.take(whole).contains(id) {
        let r = choose|r: int| 0 <= r < whole && pages.take(whole)[r] == id;
        assert(pages[r] == id);
    }
}

/// A request that is turned away leaves everyone's pages apart.
pub proof fn law_refusal_keeps_pages_apart(
    e0: Engine,
    e1: Engine,
    req: InferenceRequest,
    constraint_ok: bool,
    finish: Finish,
)
    requires
        e0.wf(),
        e1.shape == e0.shape,
        pages_apart(e0),
        admission(e0, e1, req, constraint_ok, Admission::Refused { finish }),
    ensures
        pages_apart(e1),
{
    if e1 != e0 {
        lemma_refused_from(e0, e1, req, constraint_ok, finish);
        lemma_fewer_entries(
            e0.active@,
            entries_of(e1.prefix),
            entries_of(e0.prefix),
            e0.shape.n_layers as nat,
        );
    }
}

// ── Whole runs ───────────────────────────────────────────────────────────────

/// Every engine of a run is well formed, those in the middle of a pass too.
pub open spec fn all_sound<S>(run: Run<S>) -> bool {
    &&& forall|i: int| 0 <= i < run.engines.len() ==> (#[trigger] run.engines[i]).wf()
    &&& forall|i: int|
        0 <= i < run.deeds.len() ==> (#[trigger] run.deeds[i] matches Deed::Passed { pass }
            ==> pass.thinned.wf())
}

/// At every moment of a run, what is behind the pages that a prompt fills is named by its
/// sequence alone.
pub proof fn law_pages_stay_apart<S, R>(k: Machine<S, R>, run: Run<S>, n: nat)
    requires
        run.wf(k),
        all_sound(run),
        n <= run.deeds.len(),
    ensures
        pages_apart(run.engines[n as int]),
    decreases n,
{
    if n > 0 {
        let m = n - 1;
        law_pages_stay_apart(k, run, m as nat);
        let (w, ids) = run.after(k, m as nat);
        let (e0, e1) = (run.engines[m], run.engines[m + 1]);
        let deed = run.deeds[m];
        assert(e0.wf() && e1.wf());
        assert(done(k, w, ids, e0, e1, deed, run.adapters));
        match deed {
            Deed::Admitted { req, start, pick, steps } => {
                law_admission_keeps_pages_apart(e0, e1, req, start);
            },
            Deed::Refused { req, constraint_ok, finish } => {
                law_refusal_keeps_pages_apart(e0, e1, req, constraint_ok, finish);
            },
            Deed::Noted => {
                lemma_same_pages(
                    e0.active@,
                    e1.active@,
                    entries_of(e0.prefix),
                    e0.shape.n_layers as nat,
                );
            },
            Deed::Passed { pass } => {
                law_turns_keep_pages_apart(
                    e0,
                    pass.delivered,
                    pass.next,
                    pass.now,
                    pass.leaving,
                );
                law_departures_keep_pages_apart(
                    pass.delivered,
                    pass.thinned,
                    pass.leaving,
                    pass.gone,
                );
                assert(pass.thinned.wf());
                law_claims_keep_pages_apart(pass.thinned, e1, pass.later);
            },
        }
    }
}

} // verus!
