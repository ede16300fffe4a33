//! Claiming pages for a sequence, at the price of kept prefixes.
use vstd::prelude::*;

use crate::cache::paged::{pages_missing, reserved, reserved_per_layer, PagedKvCache};
use crate::cache::pool::{backed, live_count, PagePool};
use crate::cache::prefix::{
    after_evictions, conserved, counted, entries_of, fits_after, lemma_backed_list_is_held,
    lemma_first_list_given_up, lemma_last_list_extended, lists_with, page_lists, PrefixCache,
};
use crate::error::GlintError;

verus! {

/// The registry counts `k` more evictions; its other counters are untouched.
pub open spec fn only_evicted(
    prefix0: Option<PrefixCache>,
    prefix1: Option<PrefixCache>,
    k: nat,
) -> bool {
    match (prefix0, prefix1) {
        (Some(p0), Some(p1)) => {
            &&& p1.evictions == counted(p0.evictions, k as int)
            &&& p1.max_entries == p0.max_entries
            &&& p1.hits == p0.hits
            &&& p1.misses == p0.misses
            &&& p1.tokens_reused == p0.tokens_reused
        },
        (None, None) => true,
        _ => false,
    }
}

/// A reservation of `missing` pages succeeded after giving up the `k` least
/// recently used prefixes, and no fewer would have done.
pub open spec fn reserved_after(
    k: nat,
    prefix0: Option<PrefixCache>,
    prefix1: Option<PrefixCache>,
    pages0: Seq<usize>,
    pages1: Seq<usize>,
    refs0: Seq<usize>,
    refs1: Seq<usize>,
    capacity: nat,
    missing: nat,
) -> bool {
    let entries = entries_of(prefix0);
    let lists = page_lists(entries);
    &&& k <= lists.len()
    &&& fits_after(refs0, lists, k, capacity, missing)
    &&& forall|j: nat| j < k ==> !#[trigger] fits_after(refs0, lists, j, capacity, missing)
    &&& entries_of(prefix1) == entries.skip(k as int)
    &&& only_evicted(prefix0, prefix1, k)
    &&& reserved(pages0, pages1, after_evictions(refs0, lists, k), refs1, missing)
}

/// The error of a reservation of `missing` pages against a pool of `capacity` pages of
/// which those counted in `refs` are in use.
pub open spec fn exhausted(missing: nat, refs: Seq<usize>, capacity: nat) -> GlintError {
    GlintError::KvPagePoolExhausted {
        needed: if missing > usize::MAX {
            usize::MAX
        } else {
            missing as usize
        },
        available: (capacity - live_count(refs)) as usize,
    }
}

/// Reserve `total_positions` for `cache`, giving up kept prefixes first.
///
/// A kept prefix holds pages that a live request could be using, so a
/// reservation that fails against a full pool gives prefixes up, the least
/// recently used first, and retries until either the reservation succeeds or
/// there is nothing left to give back. Without a registry this is exactly
/// `cache.reserve`.
pub fn reserve_or_evict(
    pool: &mut PagePool,
    cache: &mut PagedKvCache,
    total_positions: usize,
    prefix: &mut Option<PrefixCache>,
) -> (r: Result<(), GlintError>)
    requires
        old(pool).wf(),
        old(cache).wf(),
        backed(old(pool).refs(), lists_with(*old(prefix), old(cache).pages())),
    ensures
        final(pool).wf(),
        final(cache).wf(),
        final(pool).capacity() == old(pool).capacity(),
        final(cache).n_layers() == old(cache).n_layers(),
        final(cache).length() == old(cache).length(),
        backed(final(pool).refs(), lists_with(*final(prefix), final(cache).pages())),
        conserved(
            old(pool).refs(),
            lists_with(*old(prefix), old(cache).pages()),
            final(pool).refs(),
            lists_with(*final(prefix), final(cache).pages()),
        ),
        ({
            let missing = pages_missing(
                total_positions as nat,
                old(cache).per_layer(),
                old(cache).n_layers(),
            );
            let lists = page_lists(entries_of(*old(prefix)));
            match r {
                Ok(_) => {
                    &&& final(cache).per_layer() == reserved_per_layer(
                        total_positions as nat,
                        old(cache).per_layer(),
                    )
                    &&& exists|k: nat| #[trigger]
                        reserved_after(
                            k,
                            *old(prefix),
                            *final(prefix),
                            old(cache).pages(),
                            final(cache).pages(),
                            old(pool).refs(),
                            final(pool).refs(),
                            old(pool).capacity(),
                            missing,
                        )
                },
                Err(e) => {
                    &&& e == exhausted(missing, final(pool).refs(), final(pool).capacity())
                    &&& forall|k: nat|
                        k <= lists.len() ==> !#[trigger] fits_after(
                            old(pool).refs(),
                            lists,
                            k,
                            old(pool).capacity(),
                            missing,
                        )
                    &&& entries_of(*final(prefix)).len() == 0
                    &&& only_evicted(*old(prefix), *final(prefix), lists.len())
                    &&& *final(cache) == *old(cache)
                    &&& final(pool).refs() == after_evictions(
                        old(pool).refs(),
                        lists,
                        lists.len(),
                    )
                },
            }
        }),
{
    let ghost entries = entries_of(*prefix);
    let ghost lists = page_lists(entries);
    let ghost refs0 = pool.refs();
    let ghost cap = pool.capacity();
    let ghost missing = pages_missing(total_positions as nat, cache.per_layer(), cache.n_layers());
    let ghost prefix0 = *prefix;
    let ghost cache0 = *cache;
    let ghost all0 = lists.push(cache.pages());
    proof {
        assert(lists_with(*prefix, cache.pages()) =~= all0);
        lemma_backed_list_is_held(refs0, all0, lists.len() as int);
        assert(entries.skip(0) =~= entries);
    }
    let mut last = match cache.reserve(pool, total_positions) {
        Ok(()) => {
            proof {
                lemma_last_list_extended(
                    refs0,
                    pool.refs(),
                    lists,
                    cache0.pages(),
                    cache.pages(),
                    missing,
                );
                assert(reserved_after(
                    0,
                    prefix0,
                    *prefix,
                    cache0.pages(),
                    cache.pages(),
                    refs0,
                    pool.refs(),
                    cap,
                    missing,
                ));
            }
            return Ok(());
        },
        Err(err) => err,
    };
    assert(!fits_after(refs0, lists, 0, cap, missing));
    let mut registry = match prefix.take() {
        Some(p) => p,
        None => {
            assert(lists.len() == 0);
            return Err(last);
        },
    };
    let ghost mut k: nat = 0;
    let mut evicted = true;
    assert(lists.skip(0) =~= lists);
    assert(conserved(refs0, all0, refs0, all0));
    while evicted
        invariant
            pool.wf(),
            cache.wf(),
            *cache == cache0,
            pool.capacity() == cap,
            last == exhausted(missing, pool.refs(), cap),
            prefix0 is Some,
            prefix0->0.entries@ == entries,
            entries_of(prefix0) == entries,
            lists == page_lists(entries),
            all0 == lists.push(cache0.pages()),
            missing == pages_missing(
                total_positions as nat,
                cache0.per_layer(),
                cache0.n_layers(),
            ),
            k <= lists.len(),
            registry.entries@ == entries.skip(k as int),
            only_evicted(prefix0, Some(registry), k),
            pool.refs() == after_evictions(refs0, lists, k),
            backed(pool.refs(), lists.skip(k as int).push(cache0.pages())),
            conserved(refs0, all0, pool.refs(), lists.skip(k as int).push(cache0.pages())),
            forall|j: nat| j <= k ==> !#[trigger] fits_after(refs0, lists, j, cap, missing),
            !evicted ==> k == lists.len(),
            cache0 == *old(cache),
            prefix0 == *old(prefix),
            refs0 == old(pool).refs(),
            cap == old(pool).capacity(),
        decreases lists.len() - k, evicted as int,
    {
        let ghost now = lists.skip(k as int).push(cache0.pages());
        let ghost refs_k = pool.refs();
        proof {
            if k < lists.len() {
                lemma_backed_list_is_held(refs_k, now, 0);
                assert(now[0] == registry.entries@[0].pages@);
                lemma_first_list_given_up(refs_k, now);
                assert(now.skip(1) =~= lists.skip(k as int + 1).push(cache0.pages()));
            }
        }
        evicted = registry.evict_lru(pool);
        if evicted {
            proof {
                assert(entries.skip(k as int).skip(1) =~= entries.skip(k as int + 1));
                k = k + 1;
                assert(pool.refs() == after_evictions(refs0, lists, k));
                let next = lists.skip(k as int).push(cache0.pages());
                lemma_backed_list_is_held(pool.refs(), next, lists.skip(k as int).len() as int);
                assert(next[lists.skip(k as int).len() as int] == cache0.pages());
            }
            let ghost refs_now = pool.refs();
            match cache.reserve(pool, total_positions) {
                Ok(()) => {
                    *prefix = Some(registry);
                    proof {
                        assert(page_lists(entries_of(*prefix)) =~= lists.skip(k as int));
                        lemma_last_list_extended(
                            refs_now,
                            pool.refs(),
                            lists.skip(k as int),
                            cache0.pages(),
                            cache.pages(),
                            missing,
                        );
                        assert(reserved_after(
                            k,
                            prefix0,
                            *prefix,
                            cache0.pages(),
                            cache.pages(),
                            refs0,
                            pool.refs(),
                            cap,
                            missing,
                        ));
                    }
                    return Ok(());
                },
                Err(err) => {
                    last = err;
                },
            }
        }
    }
    *prefix = Some(registry);
    proof {
        assert(entries_of(*prefix).len() == 0);
        assert(lists_with(*prefix, cache.pages()) =~= lists.skip(k as int).push(cache0.pages()));
    }
    Err(last)
}

} // verus!
