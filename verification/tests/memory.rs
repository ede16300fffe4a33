//! Pages, prefixes and delivery.
use std::collections::VecDeque;

use glint::cache::paged::PagedKvCache;
use glint::cache::pool::{PagePool, PAGE_SIZE};
use glint::cache::prefix::{PrefixCache, PrefixCacheConfig};
use glint::error::GlintError;
use glint::server::deliver::{
    judge, submitted, take_offer, try_deliver, Delivery, Offer, TokenSender, MAX_PENDING_TOKENS,
};
use glint::server::engine::SubmitError;
use glint::server::reserve::reserve_or_evict;
use tokio::sync::mpsc;

#[test]
fn reserve_or_evict_without_a_registry_is_a_plain_reserve() {
    let mut pool = PagePool::new(1);
    let mut cache = PagedKvCache::new(1);
    assert!(reserve_or_evict(&mut pool, &mut cache, PAGE_SIZE, &mut None).is_ok());
    assert!(reserve_or_evict(&mut pool, &mut cache, PAGE_SIZE + 1, &mut None).is_err());
}

#[test]
fn reserve_or_evict_frees_prefixes_until_the_reservation_fits() {
    let mut pool = PagePool::new(3);
    let mut registry = PrefixCache::new(PrefixCacheConfig { max_entries: 16 });

    // Two kept prefixes hold one page each.
    for tag in 0..2u32 {
        let mut producer = PagedKvCache::new(1);
        let tokens: Vec<u32> = (0..PAGE_SIZE as u32).map(|i| i * 3 + tag).collect();
        producer.reserve(&mut pool, tokens.len()).expect("pool has room");
        for _ in 0..tokens.len() {
            producer.advance();
        }
        registry.insert(&mut pool, &tokens, &producer, &None);
        producer.release(&mut pool);
    }
    assert_eq!(registry.len(), 2);
    assert_eq!(pool.available_pages(), 1);

    // A sequence wanting all three pages gets them back.
    let mut live = PagedKvCache::new(1);
    let mut registry = Some(registry);
    reserve_or_evict(&mut pool, &mut live, 3 * PAGE_SIZE, &mut registry).expect("prefixes freed");
    let registry = registry.unwrap();
    assert!(registry.is_empty(), "both prefixes were given back");
    assert_eq!(registry.stats().evictions, 2);
}

#[test]
fn reserve_or_evict_reports_failure_when_the_registry_is_empty() {
    let mut pool = PagePool::new(1);
    let mut registry = Some(PrefixCache::new(PrefixCacheConfig { max_entries: 16 }));
    let mut cache = PagedKvCache::new(1);
    let err = reserve_or_evict(&mut pool, &mut cache, 4 * PAGE_SIZE, &mut registry)
        .expect_err("nothing can free these pages");
    assert!(matches!(err, GlintError::KvPagePoolExhausted { needed: 4, available: 1 }));
}

#[test]
fn pages_come_back_when_a_cache_is_released() {
    let mut pool = PagePool::new(6);
    let mut cache = PagedKvCache::new(2);
    cache.reserve(&mut pool, PAGE_SIZE + 1).unwrap();
    assert_eq!(cache.allocated_pages(), 4);
    assert_eq!(cache.pages_per_layer(), 2);
    assert_eq!(pool.live_pages(), 4);
    cache.release(&mut pool);
    assert_eq!(pool.live_pages(), 0);
    let stats = pool.stats();
    assert_eq!((stats.capacity, stats.peak_live, stats.pooled), (6, 4, 4));
}

#[test]
fn shared_prefix_is_found_in_whole_pages() {
    let mut pool = PagePool::new(16);
    let mut registry = PrefixCache::new(PrefixCacheConfig { max_entries: 4 });
    let tokens: Vec<u32> = (0..40).collect();
    let mut producer = PagedKvCache::new(1);
    producer.reserve(&mut pool, tokens.len()).unwrap();
    registry.insert(&mut pool, &tokens, &producer, &None);

    let mut prompt: Vec<u32> = (0..35).collect();
    prompt.extend([99, 99, 99]);
    let shared = registry.lookup(&mut pool, &prompt, &None, 1).expect("two pages in common");
    assert_eq!(shared.len(), 32);
    assert!(registry.lookup(&mut pool, &[5, 6, 7], &None, 1).is_none());
    // Another adapter computed other values.
    assert!(registry.lookup(&mut pool, &prompt, &Some("a".to_string()), 1).is_none());
    let stats = registry.stats();
    assert_eq!((stats.hits, stats.misses, stats.tokens_reused), (1, 2, 32));
    assert_eq!((stats.entries, stats.pages), (1, 2));
}

#[test]
fn deliver_drains_when_receiver_reads() {
    let (tx, mut rx) = mpsc::channel::<u32>(64);
    let mut tx = TokenSender::new(tx);
    let mut pending = VecDeque::from([1, 2, 3]);
    assert_eq!(try_deliver(&mut tx, &mut pending), Delivery::Healthy);
    assert!(pending.is_empty(), "all tokens should have been sent");
    assert_eq!(rx.try_recv().unwrap(), 1);
    assert_eq!(rx.try_recv().unwrap(), 2);
    assert_eq!(rx.try_recv().unwrap(), 3);
}

#[test]
fn deliver_backpressures_without_blocking() {
    let (tx, mut rx) = mpsc::channel::<u32>(2); // capacity 2, never drained
    let mut tx = TokenSender::new(tx);
    let mut pending = VecDeque::from([10, 20, 30, 40]);
    assert_eq!(try_deliver(&mut tx, &mut pending), Delivery::Healthy);
    assert_eq!(pending.len(), 2, "two tokens remain queued for retry");
    assert_eq!(pending, VecDeque::from([30, 40]));
    assert_eq!((rx.try_recv().unwrap(), rx.try_recv().unwrap()), (10, 20));
    // What was left over comes next.
    assert_eq!(try_deliver(&mut tx, &mut pending), Delivery::Healthy);
    assert!(pending.is_empty());
    assert_eq!((rx.try_recv().unwrap(), rx.try_recv().unwrap()), (30, 40));
}

#[test]
fn deliver_detects_disconnect() {
    let (tx, rx) = mpsc::channel::<u32>(64);
    let mut tx = TokenSender::new(tx);
    drop(rx);
    let mut pending = VecDeque::from([1]);
    assert_eq!(try_deliver(&mut tx, &mut pending), Delivery::Disconnected);
    assert_eq!(pending, VecDeque::from([1]));
    assert_eq!(try_deliver(&mut tx, &mut VecDeque::new()), Delivery::Healthy);
    assert!(tx.channel().is_closed());
}

#[test]
fn deliver_evicts_when_backlog_exceeds_cap() {
    let (tx, _rx) = mpsc::channel::<u32>(1); // capacity 1, never drained
    let mut tx = TokenSender::new(tx);
    let mut pending: VecDeque<u32> = (0..(MAX_PENDING_TOKENS as u32 + 10)).collect();
    assert_eq!(try_deliver(&mut tx, &mut pending), Delivery::TooSlow);
}

#[test]
fn backlog_at_its_bound_is_still_healthy() {
    assert_eq!(judge(Some(Offer::Full), MAX_PENDING_TOKENS), Delivery::Healthy);
    assert_eq!(judge(Some(Offer::Full), MAX_PENDING_TOKENS + 1), Delivery::TooSlow);
    assert_eq!(judge(Some(Offer::Closed), 0), Delivery::Disconnected);
}

#[test]
fn only_a_taken_token_leaves_the_queue() {
    let mut pending: VecDeque<u32> = VecDeque::from(vec![7, 8, 9]);
    assert!(take_offer(Offer::Sent, &mut pending));
    assert_eq!(pending, VecDeque::from(vec![8, 9]));
    assert!(!take_offer(Offer::Full, &mut pending));
    assert_eq!(pending, VecDeque::from(vec![8, 9]));
    assert!(!take_offer(Offer::Closed, &mut pending));
    assert_eq!(pending, VecDeque::from(vec![8, 9]));
}

#[test]
fn refused_submissions_say_why() {
    assert_eq!(submitted(Offer::Sent), Ok(()));
    assert_eq!(submitted(Offer::Full), Err(SubmitError::Busy));
    assert_eq!(submitted(Offer::Closed), Err(SubmitError::Shutdown));
}

#[test]
fn the_last_attempt_s_error_is_reported() {
    // A kept prefix gives its page back, and the pool is still too small.
    let mut pool = PagePool::new(3);
    let mut registry = PrefixCache::new(PrefixCacheConfig { max_entries: 16 });
    let mut producer = PagedKvCache::new(1);
    let tokens: Vec<u32> = (0..PAGE_SIZE as u32).collect();
    producer.reserve(&mut pool, tokens.len()).unwrap();
    for _ in 0..tokens.len() {
        producer.advance();
    }
    registry.insert(&mut pool, &tokens, &producer, &None);
    producer.release(&mut pool);
    assert_eq!(pool.available_pages(), 2);
    let mut live = PagedKvCache::new(1);
    let mut registry = Some(registry);
    let err = reserve_or_evict(&mut pool, &mut live, 5 * PAGE_SIZE, &mut registry).unwrap_err();
    assert!(matches!(err, GlintError::KvPagePoolExhausted { needed: 5, available: 3 }));
    assert!(registry.unwrap().is_empty());
}

#[test]
fn every_position_has_a_slot_of_its_own() {
    let mut pool = PagePool::new(6);
    let mut cache = PagedKvCache::new(2);
    cache.reserve(&mut pool, 2 * PAGE_SIZE + 1).unwrap();
    let pages = cache.first_pages(6);
    assert_eq!(cache.slot(0, 0), (pages[0], 0));
    assert_eq!(cache.slot(1, PAGE_SIZE - 1), (pages[1], PAGE_SIZE - 1));
    assert_eq!(cache.slot(1, PAGE_SIZE + 3), (pages[3], 3));
    let mut seen = std::collections::HashSet::new();
    for layer in 0..2 {
        for pos in 0..3 * PAGE_SIZE {
            assert!(seen.insert(cache.slot(layer, pos)), "layer {layer}, position {pos}");
        }
    }
}
