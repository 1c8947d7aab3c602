//! Runtime checks of the buffer cache: recycling in least-recently-used
//! order, cache hits, reference counting and the recency reshuffle.

use arno::bcache::{BCache, BlockData, BlockDataGuard, LRUCacheNode};

#[test]
fn cache_nodes_and_buffers_start_blank() {
    let node = LRUCacheNode::new();
    assert_eq!(node.index, 0);
    assert_eq!(node.refCount, 0);
    assert_eq!(node.diskNumber, 0);
    assert_eq!(node.blockNumber, 0);
    let data = BlockData::new();
    assert_eq!(data.0.len(), 1024);
    assert_eq!(data.0[0], 0);
    assert_eq!(data.0[1023], 0);
    let guard = BlockDataGuard::new();
    assert!(!guard.isValid);
}

#[test]
fn read_recycles_then_hits() {
    let mut cache = BCache::new();
    cache.init();
    // A miss recycles the least recently used unused buffer, scanning from
    // the back of the order: the last arena slot.
    let first = cache.read(0, 7);
    assert_eq!(first.index, 29);
    assert_eq!((first.diskNumber, first.blockNumber), (0, 7));
    assert!(cache.blockDataGuards[29].isValid);
    cache.blockDataGuards[29].blockData.release(first.blockData);
    // Reading the same block again hits the same buffer.
    let second = cache.read(0, 7);
    assert_eq!(second.index, 29);
    cache.blockDataGuards[29].blockData.release(second.blockData);
    // A different block recycles the next buffer from the back.
    let other = cache.read(1, 3);
    assert_eq!(other.index, 28);
    assert_eq!((other.diskNumber, other.blockNumber), (1, 3));
    cache.blockDataGuards[28].blockData.release(other.blockData);
}

#[test]
fn unused_buffer_moves_to_the_front_of_the_order() {
    let mut cache = BCache::new();
    cache.init();
    let n = cache.read(4, 2);
    assert_eq!(n.index, 29);
    cache.blockDataGuards[29].blockData.release(n.blockData);
    // Two users: the read above and one more through a second read.
    let again = cache.read(4, 2);
    assert_eq!(again.index, 29);
    cache.blockDataGuards[29].blockData.release(again.blockData);
    cache.decreaseRefCount(29);
    cache.decreaseRefCount(29);
    // Buffer 29 became unused and moved to the least-recently-used front,
    // so the next recycle takes buffer 28 from the back — but a read of the
    // same block still hits buffer 29 wherever it sits.
    let hit = cache.read(4, 2);
    assert_eq!(hit.index, 29);
    cache.blockDataGuards[29].blockData.release(hit.blockData);
    let miss = cache.read(5, 5);
    assert_eq!(miss.index, 28);
    cache.blockDataGuards[28].blockData.release(miss.blockData);
}
