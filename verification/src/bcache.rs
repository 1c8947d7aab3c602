//! The buffer cache: a fixed set of in-memory block buffers, recycled in
//! least-recently-used order. A cached block is identified by its disk and
//! block numbers; a reference count tracks how many places use it, and a
//! buffer becomes recyclable only when that count drops to zero.
//!
//! The recency bookkeeping is an explicit order over the fixed node arena
//! (least recently used first) instead of the raw-pointer doubly linked
//! list chained through the nodes: lookups walk the order from the front,
//! recycling walks it from the back, and a buffer whose last user leaves
//! moves to the front.

use vstd::prelude::*;
use crate::fs::{BCACHE_SIZE, BLOCK_SIZE};
use crate::locks::{SleepLock, SleepLockGuard, SpinLock};

verus! {

/// One slot of the buffer cache: which block it caches and how many places
/// currently use it.
pub struct LRUCacheNode {
    /// This node's index in the cache's node arena.
    pub index: usize,
    /// Number of places this buffer is currently used in; zero means the
    /// buffer is recyclable.
    pub refCount: usize,
    /// Disk number of the cached block.
    pub diskNumber: usize,
    /// Block number of the cached block.
    pub blockNumber: usize,
}

impl LRUCacheNode {
    pub fn new() -> (r: LRUCacheNode)
        ensures
            r.index == 0,
            r.refCount == 0,
            r.diskNumber == 0,
            r.blockNumber == 0,
    {
        LRUCacheNode { index: 0, refCount: 0, diskNumber: 0, blockNumber: 0 }
    }
}

/// The first node, scanning the recency order from least recently used,
/// that caches the given block.
pub open spec fn first_match_from(
    order: Seq<usize>,
    nodes: Seq<LRUCacheNode>,
    j: int,
    diskNumber: usize,
    blockNumber: usize,
) -> Option<usize>
    decreases order.len() - j,
{
    if j < 0 || j >= order.len() {
        None
    } else if nodes[order[j] as int].diskNumber == diskNumber && nodes[order[j] as int].blockNumber
        == blockNumber {
        Some(order[j])
    } else {
        first_match_from(order, nodes, j + 1, diskNumber, blockNumber)
    }
}

/// The first unused node, scanning the recency order from most recently
/// used.
pub open spec fn first_free_from(order: Seq<usize>, nodes: Seq<LRUCacheNode>, j: int) -> Option<
    usize,
>
    decreases j + 1,
{
    if j < 0 || j >= order.len() {
        None
    } else if nodes[order[j] as int].refCount == 0 {
        Some(order[j])
    } else {
        first_free_from(order, nodes, j - 1)
    }
}

/// The recency bookkeeping of the buffer cache: the node arena and the
/// usage order over it.
pub struct LRUCache {
    /// The node arena; node `i` keeps `index == i`.
    pub nodes: Vec<LRUCacheNode>,
    /// Node indices from least to most recently used.
    pub order: Vec<usize>,
}

impl LRUCache {
    /// Consistency after `BCache::init` has run: the order ranges exactly
    /// over the arena and each node knows its own index.
    pub open spec fn wf(&self) -> bool {
        &&& self.nodes@.len() == BCACHE_SIZE
        &&& self.order@.len() == BCACHE_SIZE
        &&& self.order@.no_duplicates()
        &&& forall|j: int|
            0 <= j < self.order@.len() ==> (#[trigger] self.order@[j]) < BCACHE_SIZE
        &&& forall|i: usize|
            i < BCACHE_SIZE ==> #[trigger] self.order@.contains(i)
        &&& forall|i: int|
            0 <= i < self.nodes@.len() ==> (#[trigger] self.nodes@[i]).index == i
    }

    /// A blank cache: zeroed nodes and no usage order yet; `BCache::init`
    /// establishes both.
    pub fn new() -> (r: LRUCache)
        ensures
            r.nodes@.len() == BCACHE_SIZE,
            r.order@ == Seq::<usize>::empty(),
            forall|i: int|
                0 <= i < BCACHE_SIZE ==> {
                    &&& (#[trigger] r.nodes@[i]).refCount == 0
                    &&& r.nodes@[i].index == 0
                    &&& r.nodes@[i].diskNumber == 0
                    &&& r.nodes@[i].blockNumber == 0
                },
    {
        let mut nodes: Vec<LRUCacheNode> = Vec::new();
        let mut i: usize = 0;
        while i < BCACHE_SIZE
            invariant
                0 <= i <= BCACHE_SIZE,
                nodes@.len() == i,
                forall|t: int|
                    0 <= t < i ==> {
                        &&& (#[trigger] nodes@[t]).refCount == 0
                        &&& nodes@[t].index == 0
                        &&& nodes@[t].diskNumber == 0
                        &&& nodes@[t].blockNumber == 0
                    },
            decreases BCACHE_SIZE - i,
        {
            nodes.push(LRUCacheNode::new());
            i = i + 1;
        }
        LRUCache { nodes, order: Vec::new() }
    }

    /// Establishes the initial usage order `0, 1, ...` over the arena and
    /// stamps each node with its own index; `BCache::init` runs this once
    /// during kernel startup.
    pub fn init(&mut self)
        requires
            old(self).nodes@.len() == BCACHE_SIZE,
        ensures
            final(self).wf(),
            final(self).order@ == Seq::new(BCACHE_SIZE as nat, |j: int| j as usize),
            forall|i: int|
                0 <= i < BCACHE_SIZE ==> final(self).nodes@[i] == (LRUCacheNode {
                    index: i as usize,
                    ..old(self).nodes@[i]
                }),
    {
        let mut order: Vec<usize> = Vec::new();
        let mut i: usize = 0;
        while i < BCACHE_SIZE
            invariant
                0 <= i <= BCACHE_SIZE,
                order@ == Seq::new(i as nat, |j: int| j as usize),
                self.nodes@.len() == BCACHE_SIZE,
                forall|t: int|
                    0 <= t < i ==> self.nodes@[t] == (LRUCacheNode {
                        index: t as usize,
                        ..old(self).nodes@[t]
                    }),
                forall|t: int| i <= t < BCACHE_SIZE ==> self.nodes@[t] == old(self).nodes@[t],
            decreases BCACHE_SIZE - i,
        {
            order.push(i);
            proof {
                assert(order@ =~= Seq::new((i + 1) as nat, |j: int| j as usize));
            }
            let node = &mut self.nodes[i];
            node.index = i;
            i = i + 1;
        }
        self.order = order;
        proof {
            let o = self.order@;
            assert forall|t1: int, t2: int|
                0 <= t1 < o.len() && 0 <= t2 < o.len() && t1 != t2 implies o[t1] != o[t2] by {}
            assert forall|c: usize| c < BCACHE_SIZE implies #[trigger] o.contains(c) by {
                assert(o[c as int] == c);
            }
        }
    }

    /// Looks, from the least recently used buffer onward, for the buffer
    /// caching the given block; a hit gains one user.
    pub fn get(&mut self, diskNumber: usize, blockNumber: usize) -> (r: Option<usize>)
        requires
            old(self).wf(),
            forall|i: int|
                0 <= i < BCACHE_SIZE ==> (#[trigger] old(self).nodes@[i]).refCount < usize::MAX,
        ensures
            final(self).wf(),
            r == first_match_from(old(self).order@, old(self).nodes@, 0, diskNumber, blockNumber),
            final(self).order@ == old(self).order@,
            (match r {
                Some(t) => final(self).nodes@ == old(self).nodes@.update(
                    t as int,
                    (LRUCacheNode {
                        refCount: (old(self).nodes@[t as int].refCount + 1) as usize,
                        ..old(self).nodes@[t as int]
                    }),
                ),
                None => final(self).nodes@ == old(self).nodes@,
            }),
    {
        let mut j: usize = 0;
        while j < BCACHE_SIZE
            invariant
                0 <= j <= BCACHE_SIZE,
                self == old(self),
                self.wf(),
                forall|i: int|
                    0 <= i < BCACHE_SIZE ==> (#[trigger] old(self).nodes@[i]).refCount
                        < usize::MAX,
                first_match_from(self.order@, self.nodes@, 0, diskNumber, blockNumber)
                    == first_match_from(self.order@, self.nodes@, j as int, diskNumber, blockNumber),
            decreases BCACHE_SIZE - j,
        {
            let t = self.order[j];
            if self.nodes[t].diskNumber == diskNumber && self.nodes[t].blockNumber == blockNumber {
                proof {
                    assert(self.order@[j as int] < BCACHE_SIZE);
                    assert(t < BCACHE_SIZE);
                    assert(old(self).nodes@[t as int].refCount < usize::MAX);
                }
                let node = &mut self.nodes[t];
                node.refCount = node.refCount + 1;
                proof {
                    assert(self.nodes@ =~= old(self).nodes@.update(
                        t as int,
                        (LRUCacheNode {
                            refCount: (old(self).nodes@[t as int].refCount + 1) as usize,
                            ..old(self).nodes@[t as int]
                        }),
                    ));
                }
                return Some(t);
            }
            j = j + 1;
        }
        None
    }

    /// Looks, from the most recently used buffer backward, for an unused
    /// buffer to recycle for the given block; the recycled buffer starts
    /// with one user.
    pub fn recycle(&mut self, diskNumber: usize, blockNumber: usize) -> (r: Option<usize>)
        requires
            old(self).wf(),
        ensures
            final(self).wf(),
            r == first_free_from(old(self).order@, old(self).nodes@, BCACHE_SIZE - 1),
            final(self).order@ == old(self).order@,
            (match r {
                Some(t) => final(self).nodes@ == old(self).nodes@.update(
                    t as int,
                    (LRUCacheNode {
                        refCount: 1,
                        diskNumber: diskNumber,
                        blockNumber: blockNumber,
                        ..old(self).nodes@[t as int]
                    }),
                ),
                None => final(self).nodes@ == old(self).nodes@,
            }),
    {
        let mut j: usize = BCACHE_SIZE;
        while j > 0
            invariant
                0 <= j <= BCACHE_SIZE,
                self == old(self),
                self.wf(),
                first_free_from(self.order@, self.nodes@, BCACHE_SIZE - 1) == first_free_from(
                    self.order@,
                    self.nodes@,
                    j as int - 1,
                ),
            decreases j,
        {
            let t = self.order[j - 1];
            if self.nodes[t].refCount == 0 {
                let node = &mut self.nodes[t];
                node.diskNumber = diskNumber;
                node.blockNumber = blockNumber;
                node.refCount = 1;
                proof {
                    assert(self.nodes@ =~= old(self).nodes@.update(
                        t as int,
                        (LRUCacheNode {
                            refCount: 1,
                            diskNumber: diskNumber,
                            blockNumber: blockNumber,
                            ..old(self).nodes@[t as int]
                        }),
                    ));
                }
                return Some(t);
            }
            j = j - 1;
        }
        None
    }

    /// One user of the given buffer leaves. A buffer whose last user left
    /// becomes the least recently used one and moves to the front of the
    /// order (unless it already is the front).
    pub fn decreaseRefCount(&mut self, index: usize)
        requires
            old(self).wf(),
            index < BCACHE_SIZE,
            old(self).nodes@[index as int].refCount >= 1,
        ensures
            final(self).wf(),
            final(self).nodes@ == old(self).nodes@.update(
                index as int,
                (LRUCacheNode {
                    refCount: (old(self).nodes@[index as int].refCount - 1) as usize,
                    ..old(self).nodes@[index as int]
                }),
            ),
            final(self).order@ == if old(self).nodes@[index as int].refCount == 1 && old(
                self,
            ).order@[0] != index {
                seq![index].add(
                    old(self).order@.remove(old(self).order@.index_of(index)),
                )
            } else {
                old(self).order@
            },
    {
        let node = &mut self.nodes[index];
        node.refCount = node.refCount - 1;
        let becameUnused = node.refCount == 0;
        proof {
            assert(self.nodes@ =~= old(self).nodes@.update(
                index as int,
                (LRUCacheNode {
                    refCount: (old(self).nodes@[index as int].refCount - 1) as usize,
                    ..old(self).nodes@[index as int]
                }),
            ));
        }
        if becameUnused && self.order[0] != index {
            // Find the buffer's position in the order, take it out, and put
            // it at the front.
            let ghost order0 = self.order@;
            proof {
                assert(order0.contains(index));
            }
            let mut pos: usize = 0;
            while self.order[pos] != index
                invariant
                    0 <= pos < BCACHE_SIZE,
                    self.order@ == order0,
                    order0.len() == BCACHE_SIZE,
                    order0.contains(index),
                    forall|t: int| 0 <= t < pos ==> order0[t] != index,
                decreases BCACHE_SIZE - pos,
            {
                pos = pos + 1;
                proof {
                    let w = choose|w: int| 0 <= w < order0.len() && order0[w] == index;
                    assert(order0[w] == index);
                    assert(w >= pos);
                }
            }
            proof {
                assert(order0.index_of(index) == pos as int) by {
                    lemma_index_of_unique(order0, index, pos as int);
                }
            }
            self.order.remove(pos);
            self.order.insert(0, index);
            proof {
                assert(self.order@ =~= seq![index].add(order0.remove(pos as int)));
                lemma_remove_then_front(order0, pos as int);
            }
        }
    }
}

/// A found match names a node of the arena.
proof fn lemma_first_match_bound(
    order: Seq<usize>,
    nodes: Seq<LRUCacheNode>,
    j: int,
    diskNumber: usize,
    blockNumber: usize,
)
    requires
        forall|t: int| 0 <= t < order.len() ==> (#[trigger] order[t]) < BCACHE_SIZE,
        first_match_from(order, nodes, j, diskNumber, blockNumber) is Some,
    ensures
        first_match_from(order, nodes, j, diskNumber, blockNumber).unwrap() < BCACHE_SIZE,
    decreases order.len() - j,
{
    if !(j < 0 || j >= order.len()) {
        if !(nodes[order[j] as int].diskNumber == diskNumber && nodes[order[j] as int].blockNumber
            == blockNumber) {
            lemma_first_match_bound(order, nodes, j + 1, diskNumber, blockNumber);
        }
    }
}

/// A found recyclable buffer names a node of the arena.
proof fn lemma_first_free_bound(order: Seq<usize>, nodes: Seq<LRUCacheNode>, j: int)
    requires
        forall|t: int| 0 <= t < order.len() ==> (#[trigger] order[t]) < BCACHE_SIZE,
        first_free_from(order, nodes, j) is Some,
    ensures
        first_free_from(order, nodes, j).unwrap() < BCACHE_SIZE,
    decreases j + 1,
{
    if !(j < 0 || j >= order.len()) {
        if nodes[order[j] as int].refCount != 0 {
            lemma_first_free_bound(order, nodes, j - 1);
        }
    }
}

/// One in-memory block buffer.
pub struct BlockData(pub [u8; 1024]);

impl BlockData {
    pub fn new() -> (r: BlockData)
        ensures
            forall|i: int| 0 <= i < 1024 ==> (#[trigger] r.0[i]) == 0,
    {
        BlockData([0; 1024])
    }
}

/// One block buffer together with its validity flag and the sleep lock that
/// serializes access to its bytes.
pub struct BlockDataGuard {
    /// Whether the buffer holds actual data from the disk rather than
    /// garbage.
    pub isValid: bool,
    pub blockData: SleepLock<BlockData>,
}

impl BlockDataGuard {
    pub fn new() -> (r: BlockDataGuard)
        ensures
            !r.isValid,
            !r.blockData.is_acquired(),
            forall|i: int| 0 <= i < 1024 ==> (#[trigger] r.blockData.view().0[i]) == 0,
    {
        BlockDataGuard { isValid: false, blockData: SleepLock::new(BlockData::new()) }
    }
}

/// A cached block handed out by `BCache::read`: the buffer's index, the
/// block it caches, and exclusive access to its bytes until the caller is
/// done.
pub struct BCacheNode {
    pub index: usize,
    pub diskNumber: usize,
    pub blockNumber: usize,
    pub blockData: SleepLockGuard,
}

/// The buffer cache: the recency bookkeeping behind a spin lock, and one
/// sleep-locked buffer per slot.
pub struct BCache {
    pub lruCache: SpinLock<LRUCache>,
    pub blockDataGuards: Vec<BlockDataGuard>,
}

impl BCache {
    /// The cache between operations: the spin lock is free, the recency
    /// bookkeeping is consistent, and there is one buffer per node.
    pub open spec fn inv(&self) -> bool {
        &&& !self.lruCache.is_acquired()
        &&& self.lruCache.view().wf()
        &&& self.blockDataGuards@.len() == BCACHE_SIZE
    }

    /// A blank cache; `init` must run once before any read.
    pub fn new() -> (r: BCache)
        ensures
            !r.lruCache.is_acquired(),
            r.lruCache.view().nodes@.len() == BCACHE_SIZE,
            r.blockDataGuards@.len() == BCACHE_SIZE,
            forall|i: int|
                0 <= i < BCACHE_SIZE ==> {
                    &&& !(#[trigger] r.blockDataGuards@[i]).isValid
                    &&& !r.blockDataGuards@[i].blockData.is_acquired()
                },
    {
        let mut blockDataGuards: Vec<BlockDataGuard> = Vec::new();
        let mut i: usize = 0;
        while i < BCACHE_SIZE
            invariant
                0 <= i <= BCACHE_SIZE,
                blockDataGuards@.len() == i,
                forall|t: int|
                    0 <= t < i ==> {
                        &&& !(#[trigger] blockDataGuards@[t]).isValid
                        &&& !blockDataGuards@[t].blockData.is_acquired()
                    },
            decreases BCACHE_SIZE - i,
        {
            blockDataGuards.push(BlockDataGuard::new());
            i = i + 1;
        }
        BCache { lruCache: SpinLock::new(LRUCache::new()), blockDataGuards }
    }

    /// Initializes the recency bookkeeping; called once when the kernel is
    /// initializing, before any read.
    pub fn init(&mut self)
        requires
            !old(self).lruCache.is_acquired(),
            old(self).lruCache.view().nodes@.len() == BCACHE_SIZE,
            old(self).blockDataGuards@.len() == BCACHE_SIZE,
        ensures
            final(self).inv(),
            final(self).lruCache.view().order@ == Seq::new(
                BCACHE_SIZE as nat,
                |j: int| j as usize,
            ),
            forall|i: int|
                0 <= i < BCACHE_SIZE ==> final(self).lruCache.view().nodes@[i] == (LRUCacheNode {
                    index: i as usize,
                    ..old(self).lruCache.view().nodes@[i]
                }),
            final(self).blockDataGuards@ == old(self).blockDataGuards@,
    {
        let guard = self.lruCache.acquire();
        let cache = self.lruCache.data_mut();
        cache.init();
        self.lruCache.release(guard);
    }

    /// Reads the given block of the given disk through the cache: a cached
    /// buffer gains one more user; otherwise the least recently used unused
    /// buffer is recycled for this block. Either way the buffer's sleep
    /// lock is taken for the returned node.
    pub fn read(&mut self, diskNumber: usize, blockNumber: usize) -> (n: BCacheNode)
        requires
            old(self).inv(),
            forall|i: int|
                0 <= i < BCACHE_SIZE ==> (#[trigger] old(
                    self,
                ).lruCache.view().nodes@[i]).refCount < usize::MAX,
            forall|i: int|
                0 <= i < BCACHE_SIZE ==> !(#[trigger] old(
                    self,
                ).blockDataGuards@[i]).blockData.is_acquired(),
            first_match_from(
                old(self).lruCache.view().order@,
                old(self).lruCache.view().nodes@,
                0,
                diskNumber,
                blockNumber,
            ) is Some || first_free_from(
                old(self).lruCache.view().order@,
                old(self).lruCache.view().nodes@,
                BCACHE_SIZE - 1,
            ) is Some,
        ensures
            !final(self).lruCache.is_acquired(),
            final(self).lruCache.view().wf(),
            final(self).lruCache.view().order@ == old(self).lruCache.view().order@,
            final(self).blockDataGuards@.len() == BCACHE_SIZE,
            n.diskNumber == diskNumber,
            n.blockNumber == blockNumber,
            n.index < BCACHE_SIZE,
            ({
                let order0 = old(self).lruCache.view().order@;
                let nodes0 = old(self).lruCache.view().nodes@;
                let guards0 = old(self).blockDataGuards@;
                match first_match_from(order0, nodes0, 0, diskNumber, blockNumber) {
                    Some(t) => {
                        &&& n.index == t
                        &&& final(self).lruCache.view().nodes@ == nodes0.update(
                            t as int,
                            (LRUCacheNode {
                                refCount: (nodes0[t as int].refCount + 1) as usize,
                                ..nodes0[t as int]
                            }),
                        )
                        &&& final(self).blockDataGuards@[t as int].isValid == guards0[
                            t as int
                        ].isValid
                    },
                    None => {
                        let t = first_free_from(order0, nodes0, BCACHE_SIZE - 1).unwrap();
                        &&& n.index == t
                        &&& final(self).lruCache.view().nodes@ == nodes0.update(
                            t as int,
                            (LRUCacheNode {
                                refCount: 1,
                                diskNumber: diskNumber,
                                blockNumber: blockNumber,
                                ..nodes0[t as int]
                            }),
                        )
                        &&& final(self).blockDataGuards@[t as int].isValid
                    },
                }
            }),
            final(self).blockDataGuards@[n.index as int].blockData.is_acquired(),
            final(self).blockDataGuards@[n.index as int].blockData.view() == old(
                self,
            ).blockDataGuards@[n.index as int].blockData.view(),
            forall|i: int|
                0 <= i < BCACHE_SIZE && i != n.index ==> final(self).blockDataGuards@[i] == old(
                    self,
                ).blockDataGuards@[i],
    {
        let ghost order0 = self.lruCache.view().order@;
        let ghost nodes0 = self.lruCache.view().nodes@;
        let guard = self.lruCache.acquire();
        let cache = self.lruCache.data_mut();
        let found = cache.get(diskNumber, blockNumber);
        let index: usize = match found {
            Some(t) => {
                proof {
                    lemma_first_match_bound(order0, nodes0, 0, diskNumber, blockNumber);
                }
                t
            },
            None => {
                let recycled = cache.recycle(diskNumber, blockNumber);
                proof {
                    lemma_first_free_bound(order0, nodes0, BCACHE_SIZE - 1);
                }
                match recycled {
                    Some(t) => t,
                    None => {
                        proof {
                            assert(false);
                        }
                        0
                    },
                }
            },
        };
        self.lruCache.release(guard);
        let guardBlock = &mut self.blockDataGuards[index];
        if found.is_none() {
            guardBlock.isValid = true;
        }
        let blockGuard = guardBlock.blockData.acquire();
        BCacheNode { index, diskNumber, blockNumber, blockData: blockGuard }
    }

    /// One user of the given cached block leaves.
    pub fn decreaseRefCount(&mut self, index: usize)
        requires
            old(self).inv(),
            index < BCACHE_SIZE,
            old(self).lruCache.view().nodes@[index as int].refCount >= 1,
        ensures
            final(self).inv(),
            final(self).blockDataGuards@ == old(self).blockDataGuards@,
            final(self).lruCache.view().nodes@ == old(self).lruCache.view().nodes@.update(
                index as int,
                (LRUCacheNode {
                    refCount: (old(self).lruCache.view().nodes@[index as int].refCount
                        - 1) as usize,
                    ..old(self).lruCache.view().nodes@[index as int]
                }),
            ),
            final(self).lruCache.view().order@ == if old(self).lruCache.view().nodes@[
                index as int
            ].refCount == 1 && old(self).lruCache.view().order@[0] != index {
                seq![index].add(
                    old(self).lruCache.view().order@.remove(
                        old(self).lruCache.view().order@.index_of(index),
                    ),
                )
            } else {
                old(self).lruCache.view().order@
            },
    {
        let guard = self.lruCache.acquire();
        let cache = self.lruCache.data_mut();
        cache.decreaseRefCount(index);
        self.lruCache.release(guard);
    }
}

/// In a duplicate-free sequence, `index_of` finds exactly the position that
/// holds the element.
proof fn lemma_index_of_unique(s: Seq<usize>, x: usize, p: int)
    requires
        s.no_duplicates(),
        0 <= p < s.len(),
        s[p] == x,
    ensures
        s.index_of(x) == p,
{
    assert(s.contains(x));
    let j = s.index_of(x);
    assert(0 <= j < s.len() && s[j] == x) by {
        let w = choose|w: int| 0 <= w < s.len() && s[w] == x;
        assert(s[w] == x);
    }
}

/// Moving one element of a duplicate-free permutation to the front keeps it
/// a duplicate-free permutation.
proof fn lemma_remove_then_front(s: Seq<usize>, p: int)
    requires
        s.no_duplicates(),
        0 <= p < s.len(),
        forall|j: int| 0 <= j < s.len() ==> (#[trigger] s[j]) < s.len(),
        forall|i: usize| i < s.len() ==> #[trigger] s.contains(i),
    ensures
        ({
            let m = seq![s[p]].add(s.remove(p));
            &&& m.len() == s.len()
            &&& m.no_duplicates()
            &&& forall|j: int| 0 <= j < m.len() ==> (#[trigger] m[j]) < s.len()
            &&& forall|i: usize| i < s.len() ==> #[trigger] m.contains(i)
        }),
{
    let r = s.remove(p);
    let m = seq![s[p]].add(r);
    // Where each element of the shuffled order comes from.
    assert forall|j: int| 0 <= j < m.len() implies (#[trigger] m[j]) < s.len() by {
        if j == 0 {
        } else if j - 1 < p {
            assert(m[j] == s[j - 1]);
        } else {
            assert(m[j] == s[j]);
        }
    }
    assert forall|t1: int, t2: int|
        0 <= t1 < m.len() && 0 <= t2 < m.len() && t1 != t2 implies m[t1] != m[t2] by {
        let o1 = if t1 == 0 {
            p
        } else if t1 - 1 < p {
            t1 - 1
        } else {
            t1
        };
        let o2 = if t2 == 0 {
            p
        } else if t2 - 1 < p {
            t2 - 1
        } else {
            t2
        };
        assert(m[t1] == s[o1] && m[t2] == s[o2]);
        assert(o1 != o2);
    }
    assert forall|i: usize| i < s.len() implies #[trigger] m.contains(i) by {
        assert(s.contains(i));
        let w = choose|w: int| 0 <= w < s.len() && s[w] == i;
        if w == p {
            assert(m[0] == i);
        } else if w < p {
            assert(m[w + 1] == s[w]);
        } else {
            assert(m[w] == s[w]);
        }
    }
}

} // verus!
