//! The buddy allocator core.
//!
//! A contiguous physical memory region is partitioned into power-of-two-sized
//! chunks. Chunks of one size form a chunk class: class `0` holds chunks of
//! the leaf size, class `k` holds chunks of `leafSize * 2^k` bytes, and the
//! top class holds a single chunk spanning the managed span of the region.
//! Each class tracks its chunks with an allocation bitmap, a split bitmap and
//! a free list. `alloc` takes the smallest fitting free chunk and splits it
//! down to the requested class; `dealloc` returns a chunk and eagerly merges
//! it with its buddy as far as possible.
//!
//! The bookkeeping structures (bitmaps and free lists) are owned by the
//! allocator value itself as typed, pre-zeroed storage rather than being
//! carved out of the managed region through raw pointers, so the whole
//! managed span — the largest power-of-two multiple of the leaf size that
//! fits the effective region — is allocatable.
//!
//! The abstract state is `BuddyView`; every operation's contract states the
//! exact resulting view via the spec-level transitions `spec_alloc` and
//! `spec_dealloc`, and well-formedness (`BuddyView::wf`) is preserved
//! throughout.

use vstd::prelude::*;
use vstd::arithmetic::power2::{is_pow2, lemma_pow2_adds, lemma_pow2_pos, lemma_pow2_unfold, pow2};
use vstd::arithmetic::mul::lemma_mul_inequality;
use crate::bitmap::Bitmap;
use crate::free_list::FreeList;
use crate::utils::{
    ceilToMultiple, floorToMultiple, log2, log2Floor, lemma_log2_bounds, lemma_mod_transitive,
    lemma_pow2_le_divides, pow2Exec, spec_ceil_to_multiple, spec_floor_to_multiple,
};

verus! {

/// Abstract state of one chunk class: which chunks are allocated, which are
/// split into their two buddies, and which are on the free list (in order,
/// least recently freed first).
#[verifier::ext_equal]
pub ghost struct ClassView {
    pub alloc: Seq<bool>,
    pub split: Seq<bool>,
    pub free: Seq<usize>,
}

/// Abstract state of the buddy allocator: the effective region bounds, the
/// configured leaf size and maximum alignment, and the per-class states.
#[verifier::ext_equal]
pub ghost struct BuddyView {
    pub start: int,
    pub end: int,
    pub leaf: int,
    pub max_align: int,
    pub classes: Seq<ClassView>,
}

/// Removal of a known member as the free list performs it: the last element
/// moves into the removed member's position, then the sequence shrinks by
/// one.
pub open spec fn seq_swap_remove(s: Seq<usize>, c: usize) -> Seq<usize> {
    s.update(s.index_of(c), s.last()).drop_last()
}

impl BuddyView {
    /// Number of chunk classes.
    pub open spec fn cc(self) -> int {
        self.classes.len() as int
    }

    /// Size in bytes of a chunk of class `k`.
    pub open spec fn chunk_size(self, k: int) -> int {
        self.leaf * pow2(k as nat)
    }

    /// Greatest number of class-`k` chunks that can coexist in the managed
    /// span without overlap.
    pub open spec fn capacity(self, k: int) -> int {
        pow2((self.cc() - 1 - k) as nat) as int
    }

    /// The managed span: the size of the single top-class chunk.
    pub open spec fn managed_size(self) -> int {
        self.chunk_size(self.cc() - 1)
    }

    /// Physical address of chunk `i` of class `k`.
    pub open spec fn chunk_addr(self, k: int, i: int) -> int {
        self.start + i * self.chunk_size(k)
    }

    pub open spec fn valid_chunk(self, k: int, i: int) -> bool {
        0 <= k < self.cc() && 0 <= i < self.capacity(k)
    }

    pub open spec fn is_alloc(self, k: int, i: int) -> bool {
        self.classes[k].alloc[i]
    }

    pub open spec fn is_split(self, k: int, i: int) -> bool {
        self.classes[k].split[i]
    }

    pub open spec fn in_free(self, k: int, i: int) -> bool {
        self.classes[k].free.contains(i as usize)
    }

    /// The sibling produced by the same split.
    pub open spec fn buddy_of(i: int) -> int {
        if i % 2 == 0 {
            i + 1
        } else {
            i - 1
        }
    }

    /// A chunk exists as a tracked unit exactly when it is the top chunk or
    /// its parent has been split.
    pub open spec fn active(self, k: int, i: int) -> bool {
        if k == self.cc() - 1 {
            true
        } else {
            self.is_split(k + 1, i / 2)
        }
    }

    /// Configuration well-formedness: power-of-two parameters, an aligned
    /// region start, and a managed span that fits the effective region.
    pub open spec fn wf_config(self) -> bool {
        &&& self.cc() >= 1
        &&& 1 <= self.leaf
        &&& is_pow2(self.leaf)
        &&& is_pow2(self.max_align)
        &&& 1 <= self.start
        &&& self.start % self.max_align == 0
        &&& self.start % self.leaf == 0
        &&& self.start + self.managed_size() <= self.end
        &&& self.end <= usize::MAX
    }

    /// Shape well-formedness: bitmap and free-list contents match each
    /// class's capacity.
    pub open spec fn wf_shape(self) -> bool {
        forall|k: int|
            0 <= k < self.cc() ==> {
                &&& (#[trigger] self.classes[k]).alloc.len() == self.capacity(k)
                &&& self.classes[k].split.len() == self.capacity(k)
                &&& self.classes[k].free.no_duplicates()
                &&& forall|j: int|
                    0 <= j < self.classes[k].free.len() ==> (#[trigger] self.classes[k].free[j])
                        < self.capacity(k)
            }
    }

    /// The state of one chunk is consistent: a chunk sits on its class's
    /// free list exactly when it is active and neither allocated nor split;
    /// an inactive chunk carries no marks; no chunk is both allocated and
    /// split; leaf chunks are never split.
    pub open spec fn chunk_state_ok(self, k: int, i: int) -> bool {
        &&& self.in_free(k, i) <==> (self.active(k, i) && !self.is_alloc(k, i) && !self.is_split(
            k,
            i,
        ))
        &&& !(self.is_alloc(k, i) && self.is_split(k, i))
        &&& !self.active(k, i) ==> !self.is_alloc(k, i) && !self.is_split(k, i)
        &&& k == 0 ==> !self.is_split(k, i)
    }

    pub open spec fn wf_states(self) -> bool {
        forall|k: int, i: int| self.valid_chunk(k, i) ==> #[trigger] self.chunk_state_ok(k, i)
    }

    /// Eager coalescing leaves no two free buddies.
    pub open spec fn wf_coalesced(self) -> bool {
        forall|k: int, i: int|
            self.valid_chunk(k, i) && k < self.cc() - 1 && #[trigger] self.in_free(k, i)
                ==> !self.in_free(k, Self::buddy_of(i))
    }

    /// Well-formedness of the whole allocator state.
    pub open spec fn wf(self) -> bool {
        &&& self.wf_config()
        &&& self.wf_shape()
        &&& self.wf_states()
        &&& self.wf_coalesced()
    }

    /// Well-formedness with one hole: chunk `(hk, hi)` is active but in no
    /// state at all — the transient situation in the middle of a split or
    /// coalesce walk, before the walk's current chunk has been placed.
    pub open spec fn wf_hole(self, hk: int, hi: int) -> bool {
        &&& self.wf_config()
        &&& self.wf_shape()
        &&& self.valid_chunk(hk, hi)
        &&& self.active(hk, hi)
        &&& !self.is_alloc(hk, hi)
        &&& !self.is_split(hk, hi)
        &&& !self.in_free(hk, hi)
        &&& forall|k: int, i: int|
            self.valid_chunk(k, i) && !(k == hk && i == hi) ==> #[trigger] self.chunk_state_ok(
                k,
                i,
            )
        &&& self.wf_coalesced()
    }

    // ------------------------------------------------------------------
    // State update helpers.
    // ------------------------------------------------------------------
    pub open spec fn set_alloc(self, k: int, i: int, b: bool) -> BuddyView {
        BuddyView {
            classes: self.classes.update(
                k,
                ClassView { alloc: self.classes[k].alloc.update(i, b), ..self.classes[k] },
            ),
            ..self
        }
    }

    pub open spec fn set_split(self, k: int, i: int, b: bool) -> BuddyView {
        BuddyView {
            classes: self.classes.update(
                k,
                ClassView { split: self.classes[k].split.update(i, b), ..self.classes[k] },
            ),
            ..self
        }
    }

    pub open spec fn push_free(self, k: int, c: usize) -> BuddyView {
        BuddyView {
            classes: self.classes.update(
                k,
                ClassView { free: self.classes[k].free.push(c), ..self.classes[k] },
            ),
            ..self
        }
    }

    pub open spec fn pop_free(self, k: int) -> BuddyView {
        BuddyView {
            classes: self.classes.update(
                k,
                ClassView { free: self.classes[k].free.drop_last(), ..self.classes[k] },
            ),
            ..self
        }
    }

    /// Removal of a known member, as the free list performs it: the most
    /// recently freed chunk moves into the removed member's position.
    pub open spec fn remove_free(self, k: int, c: usize) -> BuddyView {
        BuddyView {
            classes: self.classes.update(
                k,
                ClassView { free: seq_swap_remove(self.classes[k].free, c), ..self.classes[k] },
            ),
            ..self
        }
    }

    // ------------------------------------------------------------------
    // Spec-level transitions.
    // ------------------------------------------------------------------
    /// The smallest class at or above `k` whose chunk size fits both `size`
    /// and `align`; `cc()` when none does.
    pub open spec fn fit_class_from(self, k: int, size: int, align: int) -> int
        decreases self.cc() - k,
    {
        if k < 0 || k >= self.cc() {
            self.cc()
        } else if self.chunk_size(k) >= size && self.chunk_size(k) >= align {
            k
        } else {
            self.fit_class_from(k + 1, size, align)
        }
    }

    /// The class a request of `size` bytes with alignment `align` is served
    /// from.
    pub open spec fn fit_class(self, size: int, align: int) -> int {
        self.fit_class_from(0, size, align)
    }

    /// The smallest class at or above `k` with a non-empty free list;
    /// `cc()` when all are empty.
    pub open spec fn find_free_from(self, k: int) -> int
        decreases self.cc() - k,
    {
        if k < 0 || k >= self.cc() {
            self.cc()
        } else if self.classes[k].free.len() > 0 {
            k
        } else {
            self.find_free_from(k + 1)
        }
    }

    /// Splits chunk `i` of class `k` repeatedly down to class `target`:
    /// at each step the chunk's split bit is raised, its upper child is
    /// freed, and splitting continues on the lower child.
    pub open spec fn split_down(self, k: int, i: int, target: int) -> BuddyView
        decreases k - target,
    {
        if k <= target {
            self
        } else {
            self.set_split(k, i, true).push_free(k - 1, (2 * i + 1) as usize).split_down(
                k - 1,
                2 * i,
                target,
            )
        }
    }

    /// Coalesces upward from chunk `i` of class `k`: while the buddy is
    /// free, the buddy leaves the free list, the parent's split bit is
    /// cleared, and merging continues at the parent; the final chunk is
    /// freed.
    pub open spec fn coalesce(self, k: int, i: int) -> BuddyView {
        self.coalesce_rec(k, i, self.cc())
    }

    /// The recursion behind `coalesce`; the class count is passed separately
    /// (every step preserves it) so the measure is independent of the state.
    pub open spec fn coalesce_rec(self, k: int, i: int, cc: int) -> BuddyView
        decreases cc - 1 - k,
    {
        if k < cc - 1 && self.in_free(k, Self::buddy_of(i)) {
            self.remove_free(k, Self::buddy_of(i) as usize).set_split(
                k + 1,
                i / 2,
                false,
            ).coalesce_rec(k + 1, i / 2, cc)
        } else {
            self.push_free(k, i as usize)
        }
    }

    /// The allocation transition: the resulting state and the address
    /// handed out (`None` reports out-of-memory).
    pub open spec fn spec_alloc(self, size: int, align: int) -> (BuddyView, Option<int>) {
        if size == 0 {
            (self, Some(0))
        } else {
            let ks = self.fit_class(size, align);
            if ks >= self.cc() {
                (self, None)
            } else {
                let k = self.find_free_from(ks);
                if k >= self.cc() {
                    (self, None)
                } else {
                    let i = self.classes[k].free.last() as int;
                    let fi = i * pow2((k - ks) as nat);
                    let after = self.pop_free(k).split_down(k, i, ks).set_alloc(ks, fi, true);
                    (after, Some(self.chunk_addr(ks, fi)))
                }
            }
        }
    }

    /// A deallocation request is valid when it names, through the same size
    /// and alignment used at allocation, a currently allocated chunk.
    pub open spec fn valid_dealloc(self, address: int, size: int, align: int) -> bool {
        size == 0 || {
            let ks = self.fit_class(size, align);
            &&& ks < self.cc()
            &&& self.start <= address
            &&& (address - self.start) % self.chunk_size(ks) == 0
            &&& (address - self.start) / self.chunk_size(ks) < self.capacity(ks)
            &&& self.is_alloc(ks, (address - self.start) / self.chunk_size(ks))
        }
    }

    /// The deallocation transition: the allocation bit of the named chunk
    /// is cleared and the chunk is coalesced upward as far as possible.
    pub open spec fn spec_dealloc(self, address: int, size: int, align: int) -> BuddyView {
        if size == 0 {
            self
        } else {
            let ks = self.fit_class(size, align);
            let i = (address - self.start) / self.chunk_size(ks);
            self.set_alloc(ks, i, false).coalesce(ks, i)
        }
    }
}

/// `split_down` changes only per-class contents: the region parameters and
/// the class count stay.
pub proof fn lemma_split_down_frame(v: BuddyView, k: int, i: int, target: int)
    requires
        0 <= target,
        target <= k < v.cc(),
    ensures
        ({
            let u = v.split_down(k, i, target);
            &&& u.start == v.start
            &&& u.end == v.end
            &&& u.leaf == v.leaf
            &&& u.max_align == v.max_align
            &&& u.cc() == v.cc()
        }),
    decreases k - target,
{
    if k > target {
        lemma_split_down_frame(
            v.set_split(k, i, true).push_free(k - 1, (2 * i + 1) as usize),
            k - 1,
            2 * i,
            target,
        );
    }
}

/// `fit_class_from` depends only on the leaf size and the class count.
pub proof fn lemma_fit_class_congruent(a: BuddyView, b: BuddyView, k: int, size: int, align: int)
    requires
        a.leaf == b.leaf,
        a.cc() == b.cc(),
    ensures
        a.fit_class_from(k, size, align) == b.fit_class_from(k, size, align),
    decreases a.cc() - k,
{
    if 0 <= k < a.cc() {
        lemma_fit_class_congruent(a, b, k + 1, size, align);
    }
}

/// Chunk sizes strictly increase with the class index.
pub proof fn lemma_chunk_size_monotone(v: BuddyView, j: int, k: int)
    requires
        v.wf_config(),
        0 <= j < k < v.cc(),
    ensures
        v.chunk_size(j) < v.chunk_size(k),
{
    vstd::arithmetic::power2::lemma_pow2_strictly_increases(j as nat, k as nat);
    assert(v.leaf * pow2(j as nat) < v.leaf * pow2(k as nat)) by (nonlinear_arith)
        requires
            v.leaf >= 1,
            pow2(j as nat) < pow2(k as nat),
    ;
}

/// What `fit_class_from` returns: the smallest class at or above `k` whose
/// chunks fit, and the class count when none does.
pub proof fn lemma_fit_class_props(v: BuddyView, k: int, size: int, align: int)
    requires
        0 <= k <= v.cc(),
    ensures
        ({
            let r = v.fit_class_from(k, size, align);
            &&& k <= r <= v.cc()
            &&& r < v.cc() ==> v.chunk_size(r) >= size && v.chunk_size(r) >= align
            &&& forall|j: int|
                k <= j < r ==> !(#[trigger] v.chunk_size(j) >= size && v.chunk_size(j) >= align)
            &&& forall|j: int|
                k <= j < v.cc() && (#[trigger] v.chunk_size(j)) >= size && v.chunk_size(j) >= align
                    ==> r <= j
        }),
    decreases v.cc() - k,
{
    if k < v.cc() {
        if !(v.chunk_size(k) >= size && v.chunk_size(k) >= align) {
            lemma_fit_class_props(v, k + 1, size, align);
        }
    }
}

/// What `find_free_from` returns: the smallest class at or above `k` with a
/// free chunk, and the class count when every free list at or above `k` is
/// empty.
pub proof fn lemma_find_free_props(v: BuddyView, k: int)
    requires
        0 <= k <= v.cc(),
    ensures
        ({
            let r = v.find_free_from(k);
            &&& k <= r <= v.cc()
            &&& r < v.cc() ==> v.classes[r].free.len() > 0
            &&& forall|j: int| k <= j < r ==> (#[trigger] v.classes[j].free.len()) == 0
            &&& forall|j: int|
                k <= j < v.cc() && (#[trigger] v.classes[j].free.len()) > 0 ==> r <= j
        }),
    decreases v.cc() - k,
{
    if k < v.cc() {
        if v.classes[k].free.len() == 0 {
            lemma_find_free_props(v, k + 1);
        }
    }
}

/// Arithmetic facts about one chunk class that nearly every proof needs.
pub proof fn lemma_chunk_arith(v: BuddyView, k: int)
    requires
        v.wf_config(),
        0 <= k < v.cc(),
    ensures
        1 <= v.chunk_size(k),
        v.chunk_size(k) <= v.managed_size(),
        1 <= v.capacity(k),
        v.capacity(k) * v.chunk_size(k) == v.managed_size(),
        v.capacity(k) <= v.managed_size(),
        v.managed_size() <= usize::MAX,
        k < v.cc() - 1 ==> v.capacity(k) == 2 * v.capacity(k + 1),
        k >= 1 ==> v.chunk_size(k) == 2 * v.chunk_size(k - 1),
        k >= 1 ==> v.capacity(k - 1) == 2 * v.capacity(k),
{
    lemma_pow2_pos(k as nat);
    lemma_pow2_pos((v.cc() - 1 - k) as nat);
    lemma_pow2_pos((v.cc() - 1) as nat);
    assert(1 <= v.chunk_size(k)) by (nonlinear_arith)
        requires
            v.leaf >= 1,
            pow2(k as nat) >= 1,
    ;
    lemma_pow2_adds((v.cc() - 1 - k) as nat, k as nat);
    assert(v.capacity(k) * v.chunk_size(k) == v.managed_size()) by (nonlinear_arith)
        requires
            pow2((v.cc() - 1 - k) as nat) * pow2(k as nat) == pow2((v.cc() - 1) as nat),
            v.chunk_size(k) == v.leaf * pow2(k as nat),
            v.capacity(k) == pow2((v.cc() - 1 - k) as nat),
            v.managed_size() == v.leaf * pow2((v.cc() - 1) as nat),
    ;
    assert(v.chunk_size(k) <= v.managed_size() && v.capacity(k) <= v.managed_size())
        by (nonlinear_arith)
        requires
            v.capacity(k) * v.chunk_size(k) == v.managed_size(),
            v.capacity(k) >= 1,
            v.chunk_size(k) >= 1,
    ;
    if k < v.cc() - 1 {
        lemma_pow2_unfold((v.cc() - 1 - k) as nat);
    }
    if k >= 1 {
        lemma_pow2_unfold(k as nat);
        lemma_pow2_unfold((v.cc() - k) as nat);
        assert(v.leaf * pow2(k as nat) == 2 * (v.leaf * pow2((k - 1) as nat))) by (nonlinear_arith)
            requires
                pow2(k as nat) == 2 * pow2((k - 1) as nat),
        ;
    }
}

/// Every class's capacity fits the machine word (so chunk indices cast to
/// `usize` without loss).
pub proof fn lemma_caps_bounded(v: BuddyView)
    requires
        v.wf_config(),
    ensures
        forall|k: int| 0 <= k < v.cc() ==> 1 <= #[trigger] v.capacity(k) <= usize::MAX,
{
    assert forall|k: int| 0 <= k < v.cc() implies 1 <= #[trigger] v.capacity(k) <= usize::MAX by {
        lemma_chunk_arith(v, k);
    }
}

/// Chunk addresses stay inside the managed span.
pub proof fn lemma_chunk_addr_bounds(v: BuddyView, k: int, i: int)
    requires
        v.wf_config(),
        v.valid_chunk(k, i),
    ensures
        v.start <= v.chunk_addr(k, i),
        v.chunk_addr(k, i) + v.chunk_size(k) <= v.start + v.managed_size(),
        v.chunk_addr(k, i) + v.chunk_size(k) <= usize::MAX,
        0 <= i * v.chunk_size(k),
{
    lemma_chunk_arith(v, k);
    assert((i + 1) * v.chunk_size(k) <= v.capacity(k) * v.chunk_size(k)) by (nonlinear_arith)
        requires
            i + 1 <= v.capacity(k),
            v.chunk_size(k) >= 1,
    ;
    assert(i * v.chunk_size(k) + v.chunk_size(k) == (i + 1) * v.chunk_size(k)) by (nonlinear_arith);
    assert(0 <= i * v.chunk_size(k)) by (nonlinear_arith)
        requires
            i >= 0,
            v.chunk_size(k) >= 1,
    ;
}

// ----------------------------------------------------------------------
// Membership under the free-list operations.
// ----------------------------------------------------------------------
pub proof fn lemma_push_contains(s: Seq<usize>, c: usize)
    ensures
        forall|x: usize| #[trigger] s.push(c).contains(x) <==> (s.contains(x) || x == c),
        !s.contains(c) && s.no_duplicates() ==> s.push(c).no_duplicates(),
{
    assert forall|x: usize| #[trigger] s.push(c).contains(x) <==> (s.contains(x) || x == c) by {
        if s.push(c).contains(x) {
            let t = choose|t: int| 0 <= t < s.push(c).len() && s.push(c)[t] == x;
            if t < s.len() {
                assert(s[t] == x);
            }
        }
        if s.contains(x) {
            let t = choose|t: int| 0 <= t < s.len() && s[t] == x;
            assert(s.push(c)[t] == x);
        }
        if x == c {
            assert(s.push(c)[s.len() as int] == c);
        }
    }
}

pub proof fn lemma_drop_last_contains(s: Seq<usize>)
    requires
        s.no_duplicates(),
        s.len() > 0,
    ensures
        forall|x: usize| #[trigger] s.drop_last().contains(x) <==> (s.contains(x) && x != s.last()),
        s.drop_last().no_duplicates(),
{
    let d = s.drop_last();
    assert forall|x: usize| #[trigger] d.contains(x) <==> (s.contains(x) && x != s.last()) by {
        if d.contains(x) {
            let t = choose|t: int| 0 <= t < d.len() && d[t] == x;
            assert(s[t] == x);
            assert(s[s.len() - 1] == s.last());
        }
        if s.contains(x) && x != s.last() {
            let t = choose|t: int| 0 <= t < s.len() && s[t] == x;
            assert(t != s.len() - 1);
            assert(d[t] == x);
        }
    }
}

pub proof fn lemma_swap_remove_contains(s: Seq<usize>, c: usize)
    requires
        s.no_duplicates(),
        s.contains(c),
    ensures
        seq_swap_remove(s, c).len() == s.len() - 1,
        forall|x: usize| #[trigger]
            seq_swap_remove(s, c).contains(x) <==> (s.contains(x) && x != c),
        seq_swap_remove(s, c).no_duplicates(),
{
    let j = s.index_of(c);
    assert(0 <= j < s.len() && s[j] == c) by {
        let w = choose|t: int| 0 <= t < s.len() && s[t] == c;
        assert(0 <= w < s.len() && s[w] == c);
    }
    let u = s.update(j, s.last());
    let s2 = seq_swap_remove(s, c);
    assert(s2 == u.drop_last());
    assert forall|x: usize| #[trigger] s2.contains(x) <==> (s.contains(x) && x != c) by {
        if s2.contains(x) {
            let t = choose|t: int| 0 <= t < s2.len() && s2[t] == x;
            if t == j {
                assert(s[s.len() - 1] == x);
                if x == c {
                    assert(s[j] == c && s[s.len() - 1] == c);
                    assert(j == s.len() - 1);
                }
            } else {
                assert(s[t] == x);
                if x == c {
                    assert(s[t] == c && s[j] == c);
                }
            }
        }
        if s.contains(x) && x != c {
            let t = choose|t: int| 0 <= t < s.len() && s[t] == x;
            assert(t != j);
            if t == s.len() - 1 {
                if j < s.len() - 1 {
                    assert(s2[j] == s.last());
                } else {
                    assert(s[j] == c && j == t);
                }
            } else {
                assert(s2[t] == x);
            }
        }
    }
    assert forall|t1: int, t2: int|
        0 <= t1 < s2.len() && 0 <= t2 < s2.len() && t1 != t2 implies s2[t1] != s2[t2] by {
        if s2[t1] == s2[t2] {
            if t1 == j {
                assert(s2[t1] == s[s.len() - 1] && s2[t2] == s[t2]);
            } else if t2 == j {
                assert(s2[t2] == s[s.len() - 1] && s2[t1] == s[t1]);
            } else {
                assert(s2[t1] == s[t1] && s2[t2] == s[t2]);
            }
        }
    }
}

// ----------------------------------------------------------------------
// How one walk step changes the chunk states.
// ----------------------------------------------------------------------
/// Clearing the allocation bit of an allocated chunk leaves a hole there.
pub proof fn lemma_clear_alloc_hole(v: BuddyView, k: int, i: int)
    requires
        v.wf(),
        v.valid_chunk(k, i),
        v.is_alloc(k, i),
    ensures
        v.set_alloc(k, i, false).wf_hole(k, i),
{
    lemma_caps_bounded(v);
    let u = v.set_alloc(k, i, false);
    assert(v.chunk_state_ok(k, i));
    assert forall|k2: int, i2: int|
        u.valid_chunk(k2, i2) && !(k2 == k && i2 == i) implies #[trigger] u.chunk_state_ok(
        k2,
        i2,
    ) by {
        assert(v.chunk_state_ok(k2, i2));
        assert(u.is_alloc(k2, i2) == v.is_alloc(k2, i2));
        assert(u.is_split(k2, i2) == v.is_split(k2, i2));
        assert(u.in_free(k2, i2) == v.in_free(k2, i2));
        assert(u.active(k2, i2) == v.active(k2, i2));
    }
    assert forall|k2: int, i2: int|
        u.valid_chunk(k2, i2) && k2 < u.cc() - 1 && #[trigger] u.in_free(k2, i2) implies !u.in_free(
        k2,
        BuddyView::buddy_of(i2),
    ) by {
        assert(v.in_free(k2, i2));
        assert(!v.in_free(k2, BuddyView::buddy_of(i2)));
    }
}

/// Setting the allocation bit of a hole yields a well-formed state with the
/// chunk allocated.
pub proof fn lemma_fill_hole_alloc(v: BuddyView, k: int, i: int)
    requires
        v.wf_hole(k, i),
    ensures
        v.set_alloc(k, i, true).wf(),
        v.set_alloc(k, i, true).is_alloc(k, i),
{
    lemma_caps_bounded(v);
    let u = v.set_alloc(k, i, true);
    assert forall|k2: int, i2: int| u.valid_chunk(k2, i2) implies #[trigger] u.chunk_state_ok(
        k2,
        i2,
    ) by {
        assert(u.is_split(k2, i2) == v.is_split(k2, i2));
        assert(u.in_free(k2, i2) == v.in_free(k2, i2));
        assert(u.active(k2, i2) == v.active(k2, i2));
        if !(k2 == k && i2 == i) {
            assert(v.chunk_state_ok(k2, i2));
            assert(u.is_alloc(k2, i2) == v.is_alloc(k2, i2));
        }
    }
    assert forall|k2: int, i2: int|
        u.valid_chunk(k2, i2) && k2 < u.cc() - 1 && #[trigger] u.in_free(k2, i2) implies !u.in_free(
        k2,
        BuddyView::buddy_of(i2),
    ) by {
        assert(v.in_free(k2, i2));
        assert(!v.in_free(k2, BuddyView::buddy_of(i2)));
    }
}

/// Freeing a hole whose buddy is not free yields a well-formed state with
/// the chunk on its class's free list.
pub proof fn lemma_fill_hole_free(v: BuddyView, k: int, i: int)
    requires
        v.wf_hole(k, i),
        k == v.cc() - 1 || !v.in_free(k, BuddyView::buddy_of(i)),
    ensures
        v.push_free(k, i as usize).wf(),
        v.push_free(k, i as usize).in_free(k, i),
{
    lemma_caps_bounded(v);
    let u = v.push_free(k, i as usize);
    lemma_push_contains(v.classes[k].free, i as usize);
    assert(u.in_free(k, i));
    assert forall|k2: int, i2: int| u.valid_chunk(k2, i2) implies #[trigger] u.chunk_state_ok(
        k2,
        i2,
    ) by {
        assert(u.is_split(k2, i2) == v.is_split(k2, i2));
        assert(u.is_alloc(k2, i2) == v.is_alloc(k2, i2));
        assert(u.active(k2, i2) == v.active(k2, i2));
        if k2 == k {
            assert(u.in_free(k2, i2) == (v.in_free(k2, i2) || i2 == i));
        } else {
            assert(u.in_free(k2, i2) == v.in_free(k2, i2));
        }
        if !(k2 == k && i2 == i) {
            assert(v.chunk_state_ok(k2, i2));
        }
    }
    assert forall|k2: int, i2: int|
        u.valid_chunk(k2, i2) && k2 < u.cc() - 1 && #[trigger] u.in_free(k2, i2) implies !u.in_free(
        k2,
        BuddyView::buddy_of(i2),
    ) by {
        let b = BuddyView::buddy_of(i2);
        if k2 == k {
            if i2 == i {
                assert(!v.in_free(k, b));
                assert(b != i);
            } else {
                assert(v.in_free(k2, i2));
                assert(!v.in_free(k2, b));
                if b == i {
                    assert(i2 == BuddyView::buddy_of(b));
                    assert(!v.in_free(k, BuddyView::buddy_of(i)));
                }
            }
        } else {
            assert(v.in_free(k2, i2));
            assert(!v.in_free(k2, b));
        }
    }
}

/// One split step: the hole's split bit is raised, its upper child is
/// freed, and the lower child becomes the new hole one class down.
pub proof fn lemma_split_step(v: BuddyView, k: int, i: int)
    requires
        v.wf_hole(k, i),
        1 <= k,
    ensures
        ({
            let u = v.set_split(k, i, true).push_free(k - 1, (2 * i + 1) as usize);
            &&& u.wf_hole(k - 1, 2 * i)
            &&& 2 * i + 1 < v.capacity(k - 1)
            &&& !v.in_free(k - 1, 2 * i + 1)
            &&& !v.set_split(k, i, true).in_free(k - 1, 2 * i + 1)
        }),
{
    lemma_caps_bounded(v);
    lemma_chunk_arith(v, k);
    lemma_chunk_arith(v, k - 1);
    let v1 = v.set_split(k, i, true);
    let u = v1.push_free(k - 1, (2 * i + 1) as usize);
    // The children were absorbed in their unsplit parent: no marks at all.
    assert(v.chunk_state_ok(k - 1, 2 * i));
    assert(v.chunk_state_ok(k - 1, 2 * i + 1));
    assert(!v.active(k - 1, 2 * i) && !v.active(k - 1, 2 * i + 1)) by {
        assert((2 * i) / 2 == i && (2 * i + 1) / 2 == i);
    }
    lemma_push_contains(v.classes[k - 1].free, (2 * i + 1) as usize);
    // Pointwise description of the new state.
    assert forall|k2: int, i2: int| v.valid_chunk(k2, i2) implies {
        &&& u.is_alloc(k2, i2) == v.is_alloc(k2, i2)
        &&& u.is_split(k2, i2) == (v.is_split(k2, i2) || (k2 == k && i2 == i))
        &&& u.in_free(k2, i2) == (v.in_free(k2, i2) || (k2 == k - 1 && i2 == 2 * i + 1))
        &&& u.active(k2, i2) == (v.active(k2, i2) || (k2 == k - 1 && i2 / 2 == i))
    } by {
        if k2 == k - 1 {
            assert(u.in_free(k2, i2) == (v.in_free(k2, i2) || i2 == 2 * i + 1));
        }
        if k2 < u.cc() - 1 {
            assert(u.active(k2, i2) == u.is_split(k2 + 1, i2 / 2));
        }
    }
    assert(u.wf_shape()) by {
        assert forall|k2: int| 0 <= k2 < u.cc() implies {
            &&& (#[trigger] u.classes[k2]).alloc.len() == u.capacity(k2)
            &&& u.classes[k2].split.len() == u.capacity(k2)
            &&& u.classes[k2].free.no_duplicates()
            &&& forall|j: int|
                0 <= j < u.classes[k2].free.len() ==> (#[trigger] u.classes[k2].free[j])
                    < u.capacity(k2)
        } by {
            if k2 == k - 1 {
                assert(u.classes[k2].free == v.classes[k2].free.push((2 * i + 1) as usize));
                assert forall|j: int| 0 <= j < u.classes[k2].free.len() implies (
                #[trigger] u.classes[k2].free[j]) < u.capacity(k2) by {
                    if j < v.classes[k2].free.len() {
                        assert(u.classes[k2].free[j] == v.classes[k2].free[j]);
                    }
                }
            } else {
                assert(u.classes[k2].free == v.classes[k2].free);
                assert(u.classes[k2].alloc == v.classes[k2].alloc);
            }
        }
    }
    assert forall|k2: int, i2: int|
        u.valid_chunk(k2, i2) && !(k2 == k - 1 && i2 == 2 * i) implies #[trigger] u.chunk_state_ok(
        k2,
        i2,
    ) by {
        if k2 == k && i2 == i {
            // The old hole is now split.
        } else if k2 == k - 1 && i2 == 2 * i + 1 {
            // The upper child is now active and free.
        } else {
            assert(v.chunk_state_ok(k2, i2));
            assert(u.active(k2, i2) == v.active(k2, i2)) by {
                if k2 == k - 1 && i2 / 2 == i {
                    assert(i2 == 2 * i || i2 == 2 * i + 1);
                }
            }
        }
    }
    assert(u.wf_coalesced()) by {
        assert forall|k2: int, i2: int|
            u.valid_chunk(k2, i2) && k2 < u.cc() - 1 && #[trigger] u.in_free(
                k2,
                i2,
            ) implies !u.in_free(k2, BuddyView::buddy_of(i2)) by {
            let b = BuddyView::buddy_of(i2);
            if k2 == k - 1 && i2 == 2 * i + 1 {
                assert(b == 2 * i);
                assert(!v.in_free(k2, b));
            } else {
                assert(v.in_free(k2, i2));
                assert(!v.in_free(k2, b));
                if k2 == k - 1 && b == 2 * i + 1 {
                    assert(i2 == 2 * i);
                    assert(!v.active(k - 1, 2 * i));
                    assert(v.chunk_state_ok(k2, i2));
                }
            }
        }
    }
}

/// One coalesce step: the hole's free buddy leaves the free list, the
/// parent's split bit is cleared, and the parent becomes the new hole one
/// class up.
pub proof fn lemma_coalesce_step(v: BuddyView, k: int, i: int)
    requires
        v.wf_hole(k, i),
        k < v.cc() - 1,
        v.in_free(k, BuddyView::buddy_of(i)),
    ensures
        ({
            let u = v.remove_free(k, BuddyView::buddy_of(i) as usize).set_split(k + 1, i / 2, false);
            &&& u.wf_hole(k + 1, i / 2)
            &&& BuddyView::buddy_of(i) < v.capacity(k)
            &&& i / 2 < v.capacity(k + 1)
        }),
{
    lemma_caps_bounded(v);
    lemma_chunk_arith(v, k);
    lemma_chunk_arith(v, k + 1);
    let b = BuddyView::buddy_of(i);
    let p = i / 2;
    assert(b / 2 == p && b != i);
    // The buddy is on the free list, so it is a chunk index of the class.
    assert(b < v.capacity(k)) by {
        let t = choose|t: int|
            0 <= t < v.classes[k].free.len() && v.classes[k].free[t] == b as usize;
        assert(v.classes[k].free[t] < v.capacity(k));
    }
    assert(v.chunk_state_ok(k, b));
    assert(v.active(k, i) && v.active(k, b));
    assert(v.is_split(k + 1, p));
    assert(p < v.capacity(k + 1));
    assert(v.chunk_state_ok(k + 1, p));
    assert(!v.is_alloc(k + 1, p) && !v.in_free(k + 1, p));
    assert(v.active(k + 1, p)) by {
        if k + 1 < v.cc() - 1 {
            assert(!v.active(k + 1, p) ==> !v.is_split(k + 1, p));
        }
    }
    lemma_swap_remove_contains(v.classes[k].free, b as usize);
    let u = v.remove_free(k, b as usize).set_split(k + 1, p, false);
    // Pointwise description of the new state.
    assert forall|k2: int, i2: int| v.valid_chunk(k2, i2) implies {
        &&& u.is_alloc(k2, i2) == v.is_alloc(k2, i2)
        &&& u.is_split(k2, i2) == (v.is_split(k2, i2) && !(k2 == k + 1 && i2 == p))
        &&& u.in_free(k2, i2) == (v.in_free(k2, i2) && !(k2 == k && i2 == b))
        &&& u.active(k2, i2) == (v.active(k2, i2) && !(k2 == k && i2 / 2 == p))
    } by {
        if k2 == k {
            assert(u.in_free(k2, i2) == (v.in_free(k2, i2) && i2 != b));
        }
        if k2 < u.cc() - 1 {
            assert(u.active(k2, i2) == u.is_split(k2 + 1, i2 / 2));
        }
    }
    assert(u.wf_shape()) by {
        assert forall|k2: int| 0 <= k2 < u.cc() implies {
            &&& (#[trigger] u.classes[k2]).alloc.len() == u.capacity(k2)
            &&& u.classes[k2].split.len() == u.capacity(k2)
            &&& u.classes[k2].free.no_duplicates()
            &&& forall|j: int|
                0 <= j < u.classes[k2].free.len() ==> (#[trigger] u.classes[k2].free[j])
                    < u.capacity(k2)
        } by {
            if k2 == k {
                assert(u.classes[k2].free == seq_swap_remove(v.classes[k2].free, b as usize));
                assert forall|j: int| 0 <= j < u.classes[k2].free.len() implies (
                #[trigger] u.classes[k2].free[j]) < u.capacity(k2) by {
                    assert(u.classes[k2].free.contains(u.classes[k2].free[j]));
                    assert(v.classes[k2].free.contains(u.classes[k2].free[j]));
                    let t = choose|t: int|
                        0 <= t < v.classes[k2].free.len() && v.classes[k2].free[t]
                            == u.classes[k2].free[j];
                    assert(v.classes[k2].free[t] < v.capacity(k2));
                }
            } else {
                assert(u.classes[k2].free == v.classes[k2].free);
                assert(u.classes[k2].alloc == v.classes[k2].alloc);
            }
        }
    }
    // The two merged children are now absorbed; the parent is the new hole.
    assert forall|k2: int, i2: int|
        u.valid_chunk(k2, i2) && !(k2 == k + 1 && i2 == p) implies #[trigger] u.chunk_state_ok(
        k2,
        i2,
    ) by {
        if k2 == k && (i2 == i || i2 == b) {
            assert(i2 / 2 == p);
            assert(!u.active(k2, i2));
            assert(!u.is_alloc(k2, i2) && !u.is_split(k2, i2) && !u.in_free(k2, i2));
        } else {
            assert(v.chunk_state_ok(k2, i2));
            assert(u.active(k2, i2) == v.active(k2, i2)) by {
                if k2 == k && i2 / 2 == p {
                    assert(i2 == 2 * p || i2 == 2 * p + 1);
                    assert(i2 == i || i2 == b) by {
                        assert(i == 2 * p || i == 2 * p + 1);
                        assert(b == 2 * p || b == 2 * p + 1);
                    }
                }
            }
        }
    }
    assert(u.wf_coalesced()) by {
        assert forall|k2: int, i2: int|
            u.valid_chunk(k2, i2) && k2 < u.cc() - 1 && #[trigger] u.in_free(
                k2,
                i2,
            ) implies !u.in_free(k2, BuddyView::buddy_of(i2)) by {
            assert(v.in_free(k2, i2));
            assert(!v.in_free(k2, BuddyView::buddy_of(i2)));
        }
    }
}

/// Popping the most recently freed chunk of a class leaves a hole there.
pub proof fn lemma_pop_free_hole(v: BuddyView, k: int)
    requires
        v.wf(),
        0 <= k < v.cc(),
        v.classes[k].free.len() > 0,
    ensures
        ({
            let i = v.classes[k].free.last() as int;
            &&& v.pop_free(k).wf_hole(k, i)
            &&& 0 <= i < v.capacity(k)
        }),
{
    lemma_caps_bounded(v);
    let i = v.classes[k].free.last() as int;
    let u = v.pop_free(k);
    assert(v.classes[k].free[v.classes[k].free.len() - 1] == v.classes[k].free.last());
    assert(v.in_free(k, i));
    assert(v.classes[k].free.last() < v.capacity(k));
    assert(v.chunk_state_ok(k, i));
    lemma_drop_last_contains(v.classes[k].free);
    assert forall|k2: int, i2: int| v.valid_chunk(k2, i2) implies {
        &&& u.is_alloc(k2, i2) == v.is_alloc(k2, i2)
        &&& u.is_split(k2, i2) == v.is_split(k2, i2)
        &&& u.in_free(k2, i2) == (v.in_free(k2, i2) && !(k2 == k && i2 == i))
        &&& u.active(k2, i2) == v.active(k2, i2)
    } by {
        if k2 == k {
            assert(u.in_free(k2, i2) == (v.in_free(k2, i2) && i2 != i)) by {
                assert(u.classes[k].free == v.classes[k].free.drop_last());
                if i2 == i {
                    assert(!u.classes[k].free.contains(i as usize));
                }
            }
        }
    }
    assert(u.wf_shape()) by {
        assert forall|k2: int| 0 <= k2 < u.cc() implies {
            &&& (#[trigger] u.classes[k2]).alloc.len() == u.capacity(k2)
            &&& u.classes[k2].split.len() == u.capacity(k2)
            &&& u.classes[k2].free.no_duplicates()
            &&& forall|j: int|
                0 <= j < u.classes[k2].free.len() ==> (#[trigger] u.classes[k2].free[j])
                    < u.capacity(k2)
        } by {
            if k2 == k {
                assert forall|j: int| 0 <= j < u.classes[k2].free.len() implies (
                #[trigger] u.classes[k2].free[j]) < u.capacity(k2) by {
                    assert(u.classes[k2].free[j] == v.classes[k2].free[j]);
                }
            } else {
                assert(u.classes[k2].free == v.classes[k2].free);
            }
        }
    }
    assert forall|k2: int, i2: int|
        u.valid_chunk(k2, i2) && !(k2 == k && i2 == i) implies #[trigger] u.chunk_state_ok(
        k2,
        i2,
    ) by {
        assert(v.chunk_state_ok(k2, i2));
    }
    assert forall|k2: int, i2: int|
        u.valid_chunk(k2, i2) && k2 < u.cc() - 1 && #[trigger] u.in_free(k2, i2) implies !u.in_free(
        k2,
        BuddyView::buddy_of(i2),
    ) by {
        assert(v.in_free(k2, i2));
        assert(!v.in_free(k2, BuddyView::buddy_of(i2)));
    }
}

/// The error a caller can recover from: no free chunk at or above the
/// requested class.
#[derive(Clone, Copy, Debug, PartialEq, Eq, Structural)]
pub enum AllocError {
    OutOfMemory,
}

/// One chunk class: its allocation bitmap, its split bitmap, and the free
/// list of its currently free chunks.
pub struct ChunkClass {
    /// Allocation bitmap: flag `i` is raised while chunk `i` is handed out.
    pub bm: Bitmap,
    /// Split bitmap: flag `i` is raised while chunk `i` is divided into its
    /// two children of the class below.
    pub sBM: Bitmap,
    /// The chunks of this class currently available for allocation.
    pub freeList: FreeList,
}

impl ChunkClass {
    pub open spec fn view(&self) -> ClassView {
        ClassView { alloc: self.bm.view(), split: self.sBM.view(), free: self.freeList.view() }
    }

    /// The executable structures agree with one another in size.
    pub open spec fn wf_exec(&self) -> bool {
        &&& self.freeList.wf()
        &&& self.freeList.capacity() == self.bm.view().len()
        &&& self.sBM.view().len() == self.bm.view().len()
    }
}

/// The buddy allocator: the effective region parameters and the chunk
/// classes. Created blank by `new`; usable after exactly one `init`.
pub struct BuddyAllocator {
    isInitialized: bool,
    effectiveMemoryRegionStarting: usize,
    effectiveMemoryRegionEnding: usize,
    /// Smallest chunk size.
    leafSize: usize,
    /// Largest alignment the allocator promises to satisfy.
    maxAlignmentSize: usize,
    /// Number of chunk classes in the effective memory region.
    chunkClassesCount: usize,
    chunkClasses: Vec<ChunkClass>,
}

impl BuddyAllocator {
    pub closed spec fn view(&self) -> BuddyView {
        BuddyView {
            start: self.effectiveMemoryRegionStarting as int,
            end: self.effectiveMemoryRegionEnding as int,
            leaf: self.leafSize as int,
            max_align: self.maxAlignmentSize as int,
            classes: self.chunkClasses@.map(|k: int, c: ChunkClass| c.view()),
        }
    }

    pub closed spec fn is_init(&self) -> bool {
        self.isInitialized
    }

    /// The executable structures are consistent with each other.
    closed spec fn lists_ok(&self) -> bool {
        &&& self.chunkClassesCount == self.chunkClasses@.len()
        &&& forall|k: int|
            0 <= k < self.chunkClasses@.len() ==> (#[trigger] self.chunkClasses@[k]).wf_exec()
    }

    /// Invariant of an initialized allocator: the executable structures are
    /// consistent and the abstract state is well-formed.
    pub closed spec fn inv(&self) -> bool {
        self.is_init() ==> self.lists_ok() && self.view().wf()
    }

    /// A blank allocator; every field becomes meaningful only at `init`.
    pub fn new() -> (r: BuddyAllocator)
        ensures
            !r.is_init(),
            r.inv(),
    {
        BuddyAllocator {
            isInitialized: false,
            effectiveMemoryRegionStarting: 0,
            effectiveMemoryRegionEnding: 0,
            leafSize: 0,
            maxAlignmentSize: 0,
            chunkClassesCount: 0,
            chunkClasses: Vec::new(),
        }
    }
}

/// The effective region start: the given start rounded up to a multiple of
/// `max(leaf, max_align)`, so that chunk addresses can honour every
/// alignment up to `max_align`.
pub open spec fn spec_effective_start(start: int, leaf: int, max_align: int) -> int {
    spec_ceil_to_multiple(start, if leaf >= max_align { leaf } else { max_align })
}

/// The effective region end: the given end rounded down to a multiple of
/// the leaf size.
pub open spec fn spec_effective_end(end: int, leaf: int) -> int {
    spec_floor_to_multiple(end, leaf)
}

/// Number of chunk classes the effective region supports.
pub open spec fn spec_class_count(start: int, end: int, leaf: int, max_align: int) -> int {
    log2(((spec_effective_end(end, leaf) - spec_effective_start(start, leaf, max_align))
        / leaf) as nat) as int + 1
}

/// The preconditions `init` needs beyond the configuration being
/// power-of-two shaped: the effective region must hold at least one leaf
/// chunk.
pub open spec fn init_feasible(start: int, end: int, leaf: int, max_align: int) -> bool {
    &&& 1 <= start
    &&& end - start > leaf
    &&& spec_effective_start(start, leaf, max_align) + leaf <= spec_effective_end(end, leaf)
    &&& end <= usize::MAX
}

/// The allocator state right after `init`: all bitmaps clear, every free
/// list empty except the top class, whose single chunk is free.
pub open spec fn spec_init(start: int, end: int, leaf: int, max_align: int) -> BuddyView {
    let cc = spec_class_count(start, end, leaf, max_align);
    BuddyView {
        start: spec_effective_start(start, leaf, max_align),
        end: spec_effective_end(end, leaf),
        leaf: leaf,
        max_align: max_align,
        classes: Seq::new(
            cc as nat,
            |k: int|
                ClassView {
                    alloc: Seq::new(pow2((cc - 1 - k) as nat), |i: int| false),
                    split: Seq::new(pow2((cc - 1 - k) as nat), |i: int| false),
                    free: if k == cc - 1 {
                        seq![0usize]
                    } else {
                        Seq::empty()
                    },
                },
        ),
    }
}

/// The freshly initialized state has a well-formed configuration, and the
/// quantities `init` computes stay within machine bounds.
pub proof fn lemma_spec_init_config(start: int, end: int, leaf: int, max_align: int)
    requires
        is_pow2(leaf),
        is_pow2(max_align),
        init_feasible(start, end, leaf, max_align),
    ensures
        ({
            let t = spec_init(start, end, leaf, max_align);
            let es = spec_effective_start(start, leaf, max_align);
            let ee = spec_effective_end(end, leaf);
            let n = (ee - es) / leaf;
            &&& t.wf_config()
            &&& t.cc() == spec_class_count(start, end, leaf, max_align) >= 1
            &&& 1 <= n
            &&& pow2((t.cc() - 1) as nat) <= n
            &&& es + leaf <= ee
            &&& 1 <= es
        }),
{
    let t = spec_init(start, end, leaf, max_align);
    let g = if leaf >= max_align {
        leaf
    } else {
        max_align
    };
    crate::utils::lemma_is_pow2_pos(leaf);
    crate::utils::lemma_is_pow2_pos(max_align);
    let es = spec_effective_start(start, leaf, max_align);
    let ee = spec_effective_end(end, leaf);
    crate::utils::lemma_ceil_to_multiple(start, g);
    crate::utils::lemma_floor_to_multiple(end, leaf);
    lemma_pow2_le_divides(max_align, g);
    lemma_pow2_le_divides(leaf, g);
    lemma_mod_transitive(es, g, max_align);
    lemma_mod_transitive(es, g, leaf);
    let n = (ee - es) / leaf;
    crate::utils::lemma_div_at_least_one(ee - es, leaf);
    lemma_log2_bounds(n as nat);
    let e = log2(n as nat);
    assert(t.cc() == e + 1);
    // The managed span fits the effective region.
    assert(t.managed_size() == leaf * pow2(e));
    lemma_mul_inequality(pow2(e) as int, n, leaf);
    assert(pow2(e) * leaf <= n * leaf ==> leaf * pow2(e) <= leaf * n) by (nonlinear_arith);
    assert(leaf * n <= ee - es);
}

impl BuddyAllocator {
    /// Prepares the allocator to manage the memory between the given
    /// bounds: computes the effective region and the class count, creates
    /// the per-class bitmaps and free lists, and seeds the top class's
    /// single chunk as the only initially free chunk.
    pub fn init(
        &mut self,
        memoryRegionStarting: usize,
        memoryRegionEnding: usize,
        leafSize: usize,
        maxAlignmentSize: usize,
    )
        requires
            !old(self).is_init(),
            is_pow2(leafSize as int),
            is_pow2(maxAlignmentSize as int),
            init_feasible(
                memoryRegionStarting as int,
                memoryRegionEnding as int,
                leafSize as int,
                maxAlignmentSize as int,
            ),
        ensures
            final(self).is_init(),
            final(self).inv(),
            final(self).view() == spec_init(
                memoryRegionStarting as int,
                memoryRegionEnding as int,
                leafSize as int,
                maxAlignmentSize as int,
            ),
            final(self).view().wf(),
    {
        let ghost target = spec_init(
            memoryRegionStarting as int,
            memoryRegionEnding as int,
            leafSize as int,
            maxAlignmentSize as int,
        );
        proof {
            lemma_spec_init_config(
                memoryRegionStarting as int,
                memoryRegionEnding as int,
                leafSize as int,
                maxAlignmentSize as int,
            );
            crate::utils::lemma_is_pow2_pos(leafSize as int);
            crate::utils::lemma_is_pow2_pos(maxAlignmentSize as int);
        }
        let granularity = if leafSize >= maxAlignmentSize {
            leafSize
        } else {
            maxAlignmentSize
        };
        let effStart = ceilToMultiple(memoryRegionStarting, granularity);
        let effEnd = floorToMultiple(memoryRegionEnding, leafSize);
        let effSize = effEnd - effStart;
        let leafCount = effSize / leafSize;
        proof {
            lemma_log2_bounds(leafCount as nat);
        }
        let classCount = log2Floor(leafCount) + 1;

        let mut classes: Vec<ChunkClass> = Vec::new();
        let mut k: usize = 0;
        while k < classCount
            invariant
                0 <= k <= classCount,
                classCount == target.cc(),
                target == spec_init(
                    memoryRegionStarting as int,
                    memoryRegionEnding as int,
                    leafSize as int,
                    maxAlignmentSize as int,
                ),
                pow2((classCount - 1) as nat) <= usize::MAX,
                classes@.len() == k,
                forall|t: int|
                    0 <= t < k ==> {
                        &&& (#[trigger] classes@[t]).wf_exec()
                        &&& classes@[t].view().alloc == Seq::new(
                            pow2((classCount - 1 - t) as nat),
                            |i: int| false,
                        )
                        &&& classes@[t].view().split == Seq::new(
                            pow2((classCount - 1 - t) as nat),
                            |i: int| false,
                        )
                        &&& classes@[t].view().free == Seq::<usize>::empty()
                        &&& classes@[t].freeList.capacity() == pow2((classCount - 1 - t) as nat)
                    },
            decreases classCount - k,
        {
            proof {
                if ((classCount - 1 - k) as nat) < ((classCount - 1) as nat) {
                    vstd::arithmetic::power2::lemma_pow2_strictly_increases(
                        (classCount - 1 - k) as nat,
                        (classCount - 1) as nat,
                    );
                }
            }
            let capacity = pow2Exec(classCount - 1 - k);
            let cls = ChunkClass {
                bm: Bitmap::new(capacity),
                sBM: Bitmap::new(capacity),
                freeList: FreeList::new(capacity),
            };
            classes.push(cls);
            k = k + 1;
        }

        // Seed the single top-class chunk as the only initially free chunk.
        let top = classCount - 1;
        proof {
            vstd::arithmetic::power2::lemma2_to64();
        }
        let topClass = &mut classes[top];
        topClass.freeList.push(0);

        self.isInitialized = true;
        self.effectiveMemoryRegionStarting = effStart;
        self.effectiveMemoryRegionEnding = effEnd;
        self.leafSize = leafSize;
        self.maxAlignmentSize = maxAlignmentSize;
        self.chunkClassesCount = classCount;
        self.chunkClasses = classes;

        proof {
            assert(self.chunkClasses@[top as int].view().free =~= seq![0usize]);
            assert forall|k: int| 0 <= k < target.cc() implies {
                &&& (#[trigger] self.chunkClasses@[k]).wf_exec()
                &&& self.chunkClasses@[k].view().alloc == Seq::new(
                    pow2((target.cc() - 1 - k) as nat),
                    |i: int| false,
                )
                &&& self.chunkClasses@[k].view().split == Seq::new(
                    pow2((target.cc() - 1 - k) as nat),
                    |i: int| false,
                )
                &&& self.chunkClasses@[k].view().free == (if k == target.cc() - 1 {
                    seq![0usize]
                } else {
                    Seq::<usize>::empty()
                })
            } by {
                if k != top as int {
                    assert(self.chunkClasses@[k] == classes@[k]);
                }
            }
            lemma_init_view_correct(self, target);
        }
    }
}

impl BuddyAllocator {
    /// Makes the (closed) invariant usable by callers: an initialized
    /// allocator always has a well-formed view.
    pub proof fn lemma_inv_wf(&self)
        requires
            self.is_init(),
            self.inv(),
        ensures
            self.view().wf(),
    {
    }

    /// Returns the size of the chunk class `k_r`: the maximum possible
    /// count of chunks of that class in the effective memory region.
    pub fn getChunkClassSize(&self, k_r: usize) -> (r: usize)
        requires
            self.view().wf_config(),
            (k_r as int) < self.view().cc(),
        ensures
            r as int == self.view().capacity(k_r as int),
    {
        proof {
            lemma_chunk_arith(self.view(), k_r as int);
        }
        pow2Exec(self.chunkClasses.len() - 1 - k_r)
    }

    /// Returns the size in bytes of a chunk belonging to chunk class `k_r`.
    pub fn getChunkSize(&self, k_r: usize) -> (r: usize)
        requires
            self.view().wf_config(),
            (k_r as int) < self.view().cc(),
        ensures
            r as int == self.view().chunk_size(k_r as int),
    {
        proof {
            lemma_chunk_arith(self.view(), k_r as int);
            assert(pow2(k_r as nat) <= self.view().chunk_size(k_r as int)) by (nonlinear_arith)
                requires
                    self.view().chunk_size(k_r as int) == self.view().leaf * pow2(k_r as nat),
                    self.view().leaf >= 1,
            ;
        }
        self.leafSize * pow2Exec(k_r)
    }

    /// Returns the memory address of the `i`th member chunk of chunk class
    /// `k_r`.
    pub fn getChunkAddress(&self, k_r: usize, i: usize) -> (r: usize)
        requires
            self.view().wf_config(),
            self.view().valid_chunk(k_r as int, i as int),
        ensures
            r as int == self.view().chunk_addr(k_r as int, i as int),
    {
        proof {
            lemma_chunk_addr_bounds(self.view(), k_r as int, i as int);
        }
        self.effectiveMemoryRegionStarting + i * self.getChunkSize(k_r)
    }

    /// Returns the index, within chunk class `k_r`, of the chunk at the
    /// given memory address.
    pub fn getChunkIndexInChunkClassFromAddress(&self, address: usize, k_r: usize) -> (r: usize)
        requires
            self.view().wf_config(),
            (k_r as int) < self.view().cc(),
            self.view().start <= address as int,
        ensures
            r as int == (address as int - self.view().start) / self.view().chunk_size(k_r as int),
    {
        proof {
            lemma_chunk_arith(self.view(), k_r as int);
        }
        (address - self.effectiveMemoryRegionStarting) / self.getChunkSize(k_r)
    }

    /// Whether one chunk of class `k` fits a request of `size` bytes with
    /// the given alignment.
    fn classFits(&self, k: usize, size: usize, align: usize) -> (b: bool)
        requires
            self.view().wf_config(),
            (k as int) < self.view().cc(),
        ensures
            b == (self.view().chunk_size(k as int) >= size && self.view().chunk_size(k as int)
                >= align),
    {
        let cs = self.getChunkSize(k);
        cs >= size && cs >= align
    }

    /// The smallest class whose chunks fit the request, or the class count
    /// when even the top chunk is too small.
    fn findFitClass(&self, size: usize, align: usize) -> (r: usize)
        requires
            self.view().wf_config(),
        ensures
            r as int == self.view().fit_class(size as int, align as int),
            r as int <= self.view().cc(),
            (r as int) < self.view().cc() ==> self.view().chunk_size(r as int) >= size
                && self.view().chunk_size(r as int) >= align,
    {
        let count = self.chunkClasses.len();
        let mut k: usize = 0;
        while k < count && !self.classFits(k, size, align)
            invariant
                0 <= k <= count,
                count == self.view().cc(),
                self.view().wf_config(),
                self.view().fit_class(size as int, align as int) == self.view().fit_class_from(
                    k as int,
                    size as int,
                    align as int,
                ),
            decreases count - k,
        {
            k = k + 1;
        }
        k
    }

    /// Whether class `k` currently has a free chunk.
    fn hasFree(&self, k: usize) -> (b: bool)
        requires
            (k as int) < self.view().cc(),
        ensures
            b == (self.view().classes[k as int].free.len() > 0),
    {
        self.chunkClasses[k].freeList.len() > 0
    }

    /// The smallest class at or above `from` with a free chunk, or the
    /// class count when the allocator is exhausted at these sizes.
    fn findFreeClass(&self, from: usize) -> (r: usize)
        requires
            from as int <= self.view().cc(),
        ensures
            r as int == self.view().find_free_from(from as int),
            from <= r,
            r as int <= self.view().cc(),
            (r as int) < self.view().cc() ==> self.view().classes[r as int].free.len() > 0,
    {
        let count = self.chunkClasses.len();
        let mut k: usize = from;
        while k < count && !self.hasFree(k)
            invariant
                from <= k <= count,
                count == self.view().cc(),
                self.view().find_free_from(from as int) == self.view().find_free_from(k as int),
            decreases count - k,
        {
            k = k + 1;
        }
        k
    }

    /// Serves an allocation request of `size` bytes aligned to `align`:
    /// chooses the smallest fitting class, takes its most recently freed
    /// chunk — splitting a larger chunk downward when that class has none
    /// free — marks it allocated and returns its address. A zero-sized
    /// request succeeds with the null address and touches nothing. When no
    /// free chunk at or above the needed class exists, the allocator is out
    /// of memory and the state is left unchanged.
    pub fn allocate(&mut self, size: usize, align: usize) -> (r: Result<usize, AllocError>)
        requires
            old(self).is_init(),
            old(self).inv(),
            is_pow2(align as int),
            align as int <= old(self).view().max_align,
        ensures
            final(self).is_init(),
            final(self).inv(),
            final(self).view() == old(self).view().spec_alloc(size as int, align as int).0,
            (match r {
                Ok(a) => Some(a as int),
                Err(e) => None,
            }) == old(self).view().spec_alloc(size as int, align as int).1,
            size > 0 ==> (r matches Ok(a) ==> a as int % align as int == 0),
    {
        let ghost v0 = self.view();
        if size == 0 {
            return Ok(0);
        }
        proof {
            if v0.spec_alloc(size as int, align as int).1 is Some {
                crate::laws::lemma_alloc_aligned(v0, size as int, align as int);
            }
        }
        let count = self.chunkClasses.len();
        let ks = self.findFitClass(size, align);
        if ks >= count {
            return Err(AllocError::OutOfMemory);
        }
        let k = self.findFreeClass(ks);
        if k >= count {
            return Err(AllocError::OutOfMemory);
        }
        proof {
            lemma_pop_free_hole(v0, k as int);
            lemma_caps_bounded(v0);
        }
        let cls = &mut self.chunkClasses[k];
        let i0 = cls.freeList.pop();
        let ghost vP = v0.pop_free(k as int);
        proof {
            assert(self.view().classes =~= vP.classes);
            assert(self.view() =~~= vP);
            assert(self.lists_ok()) by {
                assert forall|t: int|
                    0 <= t < self.chunkClasses@.len() implies (
                #[trigger] self.chunkClasses@[t]).wf_exec() by {
                    if t != k as int {
                        assert(self.chunkClasses@[t] == old(self).chunkClasses@[t]);
                    }
                }
            }
        }
        let ghost target = vP.split_down(k as int, i0 as int, ks as int);
        proof {
            vstd::arithmetic::power2::lemma2_to64();
            assert((i0 as int) * pow2((k - k) as nat) == i0 as int) by (nonlinear_arith)
                requires
                    pow2((k - k) as nat) == 1,
            ;
        }
        let mut j: usize = k;
        let mut i: usize = i0;
        while j > ks
            invariant
                self.is_init(),
                self.lists_ok(),
                ks <= j <= k,
                (k as int) < self.view().cc(),
                self.view().wf_hole(j as int, i as int),
                self.view().split_down(j as int, i as int, ks as int) == target,
                i as int == (i0 as int) * pow2((k - j) as nat),
                self.view().cc() == v0.cc(),
                self.view().start == v0.start,
                self.view().end == v0.end,
                self.view().leaf == v0.leaf,
                self.view().max_align == v0.max_align,
            decreases j,
        {
            let ghost vpre = self.view();
            proof {
                lemma_split_step(vpre, j as int, i as int);
                lemma_chunk_arith(vpre, j as int);
                lemma_chunk_arith(vpre, j as int - 1);
                lemma_caps_bounded(vpre);
            }
            let child = 2 * i + 1;
            let clsJ = &mut self.chunkClasses[j];
            clsJ.sBM.set(i);
            proof {
                assert(self.view().classes =~= vpre.set_split(j as int, i as int, true).classes);
                assert(self.view() =~~= vpre.set_split(j as int, i as int, true));
            }
            let clsChild = &mut self.chunkClasses[j - 1];
            clsChild.freeList.push(child);
            proof {
                let u2 = vpre.set_split(j as int, i as int, true).push_free(
                    j as int - 1,
                    child,
                );
                assert(self.view().classes =~= u2.classes);
                assert(self.view() =~~= u2);
                assert(self.lists_ok()) by {
                    assert forall|t: int|
                        0 <= t < self.chunkClasses@.len() implies (
                    #[trigger] self.chunkClasses@[t]).wf_exec() by {
                    }
                }
                assert(vpre.split_down(j as int, i as int, ks as int) == u2.split_down(
                    j as int - 1,
                    2 * (i as int),
                    ks as int,
                ));
                lemma_pow2_unfold((k - (j - 1)) as nat);
                assert(2 * ((i0 as int) * pow2((k - j) as nat)) == (i0 as int) * (2 * pow2(
                    (k - j) as nat,
                ))) by (nonlinear_arith);
            }
            i = 2 * i;
            j = j - 1;
        }
        let ghost vend = self.view();
        proof {
            assert(vend == target);
            lemma_fill_hole_alloc(vend, ks as int, i as int);
            lemma_chunk_arith(vend, ks as int);
        }
        let clsFinal = &mut self.chunkClasses[ks];
        clsFinal.bm.set(i);
        proof {
            assert(self.view().classes =~= vend.set_alloc(ks as int, i as int, true).classes);
            assert(self.view() =~~= vend.set_alloc(ks as int, i as int, true));
            assert(self.lists_ok()) by {
                assert forall|t: int|
                    0 <= t < self.chunkClasses@.len() implies (
                #[trigger] self.chunkClasses@[t]).wf_exec() by {
                }
            }
        }
        let address = self.getChunkAddress(ks, i);
        proof {
            assert(self.view().chunk_addr(ks as int, i as int) == v0.chunk_addr(
                ks as int,
                i as int,
            ));
        }
        Ok(address)
    }

    /// Number of chunk classes the effective memory region supports.
    pub fn getChunkClassesCount(&self) -> (r: usize)
        requires
            self.is_init(),
            self.inv(),
        ensures
            r as int == self.view().cc(),
    {
        self.chunkClasses.len()
    }

    /// Number of chunks of class `k_r` currently on the free list.
    pub fn getFreeChunkCount(&self, k_r: usize) -> (r: usize)
        requires
            self.is_init(),
            self.inv(),
            (k_r as int) < self.view().cc(),
        ensures
            r as int == self.view().classes[k_r as int].free.len(),
    {
        self.chunkClasses[k_r].freeList.len()
    }

    /// Whether the buddy of chunk `i` of class `j` is currently free.
    fn buddyFree(&self, j: usize, i: usize) -> (b: bool)
        requires
            self.lists_ok(),
            self.view().wf_config(),
            self.view().wf_shape(),
            self.view().valid_chunk(j as int, i as int),
            (j as int) < self.view().cc() - 1,
        ensures
            b == self.view().in_free(j as int, BuddyView::buddy_of(i as int)),
    {
        proof {
            lemma_chunk_arith(self.view(), j as int);
            lemma_caps_bounded(self.view());
        }
        let b = if i % 2 == 0 {
            i + 1
        } else {
            i - 1
        };
        proof {
            let v = self.view();
            let cap = v.capacity(j as int);
            assert(self.chunkClasses@[j as int].wf_exec());
            assert(v.classes[j as int] == self.chunkClasses@[j as int].view());
            assert(cap == 2 * v.capacity(j as int + 1));
            assert(cap % 2 == 0) by (nonlinear_arith)
                requires
                    cap == 2 * v.capacity(j as int + 1),
            ;
            if i % 2 == 0 {
                assert(i as int != cap - 1) by (nonlinear_arith)
                    requires
                        i as int % 2 == 0,
                        cap % 2 == 0,
                        cap >= 2,
                ;
            }
        }
        self.chunkClasses[j].freeList.contains(b)
    }

    /// Returns the chunk at `address` — which must have been obtained from
    /// `allocate` with the same `size` and `align`, and not freed since —
    /// and eagerly coalesces it with its buddy as far as possible.
    pub fn dealloc(&mut self, address: usize, size: usize, align: usize)
        requires
            old(self).is_init(),
            old(self).inv(),
            is_pow2(align as int),
            align as int <= old(self).view().max_align,
            old(self).view().valid_dealloc(address as int, size as int, align as int),
        ensures
            final(self).is_init(),
            final(self).inv(),
            final(self).view() == old(self).view().spec_dealloc(
                address as int,
                size as int,
                align as int,
            ),
    {
        let ghost v0 = self.view();
        if size == 0 {
            return;
        }
        let count = self.chunkClasses.len();
        let ks = self.findFitClass(size, align);
        let i0 = self.getChunkIndexInChunkClassFromAddress(address, ks);
        proof {
            lemma_caps_bounded(v0);
            lemma_clear_alloc_hole(v0, ks as int, i0 as int);
        }
        let clsStart = &mut self.chunkClasses[ks];
        clsStart.bm.clear(i0);
        let ghost vC = v0.set_alloc(ks as int, i0 as int, false);
        proof {
            assert(self.view().classes =~= vC.classes);
            assert(self.view() =~~= vC);
            assert(self.lists_ok()) by {
                assert forall|t: int|
                    0 <= t < self.chunkClasses@.len() implies (
                #[trigger] self.chunkClasses@[t]).wf_exec() by {
                }
            }
        }
        let ghost target = vC.coalesce(ks as int, i0 as int);
        let mut j: usize = ks;
        let mut i: usize = i0;
        while j + 1 < count && self.buddyFree(j, i)
            invariant
                self.is_init(),
                self.lists_ok(),
                ks <= j,
                (j as int) < self.view().cc(),
                self.view().wf_hole(j as int, i as int),
                self.view().coalesce_rec(j as int, i as int, self.view().cc()) == target,
                count == self.view().cc(),
                self.view().cc() == v0.cc(),
                self.view().start == v0.start,
                self.view().end == v0.end,
                self.view().leaf == v0.leaf,
                self.view().max_align == v0.max_align,
            decreases count - j,
        {
            let ghost vpre = self.view();
            proof {
                lemma_coalesce_step(vpre, j as int, i as int);
                lemma_chunk_arith(vpre, j as int);
                lemma_caps_bounded(vpre);
            }
            let b = if i % 2 == 0 {
                i + 1
            } else {
                i - 1
            };
            let clsJ = &mut self.chunkClasses[j];
            clsJ.freeList.remove(b);
            proof {
                assert(self.view().classes =~= vpre.remove_free(j as int, b).classes);
                assert(self.view() =~~= vpre.remove_free(j as int, b));
            }
            let clsP = &mut self.chunkClasses[j + 1];
            clsP.sBM.clear(i / 2);
            proof {
                let u2 = vpre.remove_free(j as int, b).set_split(
                    j as int + 1,
                    i as int / 2,
                    false,
                );
                assert(self.view().classes =~= u2.classes);
                assert(self.view() =~~= u2);
                assert(self.lists_ok()) by {
                    assert forall|t: int|
                        0 <= t < self.chunkClasses@.len() implies (
                    #[trigger] self.chunkClasses@[t]).wf_exec() by {
                    }
                }
                assert(vpre.coalesce_rec(j as int, i as int, vpre.cc()) == u2.coalesce_rec(
                    j as int + 1,
                    i as int / 2,
                    vpre.cc(),
                ));
            }
            i = i / 2;
            j = j + 1;
        }
        let ghost vend = self.view();
        proof {
            lemma_fill_hole_free(vend, j as int, i as int);
            lemma_caps_bounded(vend);
        }
        let clsEnd = &mut self.chunkClasses[j];
        clsEnd.freeList.push(i);
        proof {
            assert(self.view().classes =~= vend.push_free(j as int, i as usize).classes);
            assert(self.view() =~~= vend.push_free(j as int, i as usize));
            assert(self.lists_ok()) by {
                assert forall|t: int|
                    0 <= t < self.chunkClasses@.len() implies (
                #[trigger] self.chunkClasses@[t]).wf_exec() by {
                }
            }
            assert(vend.coalesce_rec(j as int, i as int, vend.cc()) == vend.push_free(
                j as int,
                i as usize,
            ));
            assert(self.view() == target);
        }
    }
}

/// After `init` has filled the fields, the concrete state maps to the
/// intended abstract state and is well-formed.
proof fn lemma_init_view_correct(s: &BuddyAllocator, target: BuddyView)
    requires
        s.is_init(),
        s.chunkClassesCount == s.chunkClasses@.len(),
        s.chunkClasses@.len() == target.cc(),
        target.cc() >= 1,
        target.start == s.effectiveMemoryRegionStarting as int,
        target.end == s.effectiveMemoryRegionEnding as int,
        target.leaf == s.leafSize as int,
        target.max_align == s.maxAlignmentSize as int,
        forall|k: int|
            0 <= k < target.cc() ==> target.classes[k] == (ClassView {
                alloc: Seq::new(pow2((target.cc() - 1 - k) as nat), |i: int| false),
                split: Seq::new(pow2((target.cc() - 1 - k) as nat), |i: int| false),
                free: if k == target.cc() - 1 {
                    seq![0usize]
                } else {
                    Seq::<usize>::empty()
                },
            }),
        forall|k: int|
            0 <= k < target.cc() ==> {
                &&& (#[trigger] s.chunkClasses@[k]).wf_exec()
                &&& s.chunkClasses@[k].view().alloc == Seq::new(
                    pow2((target.cc() - 1 - k) as nat),
                    |i: int| false,
                )
                &&& s.chunkClasses@[k].view().split == Seq::new(
                    pow2((target.cc() - 1 - k) as nat),
                    |i: int| false,
                )
                &&& s.chunkClasses@[k].view().free == (if k == target.cc() - 1 {
                    seq![0usize]
                } else {
                    Seq::<usize>::empty()
                })
            },
        target.wf_config(),
    ensures
        s.view() == target,
        s.inv(),
        s.view().wf(),
{
    assert forall|k: int| 0 <= k < target.cc() implies s.view().classes[k] == target.classes[k] by {
        assert(s.view().classes[k] == s.chunkClasses@[k].view());
        assert(s.view().classes[k] =~= target.classes[k]);
    }
    assert(s.view() =~= target);
    // Well-formedness of the freshly seeded state.
    assert(target.wf_shape()) by {
        assert forall|k: int| 0 <= k < target.cc() implies {
            &&& (#[trigger] target.classes[k]).alloc.len() == target.capacity(k)
            &&& target.classes[k].split.len() == target.capacity(k)
            &&& target.classes[k].free.no_duplicates()
            &&& forall|j: int|
                0 <= j < target.classes[k].free.len() ==> (#[trigger] target.classes[k].free[j])
                    < target.capacity(k)
        } by {
            lemma_chunk_arith(target, k);
            if k == target.cc() - 1 {
                assert(target.classes[k].free == seq![0usize]);
                assert(target.classes[k].free.len() == 1);
            }
        }
    }
    assert(target.wf_states()) by {
        assert forall|k: int, i: int| target.valid_chunk(k, i) implies #[trigger] target.chunk_state_ok(
            k,
            i,
        ) by {
            lemma_chunk_arith(target, k);
            assert(!target.is_alloc(k, i));
            assert(!target.is_split(k, i));
            if k == target.cc() - 1 {
                assert(target.capacity(k) == 1) by {
                    assert(pow2(0) == 1) by {
                        vstd::arithmetic::power2::lemma2_to64();
                    }
                }
                assert(i == 0);
                assert(target.classes[k].free[0] == 0usize);
                assert(target.in_free(k, i));
            } else {
                assert(!target.active(k, i));
                assert(target.classes[k].free.len() == 0);
                assert(!target.in_free(k, i));
            }
        }
    }
    assert(target.wf_coalesced()) by {
        assert forall|k: int, i: int|
            target.valid_chunk(k, i) && k < target.cc() - 1 && #[trigger] target.in_free(
                k,
                i,
            ) implies !target.in_free(k, BuddyView::buddy_of(i)) by {
            assert(target.classes[k].free.len() == 0);
        }
    }
}

} // verus!
