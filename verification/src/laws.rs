//! The buddy-system laws: properties of the allocator that hold in every
//! well-formed state, stated over the abstract state `BuddyView` and the
//! spec-level transitions `spec_alloc` / `spec_dealloc` that the executable
//! operations are proved to implement exactly.

use vstd::prelude::*;
use vstd::arithmetic::power2::{is_pow2, is_pow2_equiv, lemma_pow2, lemma_pow2_adds, pow2};
use vstd::arithmetic::div_mod::lemma_mod_multiples_basic;
use crate::buddy::{
    lemma_caps_bounded, lemma_chunk_arith, lemma_chunk_size_monotone, lemma_clear_alloc_hole,
    lemma_coalesce_step, lemma_fill_hole_free, lemma_fit_class_congruent, lemma_fit_class_props,
    lemma_find_free_props, lemma_pop_free_hole, lemma_split_down_frame, lemma_split_step,
    seq_swap_remove, BuddyView,
};
use crate::utils::{
    lemma_is_pow2_pos, lemma_mod_sum_zero, lemma_mod_transitive, lemma_pow2_le_divides,
};

verus! {

/// Chunk `(k, i)` is in exactly one of the four conceivable conditions:
/// absorbed in an unsplit ancestor (inactive, carrying no marks at all),
/// free on its class's list, handed out, or split into its two tracked
/// children.
pub open spec fn chunk_in_exactly_one_state(v: BuddyView, k: int, i: int) -> bool {
    if v.active(k, i) {
        ||| (v.in_free(k, i) && !v.is_alloc(k, i) && !v.is_split(k, i))
        ||| (v.is_alloc(k, i) && !v.in_free(k, i) && !v.is_split(k, i))
        ||| (v.is_split(k, i) && !v.in_free(k, i) && !v.is_alloc(k, i))
    } else {
        !v.in_free(k, i) && !v.is_alloc(k, i) && !v.is_split(k, i)
    }
}

/// Class accounting: in a well-formed state, every chunk of every class is
/// in exactly one of {absorbed, free, allocated, split}. In particular the
/// free list of class `k` holds exactly the active chunks of class `k` that
/// are neither allocated nor split.
pub proof fn lemma_class_accounting(v: BuddyView)
    requires
        v.wf(),
    ensures
        forall|k: int, i: int|
            v.valid_chunk(k, i) ==> #[trigger] chunk_in_exactly_one_state(v, k, i),
{
    assert forall|k: int, i: int| v.valid_chunk(k, i) implies #[trigger] chunk_in_exactly_one_state(
        v,
        k,
        i,
    ) by {
        assert(v.chunk_state_ok(k, i));
    }
}

/// A chunk size is itself a power of two.
pub proof fn lemma_chunk_size_pow2(v: BuddyView, k: int)
    requires
        v.wf_config(),
        0 <= k < v.cc(),
    ensures
        is_pow2(v.chunk_size(k)),
{
    is_pow2_equiv(v.leaf);
    let e = choose|i: nat| vstd::arithmetic::power::pow(2, i) == v.leaf;
    lemma_pow2(e);
    lemma_pow2_adds(e, k as nat);
    assert(v.chunk_size(k) == pow2((e + k) as nat));
    lemma_pow2((e + k) as nat);
    is_pow2_equiv(v.chunk_size(k));
}

/// The lower descendant of chunk `i0` of class `k`, taken down to class
/// `ks`, is a valid chunk index of class `ks`.
pub proof fn lemma_descendant_index(v: BuddyView, ks: int, k: int, i0: int)
    requires
        v.wf_config(),
        0 <= ks <= k < v.cc(),
        0 <= i0 < v.capacity(k),
    ensures
        0 <= i0 * pow2((k - ks) as nat) < v.capacity(ks),
{
    let fi = i0 * pow2((k - ks) as nat);
    assert(fi < v.capacity(ks)) by {
        lemma_pow2_adds((v.cc() - 1 - k) as nat, (k - ks) as nat);
        vstd::arithmetic::power2::lemma_pow2_pos((k - ks) as nat);
        assert((i0 + 1) * pow2((k - ks) as nat) <= pow2((v.cc() - 1 - k) as nat) * pow2(
            (k - ks) as nat,
        )) by (nonlinear_arith)
            requires
                i0 + 1 <= pow2((v.cc() - 1 - k) as nat),
                pow2((k - ks) as nat) >= 1,
        ;
        assert((i0 + 1) * pow2((k - ks) as nat) == fi + pow2((k - ks) as nat)) by (nonlinear_arith)
            requires
                fi == i0 * pow2((k - ks) as nat),
        ;
    }
    assert(0 <= i0 * pow2((k - ks) as nat)) by (nonlinear_arith)
        requires
            i0 >= 0,
    ;
}

/// Alignment: every address `spec_alloc` hands out for a nonzero request is
/// a multiple of the requested alignment, and lies inside the managed span.
pub proof fn lemma_alloc_aligned(v: BuddyView, size: int, align: int)
    requires
        v.wf(),
        is_pow2(align),
        align <= v.max_align,
        1 <= size,
        v.spec_alloc(size, align).1 is Some,
    ensures
        v.spec_alloc(size, align).1.unwrap() % align == 0,
        v.start <= v.spec_alloc(size, align).1.unwrap(),
        v.spec_alloc(size, align).1.unwrap() + size <= v.start + v.managed_size(),
{
    let ks = v.fit_class(size, align);
    lemma_fit_class_props(v, 0, size, align);
    let k = v.find_free_from(ks);
    lemma_find_free_props(v, ks);
    let i0 = v.classes[k].free.last() as int;
    let fi = i0 * pow2((k - ks) as nat);
    let cs = v.chunk_size(ks);
    let a = v.chunk_addr(ks, fi);
    assert(v.spec_alloc(size, align).1 == Some(a));
    // The handed-out chunk is a valid chunk of class `ks`.
    assert(v.classes[k].free[v.classes[k].free.len() - 1] == v.classes[k].free.last());
    assert(i0 < v.capacity(k));
    lemma_chunk_arith(v, k);
    lemma_chunk_arith(v, ks);
    lemma_descendant_index(v, ks, k, i0);
    crate::buddy::lemma_chunk_addr_bounds(v, ks, fi);
    // Divisibility: align divides the region start and the chunk size.
    lemma_is_pow2_pos(align);
    lemma_is_pow2_pos(v.max_align);
    lemma_pow2_le_divides(align, v.max_align);
    lemma_mod_transitive(v.start, v.max_align, align);
    lemma_chunk_size_pow2(v, ks);
    lemma_pow2_le_divides(align, cs);
    lemma_mod_multiples_basic(fi, cs);
    lemma_mod_transitive(fi * cs, cs, align);
    lemma_mod_sum_zero(v.start, fi * cs, align);
}

/// Removing a just-pushed element restores the original free list exactly.
proof fn lemma_swap_remove_push(s: Seq<usize>, c: usize)
    requires
        !s.contains(c),
    ensures
        seq_swap_remove(s.push(c), c) == s,
{
    let t = s.push(c);
    assert(t[s.len() as int] == c);
    assert(t.contains(c));
    assert(t.index_of(c) == s.len() as int) by {
        let j = t.index_of(c);
        assert(0 <= j < t.len() && t[j] == c) by {
            let w = choose|w: int| 0 <= w < t.len() && t[w] == c;
            assert(t[w] == c);
        }
        if j < s.len() {
            assert(s[j] == c);
        }
    }
    assert(t.update(s.len() as int, t.last()) =~= t);
    assert(t.drop_last() =~= s);
}

/// Splitting a hole all the way down and then coalescing from the lower
/// descendant undoes every split: it is the same as coalescing from the
/// hole itself. Moreover the descendant is a hole of the lower class.
proof fn lemma_split_then_coalesce(u: BuddyView, k: int, i: int, ks: int)
    requires
        u.wf_hole(k, i),
        0 <= ks <= k,
    ensures
        u.split_down(k, i, ks).wf_hole(ks, i * pow2((k - ks) as nat)),
        u.split_down(k, i, ks).coalesce_rec(ks, i * pow2((k - ks) as nat), u.cc())
            == u.coalesce_rec(k, i, u.cc()),
    decreases k - ks,
{
    let cc = u.cc();
    if k == ks {
        vstd::arithmetic::power2::lemma2_to64();
        assert(i * pow2(0) == i) by (nonlinear_arith)
            requires
                pow2(0) == 1,
        ;
    } else {
        lemma_split_step(u, k, i);
        let u1 = u.set_split(k, i, true).push_free(k - 1, (2 * i + 1) as usize);
        lemma_split_then_coalesce(u1, k - 1, 2 * i, ks);
        assert(u1.cc() == cc);
        // The descent index telescopes.
        assert(i * pow2((k - ks) as nat) == (2 * i) * pow2((k - 1 - ks) as nat)) by {
            vstd::arithmetic::power2::lemma_pow2_unfold((k - ks) as nat);
            assert(i * (2 * pow2((k - 1 - ks) as nat)) == (2 * i) * pow2((k - 1 - ks) as nat))
                by (nonlinear_arith);
        }
        assert(u.split_down(k, i, ks) == u1.split_down(k - 1, 2 * i, ks));
        // Coalescing from the upper child undoes this split step.
        crate::buddy::lemma_push_contains(u.classes[k - 1].free, (2 * i + 1) as usize);
        assert(u1.in_free(k - 1, BuddyView::buddy_of(2 * i)));
        assert(k - 1 < cc - 1);
        let u2 = u1.remove_free(k - 1, BuddyView::buddy_of(2 * i) as usize).set_split(
            k,
            (2 * i) / 2,
            false,
        );
        assert(u1.coalesce_rec(k - 1, 2 * i, cc) == u2.coalesce_rec(k, i, cc));
        assert(u2 == u) by {
            assert(!u.in_free(k - 1, 2 * i + 1)) by {
                assert(u.chunk_state_ok(k - 1, 2 * i + 1));
                assert(!u.active(k - 1, 2 * i + 1)) by {
                    assert((2 * i + 1) / 2 == i);
                }
                lemma_chunk_arith(u, k);
            }
            lemma_swap_remove_push(u.classes[k - 1].free, (2 * i + 1) as usize);
            assert(u2.classes[k - 1] =~= u.classes[k - 1]);
            assert(u2.classes[k].split =~= u.classes[k].split);
            assert(u2.classes[k] =~= u.classes[k]);
            assert(u2 =~~= u);
        }
    }
}

/// Round trip: allocating and then immediately freeing the same chunk — the
/// same size and alignment, with no operation in between — restores the
/// allocator state exactly, free-list order included. The address handed
/// out is also a valid argument to the deallocation.
pub proof fn lemma_round_trip(v: BuddyView, size: int, align: int)
    requires
        v.wf(),
        v.spec_alloc(size, align).1 is Some,
    ensures
        v.spec_alloc(size, align).0.valid_dealloc(
            v.spec_alloc(size, align).1.unwrap(),
            size,
            align,
        ),
        v.spec_alloc(size, align).0.spec_dealloc(
            v.spec_alloc(size, align).1.unwrap(),
            size,
            align,
        ) == v,
{
    if size == 0 {
        assert(v.spec_alloc(size, align).0 == v);
    } else {
        let cc = v.cc();
        let ks = v.fit_class(size, align);
        lemma_fit_class_props(v, 0, size, align);
        let k = v.find_free_from(ks);
        lemma_find_free_props(v, ks);
        let i0 = v.classes[k].free.last() as int;
        let fi = i0 * pow2((k - ks) as nat);
        let cs = v.chunk_size(ks);
        let a = v.chunk_addr(ks, fi);
        assert(v.classes[k].free[v.classes[k].free.len() - 1] == v.classes[k].free.last());
        assert(i0 < v.capacity(k));
        lemma_descendant_index(v, ks, k, i0);
        lemma_chunk_arith(v, ks);
        let vP = v.pop_free(k);
        lemma_pop_free_hole(v, k);
        let vS = vP.split_down(k, i0, ks);
        let v1 = vS.set_alloc(ks, fi, true);
        assert(v.spec_alloc(size, align).0 == v1);
        assert(v.spec_alloc(size, align).1 == Some(a));
        lemma_split_then_coalesce(vP, k, i0, ks);
        assert(vS.wf_hole(ks, fi));
        lemma_split_down_frame(vP, k, i0, ks);
        assert(v1.leaf == v.leaf && v1.cc() == cc && v1.start == v.start);
        // The deallocation recomputes the same class and index.
        lemma_fit_class_congruent(v1, v, 0, size, align);
        assert(v1.fit_class(size, align) == ks);
        assert((a - v1.start) / v1.chunk_size(ks) == fi) by {
            assert(a - v.start == fi * cs);
            vstd::arithmetic::div_mod::lemma_div_multiples_vanish(fi, cs);
            assert(fi * cs == cs * fi) by (nonlinear_arith);
        }
        assert((a - v1.start) % v1.chunk_size(ks) == 0) by {
            lemma_mod_multiples_basic(fi, cs);
        }
        assert(0 <= fi * cs) by (nonlinear_arith)
            requires
                fi >= 0,
                cs >= 1,
        ;
        // Valid deallocation of the fresh allocation.
        assert(v1.capacity(ks) == v.capacity(ks));
        assert(v1.is_alloc(ks, fi));
        assert(v1.valid_dealloc(a, size, align));
        // Clearing the bit returns to the fully split hole state.
        let v2 = v1.set_alloc(ks, fi, false);
        assert(v2 == vS) by {
            assert(!vS.is_alloc(ks, fi));
            assert(v2.classes[ks].alloc =~= vS.classes[ks].alloc);
            assert(v2.classes[ks] =~= vS.classes[ks]);
            assert(v2 =~~= vS);
        }
        // Coalescing undoes the splits, then stops at the popped chunk.
        assert(v2.cc() == cc);
        assert(v2.coalesce(ks, fi) == vP.coalesce_rec(k, i0, cc));
        assert(vP.coalesce_rec(k, i0, cc) == vP.push_free(k, i0 as usize)) by {
            if k < cc - 1 {
                assert(v.in_free(k, i0));
                assert(!v.in_free(k, BuddyView::buddy_of(i0)));
                crate::buddy::lemma_drop_last_contains(v.classes[k].free);
                assert(!vP.in_free(k, BuddyView::buddy_of(i0)));
            }
        }
        assert(vP.push_free(k, i0 as usize) == v) by {
            assert(vP.classes[k].free.push(i0 as usize) =~= v.classes[k].free);
            assert(vP.push_free(k, i0 as usize).classes[k] =~= v.classes[k]);
            assert(vP.push_free(k, i0 as usize) =~~= v);
        }
        assert(v1.spec_dealloc(a, size, align) == v);
    }
}

/// Exhaustion boundary: in a freshly initialized state — the top chunk is
/// the only free chunk — allocating the whole managed span succeeds and
/// returns the region start; afterwards every further nonzero request
/// reports out-of-memory until something is freed.
pub proof fn lemma_exhaustion_boundary(v: BuddyView, align: int, size2: int, align2: int)
    requires
        v.wf(),
        is_pow2(align),
        align <= v.max_align,
        align <= v.managed_size(),
        v.classes[v.cc() - 1].free == seq![0usize],
        forall|k: int| 0 <= k < v.cc() - 1 ==> (#[trigger] v.classes[k].free) == Seq::<usize>::empty(),
        1 <= size2,
    ensures
        v.spec_alloc(v.managed_size(), align).1 == Some(v.start),
        v.spec_alloc(v.managed_size(), align).0.spec_alloc(size2, align2).1 is None,
{
    let cc = v.cc();
    let m = v.managed_size();
    let top = cc - 1;
    lemma_chunk_arith(v, top);
    // Only the top class fits a request of the whole managed span.
    lemma_fit_class_props(v, 0, m, align);
    let ks = v.fit_class(m, align);
    assert(v.chunk_size(top) >= m && v.chunk_size(top) >= align);
    assert(ks <= top);
    if ks < top {
        lemma_chunk_size_monotone(v, ks, top);
    }
    assert(ks == top);
    // Its single chunk is free, so the request is served from it directly.
    assert(v.classes[top].free.len() == 1);
    assert(v.find_free_from(top) == top);
    assert(v.classes[top].free.last() == 0usize);
    vstd::arithmetic::power2::lemma2_to64();
    assert(0int * pow2(0) == 0 && 0int * v.chunk_size(top) == 0) by (nonlinear_arith);
    assert(v.spec_alloc(m, align).1 == Some(v.start));
    // Afterwards every free list is empty, so any further request fails.
    let v1 = v.spec_alloc(m, align).0;
    assert(v1 == v.pop_free(top).set_alloc(top, 0, true));
    assert forall|k: int| 0 <= k < cc implies (#[trigger] v1.classes[k].free)
        == Seq::<usize>::empty() by {
        if k == top {
            assert(v1.classes[top].free =~= Seq::<usize>::empty());
        } else {
            assert(v1.classes[k].free == v.classes[k].free);
        }
    }
    let ks2 = v1.fit_class(size2, align2);
    lemma_fit_class_props(v1, 0, size2, align2);
    if ks2 < v1.cc() {
        lemma_find_free_props(v1, ks2);
        let r = v1.find_free_from(ks2);
        if r < v1.cc() {
            assert(v1.classes[r].free.len() > 0);
        }
    }
}

/// Coalescing completeness: with two allocated buddies of class `k`,
/// freeing one and then the other merges them: the parent chunk of class
/// `k + 1` ends up on its free list, and neither child stays on class `k`'s
/// list. (`i` may be either buddy, so both orders of freeing are covered.)
pub proof fn lemma_coalescing_completeness(v: BuddyView, k: int, i: int, size: int, align: int)
    requires
        v.wf(),
        0 <= k < v.cc() - 1,
        v.valid_chunk(k, i),
        v.is_alloc(k, i),
        v.is_alloc(k, BuddyView::buddy_of(i)),
        v.fit_class(size, align) == k,
        1 <= size,
        k + 1 == v.cc() - 1 || !v.in_free(k + 1, BuddyView::buddy_of(i / 2)),
    ensures
        ({
            let v1 = v.spec_dealloc(v.chunk_addr(k, i), size, align);
            let v2 = v1.spec_dealloc(v.chunk_addr(k, BuddyView::buddy_of(i)), size, align);
            &&& v2.wf()
            &&& v2.in_free(k + 1, i / 2)
            &&& !v2.in_free(k, i)
            &&& !v2.in_free(k, BuddyView::buddy_of(i))
        }),
{
    let cc = v.cc();
    let b = BuddyView::buddy_of(i);
    let p = i / 2;
    lemma_chunk_arith(v, k);
    lemma_chunk_arith(v, k + 1);
    lemma_caps_bounded(v);
    assert(b / 2 == p && b != i && BuddyView::buddy_of(b) == i);
    assert(b < v.capacity(k)) by (nonlinear_arith)
        requires
            0 <= i < v.capacity(k),
            v.capacity(k) == 2 * v.capacity(k + 1),
            b == BuddyView::buddy_of(i),
            (i % 2 == 0 ==> b == i + 1) && (i % 2 != 0 ==> b == i - 1),
    ;
    let cs = v.chunk_size(k);
    // Address arithmetic: both deallocations name their chunk exactly.
    vstd::arithmetic::div_mod::lemma_div_multiples_vanish(i, cs);
    vstd::arithmetic::div_mod::lemma_div_multiples_vanish(b, cs);
    assert(i * cs == cs * i && b * cs == cs * b) by (nonlinear_arith);
    lemma_mod_multiples_basic(i, cs);
    lemma_mod_multiples_basic(b, cs);
    // First free: the buddy is still allocated, so no merge happens.
    assert(v.chunk_state_ok(k, b));
    assert(!v.in_free(k, b));
    let d1 = v.set_alloc(k, i, false);
    lemma_clear_alloc_hole(v, k, i);
    assert((v.chunk_addr(k, i) - v.start) / cs == i);
    assert((v.chunk_addr(k, i) - v.start) % cs == 0);
    assert(!d1.in_free(k, b));
    assert(d1.coalesce_rec(k, i, cc) == d1.push_free(k, i as usize));
    let v1 = d1.push_free(k, i as usize);
    assert(v.spec_dealloc(v.chunk_addr(k, i), size, align) == v1);
    lemma_fill_hole_free(d1, k, i);
    // Second free: the first chunk is free now, so the pair merges.
    lemma_fit_class_congruent(v1, v, 0, size, align);
    assert(v1.leaf == v.leaf && v1.start == v.start && v1.cc() == cc);
    assert((v.chunk_addr(k, b) - v1.start) / v1.chunk_size(k) == b);
    assert(v1.is_alloc(k, b));
    let d2 = v1.set_alloc(k, b, false);
    lemma_clear_alloc_hole(v1, k, b);
    crate::buddy::lemma_push_contains(v.classes[k].free, i as usize);
    assert(v1.in_free(k, i));
    assert(d2.in_free(k, i));
    lemma_coalesce_step(d2, k, b);
    let u = d2.remove_free(k, i as usize).set_split(k + 1, p, false);
    assert(d2.coalesce_rec(k, b, cc) == u.coalesce_rec(k + 1, p, cc));
    assert(u.wf_hole(k + 1, p));
    // The parent's own buddy is not free, so merging stops here.
    assert(u.classes[k + 1].free == v.classes[k + 1].free);
    assert(u.coalesce_rec(k + 1, p, cc) == u.push_free(k + 1, p as usize)) by {
        if k + 1 < cc - 1 {
            assert(!v.in_free(k + 1, BuddyView::buddy_of(p)));
            assert(!u.in_free(k + 1, BuddyView::buddy_of(p)));
        }
    }
    let v2 = u.push_free(k + 1, p as usize);
    assert(v1.spec_dealloc(v.chunk_addr(k, b), size, align) == v2);
    lemma_fill_hole_free(u, k + 1, p);
    // Final free-list membership.
    crate::buddy::lemma_push_contains(u.classes[k + 1].free, p as usize);
    assert(v2.in_free(k + 1, p));
    assert(!v2.in_free(k, i) && !v2.in_free(k, b)) by {
        assert(d2.classes[k].free == v.classes[k].free.push(i as usize));
        lemma_swap_remove_push(v.classes[k].free, i as usize);
        assert(u.classes[k].free == v.classes[k].free);
        assert(v2.classes[k].free == v.classes[k].free);
        assert(!v.in_free(k, i));
    }
}

/// Every strict ancestor of an active chunk is split.
proof fn lemma_active_ancestor_split(v: BuddyView, k: int, i: int, k2: int)
    requires
        v.wf(),
        v.valid_chunk(k, i),
        v.active(k, i),
        k < k2 < v.cc(),
    ensures
        0 <= i / (pow2((k2 - k) as nat) as int) < v.capacity(k2),
        v.is_split(k2, i / (pow2((k2 - k) as nat) as int)),
    decreases k2 - k,
{
    lemma_chunk_arith(v, k);
    lemma_chunk_arith(v, k2);
    vstd::arithmetic::power2::lemma2_to64();
    vstd::arithmetic::power2::lemma_pow2_pos((k2 - k) as nat);
    assert(i / (pow2((k2 - k) as nat) as int) < v.capacity(k2)) by {
        lemma_pow2_adds((v.cc() - 1 - k2) as nat, (k2 - k) as nat);
        assert(v.capacity(k) == v.capacity(k2) * pow2((k2 - k) as nat));
        assert(v.capacity(k2) * pow2((k2 - k) as nat) == (pow2((k2 - k) as nat) as int)
            * v.capacity(k2)) by (nonlinear_arith);
        vstd::arithmetic::div_mod::lemma_multiply_divide_lt(
            i,
            pow2((k2 - k) as nat) as int,
            v.capacity(k2),
        );
    }
    vstd::arithmetic::div_mod::lemma_div_pos_is_pos(i, pow2((k2 - k) as nat) as int);
    if k2 == k + 1 {
        assert(pow2(1) == 2);
        assert(v.is_split(k + 1, i / 2));
    } else {
        lemma_active_ancestor_split(v, k, i, k2 - 1);
        let a = i / (pow2((k2 - 1 - k) as nat) as int);
        assert(v.chunk_state_ok(k2 - 1, a));
        assert(v.active(k2 - 1, a)) by {
            if k2 - 1 < v.cc() - 1 {
                assert(!v.active(k2 - 1, a) ==> !v.is_split(k2 - 1, a));
            }
        }
        assert(v.is_split(k2, a / 2));
        assert(a / 2 == i / (pow2((k2 - k) as nat) as int)) by {
            vstd::arithmetic::power2::lemma_pow2_unfold((k2 - k) as nat);
            vstd::arithmetic::power2::lemma_pow2_pos((k2 - 1 - k) as nat);
            vstd::arithmetic::div_mod::lemma_div_denominator(
                i,
                pow2((k2 - 1 - k) as nat) as int,
                2,
            );
            assert(pow2((k2 - 1 - k) as nat) * 2 == 2 * pow2((k2 - 1 - k) as nat))
                by (nonlinear_arith);
        }
    }
}

/// The byte range of a chunk lies within the byte range of any of its
/// ancestors.
proof fn lemma_range_in_ancestor(v: BuddyView, k: int, i: int, k2: int)
    requires
        v.wf_config(),
        v.valid_chunk(k, i),
        k <= k2 < v.cc(),
    ensures
        ({
            let a = i / (pow2((k2 - k) as nat) as int);
            &&& v.chunk_addr(k2, a) <= v.chunk_addr(k, i)
            &&& v.chunk_addr(k, i) + v.chunk_size(k) <= v.chunk_addr(k2, a) + v.chunk_size(k2)
        }),
{
    let m = (k2 - k) as nat;
    let a = i / (pow2(m) as int);
    let r = i % pow2(m) as int;
    vstd::arithmetic::power2::lemma_pow2_pos(m);
    vstd::arithmetic::div_mod::lemma_fundamental_div_mod(i, pow2(m) as int);
    vstd::arithmetic::div_mod::lemma_mod_division_less_than_divisor(i, pow2(m) as int);
    lemma_pow2_adds(k as nat, m);
    let cs1 = v.chunk_size(k);
    let cs2 = v.chunk_size(k2);
    assert(cs2 == pow2(m) * cs1) by (nonlinear_arith)
        requires
            cs2 == v.leaf * pow2(k2 as nat),
            cs1 == v.leaf * pow2(k as nat),
            pow2(k2 as nat) == pow2(k as nat) * pow2(m),
    ;
    assert(i * cs1 == a * cs2 + r * cs1) by (nonlinear_arith)
        requires
            i == pow2(m) * a + r,
            cs2 == pow2(m) * cs1,
    ;
    lemma_chunk_arith(v, k);
    assert(0 <= r * cs1) by (nonlinear_arith)
        requires
            r >= 0,
            cs1 >= 1,
    ;
    assert((r + 1) * cs1 <= pow2(m) * cs1) by (nonlinear_arith)
        requires
            r + 1 <= pow2(m),
            cs1 >= 1,
    ;
    assert(r * cs1 + cs1 == (r + 1) * cs1) by (nonlinear_arith);
}

/// No overlap: the byte ranges of two distinct live (allocated) chunks are
/// disjoint, whatever their classes.
pub proof fn lemma_no_overlap(v: BuddyView, k1: int, i1: int, k2: int, i2: int)
    requires
        v.wf(),
        v.valid_chunk(k1, i1),
        v.valid_chunk(k2, i2),
        v.is_alloc(k1, i1),
        v.is_alloc(k2, i2),
        !(k1 == k2 && i1 == i2),
    ensures
        v.chunk_addr(k1, i1) + v.chunk_size(k1) <= v.chunk_addr(k2, i2) || v.chunk_addr(k2, i2)
            + v.chunk_size(k2) <= v.chunk_addr(k1, i1),
{
    if k1 <= k2 {
        lemma_no_overlap_ordered(v, k1, i1, k2, i2);
    } else {
        lemma_no_overlap_ordered(v, k2, i2, k1, i1);
    }
}

proof fn lemma_no_overlap_ordered(v: BuddyView, k1: int, i1: int, k2: int, i2: int)
    requires
        v.wf(),
        v.valid_chunk(k1, i1),
        v.valid_chunk(k2, i2),
        v.is_alloc(k1, i1),
        v.is_alloc(k2, i2),
        !(k1 == k2 && i1 == i2),
        k1 <= k2,
    ensures
        v.chunk_addr(k1, i1) + v.chunk_size(k1) <= v.chunk_addr(k2, i2) || v.chunk_addr(k2, i2)
            + v.chunk_size(k2) <= v.chunk_addr(k1, i1),
{
    lemma_chunk_arith(v, k1);
    lemma_chunk_arith(v, k2);
    if k1 == k2 {
        lemma_same_class_disjoint(v, k1, i1, i2);
    } else {
        // An allocated chunk is active, so its ancestor at class `k2` is
        // split — and the allocated chunk `(k2, i2)` is not split, so the
        // ancestor is a different chunk of class `k2`.
        assert(v.chunk_state_ok(k1, i1));
        assert(v.active(k1, i1)) by {
            if k1 < v.cc() - 1 {
                assert(!v.active(k1, i1) ==> !v.is_alloc(k1, i1));
            }
        }
        lemma_active_ancestor_split(v, k1, i1, k2);
        let a = i1 / (pow2((k2 - k1) as nat) as int);
        assert(v.chunk_state_ok(k2, i2));
        assert(a != i2);
        lemma_range_in_ancestor(v, k1, i1, k2);
        lemma_same_class_disjoint(v, k2, a, i2);
    }
}

/// Two distinct chunks of one class cover disjoint byte ranges.
proof fn lemma_same_class_disjoint(v: BuddyView, k: int, x: int, y: int)
    requires
        v.wf_config(),
        0 <= k < v.cc(),
        0 <= x,
        0 <= y,
        x != y,
    ensures
        v.chunk_addr(k, x) + v.chunk_size(k) <= v.chunk_addr(k, y) || v.chunk_addr(k, y)
            + v.chunk_size(k) <= v.chunk_addr(k, x),
{
    lemma_chunk_arith(v, k);
    let cs = v.chunk_size(k);
    if x < y {
        assert((x + 1) * cs <= y * cs) by (nonlinear_arith)
            requires
                x + 1 <= y,
                cs >= 1,
        ;
        assert(x * cs + cs == (x + 1) * cs) by (nonlinear_arith);
    } else {
        assert((y + 1) * cs <= x * cs) by (nonlinear_arith)
            requires
                y + 1 <= x,
                cs >= 1,
        ;
        assert(y * cs + cs == (y + 1) * cs) by (nonlinear_arith);
    }
}

} // verus!
