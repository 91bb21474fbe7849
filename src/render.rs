use vstd::prelude::*;
use crate::component::{ComponentInstance, ComponentType};
use crate::item::{rendering_info, rendering_spec, RenderFn, RenderingInfo};
use crate::tree::{lemma_distinct_bounded, visit_order};

verus! {

/// A backend's store of cached rendering output. A cache handle `h > 0` in
/// an item's slot names entry `h - 1`; a released entry is `None`.
pub struct Backend {
    pub cache: Vec<Option<RenderingInfo>>,
}

/// Entry `e` of `cache` holds the rendering of node `i` over `block`.
pub open spec fn caches(c: ComponentType, block: Seq<i64>, cache: Seq<Option<RenderingInfo>>, e: int, i: int) -> bool {
    &&& 0 <= e < cache.len()
    &&& cache[e] is Some
    &&& cache[e]->0@ == rendering_spec(c.vt(i), block, c.offset(i))
}

/// Node `i`'s slot is clean and holds a handle to a cache entry, past the
/// first `k0_len`, that holds the node's rendering over `b0`.
pub open spec fn slot_refreshed(
    c: ComponentType,
    b0: Seq<i64>,
    k0_len: int,
    blk: Seq<i64>,
    cache: Seq<Option<RenderingInfo>>,
    i: int,
) -> bool {
    &&& c.dirty_flag(blk, i) == 0
    &&& k0_len < c.handle(blk, i) <= cache.len()
    &&& caches(c, b0, cache, c.handle(blk, i) - 1, i)
}

/// Word `w` belongs to the slot of a node that needed rendering in `block`.
pub open spec fn refreshed_word(c: ComponentType, block: Seq<i64>, w: int) -> bool {
    exists|i: int|
        0 <= i < c.len() && c.needs_render(block, i) && (w == #[trigger] c.slot(i) || w == c.slot(i) + 1)
}

/// Entry `e` was the cache handle of a node that needed rendering in `block`.
pub open spec fn released_entry(c: ComponentType, block: Seq<i64>, e: int) -> bool {
    exists|i: int| 0 <= i < c.len() && c.needs_render(block, i) && #[trigger] c.handle(block, i) == e + 1
}

/// What one render pass does, from block `b0` and cache `k0` to block `b1`
/// and cache `k1`, having called the rendering function of the nodes in
/// `rendered`: exactly the nodes that needed rendering are rendered, once
/// each; each gets a fresh cache entry holding its rendering and a clean
/// slot; the entries they held before are released; nothing else changes.
pub open spec fn render_post(
    c: ComponentType,
    b0: Seq<i64>,
    k0: Seq<Option<RenderingInfo>>,
    b1: Seq<i64>,
    k1: Seq<Option<RenderingInfo>>,
    rendered: Seq<usize>,
) -> bool {
    &&& rendered.no_duplicates()
    &&& forall|k: int| 0 <= k < rendered.len() ==> rendered[k] < c.len()
    &&& forall|i: usize| i < c.len() ==> (#[trigger] rendered.contains(i) <==> c.needs_render(b0, i as int))
    &&& b1.len() == b0.len()
    &&& k1.len() == k0.len() + rendered.len()
    &&& forall|i: int|
        0 <= i < c.len() && c.needs_render(b0, i) ==> #[trigger] slot_refreshed(
            c,
            b0,
            k0.len() as int,
            b1,
            k1,
            i,
        )
    &&& forall|w: int| 0 <= w < b0.len() && !refreshed_word(c, b0, w) ==> #[trigger] b1[w] == b0[w]
    &&& forall|e: int|
        0 <= e < k0.len() ==> #[trigger] k1[e] == if released_entry(c, b0, e) {
            None
        } else {
            k0[e]
        }
}

/// What holds part way through a render pass that started from block `b0`
/// and cache `k0` and has rendered the nodes in `rendered`.
pub open spec fn pass_inv(
    c: ComponentType,
    b0: Seq<i64>,
    k0: Seq<Option<RenderingInfo>>,
    blk: Seq<i64>,
    cache: Seq<Option<RenderingInfo>>,
    rendered: Seq<usize>,
) -> bool {
    &&& blk.len() == b0.len()
    &&& rendered.no_duplicates()
    &&& forall|k: int| 0 <= k < rendered.len() ==> #[trigger] rendered[k] < c.len() && c.needs_render(b0, rendered[k] as int)
    &&& cache.len() == k0.len() + rendered.len()
    &&& forall|i: int|
        0 <= i < c.len() && rendered.contains(i as usize) ==> #[trigger] slot_refreshed(
            c,
            b0,
            k0.len() as int,
            blk,
            cache,
            i,
        )
    &&& forall|w: int| 0 <= w < b0.len() && !refreshed_word(c, b0, w) ==> #[trigger] blk[w] == b0[w]
    &&& forall|i: int|
        0 <= i < c.len() && !rendered.contains(i as usize) ==> #[trigger] c.handle(blk, i)
            == c.handle(b0, i) && c.dirty_flag(blk, i) == c.dirty_flag(b0, i)
    &&& forall|e: int|
        0 <= e < k0.len() ==> #[trigger] cache[e] == if exists|i: int|
            0 <= i < c.len() && rendered.contains(i as usize) && #[trigger] c.handle(b0, i) == e + 1 {
            None
        } else {
            k0[e]
        }
}

/// Rendering node `i`, which needed it and was not rendered yet, keeps the
/// pass's invariant.
proof fn lemma_render_step(
    c: ComponentType,
    b0: Seq<i64>,
    k0: Seq<Option<RenderingInfo>>,
    blk: Seq<i64>,
    kp: Seq<Option<RenderingInfo>>,
    km: Seq<Option<RenderingInfo>>,
    rp: Seq<usize>,
    bn: Seq<i64>,
    kn: Seq<Option<RenderingInfo>>,
    rn: Seq<usize>,
    i: int,
    h: int,
)
    requires
        c.wf(),
        c.block_wf(b0),
        pass_inv(c, b0, k0, blk, kp, rp),
        0 <= i < c.len(),
        !rp.contains(i as usize),
        c.needs_render(b0, i),
        h == c.handle(blk, i),
        km == if h > 0 && h - 1 < k0.len() {
            kp.update(h - 1, None)
        } else {
            kp
        },
        kn.len() == km.len() + 1,
        kn.subrange(0, km.len() as int) == km,
        caches(c, b0, kn, km.len() as int, i),
        bn == blk.update(c.slot(i), kn.len() as i64).update(c.slot(i) + 1, 0),
        kn.len() <= i64::MAX,
        rn == rp.push(i as usize),
    ensures
        pass_inv(c, b0, k0, bn, kn, rn),
{
    let sl = c.slot(i);
    let len = kn.len() as int;
    assert(c.vt(i).fits(c.offset(i), b0.len() as int));
    assert(c.handle(b0, i) == h);
    assert(bn[sl] == len && bn[sl + 1] == 0);
    // the other slots are apart from node i's
    assert forall|j: int| 0 <= j < c.len() && j != i implies #[trigger] c.handle(bn, j) == c.handle(blk, j)
        && c.dirty_flag(bn, j) == c.dirty_flag(blk, j) by {
        assert(c.slot(j) + 1 < c.slot(i) || c.slot(i) + 1 < c.slot(j));
        assert(c.vt(j).fits(c.offset(j), b0.len() as int));
    }
    assert(rn.no_duplicates()) by {
        assert forall|a: int, b: int| 0 <= a < rn.len() && 0 <= b < rn.len() && a != b implies rn[a] != rn[b] by {
            if a == rp.len() {
                assert(rp.contains(rn[b]) || rn[b] != i);
            } else if b == rp.len() {
                assert(rp.contains(rn[a]) || rn[a] != i);
            } else {
                assert(rn[a] == rp[a] && rn[b] == rp[b]);
            }
        }
    }
    assert forall|k: int| 0 <= k < rn.len() implies #[trigger] rn[k] < c.len() && c.needs_render(b0, rn[k] as int) by {
        if k < rp.len() {
            assert(rn[k] == rp[k]);
        }
    }
    assert(forall|x: int|
        0 <= x < c.len() && rp.contains(x as usize) ==> #[trigger] slot_refreshed(c, b0, k0.len() as int, blk, kp, x));
    assert forall|j: int| 0 <= j < c.len() && rn.contains(j as usize) implies #[trigger] slot_refreshed(
        c,
        b0,
        k0.len() as int,
        bn,
        kn,
        j,
    ) by {
        if j == i {
            assert(c.handle(bn, j) == len);
            assert(c.dirty_flag(bn, j) == 0);
            assert(len - 1 == km.len());
        } else {
            let k = choose|k: int| 0 <= k < rn.len() && rn[k] == j as usize;
            assert(k != rp.len());
            assert(rp[k] == j as usize);
            assert(rp.contains(j as usize));
            let e = c.handle(blk, j) - 1;
            assert(slot_refreshed(c, b0, k0.len() as int, blk, kp, j));
            assert(c.handle(bn, j) == c.handle(blk, j));
            assert(c.dirty_flag(bn, j) == c.dirty_flag(blk, j));
            assert(kn[e] == kn.subrange(0, km.len() as int)[e]);
            assert(km[e] == kp[e]);
            assert(caches(c, b0, kn, e, j));
        }
    }
    assert(refreshed_word(c, b0, c.slot(i)));
    assert(refreshed_word(c, b0, c.slot(i) + 1));
    assert forall|w: int| 0 <= w < b0.len() && !refreshed_word(c, b0, w) implies #[trigger] bn[w] == b0[w] by {
        assert(w != sl && w != sl + 1);
        assert(bn[w] == blk[w]);
    }
    assert forall|j: int| 0 <= j < c.len() && !rn.contains(j as usize) implies #[trigger] c.handle(bn, j)
        == c.handle(b0, j) && c.dirty_flag(bn, j) == c.dirty_flag(b0, j) by {
        assert(rn[rp.len() as int] == i as usize);
        assert(j != i);
        if rp.contains(j as usize) {
            let k = choose|k: int| 0 <= k < rp.len() && rp[k] == j as usize;
            assert(rn[k] == j as usize);
        }
        assert(c.handle(bn, j) == c.handle(blk, j));
        assert(c.handle(blk, j) == c.handle(b0, j));
    }
    assert forall|e: int| 0 <= e < k0.len() implies #[trigger] kn[e] == if exists|j: int|
        0 <= j < c.len() && rn.contains(j as usize) && #[trigger] c.handle(b0, j) == e + 1 {
        None
    } else {
        k0[e]
    } by {
        assert(kn[e] == kn.subrange(0, km.len() as int)[e]);
        assert(rn[rp.len() as int] == i as usize);
        let old_cond = exists|j: int|
            0 <= j < c.len() && rp.contains(j as usize) && #[trigger] c.handle(b0, j) == e + 1;
        let new_cond = exists|j: int|
            0 <= j < c.len() && rn.contains(j as usize) && #[trigger] c.handle(b0, j) == e + 1;
        if old_cond {
            let j = choose|j: int| 0 <= j < c.len() && rp.contains(j as usize) && #[trigger] c.handle(b0, j) == e + 1;
            let k = choose|k: int| 0 <= k < rp.len() && rp[k] == j as usize;
            assert(rn[k] == j as usize);
            assert(new_cond);
        }
        if h == e + 1 {
            assert(rn.contains(i as usize));
            assert(new_cond);
        } else if new_cond {
            let j = choose|j: int| 0 <= j < c.len() && rn.contains(j as usize) && #[trigger] c.handle(b0, j) == e + 1;
            let k = choose|k: int| 0 <= k < rn.len() && rn[k] == j as usize;
            if k < rp.len() {
                assert(rp[k] == j as usize);
                assert(rp.contains(j as usize));
            }
            assert(old_cond);
        }
    }
}

/// Rendering an item reads only the words its kind's functions use.
proof fn lemma_rendering_frame(c: ComponentType, i: int, b0: Seq<i64>, b1: Seq<i64>)
    requires
        c.wf(),
        0 <= i < c.len(),
        c.block_wf(b0),
        c.block_wf(b1),
        forall|w: int| 0 <= w < b0.len() && c.is_field_of(i, w) ==> b1[w] == b0[w],
    ensures
        rendering_spec(c.vt(i), b1, c.offset(i)) == rendering_spec(c.vt(i), b0, c.offset(i)),
{
    let vt = c.vt(i);
    let off = c.offset(i);
    assert(vt.fits(off, c.initial_block@.len() as int));
    if vt.geometry is Fields {
        assert(c.is_field_of(i, off));
        assert(c.is_field_of(i, off + 1));
        assert(c.is_field_of(i, off + 2));
        assert(c.is_field_of(i, off + 3));
    }
    if let Some(RenderFn::ImageAt { handle_field, .. }) = vt.rendering_info {
        assert(c.is_field_of(i, off + handle_field));
    }
}

impl Backend {
    /// One render pass over an instance: walks its tree from the root and
    /// re-renders each item whose slot is dirty, reusing the cached output
    /// of the others without calling their rendering function.
    pub fn render(&mut self, c: &ComponentType, inst: &mut ComponentInstance) -> (rendered: Vec<usize>)
        requires
            c.wf(),
            c.block_wf(old(inst).block@),
            old(self).cache@.len() + c.len() <= i64::MAX,
        ensures
            c.block_wf(final(inst).block@),
            render_post(*c, old(inst).block@, old(self).cache@, final(inst).block@, final(self).cache@, rendered@),
    {
        let order = visit_order(&c.item_tree);
        let ghost b0 = inst.block@;
        let ghost k0 = self.cache@;
        let base = self.cache.len();
        let mut rendered: Vec<usize> = Vec::new();
        let mut idx: usize = 0;
        while idx < order.len()
            invariant
                c.wf(),
                c.block_wf(b0),
                k0.len() == base,
                base + c.len() <= i64::MAX,
                order@.no_duplicates(),
                forall|k: int| 0 <= k < order@.len() ==> order@[k] < c.len(),
                forall|j: usize| j < c.len() ==> #[trigger] order@.contains(j),
                idx <= order@.len(),
                pass_inv(*c, b0, k0, inst.block@, self.cache@, rendered@),
                forall|i: usize|
                    i < c.len() ==> (#[trigger] rendered@.contains(i) <==> (c.needs_render(b0, i as int)
                        && exists|k: int| 0 <= k < idx && order@[k] == i)),
            decreases order@.len() - idx,
        {
            let i = order[idx];
            let node = c.item_tree[i];
            let vt = c.vtables[node.vtable];
            assert(c.vt(i as int).fits(c.offset(i as int), c.initial_block@.len() as int));
            let ghost blk = inst.block@;
            let ghost kp = self.cache@;
            let ghost rp = rendered@;
            assert(!rp.contains(i)) by {
                if rp.contains(i) {
                    let k = choose|k: int| 0 <= k < idx && order@[k] == i;
                    assert(order@[idx as int] == i);
                }
            }
            // node i was not rendered yet, so its slot is as the pass found it
            assert(i < c.len());
            assert(pass_inv(*c, b0, k0, blk, kp, rp));
            assert(!rp.contains((i as int) as usize));
            assert(forall|j: int|
                0 <= j < c.len() && !rp.contains(j as usize) ==> #[trigger] c.handle(blk, j) == c.handle(b0, j));
            assert(c.handle(blk, i as int) == c.handle(b0, i as int));
            assert(c.handle(blk, i as int) == c.handle(b0, i as int) && c.dirty_flag(blk, i as int) == c.dirty_flag(b0, i as int));
            if vt.rendering_info.is_some() {
                let rn = node.offset + vt.render_node_offset;
                assert(rn == c.slot(i as int));
                let h = inst.block[rn];
                let d = inst.block[rn + 1];
                assert(h == c.handle(b0, i as int) && d == c.dirty_flag(b0, i as int));
                if h == 0 || d != 0 {
                    assert(c.needs_render(b0, i as int));
                    let content = rendering_info(&vt, &inst.block, node.offset);
                    proof {
                        assert forall|w: int| 0 <= w < b0.len() && c.is_field_of(i as int, w) implies blk[w] == b0[w] by {
                            if refreshed_word(*c, b0, w) {
                                let j = choose|j: int|
                                    0 <= j < c.len() && c.needs_render(b0, j) && (w == #[trigger] c.slot(j) || w == c.slot(j) + 1);
                                assert(c.is_field_of(i as int, w));
                            }
                        }
                        lemma_rendering_frame(*c, i as int, b0, blk);
                    }
                    if h > 0 && h - 1 < base as i64 {
                        self.cache.set((h - 1) as usize, None);
                    }
                    let ghost km = self.cache@;
                    proof {
                        assert(rp.push(i).no_duplicates());
                        lemma_distinct_bounded(rp.push(i), c.len() as nat);
                    }
                    self.cache.push(Some(content));
                    inst.block.set(rn, self.cache.len() as i64);
                    inst.block.set(rn + 1, 0);
                    rendered.push(i);
                    proof {
                        assert(self.cache@.subrange(0, km.len() as int) =~= km);
                        lemma_render_step(*c, b0, k0, blk, kp, km, rp, inst.block@, self.cache@, rendered@, i as int, h as int);
                    }
                }
            }
            proof {
                assert(vt == c.vt(i as int));
                if c.needs_render(b0, i as int) {
                    assert(rendered@ == rp.push(i));
                } else {
                    assert(rendered@ == rp);
                }
                assert forall|j: usize| j < c.len() implies (#[trigger] rendered@.contains(j) <==> (c.needs_render(b0, j as int)
                        && exists|k: int| 0 <= k < idx + 1 && order@[k] == j)) by {
                    if j == i {
                        assert(order@[idx as int] == j);
                        if c.needs_render(b0, i as int) {
                            assert(rendered@[rp.len() as int] == i);
                        }
                    } else {
                        assert(order@[idx as int] == i);
                        if rendered@.contains(j) {
                            let k = choose|k: int| 0 <= k < rendered@.len() && rendered@[k] == j;
                            assert(k < rp.len() && rp[k] == j);
                            assert(rp.contains(j));
                        }
                        if rp.contains(j) {
                            let k = choose|k: int| 0 <= k < rp.len() && rp[k] == j;
                            assert(rendered@[k] == j);
                        }
                        if exists|k: int| 0 <= k < idx + 1 && order@[k] == j {
                            let k = choose|k: int| 0 <= k < idx + 1 && order@[k] == j;
                            assert(k < idx);
                        }
                    }
                }
            }
            idx = idx + 1;
        }
        proof {
            assert forall|i: usize| i < c.len() implies (#[trigger] rendered@.contains(i) <==> c.needs_render(b0, i as int)) by {
                if c.needs_render(b0, i as int) {
                    assert(order@.contains(i));
                    let k = choose|k: int| 0 <= k < order@.len() && order@[k] == i;
                }
            }
            assert forall|e: int| 0 <= e < k0.len() implies #[trigger] self.cache@[e] == if released_entry(*c, b0, e) {
                None
            } else {
                k0[e]
            } by {
                if released_entry(*c, b0, e) {
                    let j = choose|j: int| 0 <= j < c.len() && c.needs_render(b0, j) && #[trigger] c.handle(b0, j) == e + 1;
                    assert(rendered@.contains(j as usize));
                }
            }
        }
        rendered
    }
}

/// Entry `e` is the one that some node's cache handle in `block` names.
pub open spec fn held_entry(c: ComponentType, block: Seq<i64>, e: int) -> bool {
    exists|i: int| 0 <= i < c.len() && #[trigger] c.handle(block, i) == e + 1
}

/// What destroying an instance with block `block` does to a backend's cache
/// `k0`: every entry that one of its handles names is released, the others
/// stay.
pub open spec fn destroy_post(
    c: ComponentType,
    block: Seq<i64>,
    k0: Seq<Option<RenderingInfo>>,
    k1: Seq<Option<RenderingInfo>>,
) -> bool {
    &&& k1.len() == k0.len()
    &&& forall|e: int|
        0 <= e < k0.len() ==> #[trigger] k1[e] == if held_entry(c, block, e) {
            None
        } else {
            k0[e]
        }
}

impl ComponentType {
    /// Releases an instance, invalidating every cache handle it holds first.
    pub fn destroy(&self, inst: ComponentInstance, backend: &mut Backend)
        requires
            self.wf(),
            self.block_wf(inst.block@),
        ensures
            destroy_post(*self, inst.block@, old(backend).cache@, final(backend).cache@),
    {
        let ghost k0 = backend.cache@;
        let n = self.item_tree.len();
        let len = backend.cache.len();
        let mut i: usize = 0;
        while i < n
            invariant
                self.wf(),
                self.block_wf(inst.block@),
                n == self.len(),
                i <= n,
                len == k0.len(),
                backend.cache@.len() == len,
                forall|e: int|
                    0 <= e < len ==> #[trigger] backend.cache@[e] == if exists|j: int|
                        0 <= j < i && #[trigger] self.handle(inst.block@, j) == e + 1 {
                        None
                    } else {
                        k0[e]
                    },
            decreases n - i,
        {
            let node = self.item_tree[i];
            let vt = self.vtables[node.vtable];
            assert(self.vt(i as int).fits(self.offset(i as int), self.initial_block@.len() as int));
            let h = inst.block[node.offset + vt.render_node_offset];
            assert(h == self.handle(inst.block@, i as int));
            let ghost kp = backend.cache@;
            if h > 0 && ((h - 1) as u64) < (len as u64) {
                backend.cache.set((h - 1) as usize, None);
            }
            proof {
                assert forall|e: int| 0 <= e < len implies #[trigger] backend.cache@[e] == if exists|j: int|
                    0 <= j < i + 1 && #[trigger] self.handle(inst.block@, j) == e + 1 {
                    None
                } else {
                    k0[e]
                } by {
                    if h == e + 1 {
                        assert(self.handle(inst.block@, i as int) == e + 1);
                    } else {
                        assert(backend.cache@[e] == kp[e]);
                        if exists|j: int| 0 <= j < i + 1 && #[trigger] self.handle(inst.block@, j) == e + 1 {
                            let j = choose|j: int| 0 <= j < i + 1 && #[trigger] self.handle(inst.block@, j) == e + 1;
                            assert(j < i);
                        }
                    }
                }
            }
            i = i + 1;
        }
        proof {
            assert forall|e: int| 0 <= e < k0.len() implies #[trigger] backend.cache@[e] == if held_entry(*self, inst.block@, e) {
                None
            } else {
                k0[e]
            } by {
                if held_entry(*self, inst.block@, e) {
                    let j = choose|j: int| 0 <= j < self.len() && #[trigger] self.handle(inst.block@, j) == e + 1;
                    assert(0 <= j < i && self.handle(inst.block@, j) == e + 1);
                }
            }
        }
    }
}

} // verus!
