use vstd::prelude::*;
use crate::component::ComponentType;
use crate::item::{geometry_spec, layout_spec, rendering_spec, Content, GeometryFn, RenderingInfo};
use crate::render::{destroy_post, held_entry, refreshed_word, released_entry, render_post, slot_refreshed};

verus! {

/// A node's slot words are refreshed by a pass only when that node needed
/// rendering.
proof fn lemma_own_slot_words(c: ComponentType, b0: Seq<i64>, i: int)
    requires
        c.wf(),
        c.block_wf(b0),
        0 <= i < c.len(),
        !c.needs_render(b0, i),
    ensures
        !refreshed_word(c, b0, c.slot(i)),
        !refreshed_word(c, b0, c.slot(i) + 1),
{
    if refreshed_word(c, b0, c.slot(i)) {
        let j = choose|j: int|
            0 <= j < c.len() && c.needs_render(b0, j) && (c.slot(i) == #[trigger] c.slot(j) || c.slot(i) == c.slot(j) + 1);
        assert(c.slot(j) + 1 < c.slot(i) || c.slot(i) + 1 < c.slot(j));
    }
    if refreshed_word(c, b0, c.slot(i) + 1) {
        let j = choose|j: int|
            0 <= j < c.len() && c.needs_render(b0, j) && (c.slot(i) + 1 == #[trigger] c.slot(j) || c.slot(i) + 1 == c.slot(j) + 1);
        assert(c.slot(j) + 1 < c.slot(i) || c.slot(i) + 1 < c.slot(j));
    }
}

/// After a render pass no slot of an item with a rendering function is
/// dirty; the slots of the items that were not rendered are as they were.
pub proof fn lemma_clean_after_pass(
    c: ComponentType,
    b0: Seq<i64>,
    k0: Seq<Option<RenderingInfo>>,
    b1: Seq<i64>,
    k1: Seq<Option<RenderingInfo>>,
    r: Seq<usize>,
)
    requires
        c.wf(),
        c.block_wf(b0),
        render_post(c, b0, k0, b1, k1, r),
    ensures
        forall|i: int| 0 <= i < c.len() ==> !#[trigger] c.needs_render(b1, i),
        forall|i: int|
            0 <= i < c.len() && !c.needs_render(b0, i) ==> #[trigger] c.handle(b1, i) == c.handle(b0, i)
                && c.dirty_flag(b1, i) == c.dirty_flag(b0, i),
{
    assert forall|i: int| 0 <= i < c.len() && !c.needs_render(b0, i) implies #[trigger] c.handle(b1, i)
        == c.handle(b0, i) && c.dirty_flag(b1, i) == c.dirty_flag(b0, i) by {
        lemma_own_slot_words(c, b0, i);
        assert(c.vt(i).fits(c.offset(i), b0.len() as int));
    }
    assert forall|i: int| 0 <= i < c.len() implies !#[trigger] c.needs_render(b1, i) by {
        if c.needs_render(b0, i) {
            assert(slot_refreshed(c, b0, k0.len() as int, b1, k1, i));
        } else {
            assert(c.handle(b1, i) == c.handle(b0, i));
        }
    }
}

/// A pass over a block in which nothing needs rendering renders nothing and
/// changes neither the block nor the cache.
proof fn lemma_idle_pass(
    c: ComponentType,
    b1: Seq<i64>,
    k1: Seq<Option<RenderingInfo>>,
    b2: Seq<i64>,
    k2: Seq<Option<RenderingInfo>>,
    r: Seq<usize>,
)
    requires
        c.wf(),
        c.block_wf(b1),
        forall|i: int| 0 <= i < c.len() ==> !#[trigger] c.needs_render(b1, i),
        render_post(c, b1, k1, b2, k2, r),
    ensures
        r.len() == 0,
        b2 == b1,
        k2 == k1,
{
    if r.len() > 0 {
        assert(r.contains(r[0]));
        assert(c.needs_render(b1, r[0] as int));
    }
    assert forall|w: int| 0 <= w < b1.len() implies !refreshed_word(c, b1, w) by {
        if refreshed_word(c, b1, w) {
            let j = choose|j: int| 0 <= j < c.len() && c.needs_render(b1, j) && (w == #[trigger] c.slot(j) || w == c.slot(j) + 1);
        }
    }
    assert(b2 =~= b1);
    assert forall|e: int| 0 <= e < k1.len() implies !released_entry(c, b1, e) by {
        if released_entry(c, b1, e) {
            let j = choose|j: int| 0 <= j < c.len() && c.needs_render(b1, j) && #[trigger] c.handle(b1, j) == e + 1;
        }
    }
    assert(k2 =~= k1);
}

/// Once a pass has run, each slot that was dirty has been made clean by it
/// alone, and a second pass with no change in between calls no rendering
/// function and leaves the block and the backend's cache as they were.
pub proof fn lemma_second_pass_is_idle(
    c: ComponentType,
    b0: Seq<i64>,
    k0: Seq<Option<RenderingInfo>>,
    b1: Seq<i64>,
    k1: Seq<Option<RenderingInfo>>,
    r1: Seq<usize>,
    b2: Seq<i64>,
    k2: Seq<Option<RenderingInfo>>,
    r2: Seq<usize>,
)
    requires
        c.wf(),
        c.block_wf(b0),
        render_post(c, b0, k0, b1, k1, r1),
        render_post(c, b1, k1, b2, k2, r2),
    ensures
        r1.no_duplicates(),
        forall|i: int| 0 <= i < c.len() && c.needs_render(b0, i) ==> !#[trigger] c.slot_dirty(b1, i),
        r2.len() == 0,
        b2 == b1,
        k2 == k1,
{
    lemma_clean_after_pass(c, b0, k0, b1, k1, r1);
    assert forall|i: int| 0 <= i < c.len() && c.needs_render(b0, i) implies !#[trigger] c.slot_dirty(b1, i) by {
        assert(slot_refreshed(c, b0, k0.len() as int, b1, k1, i));
    }
    lemma_idle_pass(c, b1, k1, b2, k2, r2);
}

/// An item whose kind has no rendering function yields no content, is never
/// rendered by a pass, and keeps its slot as it was; a purely structural
/// kind reports no layout either.
pub proof fn lemma_no_render_fn_is_skipped(
    c: ComponentType,
    b0: Seq<i64>,
    k0: Seq<Option<RenderingInfo>>,
    b1: Seq<i64>,
    k1: Seq<Option<RenderingInfo>>,
    r: Seq<usize>,
    i: usize,
)
    requires
        c.wf(),
        c.block_wf(b0),
        render_post(c, b0, k0, b1, k1, r),
        i < c.len(),
        c.vt(i as int).rendering_info is None,
    ensures
        rendering_spec(c.vt(i as int), b0, c.offset(i as int)) == Content::NoContents,
        !r.contains(i),
        c.handle(b1, i as int) == c.handle(b0, i as int),
        c.dirty_flag(b1, i as int) == c.dirty_flag(b0, i as int),
        c.vt(i as int).is_structural() ==> layout_spec(c.vt(i as int), b0, c.offset(i as int)) is None,
{
    lemma_clean_after_pass(c, b0, k0, b1, k1, r);
    assert(!c.needs_render(b0, i as int));
    assert(c.handle(b1, i as int) == c.handle(b0, i as int));
    if r.contains(i) {
        assert(c.needs_render(b0, i as int));
    }
}

/// Changing a property of an item with a rendering function after a pass
/// marks that item alone: the next pass renders it and nothing else, and
/// caches its rendering over the new value; a new width is what its
/// geometry then reports.
pub proof fn lemma_mutation_rerenders_item(
    c: ComponentType,
    b0: Seq<i64>,
    k0: Seq<Option<RenderingInfo>>,
    b1: Seq<i64>,
    k1: Seq<Option<RenderingInfo>>,
    r1: Seq<usize>,
    node: usize,
    field: usize,
    value: i64,
    b2: Seq<i64>,
    b3: Seq<i64>,
    k3: Seq<Option<RenderingInfo>>,
    r3: Seq<usize>,
)
    requires
        c.wf(),
        c.block_wf(b0),
        render_post(c, b0, k0, b1, k1, r1),
        node < c.len(),
        c.vt(node as int).field_word(field as int),
        c.vt(node as int).rendering_info is Some,
        b2 == b1.update(c.offset(node as int) + field, value).update(c.slot(node as int) + 1, 1),
        render_post(c, b2, k1, b3, k3, r3),
    ensures
        r3 == seq![node],
        slot_refreshed(c, b2, k1.len() as int, b3, k3, node as int),
        c.vt(node as int).geometry is Fields && field == 2 ==> geometry_spec(
            c.vt(node as int).geometry,
            b2,
            c.offset(node as int),
        ).width == value,
{
    lemma_clean_after_pass(c, b0, k0, b1, k1, r1);
    let w = c.offset(node as int) + field;
    let sn = c.slot(node as int);
    assert(c.vt(node as int).fits(c.offset(node as int), b0.len() as int));
    assert(c.is_field_of(node as int, w));
    assert forall|i: int| 0 <= i < c.len() implies #[trigger] c.needs_render(b2, i) == (i == node) by {
        assert(w != c.slot(i) && w != c.slot(i) + 1);
        assert(c.vt(i).fits(c.offset(i), b0.len() as int));
        assert(!c.needs_render(b1, i));
        if i != node {
            assert(c.slot(i) + 1 < sn || sn + 1 < c.slot(i));
            assert(c.handle(b2, i) == c.handle(b1, i));
            assert(c.dirty_flag(b2, i) == c.dirty_flag(b1, i));
        } else {
            assert(c.dirty_flag(b2, i) == 1);
        }
    }
    assert(r3.contains(node));
    assert forall|k: int| 0 <= k < r3.len() implies r3[k] == node by {
        assert(r3.contains(r3[k]));
        assert(c.needs_render(b2, r3[k] as int));
    }
    if r3.len() > 1 {
        assert(r3[0] == r3[1]);
    }
    assert(r3 =~= seq![node]);
    assert(c.needs_render(b2, node as int));
}

/// A fresh instance rendered twice with nothing changed in between, then
/// destroyed: the first pass renders exactly the items that have a
/// rendering function, the second pass renders nothing and changes nothing,
/// and destroying releases the cache entry of every rendered item.
pub proof fn lemma_round_trip(
    c: ComponentType,
    b0: Seq<i64>,
    k0: Seq<Option<RenderingInfo>>,
    b1: Seq<i64>,
    k1: Seq<Option<RenderingInfo>>,
    r1: Seq<usize>,
    b2: Seq<i64>,
    k2: Seq<Option<RenderingInfo>>,
    r2: Seq<usize>,
    k3: Seq<Option<RenderingInfo>>,
)
    requires
        c.wf(),
        c.created(b0),
        render_post(c, b0, k0, b1, k1, r1),
        render_post(c, b1, k1, b2, k2, r2),
        destroy_post(c, b2, k2, k3),
    ensures
        forall|i: usize| i < c.len() ==> (#[trigger] r1.contains(i) <==> c.vt(i as int).rendering_info is Some),
        r2.len() == 0,
        b2 == b1,
        k2 == k1,
        k3.len() == k1.len(),
        forall|i: int|
            0 <= i < c.len() && c.vt(i).rendering_info is Some ==> #[trigger] k3[c.handle(b2, i) - 1] is None,
{
    assert forall|i: usize| i < c.len() implies (#[trigger] r1.contains(i) <==> c.vt(i as int).rendering_info is Some) by {
        assert(c.handle(b0, i as int) == 0);
    }
    lemma_second_pass_is_idle(c, b0, k0, b1, k1, r1, b2, k2, r2);
    assert forall|i: int| 0 <= i < c.len() && c.vt(i).rendering_info is Some implies #[trigger] k3[c.handle(b2, i) - 1] is None by {
        assert(c.handle(b0, i) == 0);
        assert(c.needs_render(b0, i));
        assert(slot_refreshed(c, b0, k0.len() as int, b1, k1, i));
        assert(held_entry(c, b2, c.handle(b2, i) - 1));
    }
}

} // verus!
