use vstd::prelude::*;
use crate::item::{
    geometry, geometry_spec, layout_info, layout_spec, rendering_info, rendering_spec, ItemVTable,
    LayoutInfo, MouseEvent, MouseEventKind, Rect, RenderingInfo, Content,
};
use crate::tree::{is_child, tree_wf, ItemTreeNode};

verus! {

/// One compiled component type: its item tree, the dispatch tables its
/// nodes refer to, and the contents a fresh instance block starts from.
pub struct ComponentType {
    pub item_tree: Vec<ItemTreeNode>,
    pub vtables: Vec<ItemVTable>,
    pub initial_block: Vec<i64>,
}

/// One instance of a component type: a single block of words holding every
/// item's data inline, render-cache slots included.
pub struct ComponentInstance {
    pub block: Vec<i64>,
}

impl ComponentType {
    pub open spec fn len(self) -> int {
        self.item_tree@.len() as int
    }

    pub open spec fn offset(self, i: int) -> int {
        self.item_tree@[i].offset as int
    }

    pub open spec fn vt(self, i: int) -> ItemVTable {
        self.vtables@[self.item_tree@[i].vtable as int]
    }

    /// Word of node `i`'s cache handle; its dirty flag is the next word.
    pub open spec fn slot(self, i: int) -> int {
        self.vt(i).slot_at(self.offset(i))
    }

    /// `w` is a word that the functions of node `j`'s kind read or write.
    pub open spec fn is_field_of(self, j: int, w: int) -> bool {
        self.vt(j).field_word(w - self.offset(j))
    }

    /// The tree is well formed, every node's dispatch table exists and its
    /// item fits the block, the slots of two nodes never share a word, and no
    /// slot word is a field that a kind's function uses.
    pub open spec fn wf(self) -> bool {
        &&& tree_wf(self.item_tree@)
        &&& self.initial_block@.len() <= usize::MAX
        &&& forall|i: int| 0 <= i < self.len() ==> self.item_tree@[i].vtable < self.vtables@.len()
        &&& forall|i: int|
            0 <= i < self.len() ==> #[trigger] self.vt(i).fits(
                self.offset(i),
                self.initial_block@.len() as int,
            )
        &&& forall|i: int, j: int|
            0 <= i < self.len() && 0 <= j < self.len() && i != j ==> #[trigger] self.slot(i) + 1
                < #[trigger] self.slot(j) || self.slot(j) + 1 < self.slot(i)
        &&& forall|i: int, j: int, w: int|
            0 <= i < self.len() && 0 <= j < self.len() && #[trigger] self.is_field_of(j, w) ==> w
                != #[trigger] self.slot(i) && w != self.slot(i) + 1
    }

    /// A block of the right size for an instance of this type.
    pub open spec fn block_wf(self, block: Seq<i64>) -> bool {
        block.len() == self.initial_block@.len()
    }

    pub open spec fn handle(self, block: Seq<i64>, i: int) -> i64 {
        block[self.slot(i)]
    }

    pub open spec fn dirty_flag(self, block: Seq<i64>, i: int) -> i64 {
        block[self.slot(i) + 1]
    }

    /// The slot holds no valid cached output: it has no cache handle yet, or
    /// its dirty flag is set.
    pub open spec fn slot_dirty(self, block: Seq<i64>, i: int) -> bool {
        self.handle(block, i) == 0 || self.dirty_flag(block, i) != 0
    }

    /// Node `i` has a rendering function and a dirty slot.
    pub open spec fn needs_render(self, block: Seq<i64>, i: int) -> bool {
        &&& self.vt(i).rendering_info is Some
        &&& self.slot_dirty(block, i)
    }

    /// `w` is a word of some node's render-cache slot.
    pub open spec fn is_slot_word(self, w: int) -> bool {
        exists|i: int| 0 <= i < self.len() && (w == #[trigger] self.slot(i) || w == self.slot(i) + 1)
    }

    /// A fresh block: the initial contents with every cache handle empty and
    /// every dirty flag set.
    pub open spec fn created(self, block: Seq<i64>) -> bool {
        &&& self.block_wf(block)
        &&& forall|i: int|
            0 <= i < self.len() ==> #[trigger] self.handle(block, i) == 0 && self.dirty_flag(block, i)
                == 1
        &&& forall|w: int|
            0 <= w < block.len() && !self.is_slot_word(w) ==> #[trigger] block[w]
                == self.initial_block@[w]
    }

    /// Allocates an instance of this component type.
    pub fn create(&self) -> (inst: ComponentInstance)
        requires
            self.wf(),
        ensures
            self.created(inst.block@),
    {
        let mut block = self.initial_block.clone();
        let n = self.item_tree.len();
        let mut i: usize = 0;
        while i < n
            invariant
                self.wf(),
                n == self.len(),
                i <= n,
                self.block_wf(block@),
                forall|j: int| 0 <= j < i ==> #[trigger] self.handle(block@, j) == 0 && self.dirty_flag(block@, j) == 1,
                forall|w: int|
                    0 <= w < block@.len() && !self.is_slot_word(w) ==> #[trigger] block@[w]
                        == self.initial_block@[w],
            decreases n - i,
        {
            let node = self.item_tree[i];
            let vt = self.vtables[node.vtable];
            assert(self.vt(i as int).fits(self.offset(i as int), block@.len() as int));
            let rn = node.offset + vt.render_node_offset;
            assert(rn == self.slot(i as int));
            let ghost prev = block@;
            assert(forall|j: int| 0 <= j < i ==> #[trigger] self.handle(prev, j) == 0 && self.dirty_flag(prev, j) == 1);
            block.set(rn, 0);
            block.set(rn + 1, 1);
            proof {
                assert forall|j: int| 0 <= j < i implies #[trigger] self.handle(block@, j) == 0 && self.dirty_flag(block@, j) == 1 by {
                    assert(0 <= j < i);
                    assert(self.handle(prev, j) == 0);
                    assert(self.dirty_flag(prev, j) == 1);
                    assert(self.vt(j).fits(self.offset(j), block@.len() as int));
                    assert(self.slot(j) + 1 < self.slot(i as int) || self.slot(i as int) + 1 < self.slot(j));
                }
                assert forall|w: int|
                    0 <= w < block@.len() && !self.is_slot_word(w) implies #[trigger] block@[w]
                        == self.initial_block@[w] by {
                    assert(w != self.slot(i as int) && w != self.slot(i as int) + 1);
                    assert(prev[w] == block@[w]);
                }
            }
            i = i + 1;
        }
        assert(forall|j: int| 0 <= j < self.len() ==> #[trigger] self.handle(block@, j) == 0 && self.dirty_flag(block@, j) == 1);
        ComponentInstance { block }
    }

    /// Sets the word `field` of node `node`'s item to `value` and marks the
    /// node's slot dirty, as a change to a property that feeds the item's
    /// rendering does.
    pub fn set_property(&self, inst: &mut ComponentInstance, node: usize, field: usize, value: i64)
        requires
            self.wf(),
            self.block_wf(old(inst).block@),
            node < self.len(),
            self.vt(node as int).field_word(field as int),
        ensures
            final(inst).block@ == old(inst).block@.update(self.offset(node as int) + field, value).update(
                self.slot(node as int) + 1,
                1,
            ),
    {
        let n = self.item_tree[node];
        let vt = self.vtables[n.vtable];
        assert(self.vt(node as int).fits(self.offset(node as int), self.initial_block@.len() as int));
        inst.block.set(n.offset + field, value);
        inst.block.set(n.offset + vt.render_node_offset + 1, 1);
    }

    /// The geometry of node `node`'s item, through its dispatch table.
    pub fn item_geometry(&self, inst: &ComponentInstance, node: usize) -> (r: Rect)
        requires
            self.wf(),
            self.block_wf(inst.block@),
            node < self.len(),
        ensures
            r == geometry_spec(self.vt(node as int).geometry, inst.block@, self.offset(node as int)),
    {
        let n = self.item_tree[node];
        assert(self.vt(node as int).fits(self.offset(node as int), self.initial_block@.len() as int));
        geometry(&self.vtables[n.vtable], &inst.block, n.offset)
    }

    /// The rendering content of node `node`'s item: no content where its
    /// kind has no rendering function.
    pub fn item_rendering(&self, inst: &ComponentInstance, node: usize) -> (r: RenderingInfo)
        requires
            self.wf(),
            self.block_wf(inst.block@),
            node < self.len(),
        ensures
            r@ == rendering_spec(self.vt(node as int), inst.block@, self.offset(node as int)),
            self.vt(node as int).rendering_info is None ==> r@ == Content::NoContents,
    {
        let n = self.item_tree[node];
        assert(self.vt(node as int).fits(self.offset(node as int), self.initial_block@.len() as int));
        rendering_info(&self.vtables[n.vtable], &inst.block, n.offset)
    }

    /// The layout metadata of node `node`'s item, or `None` where its kind
    /// has none.
    pub fn item_layout(&self, inst: &ComponentInstance, node: usize) -> (r: Option<LayoutInfo>)
        requires
            self.wf(),
            self.block_wf(inst.block@),
            node < self.len(),
        ensures
            r == layout_spec(self.vt(node as int), inst.block@, self.offset(node as int)),
    {
        let n = self.item_tree[node];
        assert(self.vt(node as int).fits(self.offset(node as int), self.initial_block@.len() as int));
        layout_info(&self.vtables[n.vtable], &inst.block, n.offset)
    }

    /// The block after node `node` receives `event`: where its kind handles
    /// input, a press sets its pressed word to 1 and a release to 0, each
    /// marking its slot dirty; anything else leaves the block as it was.
    pub open spec fn input_spec(self, block: Seq<i64>, node: int, event: MouseEvent) -> Seq<i64> {
        match self.vt(node).input_event {
            None => block,
            Some(f) => match event.kind {
                MouseEventKind::Pressed => block.update(self.offset(node) + f.pressed_field, 1).update(
                    self.slot(node) + 1,
                    1,
                ),
                MouseEventKind::Released => block.update(self.offset(node) + f.pressed_field, 0).update(
                    self.slot(node) + 1,
                    1,
                ),
                MouseEventKind::Moved => block,
            },
        }
    }

    /// Delivers a pointer event to node `node`'s item through its dispatch
    /// table; a kind without an input function ignores it.
    pub fn input_event(&self, inst: &mut ComponentInstance, node: usize, event: MouseEvent)
        requires
            self.wf(),
            self.block_wf(old(inst).block@),
            node < self.len(),
        ensures
            final(inst).block@ == self.input_spec(old(inst).block@, node as int, event),
    {
        let n = self.item_tree[node];
        match self.vtables[n.vtable].input_event {
            None => {},
            Some(f) => match event.kind {
                MouseEventKind::Pressed => self.set_property(inst, node, f.pressed_field, 1),
                MouseEventKind::Released => self.set_property(inst, node, f.pressed_field, 0),
                MouseEventKind::Moved => {},
            },
        }
    }

    /// Node `i`'s geometry over `block`, in its parent's coordinate space.
    pub open spec fn local(self, block: Seq<i64>, i: int) -> Rect {
        geometry_spec(self.vt(i).geometry, block, self.offset(i))
    }

    /// Items compose by translation alone: the root's origin is its own, and
    /// each child's origin is its parent's plus its own local position.
    pub fn absolute_origins(&self, inst: &ComponentInstance) -> (r: Vec<(i128, i128)>)
        requires
            self.wf(),
            self.block_wf(inst.block@),
        ensures
            r@.len() == self.len(),
            r@[0] == (self.local(inst.block@, 0).x as i128, self.local(inst.block@, 0).y as i128),
            forall|p: int, ch: int|
                0 <= p < self.len() && #[trigger] is_child(self.item_tree@, p, ch) ==> r@[ch].0 == r@[p].0
                    + self.local(inst.block@, ch).x && r@[ch].1 == r@[p].1 + self.local(inst.block@, ch).y,
    {
        let n = self.item_tree.len();
        let ghost b = inst.block@;
        let mut r: Vec<(i128, i128)> = Vec::new();
        let mut i: usize = 0;
        while i < n
            invariant
                i <= n,
                r@.len() == i,
                forall|j: int| 0 <= j < i ==> #[trigger] r@[j] == (0i128, 0i128),
            decreases n - i,
        {
            r.push((0, 0));
            i = i + 1;
        }
        let g0 = self.item_geometry(inst, 0);
        r.set(0, (g0.x as i128, g0.y as i128));
        let mut p: usize = 0;
        while p < n
            invariant
                self.wf(),
                self.block_wf(b),
                b == inst.block@,
                n == self.len(),
                p <= n,
                r@.len() == n,
                r@[0] == (self.local(b, 0).x as i128, self.local(b, 0).y as i128),
                forall|j: int| 0 <= j < n ==> within(#[trigger] r@[j], j),
                forall|q: int, ch: int|
                    0 <= q < p && #[trigger] is_child(self.item_tree@, q, ch) ==> r@[ch].0 == r@[q].0
                        + self.local(b, ch).x && r@[ch].1 == r@[q].1 + self.local(b, ch).y,
            decreases n - p,
        {
            let first = self.item_tree[p].children_index;
            let cnt = self.item_tree[p].children_count;
            let mut k: u32 = 0;
            while k < cnt
                invariant
                    self.wf(),
                    self.block_wf(b),
                    b == inst.block@,
                    n == self.len(),
                    p < n,
                    first == self.item_tree@[p as int].children_index,
                    cnt == self.item_tree@[p as int].children_count,
                    k <= cnt,
                    r@.len() == n,
                    r@[0] == (self.local(b, 0).x as i128, self.local(b, 0).y as i128),
                    forall|j: int| 0 <= j < n ==> within(#[trigger] r@[j], j),
                    forall|q: int, ch: int|
                        0 <= q < p && #[trigger] is_child(self.item_tree@, q, ch) ==> r@[ch].0 == r@[q].0
                            + self.local(b, ch).x && r@[ch].1 == r@[q].1 + self.local(b, ch).y,
                    forall|ch: int|
                        first <= ch < first + k ==> r@[ch].0 == r@[p as int].0 + self.local(b, ch).x
                            && r@[ch].1 == r@[p as int].1 + self.local(b, ch).y,
                decreases cnt - k,
            {
                let ch = first as usize + k as usize;
                assert(p < ch < n);
                let g = self.item_geometry(inst, ch);
                let ghost prev = r@;
                assert(within(r@[p as int], p as int));
                proof {
                    lemma_step_within(r@[p as int], p as int, g, ch as int, n as int);
                }
                let v = (r[p].0 + g.x as i128, r[p].1 + g.y as i128);
                r.set(ch, v);
                proof {
                    assert forall|q: int, c: int|
                        0 <= q < p && #[trigger] is_child(self.item_tree@, q, c) implies r@[c].0 == r@[q].0
                            + self.local(b, c).x && r@[c].1 == r@[q].1 + self.local(b, c).y by {
                        assert(is_child(self.item_tree@, p as int, ch as int));
                        assert(c != ch as int);
                        assert(q != ch as int);
                        assert(prev[c] == r@[c] && prev[q] == r@[q]);
                    }
                    assert forall|j: int| 0 <= j < n implies within(#[trigger] r@[j], j) by {
                        if j != ch as int {
                            assert(prev[j] == r@[j]);
                        }
                    }
                }
                k = k + 1;
            }
            p = p + 1;
        }
        r
    }
}

/// The bound on an origin that a chain of translations up to node `j` keeps:
/// each coordinate is at most `j + 1` times the largest `i64` magnitude.
pub open spec fn within(o: (i128, i128), j: int) -> bool {
    &&& -(j + 1) * 0x8000_0000_0000_0000 <= o.0 <= (j + 1) * 0x8000_0000_0000_0000
    &&& -(j + 1) * 0x8000_0000_0000_0000 <= o.1 <= (j + 1) * 0x8000_0000_0000_0000
}

proof fn lemma_step_within(o: (i128, i128), p: int, g: Rect, ch: int, n: int)
    requires
        within(o, p),
        0 <= p < ch < n,
        n <= usize::MAX,
    ensures
        i128::MIN <= o.0 + g.x <= i128::MAX,
        i128::MIN <= o.1 + g.y <= i128::MAX,
        within(((o.0 + g.x) as i128, (o.1 + g.y) as i128), ch),
{
    assert((p + 2) * 0x8000_0000_0000_0000 <= (ch + 1) * 0x8000_0000_0000_0000) by (nonlinear_arith)
        requires
            p + 2 <= ch + 1,
    ;
    assert((ch + 1) * 0x8000_0000_0000_0000 <= 0x1_0000_0000_0000_0000 * 0x8000_0000_0000_0000 - 0x8000_0000_0000_0000) by (nonlinear_arith)
        requires
            ch + 1 <= 0xFFFF_FFFF_FFFF_FFFF,
    ;
    assert((p + 1) * 0x8000_0000_0000_0000 + 0x8000_0000_0000_0000 == (p + 2) * 0x8000_0000_0000_0000) by (nonlinear_arith);
}

} // verus!
