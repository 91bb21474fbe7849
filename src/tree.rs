use vstd::prelude::*;
use vstd::set_lib::{lemma_int_range, lemma_len_subset, set_int_range};

verus! {

/// One entry per item of a component type. The array of a component type
/// forms a tree through `(index, children_index, children_count)`.
#[derive(Clone, Copy, Debug, PartialEq, Eq)]
pub struct ItemTreeNode {
    /// Word offset of the item's data from the start of the instance block.
    pub offset: usize,
    /// Index of the item's dispatch table in the component's table list.
    pub vtable: usize,
    /// Number of children.
    pub children_count: u32,
    /// Index of the first child in the same array.
    pub children_index: u32,
}

/// `c` is one of the children of `p`.
pub open spec fn is_child(nodes: Seq<ItemTreeNode>, p: int, c: int) -> bool {
    nodes[p].children_index <= c < nodes[p].children_index + nodes[p].children_count
}

/// The array is a tree rooted at its first entry: children ranges stay in
/// the array and lie after their parent, no node is the child of two parents,
/// and every node but the root is the child of some node.
pub open spec fn tree_wf(nodes: Seq<ItemTreeNode>) -> bool {
    &&& 0 < nodes.len() <= usize::MAX
    &&& forall|i: int|
        0 <= i < nodes.len() ==> nodes[i].children_index + nodes[i].children_count
            <= nodes.len()
    &&& forall|i: int|
        0 <= i < nodes.len() && nodes[i].children_count > 0 ==> nodes[i].children_index > i
    &&& forall|p: int, q: int, c: int|
        0 <= p < nodes.len() && 0 <= q < nodes.len() && #[trigger] is_child(nodes, p, c)
            && #[trigger] is_child(nodes, q, c) ==> p == q
    &&& forall|c: int| 1 <= c < nodes.len() ==> #[trigger] has_parent(nodes, c)
}

/// Some node of the array has `c` among its children.
pub open spec fn has_parent(nodes: Seq<ItemTreeNode>, c: int) -> bool {
    exists|p: int| 0 <= p < nodes.len() && #[trigger] is_child(nodes, p, c)
}

/// In the walk `w`, of which the first `ol` entries were visited and the
/// rest wait on the stack (top last), a lower sibling is visited before a
/// higher one and waits above it.
pub open spec fn siblings_ordered(nodes: Seq<ItemTreeNode>, w: Seq<usize>, ol: int) -> bool {
    forall|q: int, k1: int, k2: int|
        0 <= q < nodes.len() && 0 <= k1 < w.len() && 0 <= k2 < w.len() && #[trigger] is_child(
            nodes,
            q,
            w[k1] as int,
        ) && #[trigger] is_child(nodes, q, w[k2] as int) && w[k1] < w[k2] ==> (k2 < ol ==> k1 < k2)
            && (k1 >= ol && k2 >= ol ==> k1 > k2)
}

/// A sequence of distinct indices below `n` holds at most `n` of them.
pub(crate) proof fn lemma_distinct_bounded(s: Seq<usize>, n: nat)
    requires
        s.no_duplicates(),
        forall|k: int| 0 <= k < s.len() ==> s[k] < n,
    ensures
        s.len() <= n,
{
    let t = s.map_values(|x: usize| x as int);
    assert(t.no_duplicates()) by {
        assert forall|i: int, j: int| 0 <= i < t.len() && 0 <= j < t.len() && i != j implies t[i] != t[j] by {
            assert(s[i] != s[j]);
        }
    }
    t.unique_seq_to_set();
    lemma_int_range(0, n as int);
    assert(t.to_set().subset_of(set_int_range(0, n as int))) by {
        assert forall|x: int| t.to_set().contains(x) implies set_int_range(0, n as int).contains(x) by {
            let k = choose|k: int| 0 <= k < t.len() && t[k] == x;
        }
    }
    lemma_len_subset(t.to_set(), set_int_range(0, n as int));
}

/// One step of the walk keeps the walk's invariants: `v` left the top of the
/// stack for the visited list, and its children went onto the stack in
/// reverse order.
proof fn lemma_push_children(
    nodes: Seq<ItemTreeNode>,
    o0: Seq<usize>,
    w0: Seq<usize>,
    s0: Seq<usize>,
    v: usize,
    o1: Seq<usize>,
    st1: Seq<usize>,
)
    requires
        tree_wf(nodes),
        w0 == o0 + s0.push(v),
        w0.no_duplicates(),
        forall|k: int| 0 <= k < w0.len() ==> w0[k] < nodes.len(),
        o0.len() == 0 ==> s0.push(v) == seq![0usize],
        o0.len() > 0 ==> o0[0] == 0,
        forall|k: int|
            0 <= k < w0.len() && w0[k] != 0 ==> exists|a: int|
                0 <= a < o0.len() && #[trigger] is_child(nodes, o0[a] as int, w0[k] as int),
        forall|a: int, c: int|
            0 <= a < o0.len() && #[trigger] is_child(nodes, o0[a] as int, c) ==> exists|k: int|
                a < k < w0.len() && w0[k] == c,
        siblings_ordered(nodes, w0, o0.len() as int),
        o1 == o0.push(v),
        v < nodes.len(),
        st1.len() == s0.len() + nodes[v as int].children_count,
        st1.subrange(0, s0.len() as int) == s0,
        forall|j: int|
            s0.len() <= j < st1.len() ==> #[trigger] st1[j] == nodes[v as int].children_index
                + nodes[v as int].children_count - 1 - (j - s0.len()),
    ensures
        ({
            let w1 = o1 + st1;
            &&& w1.no_duplicates()
            &&& forall|k: int| 0 <= k < w1.len() ==> w1[k] < nodes.len()
            &&& o1[0] == 0
            &&& forall|k: int|
                0 <= k < w1.len() && w1[k] != 0 ==> exists|a: int|
                    0 <= a < o1.len() && #[trigger] is_child(nodes, o1[a] as int, w1[k] as int)
            &&& forall|a: int, c: int|
                0 <= a < o1.len() && #[trigger] is_child(nodes, o1[a] as int, c) ==> exists|k: int|
                    a < k < w1.len() && w1[k] == c
            &&& siblings_ordered(nodes, w1, o1.len() as int)
        }),
{
    let w1 = o1 + st1;
    let ov = o0.len() as int;
    let sl = s0.len() as int;
    let first = nodes[v as int].children_index as int;
    let cnt = nodes[v as int].children_count as int;
    let top = w0.len() - 1;
    assert(w0[top] == v);
    assert(w1.len() == ov + 1 + sl + cnt);
    // positions of w1 outside the new children, and where they were in w0
    let f = |i: int|
        if i < ov {
            i
        } else if i == ov {
            top
        } else {
            i - 1
        };
    assert forall|i: int| 0 <= i <= ov + sl implies 0 <= #[trigger] f(i) < w0.len() && w1[i]
        == w0[f(i)] by {
        if i > ov {
            assert(w1[i] == st1[i - ov - 1]);
            assert(st1[i - ov - 1] == st1.subrange(0, sl)[i - ov - 1]);
        }
    }
    assert forall|j: int| 0 <= j < cnt implies #[trigger] w1[ov + 1 + sl + j] == first + cnt - 1
        - j && is_child(nodes, v as int, w1[ov + 1 + sl + j] as int) by {
        assert(w1[ov + 1 + sl + j] == st1[sl + j]);
        assert(st1[sl + j] == first + cnt - 1 - j);
    }
    // a new child was nowhere in w0
    assert forall|j: int, i: int| 0 <= j < cnt && 0 <= i < w0.len() implies #[trigger] w0[i]
        != #[trigger] w1[ov + 1 + sl + j] by {
        let c = w1[ov + 1 + sl + j];
        if w0[i] == c {
            assert(c > v);
            assert(is_child(nodes, v as int, c as int));
            let a = choose|a: int| 0 <= a < o0.len() && #[trigger] is_child(nodes, o0[a] as int, w0[i] as int);
            assert(is_child(nodes, o0[a] as int, c as int));
            assert(w0[a] == o0[a]);
            assert(o0[a] == v);
        }
    }
    assert(w1.no_duplicates()) by {
        assert forall|i: int, j: int| 0 <= i < w1.len() && 0 <= j < w1.len() && i != j implies w1[i]
            != w1[j] by {
            if i <= ov + sl && j <= ov + sl {
                assert(f(i) != f(j));
            } else if i > ov + sl && j > ov + sl {
                assert(w1[i] == first + cnt - 1 - (i - ov - 1 - sl));
                assert(w1[j] == first + cnt - 1 - (j - ov - 1 - sl));
            } else if i <= ov + sl {
                assert(w1[j] == w1[ov + 1 + sl + (j - ov - 1 - sl)]);
                assert(w1[i] == w0[f(i)]);
            } else {
                assert(w1[i] == w1[ov + 1 + sl + (i - ov - 1 - sl)]);
                assert(w1[j] == w0[f(j)]);
            }
        }
    }
    assert forall|k: int| 0 <= k < w1.len() implies w1[k] < nodes.len() by {
        if k <= ov + sl {
            assert(w1[k] == w0[f(k)]);
        } else {
            assert(w1[k] == w1[ov + 1 + sl + (k - ov - 1 - sl)]);
        }
    }
    assert(o1[0] == 0) by {
        if ov == 0 {
            assert(s0.push(v)[0] == 0);
            assert(s0.len() == 0);
        } else {
            assert(o1[0] == o0[0]);
        }
    }
    assert forall|k: int| 0 <= k < w1.len() && w1[k] != 0 implies exists|a: int|
        0 <= a < o1.len() && #[trigger] is_child(nodes, o1[a] as int, w1[k] as int) by {
        if k <= ov + sl {
            assert(w1[k] == w0[f(k)]);
            let a = choose|a: int| 0 <= a < o0.len() && #[trigger] is_child(nodes, o0[a] as int, w0[f(k)] as int);
            assert(o1[a] == o0[a]);
        } else {
            assert(w1[k] == w1[ov + 1 + sl + (k - ov - 1 - sl)]);
            assert(o1[ov] == v);
        }
    }
    assert forall|a: int, c: int| 0 <= a < o1.len() && #[trigger] is_child(nodes, o1[a] as int, c) implies exists|k: int|
        a < k < w1.len() && w1[k] == c by {
        if a == ov {
            assert(o1[a] == v);
            let j = first + cnt - 1 - c;
            assert(w1[ov + 1 + sl + j] == c);
        } else {
            assert(o1[a] == o0[a]);
            let k0 = choose|k: int| a < k < w0.len() && w0[k] == c;
            if k0 < ov {
                assert(w1[f(k0)] == c);
            } else if k0 == top {
                assert(f(ov) == top);
                assert(w1[ov] == c);
            } else {
                assert(f(k0 + 1) == k0);
                assert(w1[k0 + 1] == c);
            }
        }
    }

    assert(siblings_ordered(nodes, w1, o1.len() as int)) by {
        assert forall|q: int, k1: int, k2: int|
            0 <= q < nodes.len() && 0 <= k1 < w1.len() && 0 <= k2 < w1.len() && #[trigger] is_child(
                nodes,
                q,
                w1[k1] as int,
            ) && #[trigger] is_child(nodes, q, w1[k2] as int) && w1[k1] < w1[k2] implies (k2 < ov + 1
            ==> k1 < k2) && (k1 >= ov + 1 && k2 >= ov + 1 ==> k1 > k2) by {
            let in1 = k1 > ov + sl;
            let in2 = k2 > ov + sl;
            if in1 && in2 {
                assert(w1[k1] == w1[ov + 1 + sl + (k1 - ov - 1 - sl)]);
                assert(w1[k2] == w1[ov + 1 + sl + (k2 - ov - 1 - sl)]);
            } else if in1 || in2 {
                // a sibling of a child of v is a child of v, and those are all new
                let (kn, ko) = if in1 {
                    (k1, k2)
                } else {
                    (k2, k1)
                };
                let jn = kn - ov - 1 - sl;
                assert(w1[kn] == w1[ov + 1 + sl + jn]);
                assert(is_child(nodes, v as int, w1[kn] as int));
                assert(q == v);
                assert(w1[ko] == w0[f(ko)]);
                assert(w0[f(ko)] != w1[ov + 1 + sl + jn]);
                let jo = first + cnt - 1 - w1[ko];
                assert(w1[ov + 1 + sl + jo] == w1[ko]);
                assert(w0[f(ko)] != w1[ov + 1 + sl + jo]);
            } else {
                assert(w1[k1] == w0[f(k1)]);
                assert(w1[k2] == w0[f(k2)]);
                assert(is_child(nodes, q, w0[f(k1)] as int));
                assert(is_child(nodes, q, w0[f(k2)] as int));
            }
        }
    }
}

/// A visited list that starts at the root and holds every child of what it
/// holds, each after its parent, reaches every node.
proof fn lemma_reached(nodes: Seq<ItemTreeNode>, order: Seq<usize>, j: int)
    requires
        tree_wf(nodes),
        order.len() > 0,
        order[0] == 0,
        forall|a: int, c: int|
            0 <= a < order.len() && #[trigger] is_child(nodes, order[a] as int, c) ==> exists|k: int|
                a < k < order.len() && order[k] == c,
        0 <= j < nodes.len(),
    ensures
        exists|k: int| 0 <= k < order.len() && order[k] == j,
    decreases j,
{
    if j == 0 {
        assert(order[0] == j);
    } else {
        assert(has_parent(nodes, j));
        let p = choose|p: int| 0 <= p < nodes.len() && #[trigger] is_child(nodes, p, j);
        lemma_reached(nodes, order, p);
        let a = choose|a: int| 0 <= a < order.len() && order[a] == p;
        assert(is_child(nodes, order[a] as int, j));
    }
}

/// Walks the tree from the root, parent before children.
/// Every node comes out exactly once, the root first, and every node after
/// its parent.
pub fn visit_order(nodes: &Vec<ItemTreeNode>) -> (order: Vec<usize>)
    requires
        tree_wf(nodes@),
    ensures
        order@.len() > 0,
        order@[0] == 0,
        order@.no_duplicates(),
        forall|k: int| 0 <= k < order@.len() ==> order@[k] < nodes@.len(),
        forall|j: usize| j < nodes@.len() ==> #[trigger] order@.contains(j),
        forall|a: int, b: int|
            0 <= a < order@.len() && 0 <= b < order@.len() && #[trigger] is_child(
                nodes@,
                order@[a] as int,
                order@[b] as int,
            ) ==> a < b,
        forall|q: int, a: int, b: int|
            0 <= q < nodes@.len() && 0 <= a < order@.len() && 0 <= b < order@.len() && #[trigger] is_child(
                nodes@,
                q,
                order@[a] as int,
            ) && #[trigger] is_child(nodes@, q, order@[b] as int) && order@[a] < order@[b] ==> a < b,
{
    let ghost n = nodes@.len();
    let mut order: Vec<usize> = Vec::new();
    let mut stack: Vec<usize> = Vec::new();
    stack.push(0);
    while stack.len() > 0
        invariant
            tree_wf(nodes@),
            n == nodes@.len(),
            (order@ + stack@).no_duplicates(),
            forall|k: int| 0 <= k < (order@ + stack@).len() ==> (order@ + stack@)[k] < n,
            order@.len() == 0 ==> stack@ == seq![0usize],
            order@.len() > 0 ==> order@[0] == 0,
            // what was pushed is the root and the children of what was visited
            forall|k: int|
                0 <= k < (order@ + stack@).len() && (order@ + stack@)[k] != 0 ==> exists|a: int|
                    0 <= a < order@.len() && #[trigger] is_child(
                        nodes@,
                        order@[a] as int,
                        (order@ + stack@)[k] as int,
                    ),
            siblings_ordered(nodes@, order@ + stack@, order@.len() as int),
            // children of visited nodes were pushed after them
            forall|a: int, c: int|
                0 <= a < order@.len() && #[trigger] is_child(nodes@, order@[a] as int, c)
                    ==> exists|k: int|
                    a < k < (order@ + stack@).len() && (order@ + stack@)[k] == c,
        decreases 2 * n - 2 * order@.len() - stack@.len(),
    {
        proof {
            lemma_distinct_bounded(order@ + stack@, n);
        }
        let ghost o0 = order@;
        let ghost w0 = order@ + stack@;
        let v = stack.pop().unwrap();
        proof {
            assert(w0 == o0 + stack@.push(v));
            assert(w0[w0.len() - 1] == v);
        }
        order.push(v);
        let cnt = nodes[v].children_count;
        let first = nodes[v].children_index;
        let ghost s0 = stack@;
        let mut k: u32 = cnt;
        while k > 0
            invariant
                tree_wf(nodes@),
                n == nodes@.len(),
                v < n,
                cnt == nodes@[v as int].children_count,
                first == nodes@[v as int].children_index,
                k <= cnt,
                stack@.len() == s0.len() + (cnt - k),
                stack@.subrange(0, s0.len() as int) == s0,
                forall|j: int|
                    s0.len() <= j < stack@.len() ==> #[trigger] stack@[j] == first + cnt - 1 - (j
                        - s0.len()),
            decreases k,
        {
            k = k - 1;
            stack.push(first as usize + k as usize);
        }
        proof {
            lemma_push_children(nodes@, o0, w0, s0, v, order@, stack@);
            lemma_distinct_bounded(order@ + stack@, n);
        }
    }
    assert(order@ + stack@ =~= order@);
    proof {
        assert forall|j: usize| j < nodes@.len() implies #[trigger] order@.contains(j) by {
            lemma_reached(nodes@, order@, j as int);
        }
    }
    order
}

} // verus!
