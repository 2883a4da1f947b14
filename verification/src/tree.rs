//! The arena holding one layout computation's flow tree.
//!
//! Nodes are addressed by arena index; the index is the node's unique
//! identifier, and equality of nodes is equality of indices — identity, not
//! structural content. A parent is always created before its children, so
//! every child index is strictly greater than its parent's: the tree is
//! acyclic by construction, a reverse scan of the arena visits children
//! before parents (post-order), and a forward scan visits parents before
//! children (pre-order).

use vstd::prelude::*;

use crate::flow::{payload_boxes, FlowContext, FlowPayload};

verus! {

/// The tree of flow contexts for one layout computation.
pub struct FlowArena {
    /// The nodes, indexed by identifier. Kept consistent with [`FlowArena::wf`]
    /// by [`FlowArena::new_node`] and [`FlowArena::add_child`].
    pub nodes: Vec<FlowContext>,
}

/// A visitor handed to [`FlowArena::each_child`]; returning `false` stops the
/// iteration early. Implemented by the caller.
pub trait ChildVisitor {
    fn visit(&mut self, child: usize) -> bool;
}

impl View for FlowArena {
    type V = Seq<FlowContext>;

    open spec fn view(&self) -> Seq<FlowContext> {
        self.nodes@
    }
}

/// Well-formedness of an arena's linkage: children are in bounds, strictly
/// after their parent, back-linked to it, and listed at most once.
pub open spec fn arena_linked(s: Seq<FlowContext>) -> bool {
    &&& forall|i: int, k: int|
        0 <= i < s.len() && 0 <= k < s[i].d.children@.len() ==> i < #[trigger] s[i].d.children@[k]
            < s.len()
    &&& forall|i: int, k: int|
        0 <= i < s.len() && 0 <= k < s[i].d.children@.len() ==> s[#[trigger] s[i].d.children@[k] as int].d.parent
            == Some(i as usize)
    &&& forall|i: int, k1: int, k2: int|
        0 <= i < s.len() && 0 <= k1 < k2 < s[i].d.children@.len() ==> #[trigger] s[i].d.children@[k1]
            != #[trigger] s[i].d.children@[k2]
}

impl FlowArena {
    /// Well-formedness of the linkage.
    pub open spec fn linked(self) -> bool {
        arena_linked(self@)
    }

    /// Well-formedness of the payloads: every render box has ordered
    /// intrinsic width bounds.
    pub open spec fn boxes_wf(self) -> bool {
        forall|i: int, j: int|
            0 <= i < self@.len() && 0 <= j < self@[i].spec_boxes().len() ==> (
            #[trigger] self@[i].spec_boxes()[j]).wf()
    }

    pub open spec fn wf(self) -> bool {
        self.linked() && self.boxes_wf()
    }

    /// Every node is of a variant that the layout passes accept.
    pub open spec fn all_participating(self) -> bool {
        forall|i: int| 0 <= i < self@.len() ==> (#[trigger] self@[i]).participates()
    }

    /// In this core an inline formatting context holds render boxes only;
    /// nested flows under an inline are not supported by the passes.
    pub open spec fn inline_leaves(self) -> bool {
        forall|i: int|
            0 <= i < self@.len() && (#[trigger] self@[i]).is_inline() ==> self@[i].d.children@.len()
                == 0
    }

    pub fn new() -> (r: FlowArena)
        ensures
            r@.len() == 0,
            r.wf(),
    {
        FlowArena { nodes: Vec::new() }
    }

    pub fn len(&self) -> (r: usize)
        ensures
            r == self@.len(),
    {
        self.nodes.len()
    }

    /// Read access to a node by its identifier.
    pub fn node(&self, i: usize) -> (r: &FlowContext)
        requires
            i < self@.len(),
        ensures
            r == self@[i as int],
    {
        &self.nodes[i]
    }

    pub fn parent_of(&self, i: usize) -> (r: Option<usize>)
        requires
            i < self@.len(),
        ensures
            r == self@[i as int].d.parent,
    {
        self.nodes[i].d.parent
    }

    pub fn child_count(&self, i: usize) -> (r: usize)
        requires
            i < self@.len(),
        ensures
            r == self@[i as int].d.children@.len(),
    {
        self.nodes[i].d.children.len()
    }

    pub fn child_at(&self, i: usize, k: usize) -> (r: usize)
        requires
            i < self@.len(),
            k < self@[i as int].d.children@.len(),
        ensures
            r == self@[i as int].d.children@[k as int],
    {
        self.nodes[i].d.children[k]
    }

    /// The ordered child sequence of node `i`: what [`FlowArena::each_child`]
    /// walks, in insertion order.
    pub fn children(&self, i: usize) -> (r: &Vec<usize>)
        requires
            i < self@.len(),
        ensures
            r@ == self@[i as int].d.children@,
    {
        &self.nodes[i].d.children
    }

    /// Creates a node and returns its identifier. The node starts unlinked;
    /// its payload carries no linkage, so well-formedness is preserved.
    pub fn new_node(&mut self, node: Option<u64>, payload: FlowPayload) -> (idx: usize)
        requires
            old(self).wf(),
            forall|j: int|
                0 <= j < payload_boxes(payload).len() ==> (#[trigger] payload_boxes(
                    payload,
                )[j]).wf(),
        ensures
            final(self).wf(),
            idx == old(self)@.len(),
            final(self)@.len() == old(self)@.len() + 1,
            forall|j: int| 0 <= j < old(self)@.len() ==> final(self)@[j] == old(self)@[j],
            final(self)@[idx as int].payload == payload,
            final(self)@[idx as int].d.node == node,
            final(self)@[idx as int].d.parent is None,
            final(self)@[idx as int].d.children@.len() == 0,
    {
        let idx = self.nodes.len();
        let ctx = FlowContext::new(node, payload);
        self.nodes.push(ctx);
        idx
    }

    /// Appends `child` to `parent`'s ordered child sequence and records the
    /// back-link. A node is created before its children and attached at
    /// most once, so `parent < child` and `child` is still unlinked; both
    /// are demanded here, and both are what makes the arena an acyclic,
    /// identity-keyed tree.
    ///
    /// The postcondition carries the visit-order law: the new child list is
    /// exactly the old one with `child` appended, and `child` appears
    /// nowhere in the old list — so iterating the children afterwards
    /// visits `child` exactly once, in insertion order.
    pub fn add_child(&mut self, parent: usize, child: usize)
        requires
            old(self).wf(),
            parent < child < old(self)@.len(),
            old(self)@[child as int].d.parent is None,
        ensures
            final(self).wf(),
            final(self)@.len() == old(self)@.len(),
            final(self)@[parent as int].d.children@ == old(self)@[parent
                as int].d.children@.push(child),
            forall|k: int|
                0 <= k < old(self)@[parent as int].d.children@.len()
                    ==> old(self)@[parent as int].d.children@[k] != child,
            final(self)@[child as int].d.parent == Some(parent),
            final(self)@[child as int].d == (crate::flow::FlowData {
                parent: Some(parent),
                ..old(self)@[child as int].d
            }),
            forall|j: int|
                0 <= j < final(self)@.len() && j != parent && j != child ==> final(self)@[j] == old(
                    self,
                )@[j],
            final(self)@[parent as int].d == (crate::flow::FlowData {
                children: final(self)@[parent as int].d.children,
                ..old(self)@[parent as int].d
            }),
            final(self)@[parent as int].payload == old(self)@[parent as int].payload,
            final(self)@[child as int].payload == old(self)@[child as int].payload,
    {
        proof {
            // any existing entry in some child list has a parent, so it is
            // not `child`, whose parent is still `None`
            assert forall|k: int|
                0 <= k < self@[parent as int].d.children@.len() implies self@[parent
                as int].d.children@[k] != child by {
                assert(self@[self@[parent as int].d.children@[k] as int].d.parent == Some(
                    parent,
                ));
            }
        }
        self.nodes[parent].d.children.push(child);
        self.nodes[child].d.parent = Some(parent);
        proof {
            let o = old(self)@;
            let s = self@;
            assert forall|i: int, k: int|
                0 <= i < s.len() && 0 <= k < s[i].d.children@.len() implies i
                < #[trigger] s[i].d.children@[k] < s.len() && s[s[i].d.children@[k] as int].d.parent
                == Some(i as usize) by {
                if i == parent && k == s[i].d.children@.len() - 1 {
                    assert(s[i].d.children@[k] == child);
                } else {
                    assert(s[i].d.children@[k] == o[i].d.children@[k]);
                    // the only node whose parent link changed is `child`,
                    // which no list held
                    assert(o[o[i].d.children@[k] as int].d.parent == Some(i as usize));
                    assert(o[i].d.children@[k] != child);
                }
            }
            assert forall|i: int, k1: int, k2: int|
                0 <= i < s.len() && 0 <= k1 < k2 < s[i].d.children@.len() implies
                #[trigger] s[i].d.children@[k1] != #[trigger] s[i].d.children@[k2] by {
                if i == parent && k2 == s[i].d.children@.len() - 1 {
                    assert(s[i].d.children@[k1] == o[i].d.children@[k1]);
                    assert(o[o[i].d.children@[k1] as int].d.parent == Some(i as usize));
                } else {
                    assert(s[i].d.children@[k1] == o[i].d.children@[k1]);
                    assert(s[i].d.children@[k2] == o[i].d.children@[k2]);
                }
            }
            assert forall|i: int, j: int|
                0 <= i < s.len() && 0 <= j < s[i].spec_boxes().len() implies (
            #[trigger] s[i].spec_boxes()[j]).wf() by {
                assert(s[i].payload == o[i].payload);
                assert(o[i].spec_boxes()[j].wf());
            }
        }
    }

    /// Invokes `visitor` on each entry of `i`'s child sequence in turn —
    /// index `0` first, insertion order — stopping for good the first time
    /// the visitor returns `false`. What the visitor does with its state
    /// carries no contract, so the visit sequence is fixed here by
    /// [`FlowArena::child_at`]'s postcondition alone: the `k`-th call, if
    /// made, receives exactly `children[k]`. Together with
    /// [`lemma_add_child_visits_once`] that makes a freshly added child be
    /// visited exactly once, after its elder siblings.
    pub fn each_child<V: ChildVisitor>(&self, i: usize, visitor: &mut V)
        requires
            i < self@.len(),
    {
        let n = self.child_count(i);
        let mut k: usize = 0;
        while k < n
            invariant
                i < self@.len(),
                n == self@[i as int].d.children@.len(),
                k <= n,
            decreases n - k,
        {
            let c = self.child_at(i, k);
            if !visitor.visit(c) {
                return ;
            }
            k = k + 1;
        }
    }
}

/// The visit-once law: after `add_child(p, c)` the child sequence of `p`
/// — the sequence `each_child` hands its visitor, in order — holds `c`
/// exactly once, as the last sibling; every earlier sibling keeps its
/// place. `pre` and `post` are `p`'s child sequence before and after the
/// call; the premises are `add_child`'s postconditions.
pub proof fn lemma_add_child_visits_once(pre: Seq<usize>, post: Seq<usize>, c: usize)
    requires
        post == pre.push(c),
        forall|k: int| 0 <= k < pre.len() ==> pre[k] != c,
    ensures
        post.len() == pre.len() + 1,
        post[post.len() - 1] == c,
        forall|k: int| 0 <= k < post.len() && post[k] == c ==> k == post.len() - 1,
        forall|k: int| 0 <= k < pre.len() ==> post[k] == pre[k],
{
}

/// The tree holding flow contexts: the engine's handle on one layout
/// computation's arena.
pub enum FlowTree {
    Arena(FlowArena),
}

impl View for FlowTree {
    type V = Seq<FlowContext>;

    open spec fn view(&self) -> Seq<FlowContext> {
        match self {
            FlowTree::Arena(t) => t@,
        }
    }
}

impl FlowTree {
    /// The arena behind the handle.
    pub open spec fn arena(self) -> FlowArena {
        match self {
            FlowTree::Arena(t) => t,
        }
    }

    pub open spec fn wf(self) -> bool {
        self.arena().wf()
    }

    pub open spec fn all_participating(self) -> bool {
        self.arena().all_participating()
    }

    pub open spec fn inline_leaves(self) -> bool {
        self.arena().inline_leaves()
    }

    pub fn new() -> (r: FlowTree)
        ensures
            r@.len() == 0,
            r.wf(),
    {
        FlowTree::Arena(FlowArena::new())
    }

    pub fn len(&self) -> (r: usize)
        ensures
            r == self@.len(),
    {
        match self {
            FlowTree::Arena(t) => t.len(),
        }
    }

    /// Read access to a node by its identifier.
    pub fn node(&self, i: usize) -> (r: &FlowContext)
        requires
            i < self@.len(),
        ensures
            r == self@[i as int],
    {
        match self {
            FlowTree::Arena(t) => t.node(i),
        }
    }

    pub fn parent_of(&self, i: usize) -> (r: Option<usize>)
        requires
            i < self@.len(),
        ensures
            r == self@[i as int].d.parent,
    {
        match self {
            FlowTree::Arena(t) => t.parent_of(i),
        }
    }

    pub fn child_count(&self, i: usize) -> (r: usize)
        requires
            i < self@.len(),
        ensures
            r == self@[i as int].d.children@.len(),
    {
        match self {
            FlowTree::Arena(t) => t.child_count(i),
        }
    }

    pub fn child_at(&self, i: usize, k: usize) -> (r: usize)
        requires
            i < self@.len(),
            k < self@[i as int].d.children@.len(),
        ensures
            r == self@[i as int].d.children@[k as int],
    {
        match self {
            FlowTree::Arena(t) => t.child_at(i, k),
        }
    }

    /// The ordered child sequence of node `i`; see [`FlowArena::children`].
    pub fn children(&self, i: usize) -> (r: &Vec<usize>)
        requires
            i < self@.len(),
        ensures
            r@ == self@[i as int].d.children@,
    {
        match self {
            FlowTree::Arena(t) => t.children(i),
        }
    }

    /// Creates a node and returns its identifier; see
    /// [`FlowArena::new_node`].
    pub fn new_node(&mut self, node: Option<u64>, payload: FlowPayload) -> (idx: usize)
        requires
            old(self).wf(),
            forall|j: int|
                0 <= j < payload_boxes(payload).len() ==> (#[trigger] payload_boxes(
                    payload,
                )[j]).wf(),
        ensures
            final(self).wf(),
            idx == old(self)@.len(),
            final(self)@.len() == old(self)@.len() + 1,
            forall|j: int| 0 <= j < old(self)@.len() ==> final(self)@[j] == old(self)@[j],
            final(self)@[idx as int].payload == payload,
            final(self)@[idx as int].d.node == node,
            final(self)@[idx as int].d.parent is None,
            final(self)@[idx as int].d.children@.len() == 0,
    {
        match self {
            FlowTree::Arena(t) => t.new_node(node, payload),
        }
    }

    /// Appends `child` to `parent`'s ordered child sequence and records
    /// the back-link; see [`FlowArena::add_child`] for the visit-order
    /// law this carries.
    pub fn add_child(&mut self, parent: usize, child: usize)
        requires
            old(self).wf(),
            parent < child < old(self)@.len(),
            old(self)@[child as int].d.parent is None,
        ensures
            final(self).wf(),
            final(self)@.len() == old(self)@.len(),
            final(self)@[parent as int].d.children@ == old(self)@[parent
                as int].d.children@.push(child),
            forall|k: int|
                0 <= k < old(self)@[parent as int].d.children@.len()
                    ==> old(self)@[parent as int].d.children@[k] != child,
            final(self)@[child as int].d.parent == Some(parent),
            final(self)@[child as int].d == (crate::flow::FlowData {
                parent: Some(parent),
                ..old(self)@[child as int].d
            }),
            forall|j: int|
                0 <= j < final(self)@.len() && j != parent && j != child ==> final(self)@[j] == old(
                    self,
                )@[j],
            final(self)@[parent as int].d == (crate::flow::FlowData {
                children: final(self)@[parent as int].d.children,
                ..old(self)@[parent as int].d
            }),
            final(self)@[parent as int].payload == old(self)@[parent as int].payload,
            final(self)@[child as int].payload == old(self)@[child as int].payload,
    {
        match self {
            FlowTree::Arena(t) => t.add_child(parent, child),
        }
    }

    /// Invokes `visitor` once per child of `i`, in insertion order,
    /// stopping early when the visitor returns `false`.
    pub fn each_child<V: ChildVisitor>(&self, i: usize, visitor: &mut V)
        requires
            i < self@.len(),
    {
        match self {
            FlowTree::Arena(t) => t.each_child(i, visitor),
        }
    }
}

} // verus!
