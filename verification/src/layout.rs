//! The three layout passes, in their fixed order: width bubbling
//! (post-order), width assignment (pre-order), height assignment
//! (post-order).
//!
//! Because every child's arena index is greater than its parent's, a
//! reverse scan of the arena is a post-order traversal (children before
//! parents) and a forward scan a pre-order traversal (parents before
//! children); the passes are written as such scans.
//!
//! The passes are defined for trees of block, inline and root nodes, with
//! inline nodes holding render boxes only and the root unparented with at
//! most one child; running a pass on any other shape is a programming
//! error, excluded here by precondition instead of a runtime abort.

use vstd::prelude::*;

use crate::flow::{FlowContext, FlowPayload, RenderBox};
use crate::geometry::{
    lemma_sat_add_bounds, lemma_sat_sum_prefix, lemma_sat_sum_push,
    lemma_seq_max_bound, lemma_seq_max_push, max_au, max_au_exec, sat_add,
    sat_add_exec, sat_sum, seq_max, Au, Point2D, Rect, Size2D,
};
use crate::tree::FlowArena;

verus! {

/// Shared read-only environment threaded through every pass call.
pub struct LayoutContext {
    /// The viewport: the width available to the root.
    pub screen: Size2D,
}

/// The intrinsic minimum width of an optional render box; 0 when absent.
pub open spec fn opt_box_min(b: Option<RenderBox>) -> u64 {
    match b {
        Some(bx) => bx.min_width,
        None => 0u64,
    }
}

/// The intrinsic preferred width of an optional render box; 0 when absent.
pub open spec fn opt_box_pref(b: Option<RenderBox>) -> u64 {
    match b {
        Some(bx) => bx.pref_width,
        None => 0u64,
    }
}

/// The intrinsic height of an optional render box; 0 when absent.
pub open spec fn opt_box_height(b: Option<RenderBox>) -> u64 {
    match b {
        Some(bx) => bx.height,
        None => 0u64,
    }
}

/// The minimum widths of node `i`'s children, in order.
pub open spec fn child_mins(s: Seq<FlowContext>, i: int) -> Seq<u64> {
    s[i].d.children@.map(|k: int, c: usize| s[c as int].d.min_width)
}

/// The preferred widths of node `i`'s children, in order.
pub open spec fn child_prefs(s: Seq<FlowContext>, i: int) -> Seq<u64> {
    s[i].d.children@.map(|k: int, c: usize| s[c as int].d.pref_width)
}

/// The resolved heights of node `i`'s children, in order.
pub open spec fn child_heights(s: Seq<FlowContext>, i: int) -> Seq<u64> {
    s[i].d.children@.map(|k: int, c: usize| s[c as int].d.position.size.height)
}

/// The intrinsic preferred widths of a box sequence, in order.
pub open spec fn box_prefs(boxes: Seq<RenderBox>) -> Seq<u64> {
    boxes.map(|j: int, b: RenderBox| b.pref_width)
}

/// The intrinsic minimum widths of a box sequence, in order.
pub open spec fn box_mins(boxes: Seq<RenderBox>) -> Seq<u64> {
    boxes.map(|j: int, b: RenderBox| b.min_width)
}

/// The minimum width an inline flow bubbles up: the widest box alone —
/// with every possible break taken, each box still needs its own width.
pub open spec fn inline_min(boxes: Seq<RenderBox>) -> u64 {
    seq_max(box_mins(boxes))
}

/// Running state of inline width bubbling over a box prefix: the widest
/// line so far and the width of the still-open line. Boxes accumulate along
/// a line; a forced break opens a new one.
pub open spec fn inline_pref_state(boxes: Seq<RenderBox>) -> (u64, u64)
    decreases boxes.len(),
{
    if boxes.len() == 0 {
        (0u64, 0u64)
    } else {
        let (best, cur) = inline_pref_state(boxes.drop_last());
        let b = boxes.last();
        let cur2 = if b.break_before {
            b.pref_width
        } else {
            sat_add(cur, b.pref_width)
        };
        (max_au(best, cur2), cur2)
    }
}

/// The preferred width an inline flow bubbles up: the widest line when
/// only forced breaks break lines.
pub open spec fn inline_pref(boxes: Seq<RenderBox>) -> u64 {
    inline_pref_state(boxes).0
}

/// Width bubbling is complete at node `i`: its minimum and preferred width
/// agree with the variant's combining rule over its children's current
/// values and its own boxes.
pub open spec fn bubbled_at(s: Seq<FlowContext>, i: int) -> bool {
    match s[i].payload {
        FlowPayload::Block(b) => {
            &&& s[i].d.min_width == max_au(seq_max(child_mins(s, i)), opt_box_min(b.render_box))
            &&& s[i].d.pref_width == max_au(seq_max(child_prefs(s, i)), opt_box_pref(b.render_box))
        },
        FlowPayload::Inline(inl) => {
            &&& s[i].d.min_width == inline_min(inl.boxes@)
            &&& s[i].d.pref_width == inline_pref(inl.boxes@)
        },
        FlowPayload::Root(_) => {
            if s[i].d.children@.len() > 0 {
                &&& s[i].d.min_width == s[s[i].d.children@[0] as int].d.min_width
                &&& s[i].d.pref_width == s[s[i].d.children@[0] as int].d.pref_width
            } else {
                s[i].d.min_width == 0 && s[i].d.pref_width == 0
            }
        },
        _ => true,
    }
}

/// Everything about a node except its bubbled widths.
pub open spec fn same_but_widths(a: FlowContext, b: FlowContext) -> bool {
    &&& b.d.node == a.d.node
    &&& b.d.parent == a.d.parent
    &&& b.d.children == a.d.children
    &&& b.d.avail_width == a.d.avail_width
    &&& b.d.position == a.d.position
    &&& b.payload == a.payload
}

/// What all three passes leave alone in a node: its linkage, its variant,
/// and the intrinsic attributes of its boxes — only computed widths,
/// positions and line structure change.
pub open spec fn skeleton_eq(a: FlowContext, b: FlowContext) -> bool {
    &&& b.d.children == a.d.children
    &&& b.d.parent == a.d.parent
    &&& b.d.node == a.d.node
    &&& (b.payload is Block <==> a.payload is Block)
    &&& (b.payload is Inline <==> a.payload is Inline)
    &&& (b.payload is Root <==> a.payload is Root)
    &&& (b.payload is Absolute <==> a.payload is Absolute)
    &&& (b.payload is Float <==> a.payload is Float)
    &&& (b.payload is InlineBlock <==> a.payload is InlineBlock)
    &&& (b.payload is Table <==> a.payload is Table)
    &&& b.spec_boxes().len() == a.spec_boxes().len()
    &&& forall|j: int|
        0 <= j < a.spec_boxes().len() ==> {
            let bb = #[trigger] b.spec_boxes()[j];
            let ab = a.spec_boxes()[j];
            bb.min_width == ab.min_width && bb.pref_width == ab.pref_width && bb.height
                == ab.height && bb.break_before == ab.break_before && bb.node == ab.node && bb.id
                == ab.id
        }
}

/// Two arenas whose nodes agree on linkage, variant and intrinsic box
/// attributes agree on well-formedness and on the shape the passes demand.
pub proof fn lemma_skeleton_preserves_shape(t1: FlowArena, t2: FlowArena)
    requires
        t1.wf(),
        t1.shape_ok(),
        t2@.len() == t1@.len(),
        forall|j: int| 0 <= j < t1@.len() ==> skeleton_eq(t1@[j], #[trigger] t2@[j]),
    ensures
        t2.wf(),
        t2.shape_ok(),
{
    assert forall|i: int, j: int|
        0 <= i < t2@.len() && 0 <= j < t2@[i].spec_boxes().len() implies (
    #[trigger] t2@[i].spec_boxes()[j]).wf() by {
        assert(skeleton_eq(t1@[i], t2@[i]));
        assert(t1@[i].spec_boxes()[j].wf());
    }
    assert forall|i: int| 0 <= i < t2@.len() implies (#[trigger] t2@[i]).participates() by {
        assert(skeleton_eq(t1@[i], t2@[i]));
        assert(t1@[i].participates());
    }
}

impl FlowArena {
    /// The shape the layout passes are defined for: only block, inline and
    /// root nodes; inline nodes are leaves; a root is unparented and has at
    /// most one child, whose widths it adopts.
    pub open spec fn shape_ok(self) -> bool {
        &&& self.all_participating()
        &&& self.inline_leaves()
        &&& forall|i: int|
            0 <= i < self@.len() && (#[trigger] self@[i]).is_root() ==> self@[i].d.children@.len()
                <= 1 && self@[i].d.parent is None
    }

    /// First pass: post-order width bubbling. Each node combines its
    /// children's bubbled widths into its own, per its variant's rule.
    /// Afterwards every node's minimum width is at most its preferred
    /// width, and every node satisfies its variant's combining rule.
    pub fn bubble_widths(&mut self, _ctx: &LayoutContext)
        requires
            old(self).wf(),
            old(self).shape_ok(),
        ensures
            final(self).wf(),
            final(self).shape_ok(),
            final(self)@.len() == old(self)@.len(),
            forall|j: int|
                0 <= j < old(self)@.len() ==> same_but_widths(
                    old(self)@[j],
                    #[trigger] final(self)@[j],
                ),
            forall|j: int| 0 <= j < final(self)@.len() ==> bubbled_at(final(self)@, j),
            // every node has min_width <= pref_width once widths bubbled
            forall|j: int|
                0 <= j < final(self)@.len() ==> (#[trigger] final(self)@[j]).d.min_width
                    <= final(self)@[j].d.pref_width,
    {
        let ghost orig = self@;
        let n = self.nodes.len();
        let mut i = n;
        while i > 0
            invariant
                self@.len() == n == orig.len(),
                i <= n,
                self.wf(),
                self.shape_ok(),
                old(self).wf(),
                old(self).shape_ok(),
                orig == old(self)@,
                forall|j: int| 0 <= j < i ==> self@[j] == orig[j],
                forall|j: int| i <= j < n ==> same_but_widths(orig[j], #[trigger] self@[j]),
                forall|j: int| i <= j < n ==> bubbled_at(self@, j),
                forall|j: int|
                    i <= j < n ==> (#[trigger] self@[j]).d.min_width <= self@[j].d.pref_width,
            decreases i,
        {
            i = i - 1;
            let ghost pre = self@;
            let (minw, prefw) = self.bubbled_widths_of(i);
            self.nodes[i].d.min_width = minw;
            self.nodes[i].d.pref_width = prefw;
            proof {
                let s = self@;
                let probe = FlowContext {
                    d: crate::flow::FlowData {
                        min_width: minw,
                        pref_width: prefw,
                        ..pre[i as int].d
                    },
                    payload: pre[i as int].payload,
                };
                assert(s =~= pre.update(i as int, probe));
                assert(bubbled_at(s, i as int));
                assert forall|j: int| i < j < n implies bubbled_at(s, j) by {
                    lemma_bubbled_local(pre, s, j);
                }
                lemma_skeleton_preserves_shape(*old(self), *self);
            }
        }
    }

    /// The bubbled widths of node `i`, computed from its children's
    /// already-bubbled widths and its own boxes, without writing them.
    fn bubbled_widths_of(&self, i: usize) -> (r: (u64, u64))
        requires
            self.wf(),
            self.shape_ok(),
            i < self@.len(),
            forall|k: int|
                0 <= k < self@[i as int].d.children@.len() ==> (#[trigger] self@[self@[i
                    as int].d.children@[k] as int]).d.min_width <= self@[self@[i
                    as int].d.children@[k] as int].d.pref_width,
        ensures
            ({
                let probe = FlowContext {
                    d: crate::flow::FlowData {
                        min_width: r.0,
                        pref_width: r.1,
                        ..self@[i as int].d
                    },
                    payload: self@[i as int].payload,
                };
                bubbled_at(self@.update(i as int, probe), i as int)
            }),
            r.0 <= r.1,
    {
        let ghost s = self@;
        match &self.nodes[i].payload {
            FlowPayload::Block(b) => {
                let mut minw: u64 = 0;
                let mut prefw: u64 = 0;
                let cn = self.nodes[i].d.children.len();
                let mut k: usize = 0;
                while k < cn
                    invariant
                        self.wf(),
                        s == self@,
                        i < s.len(),
                        cn == s[i as int].d.children@.len(),
                        k <= cn,
                        minw == seq_max(child_mins(s, i as int).take(k as int)),
                        prefw == seq_max(child_prefs(s, i as int).take(k as int)),
                        minw <= prefw,
                        forall|k2: int|
                            0 <= k2 < cn ==> (#[trigger] s[s[i as int].d.children@[k2] as int]).d.min_width
                                <= s[s[i as int].d.children@[k2] as int].d.pref_width,
                    decreases cn - k,
                {
                    let c = self.nodes[i].d.children[k];
                    let cmin = self.nodes[c].d.min_width;
                    let cpref = self.nodes[c].d.pref_width;
                    proof {
                        lemma_seq_max_push(child_mins(s, i as int).take(k as int), cmin);
                        lemma_seq_max_push(child_prefs(s, i as int).take(k as int), cpref);
                        assert(child_mins(s, i as int).take(k + 1) =~= child_mins(
                            s,
                            i as int,
                        ).take(k as int).push(cmin));
                        assert(child_prefs(s, i as int).take(k + 1) =~= child_prefs(
                            s,
                            i as int,
                        ).take(k as int).push(cpref));
                    }
                    minw = max_au_exec(minw, cmin);
                    prefw = max_au_exec(prefw, cpref);
                    k = k + 1;
                }
                proof {
                    assert(child_mins(s, i as int).take(cn as int) =~= child_mins(s, i as int));
                    assert(child_prefs(s, i as int).take(cn as int) =~= child_prefs(s, i as int));
                }
                let (bmin, bpref) = match &b.render_box {
                    Some(bx) => (bx.min_width, bx.pref_width),
                    None => (0u64, 0u64),
                };
                proof {
                    if b.render_box is Some {
                        assert(s[i as int].spec_boxes()[0].wf());
                    }
                }
                let rmin = max_au_exec(minw, bmin);
                let rpref = max_au_exec(prefw, bpref);
                proof {
                    lemma_bubbled_probe(s, i as int, rmin, rpref);
                }
                (rmin, rpref)
            },
            FlowPayload::Inline(inl) => {
                let bn = inl.boxes.len();
                let mut minw: u64 = 0;
                let mut best: u64 = 0;
                let mut cur: u64 = 0;
                let mut j: usize = 0;
                while j < bn
                    invariant
                        bn == inl.boxes@.len(),
                        j <= bn,
                        minw == seq_max(box_mins(inl.boxes@).take(j as int)),
                        (best, cur) == inline_pref_state(inl.boxes@.take(j as int)),
                        forall|j2: int| 0 <= j2 < bn ==> (#[trigger] inl.boxes@[j2]).wf(),
                        minw <= best,
                    decreases bn - j,
                {
                    let bx = &inl.boxes[j];
                    proof {
                        lemma_seq_max_push(box_mins(inl.boxes@).take(j as int), bx.min_width);
                        assert(box_mins(inl.boxes@).take(j + 1) =~= box_mins(
                            inl.boxes@,
                        ).take(j as int).push(bx.min_width));
                        assert(inl.boxes@.take(j + 1).drop_last() =~= inl.boxes@.take(j as int));
                        assert(inl.boxes@.take(j + 1).last() == inl.boxes@[j as int]);
                        lemma_sat_add_bounds(cur, bx.pref_width);
                    }
                    minw = max_au_exec(minw, bx.min_width);
                    let cur2 = if bx.break_before {
                        bx.pref_width
                    } else {
                        sat_add_exec(cur, bx.pref_width)
                    };
                    best = max_au_exec(best, cur2);
                    cur = cur2;
                    j = j + 1;
                }
                proof {
                    assert(box_mins(inl.boxes@).take(bn as int) =~= box_mins(inl.boxes@));
                    assert(inl.boxes@.take(bn as int) =~= inl.boxes@);
                    lemma_bubbled_probe(s, i as int, minw, best);
                }
                (minw, best)
            },
            FlowPayload::Root(_) => {
                let r = if self.nodes[i].d.children.len() > 0 {
                    let c = self.nodes[i].d.children[0];
                    (self.nodes[c].d.min_width, self.nodes[c].d.pref_width)
                } else {
                    (0u64, 0u64)
                };
                proof {
                    lemma_bubbled_probe(s, i as int, r.0, r.1);
                }
                r
            },
            _ => unreached(),
        }
    }
}

/// `bubbled_at(s, i)` reads only node `i`'s widths, tag and boxes, its
/// child list, and its children's widths: two arenas agreeing on those
/// agree on `bubbled_at`.
pub proof fn lemma_bubbled_local(a: Seq<FlowContext>, b: Seq<FlowContext>, i: int)
    requires
        a.len() == b.len(),
        0 <= i < a.len(),
        b[i].spec_tag() == a[i].spec_tag(),
        b[i].spec_boxes() == a[i].spec_boxes(),
        b[i].d.children == a[i].d.children,
        b[i].d.min_width == a[i].d.min_width,
        b[i].d.pref_width == a[i].d.pref_width,
        forall|k: int|
            0 <= k < a[i].d.children@.len() ==> 0 <= #[trigger] a[i].d.children@[k] < a.len() && b[a[i].d.children@[k] as int].d.min_width
                == a[a[i].d.children@[k] as int].d.min_width && b[a[i].d.children@[k] as int].d.pref_width
                == a[a[i].d.children@[k] as int].d.pref_width,
    ensures
        bubbled_at(b, i) == bubbled_at(a, i),
{
    assert(child_mins(b, i) =~= child_mins(a, i));
    assert(child_prefs(b, i) =~= child_prefs(a, i));
    match a[i].payload {
        FlowPayload::Block(ab) => {
            match b[i].payload {
                FlowPayload::Block(bb) => {
                    if ab.render_box is Some {
                        assert(a[i].spec_boxes()[0] == ab.render_box->Some_0);
                        assert(bb.render_box is Some);
                        assert(b[i].spec_boxes()[0] == bb.render_box->Some_0);
                    } else {
                        assert(a[i].spec_boxes().len() == 0);
                        assert(bb.render_box is None);
                    }
                },
                _ => {
                    assert(false);
                },
            }
        },
        FlowPayload::Inline(ai) => {
            match b[i].payload {
                FlowPayload::Inline(bi) => {
                    assert(bi.boxes@ == ai.boxes@);
                },
                _ => {
                    assert(false);
                },
            }
        },
        _ => {},
    }
}

/// After writing the candidate widths into node `i`, the combining rule
/// holds there, because the rule reads the children (untouched) and the
/// node's own payload (untouched).
proof fn lemma_bubbled_probe(s: Seq<FlowContext>, i: int, minw: u64, prefw: u64)
    requires
        0 <= i < s.len(),
        forall|k: int|
            0 <= k < s[i].d.children@.len() ==> i < #[trigger] s[i].d.children@[k] < s.len(),
        ({
            let probe = FlowContext {
                d: crate::flow::FlowData { min_width: minw, pref_width: prefw, ..s[i].d },
                payload: s[i].payload,
            };
            match s[i].payload {
                FlowPayload::Block(b) => minw == max_au(
                    seq_max(child_mins(s, i)),
                    opt_box_min(b.render_box),
                ) && prefw == max_au(seq_max(child_prefs(s, i)), opt_box_pref(b.render_box)),
                FlowPayload::Inline(inl) => minw == inline_min(inl.boxes@) && prefw == inline_pref(
                    inl.boxes@,
                ),
                FlowPayload::Root(_) => {
                    if s[i].d.children@.len() > 0 {
                        minw == s[s[i].d.children@[0] as int].d.min_width && prefw == s[s[i].d.children@[0] as int].d.pref_width
                    } else {
                        minw == 0 && prefw == 0
                    }
                },
                _ => true,
            }
        }),
    ensures
        ({
            let probe = FlowContext {
                d: crate::flow::FlowData { min_width: minw, pref_width: prefw, ..s[i].d },
                payload: s[i].payload,
            };
            bubbled_at(s.update(i, probe), i)
        }),
{
    let probe = FlowContext {
        d: crate::flow::FlowData { min_width: minw, pref_width: prefw, ..s[i].d },
        payload: s[i].payload,
    };
    let t = s.update(i, probe);
    lemma_bubbled_local_widths(s, t, i, minw, prefw);
}

/// How a node resolves its own width from the width made available by its
/// parent (or the viewport) and its bubbled preferences: take the
/// available width, but no more than preferred and no less than minimum.
pub open spec fn resolve_width(avail: u64, minw: u64, prefw: u64) -> u64 {
    max_au(
        minw,
        if avail <= prefw {
            avail
        } else {
            prefw
        },
    )
}

fn resolve_width_exec(avail: u64, minw: u64, prefw: u64) -> (r: u64)
    ensures
        r == resolve_width(avail, minw, prefw),
{
    max_au_exec(
        minw,
        if avail <= prefw {
            avail
        } else {
            prefw
        },
    )
}

/// The canonical line-breaking policy: boxes fill a line greedily, in
/// order; a box opens a new line when it carries a forced break or when it
/// would push the open line's preferred width over `w`. The first box
/// always opens line 0; an oversized box still gets a line of its own.
/// The result is the ordered sequence of each line's first box index.
pub open spec fn packed_lines(boxes: Seq<RenderBox>, w: u64) -> Seq<usize>
    decreases boxes.len(),
{
    if boxes.len() == 0 {
        Seq::empty()
    } else {
        let prev = packed_lines(boxes.drop_last(), w);
        let j = boxes.len() - 1;
        let b = boxes.last();
        if prev.len() == 0 {
            seq![0usize]
        } else {
            let start = prev.last();
            let cur = sat_sum(box_prefs(boxes).subrange(start as int, j as int));
            if b.break_before || sat_add(cur, b.pref_width) > w {
                prev.push(j as usize)
            } else {
                prev
            }
        }
    }
}

/// Valid line structure over `n` boxes: line starts are strictly
/// increasing, in bounds, and line 0 starts at box 0; no boxes, no lines.
pub open spec fn lines_wf(lines: Seq<usize>, n: int) -> bool {
    &&& n > 0 ==> lines.len() > 0 && lines[0] == 0
    &&& n == 0 ==> lines.len() == 0
    &&& forall|l: int| 0 <= l < lines.len() ==> #[trigger] lines[l] < n
    &&& forall|l: int| 0 <= l < lines.len() - 1 ==> #[trigger] lines[l] < lines[l + 1]
}

/// The canonical packing always yields a valid line structure.
pub proof fn lemma_packed_lines_wf(boxes: Seq<RenderBox>, w: u64)
    requires
        boxes.len() <= usize::MAX,
    ensures
        lines_wf(packed_lines(boxes, w), boxes.len() as int),
    decreases boxes.len(),
{
    let n = boxes.len() as int;
    let lines = packed_lines(boxes, w);
    if boxes.len() > 0 {
        lemma_packed_lines_wf(boxes.drop_last(), w);
        let prev = packed_lines(boxes.drop_last(), w);
        let j = n - 1;
        if prev.len() == 0 {
            assert(lines =~= seq![0usize]);
            assert(lines[0] == 0);
        } else {
            assert(n - 1 > 0);
            assert(prev[0] == 0);
            assert(forall|l: int| 0 <= l < prev.len() ==> #[trigger] prev[l] < n - 1);
            if lines.len() == prev.len() + 1 {
                assert(lines == prev.push(j as usize));
                assert forall|l: int| 0 <= l < lines.len() implies #[trigger] lines[l] < n by {
                    if l < prev.len() {
                        assert(lines[l] == prev[l]);
                    }
                }
                assert forall|l: int| 0 <= l < lines.len() - 1 implies #[trigger] lines[l]
                    < lines[l + 1] by {
                    if l < prev.len() - 1 {
                        assert(lines[l] == prev[l] && lines[l + 1] == prev[l + 1]);
                    } else {
                        assert(lines[l] == prev[l] && lines[l + 1] == j as usize);
                        assert(prev[l] < n - 1);
                    }
                }
            } else {
                assert(lines == prev);
            }
        }
    }
}

/// Width assignment is complete at node `i`: an unparented node was given
/// the viewport width, the node's own width is resolved from what it was
/// given, every child has been handed the node's resolved width, and an
/// inline node's line boxes follow the canonical packing at that width.
pub open spec fn widths_assigned_at(s: Seq<FlowContext>, i: int, screen_w: u64) -> bool {
    &&& s[i].d.parent is None ==> s[i].d.avail_width == screen_w
    &&& s[i].d.position.size.width == resolve_width(
        s[i].d.avail_width,
        s[i].d.min_width,
        s[i].d.pref_width,
    )
    &&& forall|k: int|
        0 <= k < s[i].d.children@.len() ==> s[#[trigger] s[i].d.children@[k] as int].d.avail_width
            == s[i].d.position.size.width
    &&& (s[i].payload matches FlowPayload::Inline(inl) ==> inl.lines@ == packed_lines(
        inl.boxes@,
        s[i].d.position.size.width,
    ))
}

/// Everything about a node except its available width.
pub open spec fn same_but_avail(a: FlowContext, b: FlowContext) -> bool {
    &&& b.d.node == a.d.node
    &&& b.d.parent == a.d.parent
    &&& b.d.children == a.d.children
    &&& b.d.min_width == a.d.min_width
    &&& b.d.pref_width == a.d.pref_width
    &&& b.d.position == a.d.position
    &&& b.payload == a.payload
}

/// What width assignment leaves alone in a node.
pub open spec fn assign_keeps(a: FlowContext, b: FlowContext) -> bool {
    &&& skeleton_eq(a, b)
    &&& b.spec_tag() == a.spec_tag()
    &&& b.spec_boxes() == a.spec_boxes()
    &&& b.d.min_width == a.d.min_width
    &&& b.d.pref_width == a.d.pref_width
    &&& b.d.position.origin == a.d.position.origin
    &&& b.d.position.size.height == a.d.position.size.height
}

/// Helper for `lemma_bubbled_probe`: the children of `i` sit strictly
/// after `i`, so the update at `i` leaves their widths alone.
proof fn lemma_bubbled_local_widths(s: Seq<FlowContext>, t: Seq<FlowContext>, i: int, minw: u64, prefw: u64)
    requires
        s.len() == t.len(),
        0 <= i < s.len(),
        t[i].payload == s[i].payload,
        t[i].d.children == s[i].d.children,
        t[i].d.min_width == minw,
        t[i].d.pref_width == prefw,
        forall|j: int| 0 <= j < s.len() && j != i ==> t[j] == s[j],
        forall|k: int|
            0 <= k < s[i].d.children@.len() ==> i < #[trigger] s[i].d.children@[k] < s.len(),
    ensures
        child_mins(t, i) == child_mins(s, i),
        child_prefs(t, i) == child_prefs(s, i),
{
    assert(child_mins(t, i) =~= child_mins(s, i));
    assert(child_prefs(t, i) =~= child_prefs(s, i));
}

/// No child of a block or root parent is wider than its parent: the state
/// width assignment establishes and height assignment relies on.
pub open spec fn widths_fit(s: Seq<FlowContext>) -> bool {
    forall|i: int, k: int|
        0 <= i < s.len() && 0 <= k < s[i].d.children@.len() ==> s[#[trigger] s[i].d.children@[k] as int].d.position.size.width
            <= s[i].d.position.size.width
}

/// Node `i`'s line structure is valid for its boxes, if it is inline.
pub open spec fn lines_ok_at(s: Seq<FlowContext>, i: int) -> bool {
    s[i].payload matches FlowPayload::Inline(inl) ==> lines_wf(
        inl.lines@,
        inl.boxes@.len() as int,
    )
}

/// Every inline node's line structure is valid for its boxes.
pub open spec fn lines_ok(s: Seq<FlowContext>) -> bool {
    forall|i: int| 0 <= i < s.len() ==> #[trigger] lines_ok_at(s, i)
}

/// The intrinsic heights of a box sequence, in order.
pub open spec fn box_heights(boxes: Seq<RenderBox>) -> Seq<u64> {
    boxes.map(|j: int, b: RenderBox| b.height)
}

/// Where line `l` ends: at the start of the next line, or at box `n`.
pub open spec fn line_end(lines: Seq<usize>, l: int, n: int) -> int {
    if l + 1 < lines.len() {
        lines[l + 1] as int
    } else {
        n
    }
}

/// The height of each line: the tallest box on it. `hs` holds the box
/// heights in box order.
pub open spec fn line_heights(hs: Seq<u64>, lines: Seq<usize>) -> Seq<u64> {
    Seq::new(
        lines.len(),
        |l: int| seq_max(hs.subrange(lines[l] as int, line_end(lines, l, hs.len() as int))),
    )
}

/// A box, apart from its resolved position.
pub open spec fn same_box_but_position(a: RenderBox, b: RenderBox) -> bool {
    &&& b.id == a.id
    &&& b.node == a.node
    &&& b.min_width == a.min_width
    &&& b.pref_width == a.pref_width
    &&& b.height == a.height
    &&& b.break_before == a.break_before
}

/// Every box sits in its line box: on line `l`, box `j` takes its
/// preferred width, to the right of the boxes before it on the line, at
/// the line's vertical offset.
pub open spec fn inline_placed(boxes: Seq<RenderBox>, lines: Seq<usize>) -> bool {
    forall|l: int, j: int|
        #![trigger lines[l], boxes[j]]
        0 <= l < lines.len() && lines[l] <= j < line_end(lines, l, boxes.len() as int)
            ==> boxes[j].position == (Rect {
            origin: Point2D {
                x: sat_sum(box_prefs(boxes).subrange(lines[l] as int, j)),
                y: sat_sum(line_heights(box_heights(boxes), lines).take(l)),
            },
            size: Size2D { width: boxes[j].pref_width, height: boxes[j].height },
        })
}

/// Height assignment is complete for a block or root node with box `bx`:
/// its children are stacked vertically in order, its height covers both
/// its own box and the stack, and its box spans its width at the origin.
pub open spec fn stacked_at(s: Seq<FlowContext>, i: int, bx: Option<RenderBox>) -> bool {
    &&& s[i].d.position.size.height == max_au(
        opt_box_height(bx),
        sat_sum(child_heights(s, i)),
    )
    &&& forall|k: int|
        0 <= k < s[i].d.children@.len() ==> s[#[trigger] s[i].d.children@[k] as int].d.position.origin
            == (Point2D { x: 0u64, y: sat_sum(child_heights(s, i).take(k)) })
    &&& (bx matches Some(b) ==> b.position == (Rect {
        origin: Point2D { x: 0u64, y: 0u64 },
        size: Size2D { width: s[i].d.position.size.width, height: b.height },
    }))
}

/// Height assignment is complete at node `i`, per its variant's rule.
pub open spec fn heights_done_at(s: Seq<FlowContext>, i: int) -> bool {
    match s[i].payload {
        FlowPayload::Block(b) => stacked_at(s, i, b.render_box),
        FlowPayload::Root(r) => stacked_at(s, i, r.render_box) && s[i].d.position.origin == (
        Point2D { x: 0u64, y: 0u64 }),
        FlowPayload::Inline(inl) => {
            &&& s[i].d.position.size.height == sat_sum(
                line_heights(box_heights(inl.boxes@), inl.lines@),
            )
            &&& inline_placed(inl.boxes@, inl.lines@)
        },
        _ => true,
    }
}

/// Everything about a node except its position origin.
pub open spec fn same_but_origin(a: FlowContext, b: FlowContext) -> bool {
    &&& b.d.node == a.d.node
    &&& b.d.parent == a.d.parent
    &&& b.d.children == a.d.children
    &&& b.d.min_width == a.d.min_width
    &&& b.d.pref_width == a.d.pref_width
    &&& b.d.avail_width == a.d.avail_width
    &&& b.d.position.size == a.d.position.size
    &&& b.payload == a.payload
}

/// What height assignment leaves alone in a node.
pub open spec fn heights_keeps(a: FlowContext, b: FlowContext) -> bool {
    &&& skeleton_eq(a, b)
    &&& b.spec_tag() == a.spec_tag()
    &&& b.d.min_width == a.d.min_width
    &&& b.d.pref_width == a.d.pref_width
    &&& b.d.avail_width == a.d.avail_width
    &&& b.d.position.size.width == a.d.position.size.width
    &&& (a.payload matches FlowPayload::Inline(ai) ==> (b.payload matches FlowPayload::Inline(bi)
        && bi.lines@ == ai.lines@))
}

/// `heights_done_at(s, j)` reads only node `j`'s payload, size and child
/// list (and, for a root, its origin), and its children's positions.
pub proof fn lemma_heights_local(a: Seq<FlowContext>, b: Seq<FlowContext>, j: int)
    requires
        a.len() == b.len(),
        0 <= j < a.len(),
        b[j].payload == a[j].payload,
        b[j].d.children == a[j].d.children,
        b[j].d.position.size == a[j].d.position.size,
        a[j].payload is Root ==> b[j].d.position.origin == a[j].d.position.origin,
        forall|k: int|
            0 <= k < a[j].d.children@.len() ==> 0 <= #[trigger] a[j].d.children@[k] < a.len() && b[a[j].d.children@[k] as int].d.position
                == a[a[j].d.children@[k] as int].d.position,
    ensures
        heights_done_at(b, j) == heights_done_at(a, j),
{
    assert(child_heights(b, j) =~= child_heights(a, j));
}
/// (where not defeated by an oversized box), per the canonical policy.
fn pack_lines(boxes: &Vec<RenderBox>, w: u64) -> (lines: Vec<usize>)
    ensures
        lines@ == packed_lines(boxes@, w),
{
    let n = boxes.len();
    let mut lines: Vec<usize> = Vec::new();
    let mut start: usize = 0;
    let mut cur: u64 = 0;
    let mut j: usize = 0;
    while j < n
        invariant
            n == boxes@.len(),
            j <= n,
            lines@ == packed_lines(boxes@.take(j as int), w),
            j == 0 ==> lines@.len() == 0,
            j > 0 ==> lines@.len() > 0 && lines@.last() == start && start < j && cur == sat_sum(
                box_prefs(boxes@).subrange(start as int, j as int),
            ),
        decreases n - j,
    {
        let b = boxes[j];
        proof {
            assert(boxes@.take(j + 1).drop_last() =~= boxes@.take(j as int));
            assert(boxes@.take(j + 1).last() == boxes@[j as int]);
            if j > 0 {
                assert(box_prefs(boxes@.take(j + 1)).subrange(start as int, j as int)
                    =~= box_prefs(boxes@).subrange(start as int, j as int));
            }
            // the saturating sum of the one-box line [j, j+1)
            let single = box_prefs(boxes@).subrange(j as int, j + 1);
            assert(single.len() == 1);
            assert(single.drop_last() =~= Seq::<u64>::empty());
            assert(single.last() == boxes@[j as int].pref_width);
            assert(sat_sum(single.drop_last()) == 0);
            assert(sat_sum(single) == sat_add(0, boxes@[j as int].pref_width));
            assert(sat_sum(single) == boxes@[j as int].pref_width);
        }
        if lines.len() == 0 {
            lines.push(0);
            start = 0;
            cur = b.pref_width;
            proof {
                assert(lines@ =~= packed_lines(boxes@.take(j + 1), w));
                assert(box_prefs(boxes@).subrange(0, j + 1) =~= box_prefs(boxes@).subrange(
                    j as int,
                    j + 1,
                ));
            }
        } else {
            let over = sat_add_exec(cur, b.pref_width) > w;
            if b.break_before || over {
                lines.push(j);
                start = j;
                cur = b.pref_width;
                proof {
                    assert(lines@ =~= packed_lines(boxes@.take(j + 1), w));
                }
            } else {
                cur = sat_add_exec(cur, b.pref_width);
                proof {
                    assert(lines@ =~= packed_lines(boxes@.take(j + 1), w));
                    assert(box_prefs(boxes@).subrange(start as int, j + 1).drop_last()
                        =~= box_prefs(boxes@).subrange(start as int, j as int));
                    assert(box_prefs(boxes@).subrange(start as int, j + 1).last() == boxes@[j
                        as int].pref_width);
                }
            }
        }
        j = j + 1;
    }
    proof {
        assert(boxes@.take(n as int) =~= boxes@);
    }
    lines
}

/// Line starts never decrease along the line sequence.
proof fn lemma_lines_mono(lines: Seq<usize>, a: int, b: int)
    requires
        forall|l: int| 0 <= l < lines.len() - 1 ==> #[trigger] lines[l] < lines[l + 1],
        0 <= a <= b < lines.len(),
    ensures
        lines[a] <= lines[b],
    decreases b - a,
{
    if a < b {
        lemma_lines_mono(lines, a, b - 1);
    }
}

/// Writing the resolved position of box `j2` on line `l` preserves the
/// placement of every earlier box and extends line `l`'s placed prefix.
proof fn lemma_place_one_box(
    before: Seq<RenderBox>,
    after: Seq<RenderBox>,
    lines: Seq<usize>,
    gp: Seq<u64>,
    gh: Seq<u64>,
    lhs: Seq<u64>,
    b0: Seq<RenderBox>,
    l: int,
    start: int,
    end: int,
    j2: int,
    x: u64,
    y: u64,
)
    requires
        after.len() == before.len() == b0.len(),
        lines_wf(lines, before.len() as int),
        box_prefs(before) == gp,
        box_heights(before) == gh,
        lhs == line_heights(gh, lines),
        0 <= l < lines.len(),
        start == lines[l],
        end == line_end(lines, l, before.len() as int),
        start <= j2 < end,
        forall|j: int| 0 <= j < before.len() && j != j2 ==> #[trigger] after[j] == before[j],
        after[j2].position == (Rect {
            origin: Point2D { x, y },
            size: Size2D { width: gp[j2], height: gh[j2] },
        }),
        same_box_but_position(before[j2], after[j2]),
        forall|j: int| 0 <= j < b0.len() ==> same_box_but_position(b0[j], #[trigger] before[j]),
        x == sat_sum(gp.subrange(start, j2)),
        y == sat_sum(lhs.take(l)),
        forall|l2: int, j3: int|
            #![trigger lines[l2], before[j3]]
            0 <= l2 < l && lines[l2] <= j3 < line_end(lines, l2, before.len() as int)
                ==> before[j3].position == (Rect {
                origin: Point2D {
                    x: sat_sum(gp.subrange(lines[l2] as int, j3)),
                    y: sat_sum(lhs.take(l2)),
                },
                size: Size2D { width: gp[j3], height: gh[j3] },
            }),
        forall|j3: int|
            start <= j3 < j2 ==> (#[trigger] before[j3]).position == (Rect {
                origin: Point2D {
                    x: sat_sum(gp.subrange(start, j3)),
                    y: sat_sum(lhs.take(l)),
                },
                size: Size2D { width: gp[j3], height: gh[j3] },
            }),
    ensures
        box_prefs(after) == gp,
        box_heights(after) == gh,
        forall|j: int| 0 <= j < b0.len() ==> same_box_but_position(b0[j], #[trigger] after[j]),
        forall|l2: int, j3: int|
            #![trigger lines[l2], after[j3]]
            0 <= l2 < l && lines[l2] <= j3 < line_end(lines, l2, after.len() as int)
                ==> after[j3].position == (Rect {
                origin: Point2D {
                    x: sat_sum(gp.subrange(lines[l2] as int, j3)),
                    y: sat_sum(lhs.take(l2)),
                },
                size: Size2D { width: gp[j3], height: gh[j3] },
            }),
        forall|j3: int|
            start <= j3 < j2 + 1 ==> (#[trigger] after[j3]).position == (Rect {
                origin: Point2D {
                    x: sat_sum(gp.subrange(start, j3)),
                    y: sat_sum(lhs.take(l)),
                },
                size: Size2D { width: gp[j3], height: gh[j3] },
            }),
{
    assert(box_prefs(after) =~= gp);
    assert(box_heights(after) =~= gh);
    assert forall|l2: int, j3: int|
        #![trigger lines[l2], after[j3]]
        0 <= l2 < l && lines[l2] <= j3 < line_end(lines, l2, after.len() as int) implies after[j3].position
        == (Rect {
        origin: Point2D {
            x: sat_sum(gp.subrange(lines[l2] as int, j3)),
            y: sat_sum(lhs.take(l2)),
        },
        size: Size2D { width: gp[j3], height: gh[j3] },
    }) by {
        // boxes on earlier lines end before line l starts, so the write
        // at j2 did not touch them
        assert(line_end(lines, l2, before.len() as int) <= lines[l]) by {
            lemma_lines_mono(lines, l2 + 1, l);
        }
        assert(j3 != j2);
        assert(after[j3] == before[j3]);
    }
}

/// Packs the boxes of one inline flow into its fixed line boxes and
/// returns the flow's resolved height: the total of the line heights,
/// where each line is as tall as its tallest box.
#[verifier::rlimit(100)]
#[verifier::spinoff_prover]
fn place_inline_boxes(inl: &mut crate::flow::InlineFlowData) -> (h: u64)
    requires
        lines_wf(old(inl).lines@, old(inl).boxes@.len() as int),
    ensures
        final(inl).lines@ == old(inl).lines@,
        final(inl).boxes@.len() == old(inl).boxes@.len(),
        forall|j: int|
            0 <= j < old(inl).boxes@.len() ==> same_box_but_position(
                old(inl).boxes@[j],
                #[trigger] final(inl).boxes@[j],
            ),
        h == sat_sum(line_heights(box_heights(final(inl).boxes@), final(inl).lines@)),
        inline_placed(final(inl).boxes@, final(inl).lines@),
{
    let ghost b0 = old(inl).boxes@;
    let ghost gp = box_prefs(old(inl).boxes@);
    let ghost gh = box_heights(old(inl).boxes@);
    let ghost lines0 = old(inl).lines@;
    let ghost lhs = line_heights(gh, lines0);
    let bn = inl.boxes.len();
    let ln = inl.lines.len();
    let mut y: u64 = 0;
    let mut l: usize = 0;
    while l < ln
        invariant
            bn == inl.boxes@.len() == b0.len(),
            ln == lines0.len(),
            inl.lines@ == lines0,
            lines_wf(lines0, bn as int),
            box_prefs(inl.boxes@) == gp,
            box_heights(inl.boxes@) == gh,
            forall|j: int|
                0 <= j < bn ==> same_box_but_position(b0[j], #[trigger] inl.boxes@[j]),
            lhs == line_heights(gh, lines0),
            l <= ln,
            y == sat_sum(lhs.take(l as int)),
            forall|l2: int, j: int|
                #![trigger lines0[l2], inl.boxes@[j]]
                0 <= l2 < l && lines0[l2] <= j < line_end(lines0, l2, bn as int)
                    ==> inl.boxes@[j].position == (Rect {
                    origin: Point2D {
                        x: sat_sum(gp.subrange(lines0[l2] as int, j)),
                        y: sat_sum(lhs.take(l2)),
                    },
                    size: Size2D { width: gp[j], height: gh[j] },
                }),
        decreases ln - l,
    {
        let start = inl.lines[l];
        let end = if l + 1 < ln {
            inl.lines[l + 1]
        } else {
            bn
        };
        proof {
            assert(lines0[l as int] < bn);
            if l + 1 < ln {
                assert(lines0[l as int] < lines0[l + 1]);
            }
            assert(start < end <= bn);
            assert(line_end(lines0, l as int, bn as int) == end);
        }
        // the line is as tall as its tallest box
        let mut m: u64 = 0;
        let mut j = start;
        while j < end
            invariant
                bn == inl.boxes@.len(),
                box_heights(inl.boxes@) == gh,
                start <= j <= end,
                end <= bn,
                m == seq_max(gh.subrange(start as int, j as int)),
            decreases end - j,
        {
            let bxh = inl.boxes[j].height;
            proof {
                assert(gh[j as int] == bxh);
                assert(gh.subrange(start as int, j + 1).drop_last() =~= gh.subrange(
                    start as int,
                    j as int,
                ));
                assert(gh.subrange(start as int, j + 1).last() == gh[j as int]);
                lemma_seq_max_push(gh.subrange(start as int, j as int), bxh);
                assert(gh.subrange(start as int, j + 1) =~= gh.subrange(
                    start as int,
                    j as int,
                ).push(bxh));
            }
            m = max_au_exec(m, bxh);
            j = j + 1;
        }
        proof {
            assert(m == lhs[l as int]);
        }
        // place the line's boxes left to right at the line's offset
        let mut x: u64 = 0;
        let mut j2 = start;
        while j2 < end
            invariant
                bn == inl.boxes@.len() == b0.len(),
                ln == lines0.len(),
                inl.lines@ == lines0,
                lines_wf(lines0, bn as int),
                box_prefs(inl.boxes@) == gp,
                box_heights(inl.boxes@) == gh,
                forall|j3: int|
                    0 <= j3 < bn ==> same_box_but_position(b0[j3], #[trigger] inl.boxes@[j3]),
                lhs == line_heights(gh, lines0),
                l < ln,
                start == lines0[l as int],
                end == line_end(lines0, l as int, bn as int),
                start <= j2 <= end,
                end <= bn,
                y == sat_sum(lhs.take(l as int)),
                x == sat_sum(gp.subrange(start as int, j2 as int)),
                forall|l2: int, j3: int|
                    #![trigger lines0[l2], inl.boxes@[j3]]
                    0 <= l2 < l && lines0[l2] <= j3 < line_end(lines0, l2, bn as int)
                        ==> inl.boxes@[j3].position == (Rect {
                        origin: Point2D {
                            x: sat_sum(gp.subrange(lines0[l2] as int, j3)),
                            y: sat_sum(lhs.take(l2)),
                        },
                        size: Size2D { width: gp[j3], height: gh[j3] },
                    }),
                forall|j3: int|
                    start <= j3 < j2 ==> (#[trigger] inl.boxes@[j3]).position == (Rect {
                        origin: Point2D {
                            x: sat_sum(gp.subrange(start as int, j3)),
                            y: sat_sum(lhs.take(l as int)),
                        },
                        size: Size2D { width: gp[j3], height: gh[j3] },
                    }),
            decreases end - j2,
        {
            let ghost before = inl.boxes@;
            let bw = inl.boxes[j2].pref_width;
            let bxh = inl.boxes[j2].height;
            inl.boxes[j2].position = Rect {
                origin: Point2D { x, y },
                size: Size2D { width: bw, height: bxh },
            };
            proof {
                assert(gp[j2 as int] == bw);
                assert(gh[j2 as int] == bxh);
                lemma_place_one_box(
                    before,
                    inl.boxes@,
                    lines0,
                    gp,
                    gh,
                    lhs,
                    b0,
                    l as int,
                    start as int,
                    end as int,
                    j2 as int,
                    x,
                    y,
                );
                assert(gp.subrange(start as int, j2 + 1).drop_last() =~= gp.subrange(
                    start as int,
                    j2 as int,
                ));
                assert(gp.subrange(start as int, j2 + 1).last() == gp[j2 as int]);
                lemma_sat_sum_push(gp.subrange(start as int, j2 as int), bw);
                assert(gp.subrange(start as int, j2 + 1) =~= gp.subrange(
                    start as int,
                    j2 as int,
                ).push(bw));
            }
            x = sat_add_exec(x, bw);
            j2 = j2 + 1;
        }
        proof {
            assert(lhs.take(l + 1).drop_last() =~= lhs.take(l as int));
            assert(lhs.take(l + 1).last() == lhs[l as int]);
            lemma_sat_sum_push(lhs.take(l as int), m);
            assert(lhs.take(l + 1) =~= lhs.take(l as int).push(m));
            // lines up to and including l are now placed
            assert forall|l2: int, j3: int|
                #![trigger lines0[l2], inl.boxes@[j3]]
                0 <= l2 < l + 1 && lines0[l2] <= j3 < line_end(
                    lines0,
                    l2,
                    bn as int,
                ) implies inl.boxes@[j3].position == (Rect {
                origin: Point2D {
                    x: sat_sum(gp.subrange(lines0[l2] as int, j3)),
                    y: sat_sum(lhs.take(l2)),
                },
                size: Size2D { width: gp[j3], height: gh[j3] },
            }) by {
                if l2 == l {
                    assert(start <= j3 < end);
                }
            }
        }
        y = sat_add_exec(y, m);
        l = l + 1;
    }
    proof {
        assert(lhs.take(ln as int) =~= lhs);
        assert forall|l2: int, j3: int|
            #![trigger lines0[l2], inl.boxes@[j3]]
            0 <= l2 < lines0.len() && lines0[l2] <= j3 < line_end(
                lines0,
                l2,
                inl.boxes@.len() as int,
            ) implies inl.boxes@[j3].position == (Rect {
            origin: Point2D {
                x: sat_sum(box_prefs(inl.boxes@).subrange(lines0[l2] as int, j3)),
                y: sat_sum(line_heights(box_heights(inl.boxes@), lines0).take(l2)),
            },
            size: Size2D { width: inl.boxes@[j3].pref_width, height: inl.boxes@[j3].height },
        }) by {
            assert(same_box_but_position(b0[j3], inl.boxes@[j3]));
        }
    }
    y
}

impl FlowArena {
    /// Second pass: pre-order width assignment. A node first resolves its
    /// own width from the width its parent made available (the viewport
    /// width for an unparented node) and its bubbled preferences, then
    /// hands its resolved width to each child; an inline node additionally
    /// fixes its line boxes at its resolved width. Afterwards no child of
    /// a block or root parent is wider than the parent.
    pub fn assign_widths(&mut self, ctx: &LayoutContext)
        requires
            old(self).wf(),
            old(self).shape_ok(),
            forall|j: int| 0 <= j < old(self)@.len() ==> bubbled_at(old(self)@, j),
        ensures
            final(self).wf(),
            final(self).shape_ok(),
            final(self)@.len() == old(self)@.len(),
            forall|j: int|
                0 <= j < old(self)@.len() ==> assign_keeps(
                    old(self)@[j],
                    #[trigger] final(self)@[j],
                ),
            forall|j: int| 0 <= j < final(self)@.len() ==> bubbled_at(final(self)@, j),
            forall|j: int|
                0 <= j < final(self)@.len() ==> widths_assigned_at(
                    final(self)@,
                    j,
                    ctx.screen.width,
                ),
            // every child's assigned width fits its parent's resolved width
            widths_fit(final(self)@),
            lines_ok(final(self)@),
    {
        let ghost orig = self@;
        let n = self.nodes.len();
        let mut i: usize = 0;
        while i < n
            invariant
                self@.len() == n == orig.len(),
                i <= n,
                self.wf(),
                self.shape_ok(),
                old(self).wf(),
                old(self).shape_ok(),
                orig == old(self)@,
                forall|j: int| 0 <= j < orig.len() ==> bubbled_at(orig, j),
                forall|j: int| 0 <= j < n ==> assign_keeps(orig[j], #[trigger] self@[j]),
                forall|j: int| 0 <= j < i ==> widths_assigned_at(self@, j, ctx.screen.width),
                // not yet visited: width and lines untouched
                forall|j: int|
                    i <= j < n ==> (#[trigger] self@[j]).d.position.size.width
                        == orig[j].d.position.size.width && self@[j].payload == orig[j].payload,
            decreases n - i,
        {
            let ghost pre = self@;
            if self.parent_of_is_none(i) {
                self.nodes[i].d.avail_width = ctx.screen.width;
            }
            let avail = self.nodes[i].d.avail_width;
            let w = resolve_width_exec(
                avail,
                self.nodes[i].d.min_width,
                self.nodes[i].d.pref_width,
            );
            self.nodes[i].d.position.size.width = w;
            let ghost mid = self@;
            proof {
                assert forall|j: int| 0 <= j < n && j != i implies self@[j] == pre[j] by {}
                assert forall|j: int| 0 <= j < n implies assign_keeps(orig[j], mid[j]) by {
                    assert(assign_keeps(orig[j], pre[j]));
                }
            }
            // hand the resolved width to every child (an inline node has none)
            let cn = self.nodes[i].d.children.len();
            let mut k: usize = 0;
            while k < cn
                invariant
                    self@.len() == n,
                    i < n,
                    k <= cn,
                    self.wf(),
                    old(self).wf(),
                    old(self).shape_ok(),
                    orig == old(self)@,
                    orig.len() == n,
                    mid.len() == n,
                    cn == mid[i as int].d.children@.len(),
                    forall|j: int| 0 <= j < n ==> assign_keeps(orig[j], #[trigger] mid[j]),
                    forall|j: int|
                        0 <= j < n ==> same_but_avail(mid[j], #[trigger] self@[j]),
                    forall|k2: int|
                        0 <= k2 < k ==> self@[#[trigger] mid[i as int].d.children@[k2] as int].d.avail_width
                            == w,
                    forall|j: int|
                        0 <= j < n && (forall|k2: int|
                            0 <= k2 < k ==> #[trigger] mid[i as int].d.children@[k2] != j) ==> (
                        #[trigger] self@[j]).d.avail_width == mid[j].d.avail_width,
                decreases cn - k,
            {
                let c = self.nodes[i].d.children[k];
                self.nodes[c].d.avail_width = w;
                proof {
                    assert(mid[i as int].d.children@[k as int] == c);
                    assert forall|k2: int| 0 <= k2 < k + 1 implies self@[#[trigger] mid[i
                        as int].d.children@[k2] as int].d.avail_width == w by {
                        if k2 < k {
                            assert(mid[i as int].d.children@[k2] != c);
                        }
                    }
                    assert forall|j: int| 0 <= j < n implies skeleton_eq(
                        orig[j],
                        self@[j],
                    ) by {
                        assert(assign_keeps(orig[j], mid[j]));
                        assert(same_but_avail(mid[j], self@[j]));
                    }
                    lemma_skeleton_preserves_shape(*old(self), *self);
                }
                k = k + 1;
            }
            // an inline node fixes its line boxes at its resolved width
            let ghost post_avail = self@;
            if self.nodes[i].tag() == crate::flow::FlowTag::Inline {
                let lines = match &self.nodes[i].payload {
                    FlowPayload::Inline(inl) => pack_lines(&inl.boxes, w),
                    _ => unreached(),
                };
                match &mut self.nodes[i].payload {
                    FlowPayload::Inline(inl) => {
                        inl.lines = lines;
                    },
                    _ => {},
                }
            }
            proof {
                let s = self@;
                // this iteration touched: node i's avail and width (and an
                // inline node's lines), and its children's avail
                assert forall|j: int| 0 <= j < n implies assign_keeps(orig[j], s[j]) by {
                    assert(assign_keeps(orig[j], pre[j]));
                }
                lemma_skeleton_preserves_shape(*old(self), *self);
                assert(widths_assigned_at(s, i as int, ctx.screen.width));
                assert forall|j: int| 0 <= j < i implies widths_assigned_at(
                    s,
                    j,
                    ctx.screen.width,
                ) by {
                    assert(widths_assigned_at(pre, j, ctx.screen.width));
                    // none of j's children is a child of i: parents are unique
                    assert forall|k2: int| 0 <= k2 < s[j].d.children@.len() implies s[
                    #[trigger] s[j].d.children@[k2] as int].d.avail_width == s[j].d.position.size.width by {
                        let c2 = s[j].d.children@[k2];
                        assert(pre[c2 as int].d.parent == Some(j as usize));
                        assert forall|k3: int|
                            0 <= k3 < mid[i as int].d.children@.len() implies #[trigger] mid[i
                            as int].d.children@[k3] != c2 by {
                            assert(pre[mid[i as int].d.children@[k3] as int].d.parent == Some(
                                i as usize,
                            ));
                        }
                    }
                }
            }
            i = i + 1;
        }
        proof {
            let s = self@;
            assert forall|j: int| 0 <= j < n implies bubbled_at(s, j) by {
                lemma_bubbled_local(orig, s, j);
            }
            // a child's resolved width never exceeds its parent's
            assert forall|i2: int, k: int|
                0 <= i2 < n && 0 <= k < s[i2].d.children@.len() implies s[#[trigger] s[i2].d.children@[k] as int].d.position.size.width
                <= s[i2].d.position.size.width by {
                let c = s[i2].d.children@[k];
                assert(widths_assigned_at(s, i2, ctx.screen.width));
                assert(widths_assigned_at(s, c as int, ctx.screen.width));
                assert(bubbled_at(s, i2));
                // the parent's minimum width bounds the child's
                match s[i2].payload {
                    FlowPayload::Block(_) => {
                        assert(child_mins(s, i2)[k] == s[c as int].d.min_width);
                        lemma_seq_max_bound(child_mins(s, i2), k);
                    },
                    FlowPayload::Root(_) => {
                        assert(k == 0);
                    },
                    FlowPayload::Inline(_) => {
                        assert(s[i2].d.children@.len() == 0);
                    },
                    _ => {
                        assert(s[i2].participates());
                    },
                }
                assert(s[c as int].d.min_width <= s[i2].d.min_width);
                assert(s[c as int].d.avail_width == s[i2].d.position.size.width);
            }
            assert forall|i2: int| 0 <= i2 < s.len() implies #[trigger] lines_ok_at(s, i2) by {
                match s[i2].payload {
                    FlowPayload::Inline(inl) => {
                        assert(widths_assigned_at(s, i2, ctx.screen.width));
                        assert(vstd::std_specs::vec::spec_vec_len(&inl.boxes) == inl.boxes@.len());
                        lemma_packed_lines_wf(inl.boxes@, s[i2].d.position.size.width);
                    },
                    _ => {},
                }
            }
        }
    }

    /// Third pass: post-order height assignment. A block or root node
    /// stacks its children vertically in insertion order and covers them
    /// and its own box; an inline node packs its boxes into the line boxes
    /// fixed during width assignment and takes the lines' total height.
    /// Afterwards each node's rectangle contains its children's offset
    /// rectangles, saturation aside.
    #[verifier::rlimit(100)]
    #[verifier::spinoff_prover]
    pub fn assign_height(&mut self, _ctx: &LayoutContext)
        requires
            old(self).wf(),
            old(self).shape_ok(),
            widths_fit(old(self)@),
            lines_ok(old(self)@),
        ensures
            final(self).wf(),
            final(self).shape_ok(),
            final(self)@.len() == old(self)@.len(),
            forall|j: int|
                0 <= j < old(self)@.len() ==> heights_keeps(
                    old(self)@[j],
                    #[trigger] final(self)@[j],
                ),
            forall|j: int| 0 <= j < final(self)@.len() ==> heights_done_at(final(self)@, j),
            widths_fit(final(self)@),
            // each node's rectangle contains its children's offset
            // rectangles: children start at the left edge, are no wider
            // than the parent, and end above the parent's bottom edge
            forall|i: int, k: int|
                #![trigger final(self)@[i].d.children@[k]]
                0 <= i < final(self)@.len() && 0 <= k < final(self)@[i].d.children@.len() ==> {
                    let c = final(self)@[final(self)@[i].d.children@[k] as int].d;
                    let p = final(self)@[i].d;
                    c.position.origin.x == 0 && c.position.size.width <= p.position.size.width
                        && sat_add(c.position.origin.y, c.position.size.height)
                        <= p.position.size.height && (c.position.origin.y
                        + c.position.size.height <= u64::MAX ==> c.position.origin.y
                        + c.position.size.height <= p.position.size.height)
                },
    {
        let ghost orig = self@;
        let n = self.nodes.len();
        let mut i = n;
        while i > 0
            invariant
                self@.len() == n == orig.len(),
                i <= n,
                self.wf(),
                self.shape_ok(),
                old(self).wf(),
                old(self).shape_ok(),
                orig == old(self)@,
                widths_fit(orig),
                lines_ok(orig),
                forall|j: int| 0 <= j < i ==> self@[j] == orig[j],
                forall|j: int| 0 <= j < n ==> heights_keeps(orig[j], #[trigger] self@[j]),
                forall|j: int| i <= j < n ==> heights_done_at(self@, j),
            decreases i,
        {
            i = i - 1;
            let ghost pre = self@;
            let t = self.nodes[i].tag();
            if t == crate::flow::FlowTag::Inline {
                proof {
                    assert(heights_keeps(orig[i as int], pre[i as int]));
                    assert(lines_ok_at(orig, i as int));
                    match pre[i as int].payload {
                        FlowPayload::Inline(inl0) => {
                            match orig[i as int].payload {
                                FlowPayload::Inline(inlo) => {
                                    assert(lines_wf(inlo.lines@, inlo.boxes@.len() as int));
                                    assert(inl0.lines@ == inlo.lines@);
                                    assert(skeleton_eq(orig[i as int], pre[i as int]));
                                    assert(inl0.boxes@.len() == pre[i as int].spec_boxes().len());
                                    assert(inlo.boxes@.len() == orig[i as int].spec_boxes().len());
                                    assert(inl0.boxes@.len() == inlo.boxes@.len());
                                },
                                _ => {
                                    assert(false);
                                },
                            }
                        },
                        _ => {
                            assert(false);
                        },
                    }
                }
                let h = match &mut self.nodes[i].payload {
                    FlowPayload::Inline(inl) => place_inline_boxes(inl),
                    _ => unreached(),
                };
                self.nodes[i].d.position.size.height = h;
                proof {
                    let s = self@;
                    assert(s[i as int].d.children@.len() == 0);
                    assert forall|j: int| 0 <= j < n && j != i implies s[j] == pre[j] by {}
                    assert(heights_done_at(s, i as int));
                    assert forall|j: int| i < j < n implies heights_done_at(s, j) by {
                        lemma_heights_local(pre, s, j);
                    }
                    assert forall|j: int| 0 <= j < n implies heights_keeps(
                        orig[j],
                        s[j],
                    ) by {
                        assert(heights_keeps(orig[j], pre[j]));
                    }
                    lemma_skeleton_preserves_shape(*old(self), *self);
                }
            } else {
                // block or root: stack the children, cover them and the box
                let mut y: u64 = 0;
                let cn = self.nodes[i].d.children.len();
                let mut k: usize = 0;
                while k < cn
                    invariant
                        self@.len() == n,
                        i < n,
                        k <= cn,
                        self.wf(),
                        old(self).wf(),
                        old(self).shape_ok(),
                        orig == old(self)@,
                        orig.len() == n,
                        pre.len() == n,
                        cn == pre[i as int].d.children@.len(),
                        forall|j: int| 0 <= j < n ==> heights_keeps(orig[j], #[trigger] pre[j]),
                        forall|j: int|
                            0 <= j < n && (forall|k2: int|
                                0 <= k2 < k ==> #[trigger] pre[i as int].d.children@[k2] != j)
                                ==> #[trigger] self@[j] == pre[j],
                        forall|j: int|
                            0 <= j < n ==> same_but_origin(pre[j], #[trigger] self@[j]),
                        y == sat_sum(child_heights(self@, i as int).take(k as int)),
                        forall|k2: int|
                            0 <= k2 < k ==> self@[#[trigger] pre[i as int].d.children@[k2] as int].d.position.origin
                                == (Point2D {
                                x: 0u64,
                                y: sat_sum(child_heights(self@, i as int).take(k2)),
                            }),
                    decreases cn - k,
                {
                    let c = self.nodes[i].d.children[k];
                    let ghost before = self@;
                    self.nodes[c].d.position.origin = Point2D { x: 0, y };
                    let ch = self.nodes[c].d.position.size.height;
                    proof {
                        let s = self@;
                        assert(pre[i as int].d.children@[k as int] == c);
                        assert forall|j: int| 0 <= j < n && j != c implies s[j] == before[j] by {}
                        assert(child_heights(s, i as int) =~= child_heights(before, i as int));
                        assert(child_heights(s, i as int).take(k + 1) =~= child_heights(
                            s,
                            i as int,
                        ).take(k as int).push(ch));
                        lemma_sat_sum_push(child_heights(s, i as int).take(k as int), ch);
                        assert forall|k2: int|
                            0 <= k2 < k + 1 implies s[#[trigger] pre[i as int].d.children@[k2] as int].d.position.origin
                            == (Point2D {
                            x: 0u64,
                            y: sat_sum(child_heights(s, i as int).take(k2)),
                        }) by {
                            if k2 < k {
                                assert(pre[i as int].d.children@[k2] != c);
                            }
                        }
                    }
                    y = sat_add_exec(y, ch);
                    k = k + 1;
                }
                let ghost stacked = self@;
                let bh = match &self.nodes[i].payload {
                    FlowPayload::Block(b) => match &b.render_box {
                        Some(bx) => bx.height,
                        None => 0u64,
                    },
                    FlowPayload::Root(r) => match &r.render_box {
                        Some(bx) => bx.height,
                        None => 0u64,
                    },
                    _ => unreached(),
                };
                let h = max_au_exec(bh, y);
                self.nodes[i].d.position.size.height = h;
                let w = self.nodes[i].d.position.size.width;
                match &mut self.nodes[i].payload {
                    FlowPayload::Block(b) => {
                        if let Some(bx) = &mut b.render_box {
                            let bxh = bx.height;
                            bx.position = Rect {
                                origin: Point2D { x: 0, y: 0 },
                                size: Size2D { width: w, height: bxh },
                            };
                        }
                    },
                    FlowPayload::Root(r) => {
                        if let Some(bx) = &mut r.render_box {
                            let bxh = bx.height;
                            bx.position = Rect {
                                origin: Point2D { x: 0, y: 0 },
                                size: Size2D { width: w, height: bxh },
                            };
                        }
                    },
                    _ => {},
                }
                if t == crate::flow::FlowTag::Root {
                    self.nodes[i].d.position.origin = Point2D { x: 0, y: 0 };
                }
                proof {
                    let s = self@;
                    assert forall|j: int| 0 <= j < n && j != i implies s[j] == stacked[j] by {}
                    assert(child_heights(s, i as int) =~= child_heights(stacked, i as int));
                    assert(child_heights(s, i as int) =~= child_heights(s, i as int).take(
                        cn as int,
                    ));
                    assert forall|k2: int|
                        0 <= k2 < cn implies s[#[trigger] pre[i as int].d.children@[k2] as int].d.position.origin
                        == (Point2D {
                        x: 0u64,
                        y: sat_sum(child_heights(s, i as int).take(k2)),
                    }) by {
                        let c2 = pre[i as int].d.children@[k2];
                        assert(c2 != i);
                        assert(s[c2 as int] == stacked[c2 as int]);
                        assert(child_heights(stacked, i as int).take(k2) =~= child_heights(
                            s,
                            i as int,
                        ).take(k2));
                    }
                    assert(heights_done_at(s, i as int));
                    assert forall|j: int| i < j < n implies heights_done_at(s, j) by {
                        assert forall|k2: int|
                            0 <= k2 < s[j].d.children@.len() implies 0 <= #[trigger] s[j].d.children@[k2]
                            < n && s[s[j].d.children@[k2] as int].d.position == pre[s[j].d.children@[k2] as int].d.position by {
                            let c2 = s[j].d.children@[k2];
                            assert(pre[c2 as int].d.parent == Some(j as usize));
                            assert forall|k3: int|
                                0 <= k3 < pre[i as int].d.children@.len() implies #[trigger] pre[i
                                as int].d.children@[k3] != c2 by {
                                assert(pre[pre[i as int].d.children@[k3] as int].d.parent == Some(
                                    i as usize,
                                ));
                            }
                            assert(stacked[c2 as int] == pre[c2 as int]);
                            assert(s[c2 as int] == stacked[c2 as int]);
                        }
                        lemma_heights_local(pre, s, j);
                        assert(heights_done_at(pre, j));
                    }
                    assert forall|j: int| 0 <= j < n implies heights_keeps(
                        orig[j],
                        s[j],
                    ) by {
                        assert(heights_keeps(orig[j], pre[j]));
                    }
                    lemma_skeleton_preserves_shape(*old(self), *self);
                }
            }
        }
        proof {
            let s = self@;
            assert forall|i2: int, k: int|
                0 <= i2 < n && 0 <= k < s[i2].d.children@.len() implies s[#[trigger] s[i2].d.children@[k] as int].d.position.size.width
                <= s[i2].d.position.size.width by {
                let c = s[i2].d.children@[k];
                assert(heights_keeps(orig[i2], s[i2]));
                assert(orig[i2].d.children@[k] == c);
                assert(heights_keeps(orig[c as int], s[c as int]));
            }
            assert forall|i2: int, k: int|
                #![trigger s[i2].d.children@[k]]
                0 <= i2 < n && 0 <= k < s[i2].d.children@.len() implies {
                let c = s[s[i2].d.children@[k] as int].d;
                let p = s[i2].d;
                c.position.origin.x == 0 && c.position.size.width <= p.position.size.width
                    && sat_add(c.position.origin.y, c.position.size.height)
                    <= p.position.size.height && (c.position.origin.y + c.position.size.height
                    <= u64::MAX ==> c.position.origin.y + c.position.size.height
                    <= p.position.size.height)
            } by {
                let ci = s[i2].d.children@[k];
                let c = s[ci as int].d;
                let p = s[i2].d;
                assert(heights_done_at(s, i2));
                let hs = child_heights(s, i2);
                assert(hs[k] == c.position.size.height);
                lemma_sat_sum_prefix(hs, k);
                match s[i2].payload {
                    FlowPayload::Block(_) => {
                        assert(c.position.origin == (Point2D {
                            x: 0u64,
                            y: sat_sum(hs.take(k)),
                        }));
                    },
                    FlowPayload::Root(_) => {
                        assert(c.position.origin == (Point2D {
                            x: 0u64,
                            y: sat_sum(hs.take(k)),
                        }));
                    },
                    FlowPayload::Inline(_) => {
                        assert(s[i2].d.children@.len() == 0);
                    },
                    _ => {
                        assert(s[i2].participates());
                    },
                }
                assert(sat_add(c.position.origin.y, c.position.size.height) <= sat_sum(hs));
            }
        }
    }

    /// Whether node `i` has no parent.
    fn parent_of_is_none(&self, i: usize) -> (r: bool)
        requires
            i < self@.len(),
        ensures
            r == (self@[i as int].d.parent is None),
    {
        match self.nodes[i].d.parent {
            Some(_) => false,
            None => true,
        }
    }
}

impl crate::tree::FlowTree {
    /// The shape the layout passes are defined for; see
    /// [`FlowArena::shape_ok`].
    pub open spec fn shape_ok(self) -> bool {
        self.arena().shape_ok()
    }

    /// First pass: post-order width bubbling; see
    /// [`FlowArena::bubble_widths`].
    pub fn bubble_widths(&mut self, ctx: &LayoutContext)
        requires
            old(self).wf(),
            old(self).shape_ok(),
        ensures
            final(self).wf(),
            final(self).shape_ok(),
            final(self)@.len() == old(self)@.len(),
            forall|j: int|
                0 <= j < old(self)@.len() ==> same_but_widths(
                    old(self)@[j],
                    #[trigger] final(self)@[j],
                ),
            forall|j: int| 0 <= j < final(self)@.len() ==> bubbled_at(final(self)@, j),
            forall|j: int|
                0 <= j < final(self)@.len() ==> (#[trigger] final(self)@[j]).d.min_width
                    <= final(self)@[j].d.pref_width,
    {
        match self {
            crate::tree::FlowTree::Arena(t) => t.bubble_widths(ctx),
        }
    }

    /// Second pass: pre-order width assignment; see
    /// [`FlowArena::assign_widths`].
    pub fn assign_widths(&mut self, ctx: &LayoutContext)
        requires
            old(self).wf(),
            old(self).shape_ok(),
            forall|j: int| 0 <= j < old(self)@.len() ==> bubbled_at(old(self)@, j),
        ensures
            final(self).wf(),
            final(self).shape_ok(),
            final(self)@.len() == old(self)@.len(),
            forall|j: int|
                0 <= j < old(self)@.len() ==> assign_keeps(
                    old(self)@[j],
                    #[trigger] final(self)@[j],
                ),
            forall|j: int| 0 <= j < final(self)@.len() ==> bubbled_at(final(self)@, j),
            forall|j: int|
                0 <= j < final(self)@.len() ==> widths_assigned_at(
                    final(self)@,
                    j,
                    ctx.screen.width,
                ),
            widths_fit(final(self)@),
            lines_ok(final(self)@),
    {
        let ghost o = *self;
        match self {
            crate::tree::FlowTree::Arena(t) => {
                proof {
                    assert(t@ == o@);
                    assert forall|j: int| 0 <= j < t@.len() implies bubbled_at(t@, j) by {
                        assert(bubbled_at(o@, j));
                    }
                }
                t.assign_widths(ctx)
            },
        }
    }

    /// Third pass: post-order height assignment; see
    /// [`FlowArena::assign_height`].
    pub fn assign_height(&mut self, ctx: &LayoutContext)
        requires
            old(self).wf(),
            old(self).shape_ok(),
            widths_fit(old(self)@),
            lines_ok(old(self)@),
        ensures
            final(self).wf(),
            final(self).shape_ok(),
            final(self)@.len() == old(self)@.len(),
            forall|j: int|
                0 <= j < old(self)@.len() ==> heights_keeps(
                    old(self)@[j],
                    #[trigger] final(self)@[j],
                ),
            forall|j: int| 0 <= j < final(self)@.len() ==> heights_done_at(final(self)@, j),
            widths_fit(final(self)@),
            forall|i: int, k: int|
                #![trigger final(self)@[i].d.children@[k]]
                0 <= i < final(self)@.len() && 0 <= k < final(self)@[i].d.children@.len() ==> {
                    let c = final(self)@[final(self)@[i].d.children@[k] as int].d;
                    let p = final(self)@[i].d;
                    c.position.origin.x == 0 && c.position.size.width <= p.position.size.width
                        && sat_add(c.position.origin.y, c.position.size.height)
                        <= p.position.size.height && (c.position.origin.y
                        + c.position.size.height <= u64::MAX ==> c.position.origin.y
                        + c.position.size.height <= p.position.size.height)
                },
    {
        match self {
            crate::tree::FlowTree::Arena(t) => t.assign_height(ctx),
        }
    }
}

} // verus!
