//! Converting a resolved flow tree into an ordered list of paint
//! primitives, and the indentation-prefixed debug dump of a tree.
//!
//! The display list is built in one depth-first walk: a node first emits
//! the primitives of its own render boxes, then recurses into its children
//! in tree order, each child receiving an offset accumulated from all
//! ancestor positions. A primitive is emitted only when it meets the dirty
//! rectangle.

use vstd::prelude::*;
use vstd::string::StringExecFns;

use crate::flow::{FlowContext, FlowPayload, RenderBox};
use crate::geometry::{sat_add, sat_add_exec, Point2D, Rect, Size2D};
use crate::tree::{arena_linked, FlowArena};

verus! {

/// One paint primitive: the absolute bounds of a render box, with the box
/// and document-node identities it came from.
#[derive(Clone, Copy, Debug)]
pub struct DisplayItem {
    pub bounds: Rect,
    pub box_id: u64,
    pub node: Option<u64>,
}

/// The absolute bounds of a box owned by a node drawn at `offset`.
pub open spec fn box_bounds(b: RenderBox, offset: Point2D) -> Rect {
    Rect {
        origin: Point2D {
            x: sat_add(offset.x, b.position.origin.x),
            y: sat_add(offset.y, b.position.origin.y),
        },
        size: b.position.size,
    }
}

/// The primitives of a node's own boxes, in box order, dirty-culled.
pub open spec fn box_items(boxes: Seq<RenderBox>, offset: Point2D, dirty: Rect) -> Seq<DisplayItem>
    decreases boxes.len(),
{
    if boxes.len() == 0 {
        Seq::empty()
    } else {
        let prev = box_items(boxes.drop_last(), offset, dirty);
        let b = boxes.last();
        if box_bounds(b, offset).spec_intersects(dirty) {
            prev.push(DisplayItem { bounds: box_bounds(b, offset), box_id: b.id, node: b.node })
        } else {
            prev
        }
    }
}

/// The display list of the subtree rooted at `i`, drawn at `offset`: the
/// node's own primitives, then each child's subtree in order, the child
/// drawn at the offset shifted by its position.
pub open spec fn display_of(s: Seq<FlowContext>, i: int, offset: Point2D, dirty: Rect) -> Seq<
    DisplayItem,
>
    decreases s.len() - i, s[i].d.children@.len() + 1,
        when 0 <= i < s.len() && arena_linked(s)
{
    box_items(s[i].spec_boxes(), offset, dirty) + display_of_children(s, i, 0, offset, dirty)
}

/// The display lists of the children of `i` from the `k`-th on.
pub open spec fn display_of_children(
    s: Seq<FlowContext>,
    i: int,
    k: int,
    offset: Point2D,
    dirty: Rect,
) -> Seq<DisplayItem>
    decreases s.len() - i, s[i].d.children@.len() - k,
        when 0 <= i < s.len() && 0 <= k && arena_linked(s)
{
    if k >= s[i].d.children@.len() {
        Seq::empty()
    } else {
        let c = s[i].d.children@[k] as int;
        let co = Point2D {
            x: sat_add(offset.x, s[c].d.position.origin.x),
            y: sat_add(offset.y, s[c].d.position.origin.y),
        };
        display_of(s, c, co, dirty) + display_of_children(s, i, k + 1, offset, dirty)
    }
}

/// The number of nodes in the subtree rooted at `i`.
pub open spec fn subtree_size(s: Seq<FlowContext>, i: int) -> nat
    decreases s.len() - i, s[i].d.children@.len() + 1,
        when 0 <= i < s.len() && arena_linked(s)
{
    1 + subtree_sizes_from(s, i, 0)
}

/// The number of nodes in the subtrees of the children of `i` from the
/// `k`-th on.
pub open spec fn subtree_sizes_from(s: Seq<FlowContext>, i: int, k: int) -> nat
    decreases s.len() - i, s[i].d.children@.len() - k,
        when 0 <= i < s.len() && 0 <= k && arena_linked(s)
{
    if k >= s[i].d.children@.len() {
        0
    } else {
        subtree_size(s, s[i].d.children@[k] as int) + subtree_sizes_from(s, i, k + 1)
    }
}

/// A leaf's subtree is the node alone: a dump of it is exactly one line.
pub proof fn lemma_subtree_size_leaf(s: Seq<FlowContext>, i: int)
    requires
        arena_linked(s),
        0 <= i < s.len(),
        s[i].d.children@.len() == 0,
    ensures
        subtree_size(s, i) == 1,
{
}

/// One decimal digit as text.
pub open spec fn digit_str(d: u64) -> Seq<char> {
    if d == 0 {
        "0"@
    } else if d == 1 {
        "1"@
    } else if d == 2 {
        "2"@
    } else if d == 3 {
        "3"@
    } else if d == 4 {
        "4"@
    } else if d == 5 {
        "5"@
    } else if d == 6 {
        "6"@
    } else if d == 7 {
        "7"@
    } else if d == 8 {
        "8"@
    } else {
        "9"@
    }
}

/// The decimal rendering of an unsigned number: high digits first, no
/// leading zeroes (but "0" itself).
pub open spec fn dec_of(x: u64) -> Seq<char>
    decreases x,
{
    if x < 10 {
        digit_str(x)
    } else {
        dec_of(x / 10) + digit_str(x % 10)
    }
}

/// Renders `x` in decimal.
fn u64_to_string(x: u64) -> (r: String)
    ensures
        r@ == dec_of(x),
    decreases x,
{
    let mut r = if x >= 10 {
        u64_to_string(x / 10)
    } else {
        String::new()
    };
    let d = x % 10;
    let digit: &str = if d == 0 {
        "0"
    } else if d == 1 {
        "1"
    } else if d == 2 {
        "2"
    } else if d == 3 {
        "3"
    } else if d == 4 {
        "4"
    } else if d == 5 {
        "5"
    } else if d == 6 {
        "6"
    } else if d == 7 {
        "7"
    } else if d == 8 {
        "8"
    } else {
        "9"
    };
    r.append(digit);
    proof {
        if x < 10 {
            assert(r@ =~= digit_str(x % 10));
            assert(x % 10 == x);
        }
    }
    r
}

/// The inline flow's owned box identities, in sequence order, as the
/// debug dump shows them.
pub open spec fn inline_boxes_str(boxes: Seq<RenderBox>) -> Seq<char>
    decreases boxes.len(),
{
    if boxes.len() == 0 {
        Seq::empty()
    } else {
        inline_boxes_str(boxes.drop_last()) + " b"@ + dec_of(boxes.last().id)
    }
}

/// The one-line description of node `i`: its identifier and variant, with
/// the identities of its owned boxes.
pub open spec fn spec_debug_str(s: Seq<FlowContext>, i: int) -> Seq<char> {
    "f"@ + dec_of(i as u64) + " "@ + match s[i].payload {
        FlowPayload::Block(b) => match b.render_box {
            Some(bx) => "BlockFlow(box=b"@ + dec_of(bx.id) + ")"@,
            None => "BlockFlow"@,
        },
        FlowPayload::Root(r) => match r.render_box {
            Some(bx) => "RootFlow(box=b"@ + dec_of(bx.id) + ")"@,
            None => "RootFlow"@,
        },
        FlowPayload::Inline(inl) => "InlineFlow(children="@ + inline_boxes_str(inl.boxes@) + ")"@,
        _ => "(Unknown flow)"@,
    }
}

/// The `indent`-level dump prefix: one dash group per ancestor.
pub open spec fn indent_prefix(indent: int) -> Seq<char>
    decreases indent,
{
    if indent <= 0 {
        Seq::empty()
    } else {
        indent_prefix(indent - 1) + "---- "@
    }
}

/// The dump of the subtree rooted at `i` at depth `indent`: one line per
/// node, the node's own line first, then each child's subtree in tree
/// order (depth-first), every node at depth `k` below `i` prefixed by
/// `indent + k` dash groups.
pub open spec fn dump_lines_of(s: Seq<FlowContext>, i: int, indent: int) -> Seq<Seq<char>>
    decreases s.len() - i, s[i].d.children@.len() + 1,
        when 0 <= i < s.len() && arena_linked(s)
{
    seq![("|"@ + indent_prefix(indent) + spec_debug_str(s, i))] + dump_lines_children(
        s,
        i,
        0,
        indent,
    )
}

/// The dump lines of the subtrees of the children of `i` from the `k`-th
/// on, one level deeper.
pub open spec fn dump_lines_children(s: Seq<FlowContext>, i: int, k: int, indent: int) -> Seq<
    Seq<char>,
>
    decreases s.len() - i, s[i].d.children@.len() - k,
        when 0 <= i < s.len() && 0 <= k && arena_linked(s)
{
    if k >= s[i].d.children@.len() {
        Seq::empty()
    } else {
        dump_lines_of(s, s[i].d.children@[k] as int, indent + 1) + dump_lines_children(
            s,
            i,
            k + 1,
            indent,
        )
    }
}

/// The dump lines handled so far: those of children `0` to `k` exclusive.
pub open spec fn dump_lines_children_prefix(
    s: Seq<FlowContext>,
    i: int,
    k: int,
    indent: int,
) -> Seq<Seq<char>>
    decreases k,
        when 0 <= i < s.len() && arena_linked(s)
{
    if k <= 0 {
        Seq::empty()
    } else {
        dump_lines_children_prefix(s, i, k - 1, indent) + dump_lines_of(
            s,
            s[i].d.children@[k - 1] as int,
            indent + 1,
        )
    }
}

/// Once every child is handled, the prefix equals the suffix recursion.
proof fn lemma_dump_lines_prefix_all(s: Seq<FlowContext>, i: int, k: int, indent: int)
    requires
        arena_linked(s),
        0 <= i < s.len(),
        0 <= k <= s[i].d.children@.len(),
    ensures
        dump_lines_children_prefix(s, i, k, indent) + dump_lines_children(s, i, k, indent)
            == dump_lines_children(s, i, 0, indent),
    decreases k,
{
    if k == 0 {
        assert(dump_lines_children_prefix(s, i, 0, indent) + dump_lines_children(s, i, 0, indent)
            =~= dump_lines_children(s, i, 0, indent));
    } else {
        lemma_dump_lines_prefix_all(s, i, k - 1, indent);
        let c = s[i].d.children@[k - 1] as int;
        assert(dump_lines_children(s, i, k - 1, indent) == dump_lines_of(s, c, indent + 1)
            + dump_lines_children(s, i, k, indent));
        assert(dump_lines_children_prefix(s, i, k, indent) + dump_lines_children(s, i, k, indent)
            =~= (dump_lines_children_prefix(s, i, k - 1, indent) + dump_lines_of(s, c, indent + 1))
            + dump_lines_children(s, i, k, indent));
        assert((dump_lines_children_prefix(s, i, k - 1, indent) + dump_lines_of(s, c, indent + 1))
            + dump_lines_children(s, i, k, indent) =~= dump_lines_children_prefix(
            s,
            i,
            k - 1,
            indent,
        ) + (dump_lines_of(s, c, indent + 1) + dump_lines_children(s, i, k, indent)));
    }
}

/// The dump emits exactly one line per subtree node.
pub proof fn lemma_dump_lines_len(s: Seq<FlowContext>, i: int, indent: int)
    requires
        arena_linked(s),
        0 <= i < s.len(),
    ensures
        dump_lines_of(s, i, indent).len() == subtree_size(s, i),
    decreases s.len() - i, s[i].d.children@.len() + 1,
{
    lemma_dump_lines_children_len(s, i, 0, indent);
}

proof fn lemma_dump_lines_children_len(s: Seq<FlowContext>, i: int, k: int, indent: int)
    requires
        arena_linked(s),
        0 <= i < s.len(),
        0 <= k,
    ensures
        dump_lines_children(s, i, k, indent).len() == subtree_sizes_from(s, i, k),
    decreases s.len() - i, s[i].d.children@.len() - k,
{
    if k < s[i].d.children@.len() {
        lemma_dump_lines_len(s, s[i].d.children@[k] as int, indent + 1);
        lemma_dump_lines_children_len(s, i, k + 1, indent);
    }
}

/// The dump lines joined by newlines.
pub open spec fn join_lines(lines: Seq<Seq<char>>) -> Seq<char>
    decreases lines.len(),
{
    if lines.len() == 0 {
        Seq::empty()
    } else if lines.len() == 1 {
        lines[0]
    } else {
        join_lines(lines.drop_last()) + "\n"@ + lines.last()
    }
}

impl FlowArena {
    /// Builds the display list of the subtree rooted at `i`, drawn at
    /// `offset`, appending to `list` the primitives that meet `dirty`.
    /// Supported for the variants of [`FlowArena::shape_ok`] trees only.
    pub fn build_display_list_recurse(
        &self,
        i: usize,
        dirty: &Rect,
        offset: &Point2D,
        list: &mut Vec<DisplayItem>,
    )
        requires
            self.wf(),
            self.all_participating(),
            i < self@.len(),
        ensures
            final(list)@ == old(list)@ + display_of(self@, i as int, *offset, *dirty),
        decreases self@.len() - i,
    {
        let ghost s = self@;
        let own = self.node(i).all_boxes();
        let mut j: usize = 0;
        while j < own.len()
            invariant
                self.wf(),
                self.all_participating(),
                i < self@.len(),
                s == self@,
                own@ == s[i as int].spec_boxes(),
                j <= own@.len(),
                list@ == old(list)@ + box_items(own@.take(j as int), *offset, *dirty),
            decreases own@.len() - j,
        {
            let b = own[j];
            proof {
                assert(own@.take(j + 1).drop_last() =~= own@.take(j as int));
                assert(own@.take(j + 1).last() == own@[j as int]);
            }
            let bounds = Rect {
                origin: Point2D {
                    x: sat_add_exec(offset.x, b.position.origin.x),
                    y: sat_add_exec(offset.y, b.position.origin.y),
                },
                size: b.position.size,
            };
            if bounds.intersects(dirty) {
                list.push(DisplayItem { bounds, box_id: b.id, node: b.node });
            }
            j = j + 1;
        }
        proof {
            assert(own@.take(own@.len() as int) =~= own@);
        }
        let cn = self.child_count(i);
        let mut k: usize = 0;
        while k < cn
            invariant
                self.wf(),
                self.all_participating(),
                i < self@.len(),
                s == self@,
                cn == s[i as int].d.children@.len(),
                k <= cn,
                list@ == old(list)@ + box_items(s[i as int].spec_boxes(), *offset, *dirty)
                    + display_of_children_prefix(s, i as int, k as int, *offset, *dirty),
            decreases cn - k,
        {
            let c = self.child_at(i, k);
            let co = Point2D {
                x: sat_add_exec(offset.x, self.node(c).d.position.origin.x),
                y: sat_add_exec(offset.y, self.node(c).d.position.origin.y),
            };
            self.build_display_list_recurse(c, dirty, &co, list);
            proof {
                lemma_display_children_prefix_step(s, i as int, k as int, *offset, *dirty);
            }
            k = k + 1;
        }
        proof {
            lemma_display_children_prefix_all(s, i as int, cn as int, *offset, *dirty);
            assert(list@ =~= old(list)@ + display_of(s, i as int, *offset, *dirty));
        }
    }

    /// The one-line description of node `i`, as the debug dump shows it.
    pub fn debug_str(&self, i: usize) -> (r: String)
        requires
            self.wf(),
            i < self@.len(),
        ensures
            r@ == spec_debug_str(self@, i as int),
    {
        let mut r = String::new();
        r.append("f");
        let ids = u64_to_string(i as u64);
        r.append(ids.as_str());
        r.append(" ");
        match &self.nodes[i].payload {
            FlowPayload::Block(b) => match &b.render_box {
                Some(bx) => {
                    r.append("BlockFlow(box=b");
                    let bid = u64_to_string(bx.id);
                    r.append(bid.as_str());
                    r.append(")");
                },
                None => {
                    r.append("BlockFlow");
                },
            },
            FlowPayload::Root(rt) => match &rt.render_box {
                Some(bx) => {
                    r.append("RootFlow(box=b");
                    let bid = u64_to_string(bx.id);
                    r.append(bid.as_str());
                    r.append(")");
                },
                None => {
                    r.append("RootFlow");
                },
            },
            FlowPayload::Inline(inl) => {
                r.append("InlineFlow(children=");
                let ghost head = r@;
                let mut j: usize = 0;
                while j < inl.boxes.len()
                    invariant
                        j <= inl.boxes@.len(),
                        r@ == head + inline_boxes_str(inl.boxes@.take(j as int)),
                    decreases inl.boxes@.len() - j,
                {
                    proof {
                        assert(inl.boxes@.take(j + 1).drop_last() =~= inl.boxes@.take(j as int));
                        assert(inl.boxes@.take(j + 1).last() == inl.boxes@[j as int]);
                    }
                    r.append(" b");
                    let bid = u64_to_string(inl.boxes[j].id);
                    r.append(bid.as_str());
                    j = j + 1;
                }
                proof {
                    assert(inl.boxes@.take(inl.boxes@.len() as int) =~= inl.boxes@);
                }
                r.append(")");
            },
            _ => {
                r.append("(Unknown flow)");
            },
        }
        r
    }

    /// Appends to `out` the dump of the subtree rooted at `i`: exactly one
    /// line per subtree node, the node's own line first, then each child's
    /// subtree in tree order, every line carrying its depth's dash prefix.
    /// The depth counter cannot overflow: it grows by one only as the node
    /// index grows by at least one, which the precondition accounts for.
    pub fn dump_indent(&self, i: usize, indent: usize, out: &mut Vec<String>)
        requires
            self.wf(),
            i < self@.len(),
            indent + self@.len() - i <= usize::MAX,
        ensures
            final(out)@.len() == old(out)@.len() + subtree_size(self@, i as int),
            final(out)@.len() == old(out)@.len() + dump_lines_of(
                self@,
                i as int,
                indent as int,
            ).len(),
            forall|j: int|
                0 <= j < dump_lines_of(self@, i as int, indent as int).len() ==> (
                #[trigger] final(out)@[old(out)@.len() + j])@ == dump_lines_of(
                    self@,
                    i as int,
                    indent as int,
                )[j],
            forall|j: int| 0 <= j < old(out)@.len() ==> final(out)@[j] == old(out)@[j],
        decreases self@.len() - i,
    {
        let ghost s = self@;
        let ghost lines = dump_lines_of(s, i as int, indent as int);
        let mut line = String::new();
        line.append("|");
        let mut t: usize = 0;
        while t < indent
            invariant
                t <= indent,
                line@ == "|"@ + indent_prefix(t as int),
            decreases indent - t,
        {
            line.append("---- ");
            t = t + 1;
        }
        let ds = self.debug_str(i);
        line.append(ds.as_str());
        proof {
            assert(line@ == lines[0]);
        }
        out.push(line);
        let cn = self.child_count(i);
        let mut k: usize = 0;
        while k < cn
            invariant
                self.wf(),
                i < self@.len(),
                s == self@,
                indent + s.len() - i <= usize::MAX,
                cn == s[i as int].d.children@.len(),
                k <= cn,
                lines == dump_lines_of(s, i as int, indent as int),
                out@.len() == old(out)@.len() + 1 + dump_lines_children_prefix(
                    s,
                    i as int,
                    k as int,
                    indent as int,
                ).len(),
                out@[old(out)@.len() as int]@ == lines[0],
                forall|j: int|
                    0 <= j < dump_lines_children_prefix(s, i as int, k as int, indent as int).len()
                        ==> (#[trigger] out@[old(out)@.len() + 1 + j])@
                        == dump_lines_children_prefix(s, i as int, k as int, indent as int)[j],
                forall|j: int| 0 <= j < old(out)@.len() ==> out@[j] == old(out)@[j],
            decreases cn - k,
        {
            let c = self.child_at(i, k);
            let ghost before = out@;
            let ghost pk = dump_lines_children_prefix(s, i as int, k as int, indent as int);
            let ghost pc = dump_lines_of(s, c as int, indent + 1);
            self.dump_indent(c, indent + 1, out);
            proof {
                assert(dump_lines_children_prefix(s, i as int, k + 1, indent as int) == pk + pc);
                assert forall|j: int| 0 <= j < pk.len() + pc.len() implies (#[trigger] out@[old(
                    out,
                )@.len() + 1 + j])@ == (pk + pc)[j] by {
                    if j < pk.len() {
                        assert(out@[old(out)@.len() + 1 + j] == before[old(out)@.len() + 1 + j]);
                    } else {
                        assert(out@[before.len() + (j - pk.len())]@ == pc[j - pk.len()]);
                    }
                }
                assert(out@[old(out)@.len() as int] == before[old(out)@.len() as int]);
            }
            k = k + 1;
        }
        proof {
            lemma_dump_lines_prefix_all(s, i as int, cn as int, indent as int);
            assert(dump_lines_children(s, i as int, cn as int, indent as int)
                =~= Seq::<Seq<char>>::empty());
            assert(dump_lines_children_prefix(s, i as int, cn as int, indent as int)
                + dump_lines_children(s, i as int, cn as int, indent as int)
                =~= dump_lines_children_prefix(s, i as int, cn as int, indent as int));
            assert(lines =~= seq![lines[0]] + dump_lines_children_prefix(
                s,
                i as int,
                cn as int,
                indent as int,
            ));
            lemma_dump_lines_len(s, i as int, indent as int);
            assert forall|j: int| 0 <= j < lines.len() implies (#[trigger] out@[old(out)@.len()
                + j])@ == lines[j] by {
                if j > 0 {
                    let pall = dump_lines_children_prefix(s, i as int, cn as int, indent as int);
                    assert(lines[j] == pall[j - 1]);
                    assert(out@[old(out)@.len() + 1 + (j - 1)]@ == pall[j - 1]);
                    assert(old(out)@.len() + 1 + (j - 1) == old(out)@.len() + j);
                }
            }
        }
    }

    /// The debug dump of the subtree rooted at `i`: its lines — one per
    /// node, depth-first, each with its depth's dash prefix — joined by
    /// newlines.
    pub fn dump(&self, i: usize) -> (r: String)
        requires
            self.wf(),
            i < self@.len(),
        ensures
            r@ == join_lines(dump_lines_of(self@, i as int, 0)),
    {
        let ghost gl = dump_lines_of(self@, i as int, 0);
        proof {
            assert(vstd::std_specs::vec::spec_vec_len(&self.nodes) == self.nodes@.len());
        }
        let mut lines: Vec<String> = Vec::new();
        self.dump_indent(i, 0, &mut lines);
        proof {
            assert forall|j2: int| 0 <= j2 < gl.len() implies (#[trigger] lines@[j2])@
                == gl[j2] by {
                assert(lines@[0 + j2]@ == gl[j2]);
            }
        }
        let mut r = String::new();
        let mut j: usize = 0;
        while j < lines.len()
            invariant
                j <= lines@.len(),
                lines@.len() == gl.len(),
                forall|j2: int| 0 <= j2 < gl.len() ==> (#[trigger] lines@[j2])@ == gl[j2],
                r@ == join_lines(gl.take(j as int)),
            decreases lines@.len() - j,
        {
            proof {
                assert(gl.take(j + 1).drop_last() =~= gl.take(j as int));
                assert(gl.take(j + 1).last() == gl[j as int]);
            }
            if j > 0 {
                r.append("\n");
            }
            r.append(lines[j].as_str());
            j = j + 1;
        }
        proof {
            assert(gl.take(gl.len() as int) =~= gl);
        }
        r
    }
}

impl crate::tree::FlowTree {
    /// Builds the display list of the subtree rooted at `i`; see
    /// [`FlowArena::build_display_list_recurse`].
    pub fn build_display_list_recurse(
        &self,
        i: usize,
        dirty: &Rect,
        offset: &Point2D,
        list: &mut Vec<DisplayItem>,
    )
        requires
            self.wf(),
            self.all_participating(),
            i < self@.len(),
        ensures
            final(list)@ == old(list)@ + display_of(self@, i as int, *offset, *dirty),
    {
        match self {
            crate::tree::FlowTree::Arena(t) => t.build_display_list_recurse(
                i,
                dirty,
                offset,
                list,
            ),
        }
    }

    /// The one-line description of node `i`; see [`FlowArena::debug_str`].
    pub fn debug_str(&self, i: usize) -> (r: String)
        requires
            self.wf(),
            i < self@.len(),
        ensures
            r@ == spec_debug_str(self@, i as int),
    {
        match self {
            crate::tree::FlowTree::Arena(t) => t.debug_str(i),
        }
    }

    /// The debug dump of the subtree rooted at `i`; see
    /// [`FlowArena::dump`].
    pub fn dump(&self, i: usize) -> (r: String)
        requires
            self.wf(),
            i < self@.len(),
        ensures
            r@ == join_lines(dump_lines_of(self@, i as int, 0)),
    {
        match self {
            crate::tree::FlowTree::Arena(t) => t.dump(i),
        }
    }
}

/// The children's display lists handled so far: those of children `0` to
/// `k` exclusive.
pub open spec fn display_of_children_prefix(
    s: Seq<FlowContext>,
    i: int,
    k: int,
    offset: Point2D,
    dirty: Rect,
) -> Seq<DisplayItem>
    decreases k,
        when 0 <= i < s.len() && arena_linked(s)
{
    if k <= 0 {
        Seq::empty()
    } else {
        let c = s[i].d.children@[k - 1] as int;
        let co = Point2D {
            x: sat_add(offset.x, s[c].d.position.origin.x),
            y: sat_add(offset.y, s[c].d.position.origin.y),
        };
        display_of_children_prefix(s, i, k - 1, offset, dirty) + display_of(s, c, co, dirty)
    }
}

/// Extending the handled prefix by one child appends that child's list.
proof fn lemma_display_children_prefix_step(
    s: Seq<FlowContext>,
    i: int,
    k: int,
    offset: Point2D,
    dirty: Rect,
)
    requires
        arena_linked(s),
        0 <= i < s.len(),
        0 <= k < s[i].d.children@.len(),
    ensures
        ({
            let c = s[i].d.children@[k] as int;
            let co = Point2D {
                x: sat_add(offset.x, s[c].d.position.origin.x),
                y: sat_add(offset.y, s[c].d.position.origin.y),
            };
            display_of_children_prefix(s, i, k + 1, offset, dirty) == display_of_children_prefix(
                s,
                i,
                k,
                offset,
                dirty,
            ) + display_of(s, c, co, dirty)
        }),
{
}

/// Once every child is handled, the prefix equals the suffix recursion.
proof fn lemma_display_children_prefix_all(
    s: Seq<FlowContext>,
    i: int,
    k: int,
    offset: Point2D,
    dirty: Rect,
)
    requires
        arena_linked(s),
        0 <= i < s.len(),
        0 <= k <= s[i].d.children@.len(),
    ensures
        display_of_children_prefix(s, i, k, offset, dirty) + display_of_children(
            s,
            i,
            k,
            offset,
            dirty,
        ) == display_of_children(s, i, 0, offset, dirty),
    decreases k,
{
    if k == 0 {
        assert(display_of_children_prefix(s, i, 0, offset, dirty) + display_of_children(
            s,
            i,
            0,
            offset,
            dirty,
        ) =~= display_of_children(s, i, 0, offset, dirty));
    } else {
        lemma_display_children_prefix_all(s, i, k - 1, offset, dirty);
        let c = s[i].d.children@[k - 1] as int;
        let co = Point2D {
            x: sat_add(offset.x, s[c].d.position.origin.x),
            y: sat_add(offset.y, s[c].d.position.origin.y),
        };
        assert(display_of_children(s, i, k - 1, offset, dirty) == display_of(s, c, co, dirty)
            + display_of_children(s, i, k, offset, dirty));
        assert(display_of_children_prefix(s, i, k, offset, dirty) + display_of_children(
            s,
            i,
            k,
            offset,
            dirty,
        ) =~= (display_of_children_prefix(s, i, k - 1, offset, dirty) + display_of(
            s,
            c,
            co,
            dirty,
        )) + display_of_children(s, i, k, offset, dirty));
        assert((display_of_children_prefix(s, i, k - 1, offset, dirty) + display_of(
            s,
            c,
            co,
            dirty,
        )) + display_of_children(s, i, k, offset, dirty) =~= display_of_children_prefix(
            s,
            i,
            k - 1,
            offset,
            dirty,
        ) + (display_of(s, c, co, dirty) + display_of_children(s, i, k, offset, dirty)));
    }
}


} // verus!
