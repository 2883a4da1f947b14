//! Flow nodes: one formatting context each, as a record of attributes common
//! to every variant plus a tag-selected payload.
//!
//! A node lives in a [`crate::tree::FlowArena`] arena and is addressed by its
//! arena index, which doubles as the node's unique identifier. Parent and
//! child links are arena indices, never owning references, so the tree is
//! acyclic by construction and needs no reference counting.

use vstd::prelude::*;

use crate::geometry::{Au, Rect};

verus! {

/// A paintable rectangle of content bound to a document-node identity.
///
/// Boxes are produced upstream from styled content; the core stores, folds
/// and iterates them. `min_width` and `pref_width` are the box's intrinsic
/// width bounds; `height` is its intrinsic height. `break_before` marks a
/// forced line break in front of the box inside an inline flow. `position`
/// is resolved by the layout passes, relative to the owning flow.
#[derive(Clone, Copy, Debug)]
pub struct RenderBox {
    pub id: u64,
    /// Identity of the originating document node, if any.
    pub node: Option<u64>,
    pub min_width: Au,
    pub pref_width: Au,
    pub height: Au,
    pub break_before: bool,
    pub position: Rect,
}

impl RenderBox {
    /// A box is well formed when its intrinsic bounds are ordered.
    pub open spec fn wf(self) -> bool {
        self.min_width <= self.pref_width
    }

    /// A box whose minimum and preferred intrinsic widths may differ.
    pub fn new(id: u64, node: Option<u64>, min_width: Au, pref_width: Au, height: Au) -> (r:
        RenderBox)
        requires
            min_width <= pref_width,
        ensures
            r == (RenderBox {
                id,
                node,
                min_width,
                pref_width,
                height,
                break_before: false,
                position: Rect::spec_zero(),
            }),
            r.wf(),
    {
        RenderBox { id, node, min_width, pref_width, height, break_before: false, position: Rect::zero() }
    }

    /// A box of one fixed width.
    pub fn with_width(id: u64, node: Option<u64>, width: Au, height: Au) -> (r: RenderBox)
        ensures
            r == (RenderBox {
                id,
                node,
                min_width: width,
                pref_width: width,
                height,
                break_before: false,
                position: Rect::spec_zero(),
            }),
            r.wf(),
    {
        RenderBox { id, node, min_width: width, pref_width: width, height, break_before: false, position: Rect::zero() }
    }
}

/// Attributes shared by every flow variant.
pub struct FlowData {
    /// Identity of the originating document node, if any.
    pub node: Option<u64>,
    /// Arena index of the parent flow.
    pub parent: Option<usize>,
    /// Arena indices of the child flows, in insertion order.
    pub children: Vec<usize>,
    /// Minimum width, resolved by width bubbling.
    pub min_width: Au,
    /// Preferred width, resolved by width bubbling.
    pub pref_width: Au,
    /// Width handed down by the parent during width assignment.
    pub avail_width: Au,
    /// Origin and size, resolved by width and height assignment.
    pub position: Rect,
}

/// Payload of a block formatting context: at most one owned render box.
pub struct BlockFlowData {
    pub render_box: Option<RenderBox>,
}

/// Payload of the root flow: at most one owned render box.
pub struct RootFlowData {
    pub render_box: Option<RenderBox>,
}

/// Payload of an inline formatting context: the owned render boxes in
/// order, and the line boxes fixed during width assignment. `lines[l]` is
/// the index of the first box on line `l`; line `l` runs to the start of
/// line `l + 1`, the last line to the end of `boxes`.
pub struct InlineFlowData {
    pub boxes: Vec<RenderBox>,
    pub lines: Vec<usize>,
}

/// The variant-specific payload, selected by the node's tag.
pub enum FlowPayload {
    Absolute,
    Block(BlockFlowData),
    Float,
    InlineBlock,
    Inline(InlineFlowData),
    Root(RootFlowData),
    Table,
}

/// The tag alone of a flow variant.
#[derive(Clone, Copy, Debug, PartialEq, Eq, Structural)]
pub enum FlowTag {
    Absolute,
    Block,
    Float,
    InlineBlock,
    Inline,
    Root,
    Table,
}

/// One formatting context: shared attributes plus the payload of its kind.
pub struct FlowContext {
    pub d: FlowData,
    pub payload: FlowPayload,
}

/// The render boxes a payload directly owns: none or one for most variants,
/// the whole ordered sequence for an inline flow.
pub open spec fn payload_boxes(p: FlowPayload) -> Seq<RenderBox> {
    match p {
        FlowPayload::Block(b) => match b.render_box {
            Some(bx) => seq![bx],
            None => Seq::empty(),
        },
        FlowPayload::Root(r) => match r.render_box {
            Some(bx) => seq![bx],
            None => Seq::empty(),
        },
        FlowPayload::Inline(i) => i.boxes@,
        _ => Seq::empty(),
    }
}

impl FlowContext {
    /// A freshly built node: unlinked, all widths and positions zero.
    pub fn new(node: Option<u64>, payload: FlowPayload) -> (r: FlowContext)
        ensures
            r.d == (FlowData {
                node,
                parent: None::<usize>,
                children: r.d.children,
                min_width: 0u64,
                pref_width: 0u64,
                avail_width: 0u64,
                position: Rect::spec_zero(),
            }),
            r.d.children@ == Seq::<usize>::empty(),
            r.payload == payload,
    {
        FlowContext {
            d: FlowData {
                node,
                parent: None,
                children: Vec::new(),
                min_width: 0,
                pref_width: 0,
                avail_width: 0,
                position: Rect::zero(),
            },
            payload,
        }
    }

    pub open spec fn spec_tag(self) -> FlowTag {
        match self.payload {
            FlowPayload::Absolute => FlowTag::Absolute,
            FlowPayload::Block(_) => FlowTag::Block,
            FlowPayload::Float => FlowTag::Float,
            FlowPayload::InlineBlock => FlowTag::InlineBlock,
            FlowPayload::Inline(_) => FlowTag::Inline,
            FlowPayload::Root(_) => FlowTag::Root,
            FlowPayload::Table => FlowTag::Table,
        }
    }

    /// Which variant this node is.
    pub fn tag(&self) -> (t: FlowTag)
        ensures
            t == self.spec_tag(),
    {
        match &self.payload {
            FlowPayload::Absolute => FlowTag::Absolute,
            FlowPayload::Block(_) => FlowTag::Block,
            FlowPayload::Float => FlowTag::Float,
            FlowPayload::InlineBlock => FlowTag::InlineBlock,
            FlowPayload::Inline(_) => FlowTag::Inline,
            FlowPayload::Root(_) => FlowTag::Root,
            FlowPayload::Table => FlowTag::Table,
        }
    }

    pub open spec fn is_block(self) -> bool {
        self.payload is Block
    }

    pub open spec fn is_inline(self) -> bool {
        self.payload is Inline
    }

    pub open spec fn is_root(self) -> bool {
        self.payload is Root
    }

    /// Whether this variant participates in the three layout passes.
    /// Invoking a pass on any other variant is a programming error, so the
    /// passes require every node to satisfy this.
    pub open spec fn participates(self) -> bool {
        self.is_block() || self.is_inline() || self.is_root()
    }

    /// Shared attributes of the node.
    pub fn d(&self) -> (r: &FlowData)
        ensures
            r == self.d,
    {
        &self.d
    }

    /// Block payload. Demanding it of a non-block node is a programming
    /// error, excluded here by precondition instead of a runtime abort.
    pub fn block(&self) -> (r: &BlockFlowData)
        requires
            self.is_block(),
        ensures
            self.payload == FlowPayload::Block(*r),
    {
        match &self.payload {
            FlowPayload::Block(b) => b,
            _ => unreached(),
        }
    }

    /// Inline payload; defined only for inline nodes.
    pub fn inline(&self) -> (r: &InlineFlowData)
        requires
            self.is_inline(),
        ensures
            self.payload == FlowPayload::Inline(*r),
    {
        match &self.payload {
            FlowPayload::Inline(i) => i,
            _ => unreached(),
        }
    }

    /// Root payload; defined only for the root node.
    pub fn root(&self) -> (r: &RootFlowData)
        requires
            self.is_root(),
        ensures
            self.payload == FlowPayload::Root(*r),
    {
        match &self.payload {
            FlowPayload::Root(r) => r,
            _ => unreached(),
        }
    }

    /// The render boxes the node directly owns: none or one for most
    /// variants, the whole ordered sequence for an inline flow.
    pub open spec fn spec_boxes(self) -> Seq<RenderBox> {
        payload_boxes(self.payload)
    }

    /// All render boxes owned by this node, in order. Supported only for
    /// the variants that directly own render boxes.
    pub fn all_boxes(&self) -> (r: Vec<RenderBox>)
        requires
            self.participates(),
        ensures
            r@ == self.spec_boxes(),
    {
        let mut out: Vec<RenderBox> = Vec::new();
        match &self.payload {
            FlowPayload::Block(b) => {
                if let Some(bx) = &b.render_box {
                    out.push(*bx);
                }
            },
            FlowPayload::Root(rt) => {
                if let Some(bx) = &rt.render_box {
                    out.push(*bx);
                }
            },
            FlowPayload::Inline(inl) => {
                let mut j: usize = 0;
                while j < inl.boxes.len()
                    invariant
                        j <= inl.boxes@.len(),
                        out@ == inl.boxes@.take(j as int),
                    decreases inl.boxes@.len() - j,
                {
                    out.push(inl.boxes[j]);
                    assert(inl.boxes@.take(j + 1) =~= inl.boxes@.take(j as int).push(
                        inl.boxes@[j as int],
                    ));
                    j = j + 1;
                }
                assert(inl.boxes@.take(inl.boxes@.len() as int) =~= inl.boxes@);
            },
            _ => {},
        }
        out
    }

    /// The boxes owned by this node that are bound to the given document
    /// node identity, in order.
    pub fn boxes_for_node(&self, node: u64) -> (r: Vec<RenderBox>)
        requires
            self.participates(),
        ensures
            r@ == self.spec_boxes().filter(|b: RenderBox| b.node == Some(node)),
    {
        let all = self.all_boxes();
        let mut out: Vec<RenderBox> = Vec::new();
        let mut j: usize = 0;
        while j < all.len()
            invariant
                j <= all@.len(),
                all@ == self.spec_boxes(),
                out@ == all@.take(j as int).filter(|b: RenderBox| b.node == Some(node)),
            decreases all@.len() - j,
        {
            let bx = all[j];
            proof {
                reveal_with_fuel(Seq::filter, 2);
                assert(all@.take(j + 1).drop_last() =~= all@.take(j as int));
                assert(all@.take(j + 1).last() == all@[j as int]);
            }
            if match bx.node {
                Some(n) => n == node,
                None => false,
            } {
                out.push(bx);
            }
            j = j + 1;
        }
        assert(all@.take(all@.len() as int) =~= all@);
        out
    }

    /// A short human-readable tag of the variant, for the debug dump.
    pub fn kind_str(&self) -> (r: &'static str)
        ensures
            r@ == self.spec_kind_str(),
    {
        match &self.payload {
            FlowPayload::Absolute => "AbsoluteFlow",
            FlowPayload::Block(_) => "BlockFlow",
            FlowPayload::Float => "FloatFlow",
            FlowPayload::InlineBlock => "InlineBlockFlow",
            FlowPayload::Inline(_) => "InlineFlow",
            FlowPayload::Root(_) => "RootFlow",
            FlowPayload::Table => "TableFlow",
        }
    }

    pub open spec fn spec_kind_str(self) -> Seq<char> {
        match self.payload {
            FlowPayload::Absolute => "AbsoluteFlow"@,
            FlowPayload::Block(_) => "BlockFlow"@,
            FlowPayload::Float => "FloatFlow"@,
            FlowPayload::InlineBlock => "InlineBlockFlow"@,
            FlowPayload::Inline(_) => "InlineFlow"@,
            FlowPayload::Root(_) => "RootFlow"@,
            FlowPayload::Table => "TableFlow"@,
        }
    }
}

} // verus!
