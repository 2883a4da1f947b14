use flow_layout::display::DisplayItem;
use flow_layout::flow::{
    BlockFlowData, FlowPayload, FlowTag, InlineFlowData, RenderBox, RootFlowData,
};
use flow_layout::geometry::{Point2D, Rect, Size2D};
use flow_layout::layout::LayoutContext;
use flow_layout::tree::{ChildVisitor, FlowTree};

fn ctx(width: u64) -> LayoutContext {
    LayoutContext { screen: Size2D { width, height: 1000 } }
}

/// Root -> Block (owns box A, intrinsic width bound 100..300, height 50)
///      -> Inline child with boxes of width 40 (height 12) and 60 (height 20).
fn sample_tree() -> (FlowTree, usize, usize, usize) {
    let mut tree = FlowTree::new();
    let root = tree.new_node(None, FlowPayload::Root(RootFlowData { render_box: None }));
    let box_a = RenderBox::new(1, Some(10), 100, 300, 50);
    let block = tree.new_node(
        Some(10),
        FlowPayload::Block(BlockFlowData { render_box: Some(box_a) }),
    );
    let boxes = vec![
        RenderBox::with_width(2, Some(11), 40, 12),
        RenderBox::with_width(3, Some(12), 60, 20),
    ];
    let inline = tree.new_node(
        Some(11),
        FlowPayload::Inline(InlineFlowData { boxes, lines: Vec::new() }),
    );
    tree.add_child(root, block);
    tree.add_child(block, inline);
    (tree, root, block, inline)
}

#[test]
fn end_to_end_bubble_assign_widths_assign_height() {
    let (mut tree, root, block, inline) = sample_tree();
    let c = ctx(200);
    tree.bubble_widths(&c);
    // the inline flow's preferred width is the one-line total
    assert_eq!(tree.node(inline).d.pref_width, 100);
    assert_eq!(tree.node(inline).d.min_width, 60);
    assert_eq!(tree.node(block).d.min_width, 100);
    assert_eq!(tree.node(block).d.pref_width, 300);
    assert_eq!(tree.node(root).d.min_width, 100);
    assert_eq!(tree.node(root).d.pref_width, 300);

    tree.assign_widths(&c);
    assert_eq!(tree.node(block).d.position.size.width, 200);
    assert_eq!(tree.node(root).d.position.size.width, 200);
    assert_eq!(tree.node(inline).d.position.size.width, 100);
    // both boxes packed onto one line
    assert_eq!(tree.node(inline).inline().lines, vec![0]);

    tree.assign_height(&c);
    // block height = max(box A height, line height)
    assert_eq!(tree.node(inline).d.position.size.height, 20);
    assert_eq!(tree.node(block).d.position.size.height, 50);
    assert_eq!(tree.node(root).d.position.size.height, 50);
    // box placement inside the inline flow
    let b0 = tree.node(inline).inline().boxes[0];
    let b1 = tree.node(inline).inline().boxes[1];
    assert_eq!(b0.position, Rect::new(0, 0, 40, 12));
    assert_eq!(b1.position, Rect::new(40, 0, 60, 20));
    // box A spans the block at its origin
    let a = tree.node(block).block().render_box.unwrap();
    assert_eq!(a.position, Rect::new(0, 0, 200, 50));
    assert_eq!(tree.node(root).d.position.origin, Point2D { x: 0, y: 0 });
}

#[test]
fn bubble_keeps_min_below_pref_everywhere() {
    let (mut tree, _, _, _) = sample_tree();
    tree.bubble_widths(&ctx(200));
    for i in 0..tree.len() {
        let d = &tree.node(i).d;
        assert!(d.min_width <= d.pref_width);
    }
}

#[test]
fn assigned_child_widths_fit_their_parents() {
    let (mut tree, _, _, _) = sample_tree();
    let c = ctx(50); // narrower than the block's minimum
    tree.bubble_widths(&c);
    tree.assign_widths(&c);
    for i in 0..tree.len() {
        for k in 0..tree.child_count(i) {
            let child = tree.child_at(i, k);
            assert!(
                tree.node(child).d.position.size.width <= tree.node(i).d.position.size.width
            );
        }
    }
}

#[test]
fn parent_rectangles_contain_stacked_children() {
    let mut tree = FlowTree::new();
    let root = tree.new_node(None, FlowPayload::Root(RootFlowData { render_box: None }));
    let b1 = tree.new_node(
        None,
        FlowPayload::Block(BlockFlowData { render_box: Some(RenderBox::new(1, None, 10, 80, 30)) }),
    );
    let b2 = tree.new_node(
        None,
        FlowPayload::Block(BlockFlowData { render_box: Some(RenderBox::new(2, None, 10, 90, 45)) }),
    );
    tree.add_child(root, b1);
    tree.add_child(b1, b2);
    let c = ctx(120);
    tree.bubble_widths(&c);
    tree.assign_widths(&c);
    tree.assign_height(&c);
    // b2 stacks inside b1, b1 inside the root
    assert_eq!(tree.node(b2).d.position.origin, Point2D { x: 0, y: 0 });
    assert_eq!(tree.node(b2).d.position.size.height, 45);
    assert_eq!(tree.node(b1).d.position.size.height, 45);
    assert_eq!(tree.node(root).d.position.size.height, 45);
    for i in 0..tree.len() {
        let p = &tree.node(i).d.position;
        for k in 0..tree.child_count(i) {
            let child = tree.child_at(i, k);
            let cr = &tree.node(child).d.position;
            assert_eq!(cr.origin.x, 0);
            assert!(cr.size.width <= p.size.width);
            assert!(cr.origin.y + cr.size.height <= p.size.height);
        }
    }
}

struct Collect {
    seen: Vec<usize>,
    stop_after: usize,
}

impl ChildVisitor for Collect {
    fn visit(&mut self, child: usize) -> bool {
        self.seen.push(child);
        self.seen.len() < self.stop_after
    }
}

#[test]
fn add_child_then_each_child_visits_once_in_insertion_order() {
    let mut tree = FlowTree::new();
    let p = tree.new_node(None, FlowPayload::Root(RootFlowData { render_box: None }));
    let c1 = tree.new_node(None, FlowPayload::Block(BlockFlowData { render_box: None }));
    let c2 = tree.new_node(None, FlowPayload::Block(BlockFlowData { render_box: None }));
    let c3 = tree.new_node(None, FlowPayload::Block(BlockFlowData { render_box: None }));
    tree.add_child(p, c1);
    tree.add_child(p, c2);
    tree.add_child(p, c3);
    let mut v = Collect { seen: Vec::new(), stop_after: usize::MAX };
    tree.each_child(p, &mut v);
    assert_eq!(v.seen, vec![c1, c2, c3]);
    assert_eq!(v.seen.iter().filter(|c| **c == c2).count(), 1);
    // early termination stops after the first visit
    let mut early = Collect { seen: Vec::new(), stop_after: 1 };
    tree.each_child(p, &mut early);
    assert_eq!(early.seen, vec![c1]);
}

#[test]
fn dump_of_root_with_no_children_is_one_line() {
    let mut tree = FlowTree::new();
    let root = tree.new_node(None, FlowPayload::Root(RootFlowData { render_box: None }));
    let dump = tree.dump(root);
    assert_eq!(dump.lines().count(), 1);
    assert!(!dump.contains('\n'));
    assert_eq!(dump, "|f0 RootFlow");
}

#[test]
fn dump_indents_children_by_depth() {
    let (mut tree, root, _, _) = sample_tree();
    let c = ctx(200);
    tree.bubble_widths(&c);
    let dump = tree.dump(root);
    let lines: Vec<&str> = dump.lines().collect();
    assert_eq!(lines.len(), 3);
    assert_eq!(lines[0], "|f0 RootFlow");
    assert_eq!(lines[1], "|---- f1 BlockFlow(box=b1)");
    assert_eq!(lines[2], "|---- ---- f2 InlineFlow(children= b2 b3)");
}

#[test]
fn forced_break_opens_a_new_line() {
    let mut tree = FlowTree::new();
    let _root = tree.new_node(None, FlowPayload::Root(RootFlowData { render_box: None }));
    let mut second = RenderBox::with_width(2, None, 60, 20);
    second.break_before = true;
    let boxes = vec![RenderBox::with_width(1, None, 40, 12), second];
    let inline = tree.new_node(
        None,
        FlowPayload::Inline(InlineFlowData { boxes, lines: Vec::new() }),
    );
    tree.add_child(0, inline);
    let c = ctx(500);
    tree.bubble_widths(&c);
    // with the break forced, the widest line is the single widest box
    assert_eq!(tree.node(inline).d.pref_width, 60);
    tree.assign_widths(&c);
    assert_eq!(tree.node(inline).inline().lines, vec![0, 1]);
    tree.assign_height(&c);
    // two stacked lines
    assert_eq!(tree.node(inline).d.position.size.height, 32);
    let b1 = tree.node(inline).inline().boxes[1];
    assert_eq!(b1.position, Rect::new(0, 12, 60, 20));
}

#[test]
fn narrow_width_wraps_boxes_onto_lines() {
    let mut tree = FlowTree::new();
    let _root = tree.new_node(None, FlowPayload::Root(RootFlowData { render_box: None }));
    let boxes = vec![
        RenderBox::with_width(1, None, 50, 10),
        RenderBox::with_width(2, None, 50, 10),
        RenderBox::with_width(3, None, 50, 10),
    ];
    let inline = tree.new_node(
        None,
        FlowPayload::Inline(InlineFlowData { boxes, lines: Vec::new() }),
    );
    tree.add_child(0, inline);
    // the root adopts the inline's widths, so available width 100 resolves
    // the inline to 100: two boxes per line
    let c = ctx(100);
    tree.bubble_widths(&c);
    tree.assign_widths(&c);
    assert_eq!(tree.node(inline).inline().lines, vec![0, 2]);
    tree.assign_height(&c);
    assert_eq!(tree.node(inline).d.position.size.height, 20);
}

#[test]
fn boxes_for_node_filters_by_document_identity() {
    let (tree, _, block, inline) = sample_tree();
    let all = tree.node(inline).all_boxes();
    assert_eq!(all.len(), 2);
    let bound = tree.node(inline).boxes_for_node(11);
    assert_eq!(bound.len(), 1);
    assert_eq!(bound[0].id, 2);
    let none = tree.node(inline).boxes_for_node(99);
    assert!(none.is_empty());
    let block_boxes = tree.node(block).all_boxes();
    assert_eq!(block_boxes.len(), 1);
    assert_eq!(block_boxes[0].id, 1);
}

#[test]
fn display_list_emits_boxes_depth_first_with_offsets() {
    let (mut tree, root, _, _) = sample_tree();
    let c = ctx(200);
    tree.bubble_widths(&c);
    tree.assign_widths(&c);
    tree.assign_height(&c);
    let dirty = Rect::new(0, 0, 1_000_000, 1_000_000);
    let mut list: Vec<DisplayItem> = Vec::new();
    tree.build_display_list_recurse(root, &dirty, &Point2D { x: 0, y: 0 }, &mut list);
    assert_eq!(list.len(), 3);
    assert_eq!(list[0].box_id, 1);
    assert_eq!(list[0].bounds, Rect::new(0, 0, 200, 50));
    assert_eq!(list[1].box_id, 2);
    assert_eq!(list[1].bounds, Rect::new(0, 0, 40, 12));
    assert_eq!(list[2].box_id, 3);
    assert_eq!(list[2].bounds, Rect::new(40, 0, 60, 20));
}

#[test]
fn display_list_culls_boxes_outside_the_dirty_rectangle() {
    let (mut tree, root, _, _) = sample_tree();
    let c = ctx(200);
    tree.bubble_widths(&c);
    tree.assign_widths(&c);
    tree.assign_height(&c);
    let dirty = Rect::new(1000, 1000, 50, 50);
    let mut list: Vec<DisplayItem> = Vec::new();
    tree.build_display_list_recurse(root, &dirty, &Point2D { x: 0, y: 0 }, &mut list);
    assert!(list.is_empty());
}

#[test]
fn minimum_width_wins_over_narrow_available_width() {
    let (mut tree, _, block, _) = sample_tree();
    let c = ctx(50);
    tree.bubble_widths(&c);
    tree.assign_widths(&c);
    // the block cannot shrink below its bubbled minimum
    assert_eq!(tree.node(block).d.position.size.width, 100);
}

#[test]
fn saturating_addition_caps_at_the_maximum() {
    assert_eq!(flow_layout::geometry::sat_add_exec(u64::MAX, 5), u64::MAX);
    assert_eq!(flow_layout::geometry::sat_add_exec(3, 4), 7);
    assert_eq!(flow_layout::geometry::max_au_exec(3, 4), 4);
}

#[test]
fn tags_follow_payloads() {
    let (tree, root, block, inline) = sample_tree();
    assert_eq!(tree.node(root).tag(), FlowTag::Root);
    assert_eq!(tree.node(block).tag(), FlowTag::Block);
    assert_eq!(tree.node(inline).tag(), FlowTag::Inline);
    assert_eq!(tree.parent_of(inline), Some(block));
    assert_eq!(tree.parent_of(root), None);
}
