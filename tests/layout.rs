use anvil::controller::{
    delta_fraction, resize_pair, DragState, MoveOutcome, ResizeController,
};
use anvil::layout::{Direction, LayoutError, Node, MIN_SIZE, SCALE};

fn leaf(slot: usize) -> Node {
    Node::Leaf { slot }
}

fn container(direction: Direction, children: Vec<Node>, sizes: Vec<u32>) -> Node {
    Node::Container { direction, children, sizes }
}

fn sizes_of(n: &Node) -> Vec<u32> {
    match n {
        Node::Container { sizes, .. } => sizes.clone(),
        Node::Leaf { .. } => vec![],
    }
}

fn sizes_at(c: &ResizeController, path: &Vec<usize>) -> Vec<u32> {
    sizes_of(c.tree.resolve_node(path).unwrap())
}

fn two_panes() -> ResizeController {
    let tree = container(Direction::Horizontal, vec![leaf(0), leaf(1)], vec![5000, 5000]);
    ResizeController::new(tree, 1000, 600)
}

fn nested() -> ResizeController {
    let left = container(Direction::Vertical, vec![leaf(0), leaf(1)], vec![5000, 5000]);
    let tree = container(Direction::Horizontal, vec![left, leaf(2)], vec![5000, 5000]);
    ResizeController::new(tree, 1000, 600)
}

fn three_panes() -> ResizeController {
    let tree = Node::split(Direction::Horizontal, vec![leaf(0), leaf(1), leaf(2)]).unwrap();
    ResizeController::new(tree, 900, 600)
}

fn check_all_containers(n: &Node) {
    if let Node::Container { children, sizes, .. } = n {
        assert_eq!(sizes.len(), children.len());
        assert_eq!(sizes.iter().map(|s| *s as u64).sum::<u64>(), SCALE as u64);
        assert!(sizes.iter().all(|s| *s >= MIN_SIZE));
        for c in children {
            check_all_containers(c);
        }
    }
}

#[test]
fn drag_right_by_one_hundred_pixels() {
    let mut c = two_panes();
    assert_eq!(c.pointer_down(vec![], 0, 500, 300), Ok(()));
    assert_eq!(c.pointer_move(600, 300), MoveOutcome::Resized);
    assert_eq!(sizes_at(&c, &vec![]), vec![6000, 4000]);
}

#[test]
fn drag_beyond_viewport_is_clamped() {
    let mut c = two_panes();
    c.pointer_down(vec![], 0, 500, 300).unwrap();
    assert_eq!(c.pointer_move(1500, 300), MoveOutcome::Resized);
    assert_eq!(sizes_at(&c, &vec![]), vec![9500, 500]);
}

#[test]
fn drag_far_left_is_clamped() {
    let mut c = two_panes();
    c.pointer_down(vec![], 0, 500, 300).unwrap();
    c.pointer_move(-4000, 300);
    assert_eq!(sizes_at(&c, &vec![]), vec![500, 9500]);
    check_all_containers(&c.tree);
}

#[test]
fn nested_vertical_drag_uses_container_extent() {
    let mut c = nested();
    let chain = c.tree.ancestor_dimension_chain(&vec![0], 1000, 600).unwrap();
    assert_eq!(chain, vec![(1000, 600), (500, 600)]);
    c.pointer_down(vec![0], 0, 250, 300).unwrap();
    assert_eq!(c.pointer_move(250, 360), MoveOutcome::Resized);
    assert_eq!(sizes_at(&c, &vec![0]), vec![6000, 4000]);
    assert_eq!(sizes_at(&c, &vec![]), vec![5000, 5000]);
}

#[test]
fn horizontal_motion_does_not_move_vertical_divider() {
    let mut c = nested();
    c.pointer_down(vec![0], 0, 250, 300).unwrap();
    c.pointer_move(900, 300);
    assert_eq!(sizes_at(&c, &vec![0]), vec![5000, 5000]);
}

#[test]
fn move_after_pointer_up_changes_nothing() {
    let mut c = two_panes();
    c.pointer_down(vec![], 0, 500, 300).unwrap();
    c.pointer_move(520, 300);
    c.pointer_move(560, 300);
    c.pointer_move(600, 300);
    c.pointer_up();
    assert_eq!(sizes_at(&c, &vec![]), vec![6000, 4000]);
    assert_eq!(c.pointer_move(800, 300), MoveOutcome::NotDragging);
    assert_eq!(sizes_at(&c, &vec![]), vec![6000, 4000]);
}

#[test]
fn move_while_idle_changes_nothing() {
    let mut c = nested();
    assert_eq!(c.pointer_move(10, 10), MoveOutcome::NotDragging);
    assert_eq!(sizes_at(&c, &vec![]), vec![5000, 5000]);
    assert_eq!(sizes_at(&c, &vec![0]), vec![5000, 5000]);
}

#[test]
fn pointer_leave_ends_drag() {
    let mut c = two_panes();
    c.pointer_down(vec![], 0, 500, 300).unwrap();
    c.pointer_leave();
    assert!(matches!(c.state, DragState::Idle));
    assert_eq!(c.pointer_move(700, 300), MoveOutcome::NotDragging);
    assert_eq!(sizes_at(&c, &vec![]), vec![5000, 5000]);
}

#[test]
fn only_the_dragged_pair_changes() {
    let mut c = three_panes();
    assert_eq!(sizes_at(&c, &vec![]), vec![3333, 3333, 3334]);
    c.pointer_down(vec![], 1, 600, 0).unwrap();
    c.pointer_move(690, 0);
    assert_eq!(sizes_at(&c, &vec![]), vec![3333, 4333, 2334]);
    c.pointer_move(100, 0);
    assert_eq!(sizes_at(&c, &vec![]), vec![3333, 500, 6167]);
}

#[test]
fn pair_total_is_conserved_over_a_drag() {
    let mut c = three_panes();
    c.pointer_down(vec![], 0, 300, 0).unwrap();
    for x in [310, -50, 280, 2000, 301, 299] {
        c.pointer_move(x, 0);
        let s = sizes_at(&c, &vec![]);
        assert_eq!(s[0] + s[1], 6666);
        assert_eq!(s[2], 3334);
    }
}

#[test]
fn sums_stay_whole_over_many_drags() {
    let mut c = nested();
    let moves = [(0, 0, 100, 50), (1, 0, 900, 10), (0, 0, -300, 700)];
    for (which, i, x, y) in moves {
        let path = if which == 0 { vec![] } else { vec![0] };
        c.pointer_down(path, i, 500, 300).unwrap();
        c.pointer_move(x, y);
        c.pointer_move(x + 7, y - 13);
        c.pointer_up();
        check_all_containers(&c.tree);
    }
}

#[test]
fn second_pointer_down_restarts_drag() {
    let mut c = nested();
    c.pointer_down(vec![], 0, 500, 300).unwrap();
    c.pointer_down(vec![0], 0, 250, 300).unwrap();
    c.pointer_move(250, 360);
    assert_eq!(sizes_at(&c, &vec![]), vec![5000, 5000]);
    assert_eq!(sizes_at(&c, &vec![0]), vec![6000, 4000]);
}

#[test]
fn degenerate_container_is_skipped() {
    let tree = container(Direction::Horizontal, vec![leaf(0), leaf(1)], vec![5000, 5000]);
    let mut c = ResizeController::new(tree, 0, 600);
    c.pointer_down(vec![], 0, 0, 0).unwrap();
    assert_eq!(c.pointer_move(100, 0), MoveOutcome::Degenerate);
    assert_eq!(sizes_at(&c, &vec![]), vec![5000, 5000]);
    c.set_viewport(1000, 600);
    assert_eq!(c.pointer_move(100, 0), MoveOutcome::Resized);
    assert_eq!(sizes_at(&c, &vec![]), vec![6000, 4000]);
}

#[test]
fn pointer_down_errors() {
    let mut c = nested();
    assert_eq!(c.pointer_down(vec![1], 0, 0, 0), Err(LayoutError::InvalidPath));
    assert_eq!(c.pointer_down(vec![5], 0, 0, 0), Err(LayoutError::InvalidPath));
    assert_eq!(c.pointer_down(vec![0], 1, 0, 0), Err(LayoutError::InvalidIndex));
    assert!(matches!(c.state, DragState::Idle));
}

#[test]
fn resolve_node_paths() {
    let c = nested();
    assert!(matches!(c.tree.resolve_node(&vec![0, 1]), Ok(Node::Leaf { slot: 1 })));
    assert!(matches!(c.tree.resolve_node(&vec![1]), Ok(Node::Leaf { slot: 2 })));
    assert!(matches!(c.tree.resolve_node(&vec![0]), Ok(Node::Container { direction: Direction::Vertical, .. })));
    assert!(matches!(c.tree.resolve_node(&vec![2]), Err(LayoutError::InvalidPath)));
    assert!(matches!(c.tree.resolve_node(&vec![1, 0]), Err(LayoutError::InvalidPath)));
}

#[test]
fn with_updated_sizes_sets_the_pair() {
    let mut tree = nested().tree;
    assert_eq!(tree.with_updated_sizes(&vec![0], 0, 7000, 3000), Ok(()));
    assert_eq!(sizes_of(tree.resolve_node(&vec![0]).unwrap()), vec![7000, 3000]);
    assert_eq!(sizes_of(&tree), vec![5000, 5000]);
    assert_eq!(tree.with_updated_sizes(&vec![0], 1, 1, 1), Err(LayoutError::InvalidIndex));
    assert_eq!(tree.with_updated_sizes(&vec![1], 0, 1, 1), Err(LayoutError::InvalidPath));
    assert_eq!(tree.with_updated_sizes(&vec![3], 0, 1, 1), Err(LayoutError::InvalidPath));
    assert_eq!(sizes_of(tree.resolve_node(&vec![0]).unwrap()), vec![7000, 3000]);
}

#[test]
fn ancestor_chain_scales_by_direction() {
    let inner = container(Direction::Horizontal, vec![leaf(0), leaf(1)], vec![2500, 7500]);
    let mid = container(Direction::Vertical, vec![leaf(2), inner], vec![4000, 6000]);
    let tree = container(Direction::Horizontal, vec![leaf(3), mid], vec![2000, 8000]);
    let chain = tree.ancestor_dimension_chain(&vec![1, 1], 1000, 500).unwrap();
    assert_eq!(chain, vec![(1000, 500), (800, 500), (800, 300)]);
    let chain = tree.ancestor_dimension_chain(&vec![1, 1, 0], 1000, 500).unwrap();
    assert_eq!(chain.last(), Some(&(200, 300)));
    assert_eq!(tree.ancestor_dimension_chain(&vec![0, 0], 1000, 500), Err(LayoutError::InvalidPath));
}

#[test]
fn every_divider_resolves_to_a_container() {
    let c = nested();
    let ds = c.tree.dividers();
    let found: Vec<(Vec<usize>, usize)> = ds.iter().map(|d| (d.path.clone(), d.sibling_index)).collect();
    assert_eq!(found, vec![(vec![], 0), (vec![0], 0)]);
    for d in &ds {
        match c.tree.resolve_node(&d.path) {
            Ok(Node::Container { children, .. }) => assert!(d.sibling_index + 1 < children.len()),
            _ => panic!("divider does not address a container"),
        }
    }
    assert!(three_panes().tree.dividers().len() == 2);
    assert!(leaf(0).dividers().is_empty());
}

#[test]
fn split_shares_equally() {
    let t = Node::split(Direction::Vertical, vec![leaf(0), leaf(1), leaf(2)]).unwrap();
    assert_eq!(sizes_of(&t), vec![3333, 3333, 3334]);
    let t = Node::split(Direction::Vertical, vec![leaf(0), leaf(1)]).unwrap();
    assert_eq!(sizes_of(&t), vec![5000, 5000]);
    let many: Vec<Node> = (0..20).map(leaf).collect();
    let t = Node::split(Direction::Horizontal, many).unwrap();
    assert_eq!(sizes_of(&t), vec![500; 20]);
    assert!(Node::split(Direction::Horizontal, vec![leaf(0)]).is_none());
    assert!(Node::split(Direction::Horizontal, (0..21).map(leaf).collect()).is_none());
}

#[test]
fn delta_fraction_rounds_toward_zero() {
    assert_eq!(delta_fraction(500, 600, 1000), 1000);
    assert_eq!(delta_fraction(600, 500, 1000), -1000);
    assert_eq!(delta_fraction(0, 60, 600), 1000);
    assert_eq!(delta_fraction(0, 1, 3), 3333);
    assert_eq!(delta_fraction(0, -1, 3), -3333);
    assert_eq!(delta_fraction(i32::MIN, i32::MAX, 1), 42949672950000);
}

#[test]
fn resize_pair_clamps_both_ways() {
    assert_eq!(resize_pair(5000, 5000, 1000), (6000, 4000));
    assert_eq!(resize_pair(5000, 5000, 10000), (9500, 500));
    assert_eq!(resize_pair(5000, 5000, -4800), (500, 9500));
    assert_eq!(resize_pair(3000, 700, 150), (3150, 550));
    assert_eq!(resize_pair(3000, 700, 250), (3200, 500));
    assert_eq!(resize_pair(500, 500, 1), (500, 500));
    assert_eq!(resize_pair(5000, 5000, i64::MIN), (500, 9500));
}

#[test]
fn well_formedness_is_checked() {
    assert!(nested().tree.is_well_formed());
    assert!(three_panes().tree.is_well_formed());
    assert!(leaf(3).is_well_formed());
    let bad_sum = container(Direction::Horizontal, vec![leaf(0), leaf(1)], vec![5000, 4999]);
    assert!(!bad_sum.is_well_formed());
    let too_small = container(Direction::Horizontal, vec![leaf(0), leaf(1)], vec![9600, 400]);
    assert!(!too_small.is_well_formed());
    let lone = container(Direction::Vertical, vec![leaf(0)], vec![10000]);
    assert!(!lone.is_well_formed());
    let mismatched = container(Direction::Vertical, vec![leaf(0), leaf(1)], vec![5000, 2500, 2500]);
    assert!(!mismatched.is_well_formed());
    let overflowing = container(Direction::Vertical, vec![leaf(0), leaf(1)], vec![u32::MAX, 10001]);
    assert!(!overflowing.is_well_formed());
    let inner_bad = container(Direction::Vertical, vec![leaf(0), leaf(1)], vec![7000, 7000]);
    let outer = container(Direction::Horizontal, vec![leaf(2), inner_bad], vec![5000, 5000]);
    assert!(!outer.is_well_formed());
}
