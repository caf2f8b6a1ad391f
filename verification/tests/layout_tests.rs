use dumap::layout::Rect;
use dumap::layout::clip_rect;
use dumap::layout::on_screen;
use dumap::layout::largest_remainder;
use dumap::layout::layout_tree;
use dumap::layout::place_slices;
use dumap::layout::translate_for_scroll;
use dumap::tree::Node;

fn leaf(name: &str, size: u64) -> Node {
    Node {
        name: name.to_string(),
        size,
        path: vec![name.to_string()],
        children: vec![],
        is_dir: false,
    }
}

fn parent(name: &str, children: Vec<Node>) -> Node {
    let size = children.iter().map(|c| c.size).sum();
    Node {
        name: name.to_string(),
        size,
        path: vec![name.to_string()],
        children,
        is_dir: true,
    }
}

fn rect(x: u16, y: u16, width: u16, height: u16) -> Rect {
    Rect { x, y, width, height }
}

#[test]
fn rounding_largest_remainder_scenario() {
    // Shares 7.142857 and 2.857143 of 10 cells: floors 7 and 2, one cell
    // left over, and the second child's larger fraction wins it.
    let alloc = largest_remainder(&vec![5_000_000, 2_000_000], 7_000_000, 10);
    assert_eq!(alloc, vec![7, 3]);
}

#[test]
fn rounding_tie_keeps_original_order() {
    // Three equal fractions: the earlier child takes the single extra cell.
    let alloc = largest_remainder(&vec![1, 1, 1], 3, 10);
    assert_eq!(alloc, vec![4, 3, 3]);
}

#[test]
fn rounding_exact_shares_need_no_extras() {
    let alloc = largest_remainder(&vec![60, 30, 10], 100, 10);
    assert_eq!(alloc, vec![6, 3, 1]);
}

#[test]
fn partition_exactness_no_early_stop() {
    let segs = place_slices(&vec![6, 4], 0, 10);
    assert_eq!(segs, vec![(0, 6), (6, 4)]);
    let segs2 = place_slices(&vec![3, 5, 4], 2, 14);
    assert_eq!(segs2, vec![(2, 3), (5, 5), (10, 4)]);
    let total: u16 = segs2.iter().map(|s| s.1).sum();
    assert_eq!(total, 12);
}

#[test]
fn partition_exact_even_after_a_stop() {
    // The one-cell tail share cannot be placed; its cells are donated to
    // the last placed segment, so the segments still tile the interval.
    let segs = place_slices(&vec![6, 3, 1], 0, 10);
    assert_eq!(segs, vec![(0, 6), (6, 4)]);
}

#[test]
fn minimum_tile_bump_and_cap() {
    // A one-cell share is bumped to three; the next child is capped to
    // what remains.
    let segs = place_slices(&vec![1, 10], 0, 11);
    assert_eq!(segs, vec![(0, 3), (3, 8)]);
}

#[test]
fn placement_stops_when_under_three_cells_remain() {
    // After the first child eats 98 cells, two cells remain: too narrow,
    // so every later sibling is dropped and the leftovers are donated to
    // the last placed child.
    let segs = place_slices(&vec![98, 1, 1], 0, 100);
    assert_eq!(segs, vec![(0, 100)]);
}

#[test]
fn layout_single_level_tiles_exactly() {
    let n = parent("root", vec![leaf("a", 60), leaf("b", 30), leaf("c", 10)]);
    let tiles = layout_tree(&n, rect(0, 0, 100, 10), true);
    assert_eq!(tiles.len(), 3);
    assert_eq!(tiles[0].0, rect(0, 0, 60, 10));
    assert_eq!(tiles[1].0, rect(60, 0, 30, 10));
    assert_eq!(tiles[2].0, rect(90, 0, 10, 10));
    let width_sum: u16 = tiles.iter().map(|t| t.0.width).sum();
    assert_eq!(width_sum, 100);
}

#[test]
fn layout_vertical_splits_height() {
    let n = parent("root", vec![leaf("a", 1), leaf("b", 1)]);
    let tiles = layout_tree(&n, rect(0, 0, 10, 20), false);
    assert_eq!(tiles.len(), 2);
    assert_eq!(tiles[0].0, rect(0, 0, 10, 10));
    assert_eq!(tiles[1].0, rect(0, 10, 10, 10));
}

#[test]
fn layout_alternates_orientation_into_children() {
    let sub = parent("sub", vec![leaf("x", 1), leaf("y", 1)]);
    let n = Node {
        name: "root".to_string(),
        size: sub.size,
        path: vec!["root".to_string()],
        children: vec![sub],
        is_dir: true,
    };
    let tiles = layout_tree(&n, rect(0, 0, 10, 20), true);
    // the single child fills the area, then splits vertically inside it
    assert_eq!(tiles.len(), 2);
    assert_eq!(tiles[0].0, rect(0, 0, 10, 10));
    assert_eq!(tiles[1].0, rect(0, 10, 10, 10));
}

#[test]
fn layout_base_cases_return_one_tile() {
    let l = leaf("just-a-file", 5);
    let tiles = layout_tree(&l, rect(2, 3, 50, 40), true);
    assert_eq!(tiles.len(), 1);
    assert_eq!(tiles[0].0, rect(2, 3, 50, 40));
    assert_eq!(tiles[0].1.name, "just-a-file");

    let n = parent("root", vec![leaf("a", 60)]);
    let narrow = layout_tree(&n, rect(0, 0, 2, 40), true);
    assert_eq!(narrow.len(), 1);
    assert_eq!(narrow[0].1.name, "root");
}

#[test]
fn layout_skips_zero_size_children() {
    let n = parent("root", vec![leaf("a", 10), leaf("empty", 0)]);
    let tiles = layout_tree(&n, rect(0, 0, 10, 10), true);
    assert_eq!(tiles.len(), 1);
    assert_eq!(tiles[0].1.name, "a");
    assert_eq!(tiles[0].0, rect(0, 0, 10, 10));
}

#[test]
fn layout_tiles_never_overlap() {
    let n = parent(
        "root",
        vec![leaf("a", 7), leaf("b", 5), leaf("c", 3), leaf("d", 2), leaf("e", 1)],
    );
    let tiles = layout_tree(&n, rect(0, 0, 40, 12), true);
    for i in 0..tiles.len() {
        for j in (i + 1)..tiles.len() {
            let a = tiles[i].0;
            let b = tiles[j].0;
            let disjoint = a.x + a.width <= b.x || b.x + b.width <= a.x || a.y + a.height <= b.y
                || b.y + b.height <= a.y;
            assert!(disjoint, "tiles {i} and {j} overlap");
        }
    }
}

#[test]
fn clip_rect_overlap_and_miss() {
    let clipped = clip_rect(rect(5, 5, 10, 10), rect(0, 0, 8, 8)).unwrap();
    assert_eq!(clipped, rect(5, 5, 3, 3));
    assert!(clip_rect(rect(20, 20, 5, 5), rect(0, 0, 8, 8)).is_none());
    assert!(clip_rect(rect(8, 0, 5, 5), rect(0, 0, 8, 8)).is_none());
    assert_eq!(clip_rect(rect(1, 1, 2, 2), rect(0, 0, 8, 8)).unwrap(), rect(1, 1, 2, 2));
}

#[test]
fn scrolled_away_tiles_are_rejected_before_drawing() {
    let view = rect(0, 0, 40, 20);
    // wholly left of the viewport once the offset pulls it off screen
    assert!(!on_screen(rect(2, 0, 5, 5), 10, 0, view));
    // straddling the left edge: still partially visible
    assert!(on_screen(rect(2, 0, 20, 5), 10, 0, view));
    // wholly above the viewport
    assert!(!on_screen(rect(0, 1, 5, 4), 0, 8, view));
    // beyond the right edge without any offset
    assert!(!on_screen(rect(40, 0, 5, 5), 0, 0, view));
    // fully inside
    assert!(on_screen(rect(5, 5, 10, 10), 0, 0, view));
}

#[test]
fn translate_only_in_scroll_view() {
    let r = rect(10, 7, 4, 4);
    assert_eq!(translate_for_scroll(r, 3, 2, false), r);
    assert_eq!(translate_for_scroll(r, 3, 2, true), rect(7, 5, 4, 4));
    assert_eq!(translate_for_scroll(r, 100, 100, true), rect(0, 0, 4, 4));
}
