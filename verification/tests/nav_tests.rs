use dumap::layout::Rect;
use dumap::nav::App;
use dumap::nav::NavKey;
use dumap::nav::Tile;
use dumap::progress::scan_rate;
use dumap::tree::Node;
use dumap::tree::RawEntry;

fn leaf(name: &str, path: Vec<&str>, size: u64) -> Node {
    Node {
        name: name.to_string(),
        size,
        path: path.into_iter().map(str::to_string).collect(),
        children: vec![],
        is_dir: false,
    }
}

fn dir(name: &str, path: Vec<&str>, children: Vec<Node>) -> Node {
    let size = children.iter().map(|c| c.size).sum();
    Node {
        name: name.to_string(),
        size,
        path: path.into_iter().map(str::to_string).collect(),
        children,
        is_dir: true,
    }
}

fn sample_tree() -> Node {
    dir(
        "root",
        vec!["root"],
        vec![
            dir(
                "sub",
                vec!["root", "sub"],
                vec![leaf("c", vec!["root", "sub", "c"], 2000)],
            ),
            leaf("a", vec!["root", "a"], 6000),
        ],
    )
}

fn tile(rect: Rect, path: Vec<&str>, is_dir: bool, has_children: bool) -> Tile {
    Tile {
        rect,
        name: path.last().unwrap().to_string(),
        size: 10,
        path: path.into_iter().map(str::to_string).collect(),
        is_dir,
        has_children,
    }
}

fn rect(x: u16, y: u16, width: u16, height: u16) -> Rect {
    Rect { x, y, width, height }
}

#[test]
fn new_app_starts_at_the_scan_root() {
    let app = App::new(sample_tree());
    assert_eq!(app.current_dir, vec!["root".to_string()]);
    assert!(app.layout_dirty);
    assert!(app.layout.is_empty());
    assert_eq!(app.selected, None);
    assert_eq!((app.offset_x, app.offset_y), (0, 0));
    assert!(!app.scroll_mode);
}

#[test]
fn find_node_resolves_paths() {
    let app = App::new(sample_tree());
    let sub = app.find_node(&vec!["root".to_string(), "sub".to_string()]).unwrap();
    assert_eq!(sub.name, "sub");
    assert_eq!(sub.size, 2000);
    assert!(app.find_node(&vec!["nowhere".to_string()]).is_none());
}

#[test]
fn navigation_round_trip_restores_prior_root() {
    let mut app = App::new(sample_tree());
    app.selected = Some(vec!["root".to_string(), "sub".to_string()]);
    app.handle_key(NavKey::Activate);
    assert_eq!(app.current_dir, vec!["root".to_string(), "sub".to_string()]);
    assert_eq!((app.offset_x, app.offset_y), (0, 0));
    assert!(app.layout_dirty);
    // normal view: Left navigates to the parent
    assert!(!app.scroll_mode);
    app.handle_key(NavKey::Left);
    assert_eq!(app.current_dir, vec!["root".to_string()]);
    assert_eq!((app.offset_x, app.offset_y), (0, 0));
}

#[test]
fn activate_ignores_files_and_unknown_paths() {
    let mut app = App::new(sample_tree());
    app.selected = Some(vec!["root".to_string(), "a".to_string()]);
    app.handle_key(NavKey::Activate);
    assert_eq!(app.current_dir, vec!["root".to_string()], "a file cannot become the zoom root");
    app.selected = Some(vec!["gone".to_string()]);
    app.handle_key(NavKey::Activate);
    assert_eq!(app.current_dir, vec!["root".to_string()]);
    app.selected = None;
    app.handle_key(NavKey::Activate);
    assert_eq!(app.current_dir, vec!["root".to_string()]);
}

#[test]
fn scroll_offsets_move_and_saturate_at_zero() {
    let mut app = App::new(sample_tree());
    app.scroll_mode = true;
    app.handle_key(NavKey::Right);
    app.handle_key(NavKey::Right);
    assert_eq!(app.offset_x, 10);
    app.handle_key(NavKey::Left);
    app.handle_key(NavKey::Left);
    app.handle_key(NavKey::Left);
    assert_eq!(app.offset_x, 0, "scrolling saturates at zero");
    app.handle_key(NavKey::Down);
    assert_eq!(app.offset_y, 3);
    app.handle_key(NavKey::Up);
    app.handle_key(NavKey::Up);
    assert_eq!(app.offset_y, 0);
    app.handle_key(NavKey::FastRight);
    assert_eq!(app.offset_x, 20);
    app.handle_key(NavKey::FastDown);
    assert_eq!(app.offset_y, 10);
    app.handle_key(NavKey::FastLeft);
    app.handle_key(NavKey::FastUp);
    assert_eq!((app.offset_x, app.offset_y), (0, 0));
}

#[test]
fn arrow_keys_do_not_scroll_in_normal_view() {
    let mut app = App::new(sample_tree());
    app.handle_key(NavKey::Right);
    app.handle_key(NavKey::Down);
    assert_eq!((app.offset_x, app.offset_y), (0, 0));
}

#[test]
fn hit_test_finds_first_tile_in_order() {
    let mut app = App::new(sample_tree());
    app.layout = vec![
        tile(rect(0, 0, 10, 10), vec!["root", "sub"], true, true),
        tile(rect(10, 0, 10, 10), vec!["root", "a"], false, false),
    ];
    let hit = app.get_node_at(5, 5).unwrap();
    assert_eq!(hit.name, "sub");
    let hit2 = app.get_node_at(10, 3).unwrap();
    assert_eq!(hit2.name, "a");
    assert!(app.get_node_at(25, 25).is_none());
    // offsets translate the test point
    app.offset_x = 5;
    let hit3 = app.get_node_at(7, 0).unwrap();
    assert_eq!(hit3.name, "a");
}

#[test]
fn hover_updates_on_hit_and_survives_a_miss() {
    let mut app = App::new(sample_tree());
    app.layout = vec![tile(rect(0, 0, 10, 10), vec!["root", "sub"], true, true)];
    app.mouse_moved(4, 4);
    assert_eq!(app.mouse_pos, (4, 4));
    assert_eq!(app.selected, Some(vec!["root".to_string(), "sub".to_string()]));
    app.mouse_moved(50, 50);
    assert_eq!(app.mouse_pos, (50, 50));
    assert_eq!(
        app.selected,
        Some(vec!["root".to_string(), "sub".to_string()]),
        "a miss leaves the selection unchanged"
    );
}

#[test]
fn click_zooms_into_directories_only() {
    let mut app = App::new(sample_tree());
    app.layout = vec![
        tile(rect(0, 0, 10, 10), vec!["root", "sub"], true, true),
        tile(rect(10, 0, 10, 10), vec!["root", "a"], false, false),
    ];
    assert_eq!(app.mouse_down(12, 5, false), None);
    assert_eq!(app.current_dir, vec!["root".to_string()], "a file tile does not zoom");
    assert_eq!(app.mouse_down(5, 5, false), None);
    assert_eq!(app.current_dir, vec!["root".to_string(), "sub".to_string()]);
    assert!(app.layout_dirty);
}

#[test]
fn modifier_click_requests_external_open() {
    let mut app = App::new(sample_tree());
    app.layout = vec![tile(rect(0, 0, 10, 10), vec!["root", "sub"], true, true)];
    let opened = app.mouse_down(5, 5, true);
    assert_eq!(opened, Some(vec!["root".to_string(), "sub".to_string()]));
    assert_eq!(app.current_dir, vec!["root".to_string()], "an open request changes no state");
}

#[test]
fn ensure_layout_recomputes_only_when_stale() {
    let mut app = App::new(sample_tree());
    let area = rect(0, 0, 80, 24);
    app.ensure_layout(area);
    assert!(!app.layout_dirty);
    assert!(!app.scroll_mode);
    assert!(!app.layout.is_empty());
    assert_eq!(app.last_area_size, (80, 24));
    let first: Vec<(u16, u16)> = app.layout.iter().map(|t| (t.rect.x, t.rect.width)).collect();
    // unchanged viewport: the cache stays as it is
    app.ensure_layout(area);
    let again: Vec<(u16, u16)> = app.layout.iter().map(|t| (t.rect.x, t.rect.width)).collect();
    assert_eq!(first, again);
    // a resize marks it dirty and the next frame recomputes
    app.resized();
    assert!(app.layout_dirty);
    app.ensure_layout(rect(0, 0, 60, 24));
    assert!(!app.layout_dirty);
    assert_eq!(app.last_area_size, (60, 24));
}

#[test]
fn small_viewport_switches_to_scroll_view() {
    let mut app = App::new(sample_tree());
    app.ensure_layout(rect(0, 0, 39, 24));
    assert!(app.scroll_mode);
    let mut app2 = App::new(sample_tree());
    app2.ensure_layout(rect(0, 0, 40, 19));
    assert!(app2.scroll_mode);
    let mut app3 = App::new(sample_tree());
    app3.ensure_layout(rect(0, 0, 40, 20));
    assert!(!app3.scroll_mode);
}

#[test]
fn scroll_view_lays_out_a_virtual_canvas() {
    let mut app = App::new(sample_tree());
    app.ensure_layout(rect(0, 0, 30, 10));
    assert!(app.scroll_mode);
    // the root has two children: a 210-cell canvas, larger than the viewport
    let max_right = app.layout.iter().map(|t| t.rect.x + t.rect.width).max().unwrap();
    assert_eq!(max_right, 210);
}

#[test]
fn end_to_end_scan_layout_and_zoom() {
    let raw = RawEntry::Dir {
        name: "root".to_string(),
        entries: vec![
            RawEntry::Dir {
                name: "big".to_string(),
                entries: vec![
                    RawEntry::File { name: "x.rs".to_string(), size: 60_000 },
                    RawEntry::File { name: "y.rs".to_string(), size: 40_000 },
                ],
            },
            RawEntry::File { name: "small.txt".to_string(), size: 20_000 },
        ],
    };
    let tree = dumap::tree::build_tree(&raw, vec!["root".to_string()], false).unwrap();
    assert_eq!(tree.size, 120_000);
    let mut app = App::new(tree);
    app.ensure_layout(rect(0, 0, 120, 30));
    assert!(!app.scroll_mode);
    // the heaviest child is laid out first, so the origin cell falls on a
    // tile inside it; the leaf tile itself cannot become the zoom root
    app.mouse_moved(1, 1);
    let selected = app.selected.clone().expect("the origin lies inside some tile");
    assert_eq!(selected[..2], ["root".to_string(), "big".to_string()]);
    assert_eq!(app.mouse_down(1, 1, false), None);
    assert_eq!(app.current_dir, vec!["root".to_string()], "a leaf tile does not zoom");
    // zooming goes through the selected directory
    app.selected = Some(vec!["root".to_string(), "big".to_string()]);
    app.handle_key(NavKey::Activate);
    assert_eq!(app.current_dir, vec!["root".to_string(), "big".to_string()]);
    assert!(app.layout_dirty);
    app.ensure_layout(rect(0, 0, 120, 30));
    assert!(!app.layout_dirty);
    // and Left returns to the prior zoom root with offsets at the origin
    app.handle_key(NavKey::Left);
    assert_eq!(app.current_dir, vec!["root".to_string()]);
    assert_eq!((app.offset_x, app.offset_y), (0, 0));
}

#[test]
fn scan_rate_scales_to_seconds() {
    assert_eq!(scan_rate(100, 200), 500);
    assert_eq!(scan_rate(5, 0), 5000, "an empty interval counts as one millisecond");
    assert_eq!(scan_rate(0, 1000), 0);
    assert_eq!(scan_rate(7, 2000), 3);
}
