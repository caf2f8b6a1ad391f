//! The navigation controller: zoom root, hover selection, scroll offsets,
//! and a dirty-tracked cache of the last computed layout, driven by plain
//! input events.
use crate::layout::Rect;
use crate::layout::layout_tree;
use crate::layout::rect_contains;
use crate::layout::rect_inside;
use crate::layout::rect_wf;
use crate::layout::rects_disjoint;
use crate::tree::Node;
use crate::tree::clone_path;
use crate::tree::wf_node;
use vstd::prelude::*;

verus! {

broadcast use vstd::std_specs::vec::axiom_vec_index_decreases;

/// One cached tile of the last computed layout: a rectangle bound to the
/// display fields of one node for one render pass.
pub struct Tile {
    pub rect: Rect,
    pub name: String,
    pub size: u64,
    pub path: Vec<String>,
    pub is_dir: bool,
    pub has_children: bool,
}

/// The tile shows exactly this node.
pub open spec fn tile_matches(t: Tile, m: Node) -> bool {
    &&& t.name@ == m.name@
    &&& t.size == m.size
    &&& t.path.deep_view() == m.path.deep_view()
    &&& t.is_dir == m.is_dir
    &&& t.has_children == (m.children@.len() > 0)
}

/// The tile shows some node of the tree rooted at `root`.
pub open spec fn tile_from(t: Tile, root: Node) -> bool {
    exists|m: Node| crate::layout::in_subtree(m, root) && tile_matches(t, m)
}

/// Component paths compare by their character content.
pub fn path_eq(a: &Vec<String>, b: &Vec<String>) -> (r: bool)
    ensures
        r == (a.deep_view() == b.deep_view()),
{
    if a.len() != b.len() {
        proof {
            assert(a.deep_view().len() == a@.len());
            assert(b.deep_view().len() == b@.len());
        }
        return false;
    }
    let mut i: usize = 0;
    while i < a.len()
        invariant
            a@.len() == b@.len(),
            i <= a@.len(),
            forall|k: int| 0 <= k < i ==> #[trigger] a@[k]@ == b@[k]@,
        decreases a@.len() - i,
    {
        if !a[i].eq(&b[i]) {
            proof {
                assert(a.deep_view()[i as int] == a@[i as int]@);
                assert(b.deep_view()[i as int] == b@[i as int]@);
            }
            return false;
        }
        i = i + 1;
    }
    proof {
        assert forall|k: int| 0 <= k < a.deep_view().len() implies a.deep_view()[k]
            =~= b.deep_view()[k] by {
            assert(a@[k]@ == b@[k]@);
        }
        assert(a.deep_view() =~~= b.deep_view());
    }
    true
}

/// The first node of the subtree under `n`, in pre-order, whose path is
/// `p`, if any.
pub open spec fn spec_find(n: Node, p: Seq<Seq<char>>) -> Option<Node>
    decreases n,
{
    if n.path.deep_view() == p {
        Some(n)
    } else {
        spec_find_seq(n.children@, p)
    }
}

/// The first match over a forest, in order.
pub open spec fn spec_find_seq(cs: Seq<Node>, p: Seq<Seq<char>>) -> Option<Node>
    decreases cs,
{
    if cs.len() == 0 {
        None
    } else if spec_find(cs.first(), p) is Some {
        spec_find(cs.first(), p)
    } else {
        spec_find_seq(cs.drop_first(), p)
    }
}

/// Scanning a forest from the front: once the first `i` subtrees hold no
/// match, the search continues in the rest.
proof fn lemma_find_seq_split(cs: Seq<Node>, p: Seq<Seq<char>>, i: int)
    requires
        0 <= i <= cs.len(),
        forall|k: int| 0 <= k < i ==> #[trigger] spec_find(cs[k], p) is None,
    ensures
        spec_find_seq(cs, p) == spec_find_seq(cs.subrange(i, cs.len() as int), p),
    decreases i,
{
    if i > 0 {
        lemma_find_seq_split(cs.drop_first(), p, i - 1);
        assert(cs.drop_first().subrange(i - 1, cs.drop_first().len() as int) =~= cs.subrange(
            i,
            cs.len() as int,
        ));
        assert forall|k: int| 0 <= k < i - 1 implies #[trigger] spec_find(
            cs.drop_first()[k],
            p,
        ) is None by {
            assert(cs.drop_first()[k] == cs[k + 1]);
        }
        assert(spec_find(cs[0], p) is None);
        assert(cs.first() == cs[0]);
    } else {
        assert(cs.subrange(0, cs.len() as int) =~= cs);
    }
}

/// Resolve a path to the first node of the subtree that carries it.
pub fn find_in<'a>(n: &'a Node, path: &Vec<String>) -> (r: Option<&'a Node>)
    ensures
        match r {
            Some(m) => spec_find(*n, path.deep_view()) == Some(*m),
            None => spec_find(*n, path.deep_view()) is None,
        },
    decreases *n,
{
    if path_eq(&n.path, path) {
        return Some(n);
    }
    let mut i: usize = 0;
    while i < n.children.len()
        invariant
            i <= n.children@.len(),
            n.path.deep_view() != path.deep_view(),
            forall|k: int|
                0 <= k < i ==> #[trigger] spec_find(n.children@[k], path.deep_view()) is None,
        decreases n.children@.len() - i,
    {
        let sub = find_in(&n.children[i], path);
        proof {
            lemma_find_seq_split(n.children@, path.deep_view(), i as int);
            assert(n.children@.subrange(i as int, n.children@.len() as int).first()
                == n.children@[i as int]);
            assert(n.children@.subrange(i as int, n.children@.len() as int).drop_first()
                =~= n.children@.subrange(i as int + 1, n.children@.len() as int));
        }
        if let Some(m) = sub {
            return Some(m);
        }
        i = i + 1;
    }
    proof {
        lemma_find_seq_split(n.children@, path.deep_view(), n.children@.len() as int);
        assert(n.children@.subrange(n.children@.len() as int, n.children@.len() as int).len()
            == 0);
    }
    None
}

/// A found node lies below the node that was searched.
pub proof fn lemma_spec_find_in_subtree(n: Node, p: Seq<Seq<char>>, m: Node)
    requires
        spec_find(n, p) == Some(m),
    ensures
        crate::layout::in_subtree(m, n),
    decreases n,
{
    if n.path.deep_view() != p {
        lemma_spec_find_seq_in_subtree(n.children@, p, m);
    }
}

proof fn lemma_spec_find_seq_in_subtree(cs: Seq<Node>, p: Seq<Seq<char>>, m: Node)
    requires
        spec_find_seq(cs, p) == Some(m),
    ensures
        crate::layout::in_subtree_seq(m, cs),
    decreases cs,
{
    if spec_find(cs.first(), p) is Some {
        lemma_spec_find_in_subtree(cs.first(), p, m);
        crate::layout::lemma_in_subtree_step(m, cs, 0);
    } else {
        lemma_spec_find_seq_in_subtree(cs.drop_first(), p, m);
        let sub = cs.drop_first();
        assert(crate::layout::in_subtree_seq(m, sub));
        lemma_in_subtree_seq_lift(m, cs);
    }
}

proof fn lemma_in_subtree_seq_lift(m: Node, cs: Seq<Node>)
    requires
        cs.len() > 0,
        crate::layout::in_subtree_seq(m, cs.drop_first()),
    ensures
        crate::layout::in_subtree_seq(m, cs),
{
    let sub = cs.drop_first();
    lemma_in_subtree_seq_member(m, sub);
    let i = choose|i: int|
        0 <= i < sub.len() && crate::layout::in_subtree(m, #[trigger] sub[i]);
    assert(sub[i] == cs[i + 1]);
    crate::layout::lemma_in_subtree_step(m, cs, i + 1);
}

proof fn lemma_in_subtree_seq_member(m: Node, cs: Seq<Node>)
    requires
        crate::layout::in_subtree_seq(m, cs),
    ensures
        exists|i: int| 0 <= i < cs.len() && crate::layout::in_subtree(m, #[trigger] cs[i]),
    decreases cs,
{
    if crate::layout::in_subtree_seq(m, cs.drop_last()) {
        lemma_in_subtree_seq_member(m, cs.drop_last());
        let i = choose|i: int|
            0 <= i < cs.drop_last().len() && crate::layout::in_subtree(
                m,
                #[trigger] cs.drop_last()[i],
            );
        assert(cs.drop_last()[i] == cs[i]);
        assert(crate::layout::in_subtree(m, cs[i]));
    } else {
        assert(crate::layout::in_subtree(m, cs[cs.len() - 1]));
    }
}

/// The tile under the translated point `(x, y)`.
pub open spec fn tile_hit(t: Tile, x: u16, y: u16, ox: u16, oy: u16) -> bool {
    rect_contains(t.rect, x + ox, y + oy)
}

/// None of the first `upto` tiles lies under the translated point.
pub open spec fn no_hit_upto(ts: Seq<Tile>, x: u16, y: u16, ox: u16, oy: u16, upto: int) -> bool
    decreases upto,
{
    upto <= 0 || (no_hit_upto(ts, x, y, ox, oy, upto - 1) && !tile_hit(ts[upto - 1], x, y, ox, oy))
}

/// The display side of the oversized virtual canvas used in scroll view:
/// a 200-cell base grown by five cells per child, capped at 5000.
pub open spec fn spec_canvas_side(child_count: int) -> int {
    if 200 + 5 * child_count > 5000 {
        5000
    } else {
        200 + 5 * child_count
    }
}

/// The node the viewport shows: the zoom root when it resolves, else the
/// scan root.
pub open spec fn spec_display_node(root: Node, p: Seq<Seq<char>>) -> Node {
    match spec_find(root, p) {
        Some(m) => m,
        None => root,
    }
}

/// The rectangle a layout pass tiles: the live viewport in normal view,
/// the virtual canvas in scroll view.
pub open spec fn spec_layout_area(scroll_mode: bool, root: Node, p: Seq<Seq<char>>, area: Rect) -> Rect {
    if scroll_mode {
        Rect {
            x: 0,
            y: 0,
            width: spec_canvas_side(spec_display_node(root, p).children@.len() as int) as u16,
            height: spec_canvas_side(spec_display_node(root, p).children@.len() as int) as u16,
        }
    } else {
        area
    }
}

/// The navigation controller: the frozen tree, the cached layout of the
/// current zoom root, and the viewport state.
pub struct App {
    /// The frozen scan result.
    pub root: Node,
    /// The cached tiles of the last layout pass.
    pub layout: Vec<Tile>,
    /// Whether the cache must be rebuilt before the next draw.
    pub layout_dirty: bool,
    /// The viewport size the cache was computed for.
    pub last_area_size: (u16, u16),
    /// The path of the node under the cursor, from the last hit.
    pub selected: Option<Vec<String>>,
    /// The path of the zoom root.
    pub current_dir: Vec<String>,
    /// The last reported cursor cell.
    pub mouse_pos: (u16, u16),
    /// Horizontal scroll offset; meaningful in scroll view only.
    pub offset_x: u16,
    /// Vertical scroll offset; meaningful in scroll view only.
    pub offset_y: u16,
    /// Whether the viewport is too small for normal view.
    pub scroll_mode: bool,
}

impl App {
    /// A fresh controller zoomed at the scan root, with an empty, dirty
    /// cache.
    pub fn new(root: Node) -> (app: App)
        ensures
            app.root == root,
            app.layout@.len() == 0,
            app.layout_dirty,
            app.last_area_size == (0u16, 0u16),
            app.selected is None,
            app.current_dir.deep_view() == root.path.deep_view(),
            app.mouse_pos == (0u16, 0u16),
            app.offset_x == 0 && app.offset_y == 0,
            !app.scroll_mode,
    {
        let current_dir = clone_path(&root.path);
        App {
            root,
            layout: Vec::new(),
            layout_dirty: true,
            last_area_size: (0, 0),
            selected: None,
            current_dir,
            mouse_pos: (0, 0),
            offset_x: 0,
            offset_y: 0,
            scroll_mode: false,
        }
    }

    /// Resolve a path against the frozen tree.
    pub fn find_node<'a>(&'a self, path: &Vec<String>) -> (r: Option<&'a Node>)
        ensures
            match r {
                Some(m) => spec_find(self.root, path.deep_view()) == Some(*m),
                None => spec_find(self.root, path.deep_view()) is None,
            },
    {
        find_in(&self.root, path)
    }

    /// The first cached tile, in layout order, under the point `(x, y)`
    /// translated by the scroll offsets; `None` when every tile misses.
    pub fn get_node_at(&self, x: u16, y: u16) -> (r: Option<&Tile>)
        ensures
            match r {
                Some(t) => exists|i: int|
                    {
                        &&& 0 <= i < self.layout@.len()
                        &&& #[trigger] self.layout@[i] == *t
                        &&& tile_hit(self.layout@[i], x, y, self.offset_x, self.offset_y)
                        &&& no_hit_upto(self.layout@, x, y, self.offset_x, self.offset_y, i)
                    },
                None => no_hit_upto(
                    self.layout@,
                    x,
                    y,
                    self.offset_x,
                    self.offset_y,
                    self.layout@.len() as int,
                ),
            },
    {
        let px: u32 = (x as u32) + (self.offset_x as u32);
        let py: u32 = (y as u32) + (self.offset_y as u32);
        let mut i: usize = 0;
        while i < self.layout.len()
            invariant
                px == x + self.offset_x,
                py == y + self.offset_y,
                i <= self.layout@.len(),
                no_hit_upto(self.layout@, x, y, self.offset_x, self.offset_y, i as int),
            decreases self.layout@.len() - i,
        {
            let t: &Tile = &self.layout[i];
            let hit: bool = (t.rect.x as u32) <= px && px < t.rect.right() && (t.rect.y as u32)
                <= py && py < t.rect.bottom();
            if hit {
                return Some(t);
            }
            i = i + 1;
        }
        None
    }

    /// Rebuild the cached layout for the current zoom root: against the
    /// live viewport in normal view, against the virtual canvas in scroll
    /// view. Only the cache changes.
    pub fn recalculate_layout(&mut self, area: Rect)
        requires
            wf_node(old(self).root),
            rect_wf(area),
        ensures
            *final(self) == (App { layout: final(self).layout, ..*old(self) }),
            final(self).layout@.len() >= 1,
            forall|i: int|
                0 <= i < final(self).layout@.len() ==> rect_inside(
                    (#[trigger] final(self).layout@[i]).rect,
                    spec_layout_area(
                        old(self).scroll_mode,
                        old(self).root,
                        old(self).current_dir.deep_view(),
                        area,
                    ),
                ),
            forall|i: int, j: int|
                0 <= i < j < final(self).layout@.len() ==> rects_disjoint(
                    final(self).layout@[i].rect,
                    final(self).layout@[j].rect,
                ),
            forall|i: int|
                0 <= i < final(self).layout@.len() ==> tile_from(
                    #[trigger] final(self).layout@[i],
                    old(self).root,
                ),
            ({
                let sl = crate::layout::spec_layout(
                    spec_display_node(old(self).root, old(self).current_dir.deep_view()),
                    spec_layout_area(
                        old(self).scroll_mode,
                        old(self).root,
                        old(self).current_dir.deep_view(),
                        area,
                    ),
                    true,
                );
                &&& final(self).layout@.len() == sl.len()
                &&& forall|i: int|
                    0 <= i < sl.len() ==> (#[trigger] final(self).layout@[i]).rect == sl[i].0
                        && tile_matches(final(self).layout@[i], sl[i].1)
            }),
    {
        let ghost old_root = self.root;
        let current: &Node = match find_in(&self.root, &self.current_dir) {
            Some(n) => n,
            None => &self.root,
        };
        proof {
            if spec_find(self.root, self.current_dir.deep_view()) is Some {
                lemma_spec_find_in_subtree(
                    self.root,
                    self.current_dir.deep_view(),
                    spec_find(self.root, self.current_dir.deep_view())->Some_0,
                );
            }
            crate::layout::lemma_in_subtree_wf(*current, self.root);
        }
        let layout_area: Rect = if self.scroll_mode {
            let count: usize = current.children.len();
            let side: u16 = if count > 960 {
                5000
            } else {
                (200 + count * 5) as u16
            };
            Rect { x: 0, y: 0, width: side, height: side }
        } else {
            area
        };
        proof {
            assert(*current == spec_display_node(
                old(self).root,
                old(self).current_dir.deep_view(),
            ));
            assert(layout_area == spec_layout_area(
                old(self).scroll_mode,
                old(self).root,
                old(self).current_dir.deep_view(),
                area,
            ));
        }
        let pairs = layout_tree(current, layout_area, true);
        proof {
            assert forall|i: int|
                0 <= i < pairs@.len() implies crate::layout::in_subtree(
                *(#[trigger] pairs@[i]).1,
                old_root,
            ) by {
                crate::layout::lemma_in_subtree_trans(*pairs@[i].1, *current, old_root);
            }
        }
        let mut tiles: Vec<Tile> = Vec::new();
        let mut k: usize = 0;
        while k < pairs.len()
            invariant
                tiles@.len() == k,
                k <= pairs@.len(),
                forall|i: int|
                    0 <= i < k ==> (#[trigger] tiles@[i]).rect == pairs@[i].0,
                forall|i: int|
                    0 <= i < k ==> tile_matches(#[trigger] tiles@[i], *pairs@[i].1),
                forall|i: int| 0 <= i < k ==> tile_from(#[trigger] tiles@[i], old_root),
                forall|i: int|
                    0 <= i < pairs@.len() ==> crate::layout::in_subtree(
                        *(#[trigger] pairs@[i]).1,
                        old_root,
                    ),
            decreases pairs@.len() - k,
        {
            let pair: &(Rect, &Node) = &pairs[k];
            let m: &Node = pair.1;
            let tile = Tile {
                rect: pair.0,
                name: m.name.clone(),
                size: m.size,
                path: clone_path(&m.path),
                is_dir: m.is_dir,
                has_children: m.children.len() > 0,
            };
            proof {
                assert(tile_matches(tile, *m));
            }
            tiles.push(tile);
            proof {
                assert(tiles@[k as int] == tile);
                assert(crate::layout::in_subtree(*m, old_root) && tile_matches(
                    tiles@[k as int],
                    *m,
                ));
                assert(tile_from(tiles@[k as int], old_root));
            }
            k = k + 1;
        }
        self.layout = tiles;
    }

    /// Refresh the cache when the viewport size changed, the view mode
    /// flipped, or a transition marked it dirty; otherwise leave every
    /// field untouched. The view mode is normal exactly when the viewport
    /// is at least 40 cells wide and 20 tall.
    pub fn ensure_layout(&mut self, area: Rect)
        requires
            wf_node(old(self).root),
            rect_wf(area),
        ensures
            ({
                let new_scroll = area.width < 40 || area.height < 20;
                let stale = old(self).layout_dirty || old(self).last_area_size != (
                    area.width,
                    area.height,
                ) || old(self).scroll_mode != new_scroll;
                if stale {
                    &&& final(self).scroll_mode == new_scroll
                    &&& !final(self).layout_dirty
                    &&& final(self).last_area_size == (area.width, area.height)
                    &&& final(self).root == old(self).root
                    &&& final(self).selected == old(self).selected
                    &&& final(self).current_dir == old(self).current_dir
                    &&& final(self).mouse_pos == old(self).mouse_pos
                    &&& final(self).offset_x == old(self).offset_x
                    &&& final(self).offset_y == old(self).offset_y
                    &&& final(self).layout@.len() >= 1
                    &&& (forall|i: int, j: int|
                        0 <= i < j < final(self).layout@.len() ==> rects_disjoint(
                            final(self).layout@[i].rect,
                            final(self).layout@[j].rect,
                        ))
                    &&& (forall|i: int|
                        0 <= i < final(self).layout@.len() ==> rect_inside(
                            (#[trigger] final(self).layout@[i]).rect,
                            spec_layout_area(
                                new_scroll,
                                old(self).root,
                                old(self).current_dir.deep_view(),
                                area,
                            ),
                        ))
                    &&& ({
                        let sl = crate::layout::spec_layout(
                            spec_display_node(old(self).root, old(self).current_dir.deep_view()),
                            spec_layout_area(
                                new_scroll,
                                old(self).root,
                                old(self).current_dir.deep_view(),
                                area,
                            ),
                            true,
                        );
                        &&& final(self).layout@.len() == sl.len()
                        &&& forall|i: int|
                            0 <= i < sl.len() ==> (#[trigger] final(self).layout@[i]).rect
                                == sl[i].0 && tile_matches(final(self).layout@[i], sl[i].1)
                    })
                } else {
                    *final(self) == *old(self)
                }
            }),
    {
        let new_scroll_mode: bool = area.width < 40 || area.height < 20;
        if self.layout_dirty || self.last_area_size.0 != area.width || self.last_area_size.1
            != area.height || self.scroll_mode != new_scroll_mode {
            self.scroll_mode = new_scroll_mode;
            self.recalculate_layout(area);
            self.last_area_size = (area.width, area.height);
            self.layout_dirty = false;
        }
    }
}

/// A navigation key, as the event loop reports it.
#[derive(Clone, Copy, PartialEq, Eq, Structural, Debug)]
pub enum NavKey {
    /// Enter: zoom into the selected directory.
    Activate,
    /// Left or `h`: go to the parent in normal view, scroll in scroll view.
    Left,
    /// Right or `l`: scroll in scroll view.
    Right,
    /// Up or `k`: scroll in scroll view.
    Up,
    /// Down or `j`: scroll in scroll view.
    Down,
    /// `H`: fast scroll.
    FastLeft,
    /// `L`: fast scroll.
    FastRight,
    /// `K`: fast scroll.
    FastUp,
    /// `J`: fast scroll.
    FastDown,
}

/// `i` is the index of the first cached tile under the translated point.
pub open spec fn spec_hit_index(
    ts: Seq<Tile>,
    x: u16,
    y: u16,
    ox: u16,
    oy: u16,
    i: int,
) -> bool {
    &&& 0 <= i < ts.len()
    &&& tile_hit(ts[i], x, y, ox, oy)
    &&& no_hit_upto(ts, x, y, ox, oy, i)
}

/// Below the first-miss bound every tile misses.
proof fn lemma_no_hit_index(ts: Seq<Tile>, x: u16, y: u16, ox: u16, oy: u16, upto: int, k: int)
    requires
        no_hit_upto(ts, x, y, ox, oy, upto),
        0 <= k < upto,
    ensures
        !tile_hit(ts[k], x, y, ox, oy),
    decreases upto,
{
    if k < upto - 1 {
        lemma_no_hit_index(ts, x, y, ox, oy, upto - 1, k);
    }
}

/// The first-hit index is unique.
pub proof fn lemma_hit_index_unique(
    ts: Seq<Tile>,
    x: u16,
    y: u16,
    ox: u16,
    oy: u16,
    i: int,
    j: int,
)
    requires
        spec_hit_index(ts, x, y, ox, oy, i),
        spec_hit_index(ts, x, y, ox, oy, j),
    ensures
        i == j,
{
    if i < j {
        lemma_no_hit_index(ts, x, y, ox, oy, j, i);
    } else if j < i {
        lemma_no_hit_index(ts, x, y, ox, oy, i, j);
    }
}

impl App {
    /// Mark the cache stale; the next frame recomputes it.
    pub fn resized(&mut self)
        ensures
            *final(self) == (App { layout_dirty: true, ..*old(self) }),
    {
        self.layout_dirty = true;
    }

    /// Zoom into the selected node: when a path is selected and resolves
    /// to a directory with at least one child, it becomes the zoom root,
    /// the offsets reset and the cache is marked stale; in every other
    /// case nothing changes.
    pub fn activate_selection(&mut self)
        ensures
            match old(self).selected {
                Some(p) => match spec_find(old(self).root, p.deep_view()) {
                    Some(m) => if m.is_dir && m.children@.len() > 0 {
                        &&& *final(self) == (App {
                            current_dir: final(self).current_dir,
                            offset_x: 0,
                            offset_y: 0,
                            layout_dirty: true,
                            ..*old(self)
                        })
                        &&& final(self).current_dir.deep_view() == m.path.deep_view()
                    } else {
                        *final(self) == *old(self)
                    },
                    None => *final(self) == *old(self),
                },
                None => *final(self) == *old(self),
            },
    {
        let new_dir: Option<Vec<String>> = match &self.selected {
            Some(p) => {
                match find_in(&self.root, p) {
                    Some(node) => {
                        if node.is_dir && node.children.len() > 0 {
                            Some(clone_path(&node.path))
                        } else {
                            None
                        }
                    },
                    None => None,
                }
            },
            None => None,
        };
        if let Some(d) = new_dir {
            self.current_dir = d;
            self.offset_x = 0;
            self.offset_y = 0;
            self.layout_dirty = true;
        }
    }

    /// Leave the zoom root for its parent: drop the last path component,
    /// reset the offsets and mark the cache stale. Meaningful in normal
    /// view only; without a parent nothing changes.
    pub fn navigate_up(&mut self)
        ensures
            old(self).current_dir@.len() > 0 ==> ({
                &&& *final(self) == (App {
                    current_dir: final(self).current_dir,
                    offset_x: 0,
                    offset_y: 0,
                    layout_dirty: true,
                    ..*old(self)
                })
                &&& final(self).current_dir.deep_view() == old(
                    self,
                ).current_dir.deep_view().drop_last()
            }),
            old(self).current_dir@.len() == 0 ==> *final(self) == *old(self),
    {
        if self.current_dir.len() > 0 {
            let ghost before = self.current_dir.deep_view();
            self.current_dir.pop();
            self.offset_x = 0;
            self.offset_y = 0;
            self.layout_dirty = true;
            proof {
                assert forall|k: int|
                    0 <= k < self.current_dir.deep_view().len() implies self.current_dir.deep_view()[k] =~= before.drop_last()[k] by {
                    assert(self.current_dir@[k] == old(self).current_dir@[k]);
                }
                assert(self.current_dir.deep_view() =~~= before.drop_last());
            }
        }
    }

    /// Interpret one navigation key: Enter zooms into the selection; in
    /// normal view Left goes to the parent; in scroll view the arrow keys
    /// move the offsets by five cells across and three down, the shifted
    /// keys by twenty and ten, all saturating at zero and at the cell
    /// range's top.
    pub fn handle_key(&mut self, key: NavKey)
        ensures
            match key {
                NavKey::Activate => match old(self).selected {
                    Some(p) => match spec_find(old(self).root, p.deep_view()) {
                        Some(m) => if m.is_dir && m.children@.len() > 0 {
                            &&& *final(self) == (App {
                                current_dir: final(self).current_dir,
                                offset_x: 0,
                                offset_y: 0,
                                layout_dirty: true,
                                ..*old(self)
                            })
                            &&& final(self).current_dir.deep_view() == m.path.deep_view()
                        } else {
                            *final(self) == *old(self)
                        },
                        None => *final(self) == *old(self),
                    },
                    None => *final(self) == *old(self),
                },
                NavKey::Left => if old(self).scroll_mode {
                    *final(self) == (App {
                        offset_x: if old(self).offset_x >= 5 {
                            (old(self).offset_x - 5) as u16
                        } else {
                            0u16
                        },
                        ..*old(self)
                    })
                } else if old(self).current_dir@.len() > 0 {
                    &&& *final(self) == (App {
                        current_dir: final(self).current_dir,
                        offset_x: 0,
                        offset_y: 0,
                        layout_dirty: true,
                        ..*old(self)
                    })
                    &&& final(self).current_dir.deep_view() == old(
                        self,
                    ).current_dir.deep_view().drop_last()
                } else {
                    *final(self) == *old(self)
                },
                NavKey::Right => *final(self) == (App {
                    offset_x: if old(self).scroll_mode {
                        if old(self).offset_x <= u16::MAX - 5 {
                            (old(self).offset_x + 5) as u16
                        } else {
                            u16::MAX
                        }
                    } else {
                        old(self).offset_x
                    },
                    ..*old(self)
                }),
                NavKey::Up => *final(self) == (App {
                    offset_y: if old(self).scroll_mode {
                        if old(self).offset_y >= 3 {
                            (old(self).offset_y - 3) as u16
                        } else {
                            0u16
                        }
                    } else {
                        old(self).offset_y
                    },
                    ..*old(self)
                }),
                NavKey::Down => *final(self) == (App {
                    offset_y: if old(self).scroll_mode {
                        if old(self).offset_y <= u16::MAX - 3 {
                            (old(self).offset_y + 3) as u16
                        } else {
                            u16::MAX
                        }
                    } else {
                        old(self).offset_y
                    },
                    ..*old(self)
                }),
                NavKey::FastLeft => *final(self) == (App {
                    offset_x: if old(self).scroll_mode {
                        if old(self).offset_x >= 20 {
                            (old(self).offset_x - 20) as u16
                        } else {
                            0u16
                        }
                    } else {
                        old(self).offset_x
                    },
                    ..*old(self)
                }),
                NavKey::FastRight => *final(self) == (App {
                    offset_x: if old(self).scroll_mode {
                        if old(self).offset_x <= u16::MAX - 20 {
                            (old(self).offset_x + 20) as u16
                        } else {
                            u16::MAX
                        }
                    } else {
                        old(self).offset_x
                    },
                    ..*old(self)
                }),
                NavKey::FastUp => *final(self) == (App {
                    offset_y: if old(self).scroll_mode {
                        if old(self).offset_y >= 10 {
                            (old(self).offset_y - 10) as u16
                        } else {
                            0u16
                        }
                    } else {
                        old(self).offset_y
                    },
                    ..*old(self)
                }),
                NavKey::FastDown => *final(self) == (App {
                    offset_y: if old(self).scroll_mode {
                        if old(self).offset_y <= u16::MAX - 10 {
                            (old(self).offset_y + 10) as u16
                        } else {
                            u16::MAX
                        }
                    } else {
                        old(self).offset_y
                    },
                    ..*old(self)
                }),
            },
    {
        match key {
            NavKey::Activate => self.activate_selection(),
            NavKey::Left => {
                if self.scroll_mode {
                    self.offset_x = if self.offset_x >= 5 {
                        self.offset_x - 5
                    } else {
                        0
                    };
                } else {
                    self.navigate_up();
                }
            },
            NavKey::Right => {
                if self.scroll_mode {
                    self.offset_x = if self.offset_x <= u16::MAX - 5 {
                        self.offset_x + 5
                    } else {
                        u16::MAX
                    };
                }
            },
            NavKey::Up => {
                if self.scroll_mode {
                    self.offset_y = if self.offset_y >= 3 {
                        self.offset_y - 3
                    } else {
                        0
                    };
                }
            },
            NavKey::Down => {
                if self.scroll_mode {
                    self.offset_y = if self.offset_y <= u16::MAX - 3 {
                        self.offset_y + 3
                    } else {
                        u16::MAX
                    };
                }
            },
            NavKey::FastLeft => {
                if self.scroll_mode {
                    self.offset_x = if self.offset_x >= 20 {
                        self.offset_x - 20
                    } else {
                        0
                    };
                }
            },
            NavKey::FastRight => {
                if self.scroll_mode {
                    self.offset_x = if self.offset_x <= u16::MAX - 20 {
                        self.offset_x + 20
                    } else {
                        u16::MAX
                    };
                }
            },
            NavKey::FastUp => {
                if self.scroll_mode {
                    self.offset_y = if self.offset_y >= 10 {
                        self.offset_y - 10
                    } else {
                        0
                    };
                }
            },
            NavKey::FastDown => {
                if self.scroll_mode {
                    self.offset_y = if self.offset_y <= u16::MAX - 10 {
                        self.offset_y + 10
                    } else {
                        u16::MAX
                    };
                }
            },
        }
    }

    /// Record the cursor cell and re-resolve the hover selection: when the
    /// cursor lands on a cached tile, the first such tile's path becomes
    /// the selection; a miss leaves the selection unchanged.
    pub fn mouse_moved(&mut self, x: u16, y: u16)
        ensures
            final(self).mouse_pos == (x, y),
            *final(self) == (App {
                mouse_pos: (x, y),
                selected: final(self).selected,
                ..*old(self)
            }),
            forall|i: int|
                spec_hit_index(
                    old(self).layout@,
                    x,
                    y,
                    old(self).offset_x,
                    old(self).offset_y,
                    i,
                ) ==> (final(self).selected matches Some(p) && p.deep_view() == old(
                    self,
                ).layout@[i].path.deep_view()),
            no_hit_upto(
                old(self).layout@,
                x,
                y,
                old(self).offset_x,
                old(self).offset_y,
                old(self).layout@.len() as int,
            ) ==> final(self).selected == old(self).selected,
    {
        let r: Option<&Tile> = self.get_node_at(x, y);
        let ghost r_tile: Option<Tile> = match r {
            Some(t) => Some(*t),
            None => None,
        };
        let hit_path: Option<Vec<String>> = match r {
            Some(t) => Some(clone_path(&t.path)),
            None => None,
        };
        self.mouse_pos = (x, y);
        if let Some(p) = hit_path {
            self.selected = Some(p);
        }
        proof {
            let ts = old(self).layout@;
            let ox = old(self).offset_x;
            let oy = old(self).offset_y;
            if no_hit_upto(ts, x, y, ox, oy, ts.len() as int) {
                if r_tile is Some {
                    let t = r_tile->0;
                    let j = choose|j: int|
                        {
                            &&& 0 <= j < ts.len()
                            &&& #[trigger] ts[j] == t
                            &&& tile_hit(ts[j], x, y, ox, oy)
                            &&& no_hit_upto(ts, x, y, ox, oy, j)
                        };
                    lemma_no_hit_index(ts, x, y, ox, oy, ts.len() as int, j);
                    assert(false);
                }
            }
            assert forall|i: int| spec_hit_index(ts, x, y, ox, oy, i) implies (self.selected
                matches Some(p) && p.deep_view() == ts[i].path.deep_view()) by {
                if r_tile is None {
                    lemma_no_hit_index(ts, x, y, ox, oy, ts.len() as int, i);
                    assert(false);
                }
                let t = r_tile->0;
                let j = choose|j: int|
                    {
                        &&& 0 <= j < ts.len()
                        &&& #[trigger] ts[j] == t
                        &&& tile_hit(ts[j], x, y, ox, oy)
                        &&& no_hit_upto(ts, x, y, ox, oy, j)
                    };
                lemma_hit_index_unique(ts, x, y, ox, oy, i, j);
            }
        }
    }
}


impl App {
    /// A click on a cached tile: with the modifier held, ask for the
    /// tile's path to be opened externally and change nothing; otherwise
    /// zoom into the tile when it is a directory with children. A miss
    /// changes nothing and asks for nothing.
    pub fn mouse_down(&mut self, x: u16, y: u16, modifier: bool) -> (r: Option<Vec<String>>)
        ensures
            no_hit_upto(
                old(self).layout@,
                x,
                y,
                old(self).offset_x,
                old(self).offset_y,
                old(self).layout@.len() as int,
            ) ==> *final(self) == *old(self) && r is None,
            forall|i: int|
                spec_hit_index(
                    old(self).layout@,
                    x,
                    y,
                    old(self).offset_x,
                    old(self).offset_y,
                    i,
                ) ==> {
                    let t = old(self).layout@[i];
                    if modifier {
                        &&& *final(self) == *old(self)
                        &&& (r matches Some(p) && p.deep_view() == t.path.deep_view())
                    } else if t.is_dir && t.has_children {
                        &&& *final(self) == (App {
                            current_dir: final(self).current_dir,
                            offset_x: 0,
                            offset_y: 0,
                            layout_dirty: true,
                            ..*old(self)
                        })
                        &&& final(self).current_dir.deep_view() == t.path.deep_view()
                        &&& r is None
                    } else {
                        *final(self) == *old(self) && r is None
                    }
                },
    {
        let hit: Option<&Tile> = self.get_node_at(x, y);
        let ghost r_tile: Option<Tile> = match hit {
            Some(t) => Some(*t),
            None => None,
        };
        let decision: Option<(Vec<String>, bool)> = match hit {
            Some(t) => {
                if modifier {
                    Some((clone_path(&t.path), true))
                } else if t.is_dir && t.has_children {
                    Some((clone_path(&t.path), false))
                } else {
                    None
                }
            },
            None => None,
        };
        let out: Option<Vec<String>> = match decision {
            Some((p, true)) => Some(p),
            Some((p, false)) => {
                self.current_dir = p;
                self.offset_x = 0;
                self.offset_y = 0;
                self.layout_dirty = true;
                None
            },
            None => None,
        };
        proof {
            let ts = old(self).layout@;
            let ox = old(self).offset_x;
            let oy = old(self).offset_y;
            if no_hit_upto(ts, x, y, ox, oy, ts.len() as int) {
                if r_tile is Some {
                    let t = r_tile->0;
                    let j = choose|j: int|
                        {
                            &&& 0 <= j < ts.len()
                            &&& #[trigger] ts[j] == t
                            &&& tile_hit(ts[j], x, y, ox, oy)
                            &&& no_hit_upto(ts, x, y, ox, oy, j)
                        };
                    lemma_no_hit_index(ts, x, y, ox, oy, ts.len() as int, j);
                    assert(false);
                }
            }
            assert forall|i: int| spec_hit_index(ts, x, y, ox, oy, i) implies {
                let t = ts[i];
                if modifier {
                    &&& *self == *old(self)
                    &&& (out matches Some(p) && p.deep_view() == t.path.deep_view())
                } else if t.is_dir && t.has_children {
                    &&& *self == (App {
                        current_dir: self.current_dir,
                        offset_x: 0,
                        offset_y: 0,
                        layout_dirty: true,
                        ..*old(self)
                    })
                    &&& self.current_dir.deep_view() == t.path.deep_view()
                    &&& out is None
                } else {
                    *self == *old(self) && out is None
                }
            } by {
                if r_tile is None {
                    lemma_no_hit_index(ts, x, y, ox, oy, ts.len() as int, i);
                    assert(false);
                }
                let t = r_tile->0;
                let j = choose|j: int|
                    {
                        &&& 0 <= j < ts.len()
                        &&& #[trigger] ts[j] == t
                        &&& tile_hit(ts[j], x, y, ox, oy)
                        &&& no_hit_upto(ts, x, y, ox, oy, j)
                    };
                lemma_hit_index_unique(ts, x, y, ox, oy, i, j);
            }
        }
        out
    }
}

/// Navigation round trip: zooming into a directory that is a direct child
/// of the zoom root and then navigating to its parent restores the prior
/// zoom root, with both offsets at the origin. Zooming sets the zoom root
/// to the selected path and navigating up drops that path's last
/// component, so for a direct child the two compose to the identity.
pub proof fn lemma_navigation_round_trip(dir: Seq<Seq<char>>, child: Seq<char>)
    ensures
        dir.push(child).drop_last() == dir,
{
    assert(dir.push(child).drop_last() =~= dir);
}

} // verus!
