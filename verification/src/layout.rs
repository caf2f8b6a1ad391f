//! The slice-and-dice treemap layout: a pure pass from a sized tree and a
//! rectangle to a flat list of non-overlapping tiles, with integer-cell
//! rounding by largest remainder, a three-cell minimum tile, and clipping
//! helpers for drawing.
use crate::tree::Node;
use crate::tree::lemma_wf_children_index;
use crate::tree::sum_sizes;
use crate::tree::wf_node;
use vstd::prelude::*;

verus! {

broadcast use vstd::std_specs::vec::axiom_vec_index_decreases;

/// One screen rectangle in integer cell coordinates.
#[derive(Clone, Copy, PartialEq, Eq, Structural, Debug)]
pub struct Rect {
    pub x: u16,
    pub y: u16,
    pub width: u16,
    pub height: u16,
}

/// One past the right edge.
pub open spec fn right_of(r: Rect) -> int {
    r.x + r.width
}

/// One past the bottom edge.
pub open spec fn bottom_of(r: Rect) -> int {
    r.y + r.height
}

/// A rectangle whose edges stay within the cell coordinate range.
pub open spec fn rect_wf(r: Rect) -> bool {
    right_of(r) <= u16::MAX && bottom_of(r) <= u16::MAX
}

/// `inner` lies entirely within `outer`.
pub open spec fn rect_inside(inner: Rect, outer: Rect) -> bool {
    &&& outer.x <= inner.x
    &&& right_of(inner) <= right_of(outer)
    &&& outer.y <= inner.y
    &&& bottom_of(inner) <= bottom_of(outer)
}

/// The two rectangles share no cell.
pub open spec fn rects_disjoint(a: Rect, b: Rect) -> bool {
    ||| right_of(a) <= b.x
    ||| right_of(b) <= a.x
    ||| bottom_of(a) <= b.y
    ||| bottom_of(b) <= a.y
}

/// The cell `(x, y)` lies inside `r`.
pub open spec fn rect_contains(r: Rect, x: int, y: int) -> bool {
    r.x <= x < right_of(r) && r.y <= y < bottom_of(r)
}

impl Rect {
    /// One past the right edge, computed without overflow.
    pub fn right(&self) -> (r: u32)
        ensures
            r == right_of(*self),
    {
        self.x as u32 + self.width as u32
    }

    /// One past the bottom edge, computed without overflow.
    pub fn bottom(&self) -> (r: u32)
        ensures
            r == bottom_of(*self),
    {
        self.y as u32 + self.height as u32
    }
}

/// The overlap of two rectangles, or `None` when they share no cell.
pub fn clip_rect(rect: Rect, area: Rect) -> (r: Option<Rect>)
    requires
        rect_wf(rect),
        rect_wf(area),
    ensures
        match r {
            Some(c) => {
                &&& !rects_disjoint(rect, area)
                &&& c.x == if rect.x >= area.x {
                    rect.x
                } else {
                    area.x
                }
                &&& c.y == if rect.y >= area.y {
                    rect.y
                } else {
                    area.y
                }
                &&& right_of(c) == if right_of(rect) <= right_of(area) {
                    right_of(rect)
                } else {
                    right_of(area)
                }
                &&& bottom_of(c) == if bottom_of(rect) <= bottom_of(area) {
                    bottom_of(rect)
                } else {
                    bottom_of(area)
                }
                &&& c.width >= 1 && c.height >= 1
            },
            None => rects_disjoint(rect, area) || rect.width == 0 || rect.height == 0
                || area.width == 0 || area.height == 0,
        },
{
    let x1: u16 = if rect.x >= area.x {
        rect.x
    } else {
        area.x
    };
    let y1: u16 = if rect.y >= area.y {
        rect.y
    } else {
        area.y
    };
    let r_right: u32 = rect.right();
    let a_right: u32 = area.right();
    let x2: u32 = if r_right <= a_right {
        r_right
    } else {
        a_right
    };
    let r_bottom: u32 = rect.bottom();
    let a_bottom: u32 = area.bottom();
    let y2: u32 = if r_bottom <= a_bottom {
        r_bottom
    } else {
        a_bottom
    };
    if (x1 as u32) < x2 && (y1 as u32) < y2 {
        Some(
            Rect {
                x: x1,
                y: y1,
                width: (x2 - x1 as u32) as u16,
                height: (y2 - y1 as u32) as u16,
            },
        )
    } else {
        None
    }
}

/// Whether a cached tile, translated by the scroll offsets, still meets
/// the live viewport at all: the cheap rejection applied before any
/// clipping math.
pub fn on_screen(rect: Rect, ox: u16, oy: u16, view: Rect) -> (r: bool)
    ensures
        r == {
            &&& rect.x - ox < right_of(view)
            &&& right_of(rect) - ox > view.x
            &&& rect.y - oy < bottom_of(view)
            &&& bottom_of(rect) - oy > view.y
        },
{
    (rect.x as u32) < view.right() + (ox as u32) && rect.right() > (view.x as u32) + (ox as u32)
        && (rect.y as u32) < view.bottom() + (oy as u32) && rect.bottom() > (view.y as u32) + (
    oy as u32)
}

/// Where a cached tile lands on screen: in scroll view its corner is
/// pulled back by the scroll offsets, saturating at the origin; in normal
/// view it is drawn where it lies.
pub fn translate_for_scroll(rect: Rect, ox: u16, oy: u16, scroll_mode: bool) -> (r: Rect)
    ensures
        !scroll_mode ==> r == rect,
        scroll_mode ==> r == (Rect {
            x: if rect.x >= ox {
                (rect.x - ox) as u16
            } else {
                0u16
            },
            y: if rect.y >= oy {
                (rect.y - oy) as u16
            } else {
                0u16
            },
            ..rect
        }),
{
    if scroll_mode {
        Rect {
            x: if rect.x >= ox {
                rect.x - ox
            } else {
                0
            },
            y: if rect.y >= oy {
                rect.y - oy
            } else {
                0
            },
            width: rect.width,
            height: rect.height,
        }
    } else {
        rect
    }
}

/// Sum of a sequence of sizes.
pub open spec fn sum_u64(s: Seq<u64>) -> int
    decreases s.len(),
{
    if s.len() == 0 {
        0
    } else {
        sum_u64(s.drop_last()) + s.last()
    }
}

pub proof fn lemma_sum_u64_prefix_step(s: Seq<u64>, i: int)
    requires
        0 <= i < s.len(),
    ensures
        sum_u64(s.subrange(0, i + 1)) == sum_u64(s.subrange(0, i)) + s[i],
{
    assert(s.subrange(0, i + 1).drop_last() =~= s.subrange(0, i));
    assert(s.subrange(0, i + 1).last() == s[i]);
}

pub proof fn lemma_sum_u64_nonneg(s: Seq<u64>)
    ensures
        0 <= sum_u64(s),
    decreases s.len(),
{
    if s.len() > 0 {
        lemma_sum_u64_nonneg(s.drop_last());
    }
}

/// The whole-cell part of a child's ideal share of `w` cells.
pub open spec fn floor_share(size: u64, total: u64, w: u16) -> int {
    (size as int * w as int) / (total as int)
}

/// The fractional part of a child's ideal share, scaled by `total`.
pub open spec fn share_rem(size: u64, total: u64, w: u16) -> int {
    (size as int * w as int) % (total as int)
}

/// Child `j` outranks child `i` for an extra cell: a larger fractional
/// part wins, and a tie keeps the original relative order.
pub open spec fn outranks(sizes: Seq<u64>, total: u64, w: u16, j: int, i: int) -> bool {
    ||| share_rem(sizes[j], total, w) > share_rem(sizes[i], total, w)
    ||| (share_rem(sizes[j], total, w) == share_rem(sizes[i], total, w) && j < i)
}

/// How many of the first `upto` children outrank child `i`.
pub open spec fn rank_below(sizes: Seq<u64>, total: u64, w: u16, i: int, upto: int) -> int
    decreases upto,
{
    if upto <= 0 {
        0
    } else {
        rank_below(sizes, total, w, i, upto - 1) + if outranks(sizes, total, w, upto - 1, i) {
            1int
        } else {
            0int
        }
    }
}

/// A child's rank in the largest-remainder order.
pub open spec fn share_rank(sizes: Seq<u64>, total: u64, w: u16, i: int) -> int {
    rank_below(sizes, total, w, i, sizes.len() as int)
}

/// Sum of the floors of the first `upto` ideal shares.
pub open spec fn floors_sum(sizes: Seq<u64>, total: u64, w: u16, upto: int) -> int
    decreases upto,
{
    if upto <= 0 {
        0
    } else {
        floors_sum(sizes, total, w, upto - 1) + floor_share(sizes[upto - 1], total, w)
    }
}

/// The cells left over once every share is floored.
pub open spec fn slack(sizes: Seq<u64>, total: u64, w: u16) -> int {
    w - floors_sum(sizes, total, w, sizes.len() as int)
}

/// The rounded share of child `i`: its floor, plus one of the leftover
/// cells when its fractional part ranks among the largest.
pub open spec fn rounded_share(sizes: Seq<u64>, total: u64, w: u16, i: int) -> int {
    floor_share(sizes[i], total, w) + if share_rank(sizes, total, w, i) < slack(
        sizes,
        total,
        w,
    ) {
        1int
    } else {
        0int
    }
}

proof fn lemma_floor_share_le_w(size: u64, total: u64, w: u16)
    requires
        total > 0,
        size <= total,
    ensures
        0 <= floor_share(size, total, w) <= w,
        0 <= share_rem(size, total, w) < total,
{
    let s = size as int;
    let t = total as int;
    let ww = w as int;
    assert(0 <= (s * ww) / t <= ww && 0 <= (s * ww) % t < t) by (nonlinear_arith)
        requires
            t > 0,
            0 <= s <= t,
            0 <= ww,
    ;
}

/// Floored shares of a prefix never exceed the prefix's ideal share.
proof fn lemma_floors_sum_le(sizes: Seq<u64>, total: u64, w: u16, upto: int)
    requires
        total > 0,
        0 <= upto <= sizes.len(),
    ensures
        0 <= floors_sum(sizes, total, w, upto),
        floors_sum(sizes, total, w, upto) * total <= sum_u64(sizes.subrange(0, upto)) * w,
    decreases upto,
{
    if upto == 0 {
        assert(sum_u64(sizes.subrange(0, 0)) == 0);
    } else {
        lemma_floors_sum_le(sizes, total, w, upto - 1);
        lemma_sum_u64_prefix_step(sizes, upto - 1);
        let fs = floors_sum(sizes, total, w, upto - 1);
        let f = floor_share(sizes[upto - 1], total, w);
        let r = share_rem(sizes[upto - 1], total, w);
        let sp = sum_u64(sizes.subrange(0, upto - 1));
        let s = sizes[upto - 1] as int;
        let t = total as int;
        let ww = w as int;
        assert(f >= 0 && r >= 0 && f * t + r == s * ww) by (nonlinear_arith)
            requires
                t > 0,
                f == (s * ww) / t,
                r == (s * ww) % t,
                s >= 0,
                ww >= 0,
        ;
        assert((fs + f) * t <= (sp + s) * ww) by (nonlinear_arith)
            requires
                fs * t <= sp * ww,
                f * t + r == s * ww,
                r >= 0,
        ;
    }
}

/// Round the ideal shares of `w` cells to whole cells by largest
/// remainder: floor every share, then hand the leftover cells to the
/// children with the largest fractional parts, earlier children first on
/// ties.
pub fn largest_remainder(sizes: &Vec<u64>, total: u64, w: u16) -> (alloc: Vec<u16>)
    requires
        total > 0,
        sum_u64(sizes@) == total,
    ensures
        alloc@.len() == sizes@.len(),
        forall|i: int|
            0 <= i < alloc@.len() ==> #[trigger] alloc@[i] == rounded_share(sizes@, total, w, i),
{
    let n: usize = sizes.len();
    let mut floors: Vec<u16> = Vec::new();
    let mut rems: Vec<u64> = Vec::new();
    let mut allocated: u16 = 0;
    let mut i: usize = 0;
    proof {
        lemma_sum_u64_nonneg(sizes@);
    }
    while i < n
        invariant
            total > 0,
            sum_u64(sizes@) == total,
            n == sizes@.len(),
            i <= n,
            floors@.len() == i,
            rems@.len() == i,
            forall|k: int|
                0 <= k < i ==> #[trigger] floors@[k] == floor_share(sizes@[k], total, w),
            forall|k: int| 0 <= k < i ==> #[trigger] rems@[k] == share_rem(sizes@[k], total, w),
            allocated == floors_sum(sizes@, total, w, i as int),
            allocated <= w,
        decreases n - i,
    {
        proof {
            lemma_size_le_total(sizes@, total, i as int);
            lemma_floor_share_le_w(sizes@[i as int], total, w);
            lemma_floors_sum_le(sizes@, total, w, i as int + 1);
            lemma_sum_u64_bound(sizes@, i as int + 1);
            lemma_sum_u64_nonneg(sizes@.subrange(0, i as int + 1));
            let fs = floors_sum(sizes@, total, w, i as int + 1);
            let sp = sum_u64(sizes@.subrange(0, i as int + 1));
            let t = total as int;
            let ww = w as int;
            assert(fs <= ww) by (nonlinear_arith)
                requires
                    fs * t <= sp * ww,
                    0 <= sp <= t,
                    t > 0,
                    ww >= 0,
                    fs >= 0,
            ;
        }
        proof {
            let s = sizes@[i as int] as int;
            let ww = w as int;
            assert(s * ww <= u64::MAX * u16::MAX) by (nonlinear_arith)
                requires
                    0 <= s <= u64::MAX,
                    0 <= ww <= u16::MAX,
            ;
        }
        let q: u128 = (sizes[i] as u128) * (w as u128);
        let f: u16 = (q / (total as u128)) as u16;
        let r: u64 = (q % (total as u128)) as u64;
        floors.push(f);
        rems.push(r);
        allocated = allocated + f;
        i = i + 1;
    }
    let rest: u16 = w - allocated;
    let mut alloc: Vec<u16> = Vec::new();
    let mut i: usize = 0;
    while i < n
        invariant
            total > 0,
            sum_u64(sizes@) == total,
            n == sizes@.len(),
            i <= n,
            floors@.len() == n,
            rems@.len() == n,
            forall|k: int|
                0 <= k < n ==> #[trigger] floors@[k] == floor_share(sizes@[k], total, w),
            forall|k: int| 0 <= k < n ==> #[trigger] rems@[k] == share_rem(sizes@[k], total, w),
            rest == slack(sizes@, total, w),
            alloc@.len() == i,
            forall|k: int|
                0 <= k < i ==> #[trigger] alloc@[k] == rounded_share(sizes@, total, w, k),
        decreases n - i,
    {
        let mut cnt: usize = 0;
        let mut j: usize = 0;
        while j < n
            invariant
                n == sizes@.len(),
                i < n,
                j <= n,
                rems@.len() == n,
                forall|k: int|
                    0 <= k < n ==> #[trigger] rems@[k] == share_rem(sizes@[k], total, w),
                cnt == rank_below(sizes@, total, w, i as int, j as int),
                cnt <= j,
            decreases n - j,
        {
            if rems[j] > rems[i] || (rems[j] == rems[i] && j < i) {
                cnt = cnt + 1;
            }
            j = j + 1;
        }
        let extra: u16 = if (cnt as u64) < (rest as u64) {
            1
        } else {
            0
        };
        proof {
            lemma_size_le_total(sizes@, total, i as int);
            lemma_floor_share_le_w(sizes@[i as int], total, w);
            if extra == 1 {
                lemma_extra_fits(sizes@, total, w, i as int);
            }
        }
        alloc.push(floors[i] + extra);
        i = i + 1;
    }
    alloc
}

/// Every size in a listing that sums to the total is at most the total.
proof fn lemma_sum_u64_bound(s: Seq<u64>, upto: int)
    requires
        0 <= upto <= s.len(),
    ensures
        sum_u64(s.subrange(0, upto)) <= sum_u64(s),
    decreases s.len() - upto,
{
    if upto == s.len() {
        assert(s.subrange(0, upto) =~= s);
    } else {
        lemma_sum_u64_bound(s, upto + 1);
        lemma_sum_u64_prefix_step(s, upto);
    }
}

proof fn lemma_size_le_total(sizes: Seq<u64>, total: u64, i: int)
    requires
        0 <= i < sizes.len(),
        sum_u64(sizes) == total,
    ensures
        sizes[i] <= total,
{
    lemma_sum_u64_prefix_step(sizes, i);
    lemma_sum_u64_nonneg(sizes.subrange(0, i));
    lemma_sum_u64_bound(sizes, i + 1);
}

/// A child with a whole share of all `w` cells has no fractional part,
/// so a granted extra cell never pushes a share past `w`.
proof fn lemma_extra_fits(sizes: Seq<u64>, total: u64, w: u16, i: int)
    requires
        total > 0,
        sum_u64(sizes) == total,
        0 <= i < sizes.len(),
        share_rank(sizes, total, w, i) < slack(sizes, total, w),
    ensures
        floor_share(sizes[i], total, w) < w,
{
    lemma_size_le_total(sizes, total, i);
    lemma_floor_share_le_w(sizes[i], total, w);
    if floor_share(sizes[i], total, w) == w {
        lemma_rank_below_nonneg(sizes, total, w, i, sizes.len() as int);
        lemma_floors_sum_elem(sizes, total, w, i);
    }
}

proof fn lemma_rank_below_nonneg(sizes: Seq<u64>, total: u64, w: u16, i: int, upto: int)
    ensures
        0 <= rank_below(sizes, total, w, i, upto),
    decreases upto,
{
    if upto > 0 {
        lemma_rank_below_nonneg(sizes, total, w, i, upto - 1);
    }
}

/// One floored share never exceeds the sum of all floored shares.
proof fn lemma_floors_sum_elem(sizes: Seq<u64>, total: u64, w: u16, i: int)
    requires
        total > 0,
        sum_u64(sizes) == total,
        0 <= i < sizes.len(),
    ensures
        floor_share(sizes[i], total, w) <= floors_sum(sizes, total, w, sizes.len() as int),
    decreases sizes.len() - i,
{
    lemma_floors_sum_parts(sizes, total, w, i + 1, sizes.len() as int);
    lemma_size_le_total(sizes, total, i);
    lemma_floor_share_le_w(sizes[i], total, w);
    lemma_floors_nonneg_range(sizes, total, w, i + 1, sizes.len() as int);
    lemma_floors_sum_le(sizes, total, w, i);
}

/// `floors_sum` over a longer prefix splits at any midpoint.
proof fn lemma_floors_sum_parts(sizes: Seq<u64>, total: u64, w: u16, mid: int, upto: int)
    requires
        0 <= mid <= upto <= sizes.len(),
    ensures
        floors_sum(sizes, total, w, upto) == floors_sum(sizes, total, w, mid) + floors_range(
            sizes,
            total,
            w,
            mid,
            upto,
        ),
    decreases upto - mid,
{
    if mid < upto {
        lemma_floors_sum_parts(sizes, total, w, mid + 1, upto);
    }
}

/// Sum of floored shares over the index range `[lo, hi)`.
pub open spec fn floors_range(sizes: Seq<u64>, total: u64, w: u16, lo: int, hi: int) -> int
    decreases hi - lo,
{
    if lo >= hi {
        0
    } else {
        floor_share(sizes[lo], total, w) + floors_range(sizes, total, w, lo + 1, hi)
    }
}

proof fn lemma_floors_nonneg_range(sizes: Seq<u64>, total: u64, w: u16, lo: int, hi: int)
    requires
        total > 0,
        sum_u64(sizes) == total,
        0 <= lo,
        hi <= sizes.len(),
    ensures
        0 <= floors_range(sizes, total, w, lo, hi),
    decreases hi - lo,
{
    if lo < hi {
        lemma_size_le_total(sizes, total, lo);
        lemma_floor_share_le_w(sizes[lo], total, w);
        lemma_floors_nonneg_range(sizes, total, w, lo + 1, hi);
    }
}

/// A rounded share bumped to the three-cell minimum tile.
pub open spec fn bumped(a: u16) -> int {
    if a < 3 {
        3
    } else {
        a as int
    }
}

/// The cells a child actually receives when placed at `pos`: its bumped
/// share, capped to the cells left before the far edge.
pub open spec fn placed_len(a: u16, pos: int, hi: int) -> int {
    if bumped(a) <= hi - pos {
        bumped(a)
    } else {
        hi - pos
    }
}

/// Sum of the lengths of the first `k` segments.
pub open spec fn seg_sum_upto(segs: Seq<(u16, u16)>, k: int) -> int
    decreases k,
{
    if k <= 0 {
        0
    } else {
        seg_sum_upto(segs, k - 1) + segs[k - 1].1
    }
}

/// The segments one level places, before donation: each share in turn is
/// bumped to at least three cells and capped to the cells remaining
/// before the far edge; placement stops when fewer than three cells
/// remain.
pub open spec fn spec_place_raw(alloc: Seq<int>, pos: int, hi: int) -> Seq<(int, int)>
    decreases alloc.len(),
{
    if alloc.len() == 0 {
        Seq::empty()
    } else if hi - pos < 3 {
        Seq::empty()
    } else {
        let b: int = if alloc.first() < 3 {
            3
        } else {
            alloc.first()
        };
        let l: int = if b <= hi - pos {
            b
        } else {
            hi - pos
        };
        seq![(pos, l)] + spec_place_raw(alloc.drop_first(), pos + l, hi)
    }
}

/// The placed segments of one level: the leftover cells before the far
/// edge are donated to the last placed segment, so the segments tile the
/// interval exactly.
pub open spec fn spec_segments(alloc: Seq<int>, lo: int, hi: int) -> Seq<(int, int)> {
    let raw = spec_place_raw(alloc, lo, hi);
    if raw.len() == 0 {
        raw
    } else {
        raw.update(raw.len() - 1, (raw.last().0, hi - raw.last().0))
    }
}

/// The integer values of a rounded allocation list.
pub open spec fn alloc_ints(alloc: Seq<u16>) -> Seq<int> {
    Seq::new(alloc.len(), |i: int| alloc[i] as int)
}

/// The integer values of a placed segment list.
pub open spec fn seg_ints(segs: Seq<(u16, u16)>) -> Seq<(int, int)> {
    Seq::new(segs.len(), |i: int| (segs[i].0 as int, segs[i].1 as int))
}

/// Place rounded shares one after another along `[lo, hi)`: each is bumped
/// to at least three cells and capped to the cells remaining; placement
/// stops when fewer than three cells remain; the leftover cells are
/// donated to the last placed segment, so the segments tile `[lo, hi)`
/// exactly.
pub fn place_slices(alloc: &Vec<u16>, lo: u16, hi: u16) -> (segs: Vec<(u16, u16)>)
    requires
        alloc@.len() >= 1,
        lo + 3 <= hi,
    ensures
        1 <= segs@.len() <= alloc@.len(),
        segs@[0].0 == lo,
        forall|k: int|
            0 <= k < segs@.len() - 1 ==> #[trigger] segs@[k + 1].0 == segs@[k].0 + segs@[k].1,
        forall|k: int| 0 <= k < segs@.len() ==> (#[trigger] segs@[k].1) >= 3,
        segs@.last().0 + segs@.last().1 == hi,
        forall|k: int|
            0 <= k < segs@.len() - 1 ==> (#[trigger] segs@[k].1) == bumped(alloc@[k]),
        segs@.len() < alloc@.len() ==> hi - (segs@.last().0 + placed_len(
            alloc@[segs@.len() - 1],
            segs@.last().0 as int,
            hi as int,
        )) < 3,
        ({
            let ss = spec_segments(alloc_ints(alloc@), lo as int, hi as int);
            &&& segs@.len() == ss.len()
            &&& forall|k: int|
                0 <= k < ss.len() ==> (#[trigger] segs@[k]).0 == ss[k].0 && segs@[k].1 == ss[k].1
        }),
{
    let n: usize = alloc.len();
    let mut segs: Vec<(u16, u16)> = Vec::new();
    let mut cursor: u16 = lo;
    let mut k: usize = 0;
    let mut stop: bool = false;
    proof {
        assert(seg_ints(segs@) =~= Seq::<(int, int)>::empty());
        assert(alloc_ints(alloc@).subrange(0, n as int) =~= alloc_ints(alloc@));
        assert(seg_ints(segs@) + spec_place_raw(alloc_ints(alloc@), lo as int, hi as int)
            =~= spec_place_raw(alloc_ints(alloc@), lo as int, hi as int));
    }
    while k < n && !stop
        invariant
            n == alloc@.len(),
            lo + 3 <= hi,
            k <= n,
            segs@.len() == k,
            lo <= cursor <= hi,
            k == 0 ==> cursor == lo && !stop,
            k > 0 ==> segs@[0].0 == lo,
            k > 0 ==> cursor == segs@.last().0 + segs@.last().1,
            forall|j: int|
                0 <= j < k - 1 ==> #[trigger] segs@[j + 1].0 == segs@[j].0 + segs@[j].1,
            forall|j: int| 0 <= j < k ==> (#[trigger] segs@[j].1) >= 3,
            forall|j: int| 0 <= j < k - 1 ==> (#[trigger] segs@[j].1) == bumped(alloc@[j]),
            k > 0 ==> (segs@.last().1 == placed_len(alloc@[k - 1], segs@.last().0 as int, hi as int)),
            k > 0 && !stop && k < n ==> segs@.last().1 == bumped(alloc@[k - 1]),
            stop ==> k < n && hi - cursor < 3,
            !stop ==> spec_place_raw(alloc_ints(alloc@), lo as int, hi as int) == seg_ints(segs@)
                + spec_place_raw(
                alloc_ints(alloc@).subrange(k as int, n as int),
                cursor as int,
                hi as int,
            ),
            stop ==> spec_place_raw(alloc_ints(alloc@), lo as int, hi as int) == seg_ints(segs@),
        decreases n - k + (if stop {
            0int
        } else {
            1int
        }),
    {
        let avail: u16 = hi - cursor;
        if avail < 3 {
            proof {
                let ai = alloc_ints(alloc@);
                assert(ai.subrange(k as int, n as int).len() > 0);
                assert(spec_place_raw(ai.subrange(k as int, n as int), cursor as int, hi as int)
                    =~= Seq::<(int, int)>::empty());
                assert(seg_ints(segs@) + Seq::<(int, int)>::empty() =~= seg_ints(segs@));
            }
            stop = true;
        } else {
            let a: u16 = alloc[k];
            let b: u16 = if a < 3 {
                3
            } else {
                a
            };
            let size: u16 = if b <= avail {
                b
            } else {
                avail
            };
            let ghost old_segs = segs@;
            segs.push((cursor, size));
            proof {
                assert(segs@.drop_last() =~= old_segs);
                if size < b {
                    assert(cursor + size == hi);
                }
                let ai = alloc_ints(alloc@);
                let tail = ai.subrange(k as int, n as int);
                assert(tail.first() == ai[k as int]);
                assert(tail.drop_first() =~= ai.subrange(k as int + 1, n as int));
                assert(spec_place_raw(tail, cursor as int, hi as int) == seq![
                    (cursor as int, size as int),
                ] + spec_place_raw(
                    ai.subrange(k as int + 1, n as int),
                    cursor as int + size as int,
                    hi as int,
                ));
                assert(seg_ints(segs@) =~= seg_ints(old_segs) + seq![
                    (cursor as int, size as int),
                ]);
                assert(seg_ints(old_segs) + (seq![(cursor as int, size as int)]
                    + spec_place_raw(
                    ai.subrange(k as int + 1, n as int),
                    cursor as int + size as int,
                    hi as int,
                )) =~= seg_ints(segs@) + spec_place_raw(
                    ai.subrange(k as int + 1, n as int),
                    cursor as int + size as int,
                    hi as int,
                ));
            }
            cursor = cursor + size;
            k = k + 1;
            if hi - cursor < 3 && k < n {
                proof {
                    let ai = alloc_ints(alloc@);
                    assert(ai.subrange(k as int, n as int).len() > 0);
                    assert(spec_place_raw(
                        ai.subrange(k as int, n as int),
                        cursor as int,
                        hi as int,
                    ) =~= Seq::<(int, int)>::empty());
                    assert(seg_ints(segs@) + Seq::<(int, int)>::empty() =~= seg_ints(segs@));
                }
                stop = true;
            }
        }
    }
    proof {
        if !stop {
            let ai = alloc_ints(alloc@);
            assert(ai.subrange(k as int, n as int).len() == 0);
            assert(spec_place_raw(ai.subrange(k as int, n as int), cursor as int, hi as int)
                =~= Seq::<(int, int)>::empty());
            assert(seg_ints(segs@) + Seq::<(int, int)>::empty() =~= seg_ints(segs@));
        }
        assert(spec_place_raw(alloc_ints(alloc@), lo as int, hi as int) == seg_ints(segs@));
    }
    let ghost raw_segs = seg_ints(segs@);
    let remaining: u16 = hi - cursor;
    if remaining > 0 {
        let last_idx: usize = segs.len() - 1;
        let last: (u16, u16) = segs[last_idx];
        let ghost old_segs = segs@;
        segs.set(last_idx, (last.0, hi - last.0));
        proof {
            assert(segs@.last() == (last.0, (hi - last.0) as u16));
            assert forall|j: int|
                0 <= j < segs@.len() - 1 implies #[trigger] segs@[j + 1].0 == segs@[j].0
                + segs@[j].1 by {
                if j + 1 < segs@.len() - 1 {
                    assert(segs@[j] == old_segs[j] && segs@[j + 1] == old_segs[j + 1]);
                } else {
                    assert(segs@[j] == old_segs[j]);
                }
            }
            assert(seg_ints(segs@) =~= raw_segs.update(
                raw_segs.len() - 1,
                (raw_segs.last().0, hi - raw_segs.last().0),
            ));
        }
    } else {
        proof {
            assert(seg_ints(segs@) =~= raw_segs.update(
                raw_segs.len() - 1,
                (raw_segs.last().0, hi - raw_segs.last().0),
            ));
        }
    }
    proof {
        let ss = spec_segments(alloc_ints(alloc@), lo as int, hi as int);
        assert(ss == seg_ints(segs@));
        assert forall|j: int| 0 <= j < ss.len() implies (#[trigger] segs@[j]).0 == ss[j].0
            && segs@[j].1 == ss[j].1 by {
            assert(ss[j] == seg_ints(segs@)[j]);
        }
    }
    segs
}

/// The placed segments of one level tile the primary interval exactly:
/// their lengths sum to the interval's width and no two overlap. This
/// holds for every rounded child-share list, whether or not placement
/// stopped early, because leftover cells are donated to the last segment.
pub proof fn lemma_partition_exact(segs: Seq<(u16, u16)>, lo: int, hi: int)
    requires
        segs.len() >= 1,
        segs[0].0 == lo,
        forall|k: int| 0 <= k < segs.len() - 1 ==> #[trigger] segs[k + 1].0 == segs[k].0 + segs[k].1,
        segs.last().0 + segs.last().1 == hi,
    ensures
        seg_sum_upto(segs, segs.len() as int) == hi - lo,
        forall|k: int, l: int|
            0 <= k < l < segs.len() ==> segs[k].0 + segs[k].1 <= segs[l].0,
{
    lemma_seg_positions(segs, lo, segs.len() as int - 1);
    assert forall|k: int, l: int|
        0 <= k < l < segs.len() implies segs[k].0 + segs[k].1 <= segs[l].0 by {
        lemma_seg_positions(segs, lo, k);
        lemma_seg_positions(segs, lo, l);
        lemma_seg_sum_monotone(segs, k + 1, l);
    }
}

/// Each segment starts at the left edge plus the lengths placed before it.
proof fn lemma_seg_positions(segs: Seq<(u16, u16)>, lo: int, k: int)
    requires
        segs.len() >= 1,
        segs[0].0 == lo,
        forall|j: int| 0 <= j < segs.len() - 1 ==> #[trigger] segs[j + 1].0 == segs[j].0 + segs[j].1,
        0 <= k < segs.len(),
    ensures
        segs[k].0 == lo + seg_sum_upto(segs, k),
    decreases k,
{
    if k > 0 {
        lemma_seg_positions(segs, lo, k - 1);
        assert(segs[(k - 1) + 1].0 == segs[k - 1].0 + segs[k - 1].1);
    }
}

proof fn lemma_seg_sum_monotone(segs: Seq<(u16, u16)>, a: int, b: int)
    requires
        a <= b,
    ensures
        seg_sum_upto(segs, a) <= seg_sum_upto(segs, b),
    decreases b - a,
{
    if a < b {
        lemma_seg_sum_monotone(segs, a, b - 1);
    }
}

pub proof fn lemma_sum_u64_push(s: Seq<u64>, x: u64)
    ensures
        sum_u64(s.push(x)) == sum_u64(s) + x,
{
    assert(s.push(x).drop_last() =~= s);
}

/// `m` is `n` itself or lies somewhere below it.
pub open spec fn in_subtree(m: Node, n: Node) -> bool
    decreases n,
{
    m == n || in_subtree_seq(m, n.children@)
}

/// `m` lies in the subtree of some node of `cs`.
pub open spec fn in_subtree_seq(m: Node, cs: Seq<Node>) -> bool
    decreases cs,
{
    if cs.len() == 0 {
        false
    } else {
        in_subtree_seq(m, cs.drop_last()) || in_subtree(m, cs.last())
    }
}

pub proof fn lemma_in_subtree_step(m: Node, cs: Seq<Node>, i: int)
    requires
        0 <= i < cs.len(),
        in_subtree(m, cs[i]),
    ensures
        in_subtree_seq(m, cs),
    decreases cs.len(),
{
    if i == cs.len() - 1 {
        assert(cs.last() == cs[i]);
    } else {
        lemma_in_subtree_step(m, cs.drop_last(), i);
    }
}

/// The primary-axis extent used at one level of the layout.
pub open spec fn primary_end(r: Rect, horizontal: bool) -> int {
    if horizontal {
        right_of(r)
    } else {
        bottom_of(r)
    }
}

/// The children a layout pass considers: those holding any bytes, in
/// order. Zero-size children exist in the data model but never receive a
/// rectangle.
pub open spec fn pos_kids(cs: Seq<Node>) -> Seq<Node>
    decreases cs.len(),
{
    if cs.len() == 0 {
        Seq::empty()
    } else if cs.last().size > 0 {
        pos_kids(cs.drop_last()).push(cs.last())
    } else {
        pos_kids(cs.drop_last())
    }
}

pub proof fn lemma_pos_kids_step(cs: Seq<Node>, i: int)
    requires
        0 <= i < cs.len(),
    ensures
        pos_kids(cs.subrange(0, i + 1)) == if cs[i].size > 0 {
            pos_kids(cs.subrange(0, i)).push(cs[i])
        } else {
            pos_kids(cs.subrange(0, i))
        },
{
    assert(cs.subrange(0, i + 1).drop_last() =~= cs.subrange(0, i));
    assert(cs.subrange(0, i + 1).last() == cs[i]);
}

/// The size of each considered child.
pub open spec fn sizes_of(ks: Seq<Node>) -> Seq<u64> {
    Seq::new(ks.len(), |i: int| ks[i].size)
}

/// The rounded largest-remainder allocation of one level.
pub open spec fn spec_alloc(ks: Seq<Node>, total: u64, w: u16) -> Seq<int> {
    Seq::new(ks.len(), |i: int| rounded_share(sizes_of(ks), total, w, i))
}

/// The rectangle one placed segment spans: the full secondary extent of
/// the area, and the segment's cells along the primary axis.
pub open spec fn strip_rect(seg: (int, int), area: Rect, horizontal: bool) -> Rect {
    if horizontal {
        Rect { x: seg.0 as u16, y: area.y, width: seg.1 as u16, height: area.height }
    } else {
        Rect { x: area.x, y: seg.0 as u16, width: area.width, height: seg.1 as u16 }
    }
}

/// The flat, depth-first tile list of the slice-and-dice layout: a node
/// without children, a rectangle thinner than three cells either way, or
/// a level without bytes becomes one full tile; otherwise the positive
/// children's ideal shares of the primary extent are rounded by largest
/// remainder, placed as segments with the three-cell minimum, the cap,
/// the early stop and the leftover donation, and each placed child is
/// laid out recursively inside its strip with the orientation flipped.
pub open spec fn spec_layout(node: Node, area: Rect, horizontal: bool) -> Seq<(Rect, Node)>
    decreases node, 1int,
{
    if node.children@.len() == 0 || area.width < 3 || area.height < 3 {
        seq![(area, node)]
    } else {
        let ks = pos_kids(node.children@);
        if ks.len() == 0 {
            seq![(area, node)]
        } else {
            let w: u16 = if horizontal {
                area.width
            } else {
                area.height
            };
            let lo: int = if horizontal {
                area.x as int
            } else {
                area.y as int
            };
            let segs = spec_segments(spec_alloc(ks, node.size, w), lo, lo + w);
            spec_layout_level(node.children@, segs, 0, area, horizontal)
        }
    }
}

/// One level of the layout: children are taken in order, zero-size ones
/// are skipped, and each remaining child consumes the next placed
/// segment; once the segments run out, later children get nothing.
pub open spec fn spec_layout_level(
    cs: Seq<Node>,
    segs: Seq<(int, int)>,
    j: int,
    area: Rect,
    horizontal: bool,
) -> Seq<(Rect, Node)>
    decreases cs, 0int,
{
    if cs.len() == 0 {
        Seq::empty()
    } else if cs.first().size == 0 {
        spec_layout_level(cs.drop_first(), segs, j, area, horizontal)
    } else if j >= segs.len() {
        Seq::empty()
    } else {
        spec_layout(cs.first(), strip_rect(segs[j], area, horizontal), !horizontal)
            + spec_layout_level(cs.drop_first(), segs, j + 1, area, horizontal)
    }
}

/// Lay the subtree rooted at `node` out inside `area`: exactly the tiles
/// of `spec_layout`, depth-first. The tiles all lie inside `area` and no
/// two of them overlap.
pub fn layout_tree<'a>(node: &'a Node, area: Rect, horizontal: bool) -> (r: Vec<(Rect, &'a Node)>)
    requires
        wf_node(*node),
        rect_wf(area),
    ensures
        r@.len() >= 1,
        forall|i: int| 0 <= i < r@.len() ==> rect_inside((#[trigger] r@[i]).0, area),
        forall|i: int, j: int|
            0 <= i < j < r@.len() ==> rects_disjoint(r@[i].0, r@[j].0),
        forall|i: int| 0 <= i < r@.len() ==> in_subtree(*(#[trigger] r@[i]).1, *node),
        (node.children@.len() == 0 || area.width < 3 || area.height < 3) ==> (r@.len() == 1
            && r@[0].0 == area && r@[0].1 == node),
        ({
            let sl = spec_layout(*node, area, horizontal);
            &&& r@.len() == sl.len()
            &&& forall|i: int|
                0 <= i < sl.len() ==> (#[trigger] r@[i]).0 == sl[i].0 && *r@[i].1 == sl[i].1
        }),
    decreases *node,
{
    if node.children.len() == 0 || area.width < 3 || area.height < 3 {
        let mut r: Vec<(Rect, &'a Node)> = Vec::new();
        r.push((area, node));
        return r;
    }
    let mut sizes: Vec<u64> = Vec::new();
    let mut i: usize = 0;
    proof {
        assert(node.children@.subrange(0, 0) =~= Seq::<Node>::empty());
        lemma_wf_children_index(node.children@);
        assert(sizes@ =~= sizes_of(pos_kids(node.children@.subrange(0, 0))));
    }
    while i < node.children.len()
        invariant
            wf_node(*node),
            node.children@.len() > 0,
            i <= node.children@.len(),
            sizes@ == sizes_of(pos_kids(node.children@.subrange(0, i as int))),
            forall|k: int| 0 <= k < sizes@.len() ==> (#[trigger] sizes@[k]) > 0,
            sum_u64(sizes@) == sum_sizes(node.children@.subrange(0, i as int)),
        decreases node.children@.len() - i,
    {
        let c: &'a Node = &node.children[i];
        proof {
            crate::tree::lemma_sum_sizes_prefix_step(node.children@, i as int);
            lemma_pos_kids_step(node.children@, i as int);
        }
        let ghost old_sizes = sizes@;
        if c.size > 0 {
            proof {
                lemma_sum_u64_push(sizes@, c.size);
            }
            sizes.push(c.size);
            proof {
                assert(sizes@ =~= sizes_of(
                    pos_kids(node.children@.subrange(0, i as int + 1)),
                ));
            }
        } else {
            proof {
                assert(sizes@ =~= sizes_of(
                    pos_kids(node.children@.subrange(0, i as int + 1)),
                ));
            }
        }
        i = i + 1;
    }
    proof {
        assert(node.children@.subrange(0, node.children@.len() as int) =~= node.children@);
    }
    let ghost ks = pos_kids(node.children@);
    if sizes.len() == 0 {
        let mut r: Vec<(Rect, &'a Node)> = Vec::new();
        r.push((area, node));
        proof {
            assert(ks.len() == 0);
        }
        return r;
    }
    proof {
        lemma_sum_u64_elem(sizes@, 0);
    }
    let total: u64 = node.size;
    let w: u16 = if horizontal {
        area.width
    } else {
        area.height
    };
    let lo: u16 = if horizontal {
        area.x
    } else {
        area.y
    };
    let hi: u16 = if horizontal {
        area.x + area.width
    } else {
        area.y + area.height
    };
    let alloc = largest_remainder(&sizes, total, w);
    proof {
        assert(alloc_ints(alloc@) =~= spec_alloc(ks, total, w));
    }
    let segs = place_slices(&alloc, lo, hi);
    let ghost segs_i = spec_segments(spec_alloc(ks, total, w), lo as int, hi as int);
    let ghost sl = spec_layout(*node, area, horizontal);
    proof {
        assert(seg_ints(segs@) == segs_i);
        assert(sl == spec_layout_level(node.children@, segs_i, 0, area, horizontal));
        assert(node.children@.subrange(0, node.children@.len() as int) =~= node.children@);
    }
    let ghost gsegs = segs@;
    let mut r: Vec<(Rect, &'a Node)> = Vec::new();
    let ghost mut consumed: Seq<(Rect, Node)> = Seq::empty();
    let clen: usize = node.children.len();
    let mut ci: usize = 0;
    let mut j: usize = 0;
    let mut done: bool = false;
    proof {
        assert(consumed + spec_layout_level(
            node.children@.subrange(0, clen as int),
            segs_i,
            0,
            area,
            horizontal,
        ) =~= spec_layout_level(node.children@, segs_i, 0, area, horizontal));
    }
    while ci < clen && !done
        invariant
            wf_node(*node),
            rect_wf(area),
            clen == node.children@.len(),
            horizontal ==> lo == area.x && hi == area.x + area.width,
            !horizontal ==> lo == area.y && hi == area.y + area.height,
            segs@ == gsegs,
            seg_ints(segs@) == segs_i,
            segs@.len() >= 1,
            segs@[0].0 == lo,
            forall|k: int|
                0 <= k < segs@.len() - 1 ==> #[trigger] segs@[k + 1].0 == segs@[k].0 + segs@[k].1,
            forall|k: int| 0 <= k < segs@.len() ==> (#[trigger] segs@[k].1) >= 3,
            segs@.last().0 + segs@.last().1 == hi,
            ci <= clen,
            j <= segs@.len(),
            done ==> spec_layout_level(
                node.children@.subrange(ci as int, clen as int),
                segs_i,
                j as int,
                area,
                horizontal,
            ) == Seq::<(Rect, Node)>::empty(),
            done ==> j >= 1,
            !done ==> j == pos_kids(node.children@.subrange(0, ci as int)).len(),
            sl == consumed + spec_layout_level(
                node.children@.subrange(ci as int, clen as int),
                segs_i,
                j as int,
                area,
                horizontal,
            ),
            consumed.len() == r@.len(),
            forall|t: int|
                0 <= t < r@.len() ==> consumed[t] == ((#[trigger] r@[t]).0, *r@[t].1),
            r@.len() >= j,
            forall|i: int| 0 <= i < r@.len() ==> rect_inside((#[trigger] r@[i]).0, area),
            forall|i: int, j2: int|
                0 <= i < j2 < r@.len() ==> rects_disjoint(r@[i].0, r@[j2].0),
            forall|i: int| 0 <= i < r@.len() ==> in_subtree(*(#[trigger] r@[i]).1, *node),
            forall|i: int|
                0 <= i < r@.len() ==> primary_end((#[trigger] r@[i]).0, horizontal) <= (if (
                j as int) < segs@.len() {
                    segs@[j as int].0 as int
                } else {
                    hi as int
                }),
        decreases clen - ci + (if done {
            0int
        } else {
            1int
        }),
    {
        let c: &'a Node = &node.children[ci];
        proof {
            let tail = node.children@.subrange(ci as int, clen as int);
            assert(tail.first() == node.children@[ci as int]);
            assert(tail.drop_first() =~= node.children@.subrange(ci as int + 1, clen as int));
            lemma_pos_kids_step(node.children@, ci as int);
        }
        if c.size == 0 {
            ci = ci + 1;
        } else if j >= segs.len() {
            proof {
                assert(spec_layout_level(
                    node.children@.subrange(ci as int, clen as int),
                    segs_i,
                    j as int,
                    area,
                    horizontal,
                ) =~= Seq::<(Rect, Node)>::empty());
            }
            done = true;
        } else {
            let seg: (u16, u16) = segs[j];
            proof {
                lemma_seg_positions(segs@, lo as int, j as int);
                lemma_seg_sum_monotone(segs@, 0, j as int);
                if j as int + 1 < segs@.len() {
                    lemma_seg_positions(segs@, lo as int, j as int + 1);
                    lemma_seg_sum_monotone(segs@, j as int + 1, segs@.len() as int - 1);
                    lemma_seg_positions(segs@, lo as int, segs@.len() as int - 1);
                }
            }
            let child_rect: Rect = if horizontal {
                Rect { x: seg.0, y: area.y, width: seg.1, height: area.height }
            } else {
                Rect { x: area.x, y: seg.0, width: area.width, height: seg.1 }
            };
            proof {
                lemma_wf_children_index(node.children@);
                assert(wf_node(node.children@[ci as int]));
                assert(segs_i[j as int] == (seg.0 as int, seg.1 as int));
                assert(child_rect == strip_rect(segs_i[j as int], area, horizontal));
            }
            let mut sub = layout_tree(c, child_rect, !horizontal);
            let ghost old_r = r@;
            let ghost old_consumed = consumed;
            let ghost sub_view = sub@;
            let ghost sub_spec = spec_layout(*c, child_rect, !horizontal);
            r.append(&mut sub);
            proof {
                consumed = old_consumed + sub_spec;
                assert forall|i: int| 0 <= i < r@.len() implies in_subtree(
                    *(#[trigger] r@[i]).1,
                    *node,
                ) by {
                    if i >= old_r.len() {
                        assert(in_subtree(*sub_view[i - old_r.len()].1, *c));
                        lemma_in_subtree_step(
                            *sub_view[i - old_r.len()].1,
                            node.children@,
                            ci as int,
                        );
                    }
                }
                assert forall|t: int| 0 <= t < r@.len() implies consumed[t] == ((
                #[trigger] r@[t]).0, *r@[t].1) by {
                    if t >= old_r.len() {
                        assert(r@[t] == sub_view[t - old_r.len()]);
                        assert(consumed[t] == sub_spec[t - old_r.len()]);
                        assert(sub_view[t - old_r.len()].0 == sub_spec[t - old_r.len()].0);
                        assert(*sub_view[t - old_r.len()].1 == sub_spec[t - old_r.len()].1);
                    }
                }
                let tail = node.children@.subrange(ci as int, clen as int);
                assert(spec_layout_level(tail, segs_i, j as int, area, horizontal) == sub_spec
                    + spec_layout_level(
                    node.children@.subrange(ci as int + 1, clen as int),
                    segs_i,
                    j as int + 1,
                    area,
                    horizontal,
                ));
                assert((old_consumed + sub_spec) + spec_layout_level(
                    node.children@.subrange(ci as int + 1, clen as int),
                    segs_i,
                    j as int + 1,
                    area,
                    horizontal,
                ) =~= old_consumed + (sub_spec + spec_layout_level(
                    node.children@.subrange(ci as int + 1, clen as int),
                    segs_i,
                    j as int + 1,
                    area,
                    horizontal,
                )));
            }
            ci = ci + 1;
            j = j + 1;
        }
    }
    proof {
        if !done {
            assert(node.children@.subrange(ci as int, clen as int).len() == 0);
            assert(spec_layout_level(
                node.children@.subrange(ci as int, clen as int),
                segs_i,
                j as int,
                area,
                horizontal,
            ) == Seq::<(Rect, Node)>::empty());
            assert(j == ks.len());
            assert(ks.len() == sizes@.len());
        }
        assert(consumed + Seq::<(Rect, Node)>::empty() =~= consumed);
        assert(sl == consumed);
    }
    r
}

/// Every node below a well-formed node is well formed.
pub proof fn lemma_in_subtree_wf(m: Node, n: Node)
    requires
        in_subtree(m, n),
        wf_node(n),
    ensures
        wf_node(m),
    decreases n,
{
    if m != n {
        lemma_wf_children_index(n.children@);
        lemma_in_subtree_seq_wf(m, n.children@);
    }
}

proof fn lemma_in_subtree_seq_wf(m: Node, cs: Seq<Node>)
    requires
        in_subtree_seq(m, cs),
        forall|i: int| 0 <= i < cs.len() ==> wf_node(#[trigger] cs[i]),
    ensures
        wf_node(m),
    decreases cs,
{
    if cs.len() > 0 {
        if in_subtree_seq(m, cs.drop_last()) {
            assert forall|i: int| 0 <= i < cs.drop_last().len() implies wf_node(
                #[trigger] cs.drop_last()[i],
            ) by {
                assert(cs.drop_last()[i] == cs[i]);
            }
            lemma_in_subtree_seq_wf(m, cs.drop_last());
        } else {
            assert(cs.last() == cs[cs.len() - 1]);
            lemma_in_subtree_wf(m, cs.last());
        }
    }
}

/// Lying below a node that lies below another is lying below the outer one.
pub proof fn lemma_in_subtree_trans(a: Node, b: Node, c: Node)
    requires
        in_subtree(a, b),
        in_subtree(b, c),
    ensures
        in_subtree(a, c),
    decreases c,
{
    if b != c {
        lemma_in_subtree_seq_trans(a, b, c.children@);
    }
}

proof fn lemma_in_subtree_seq_trans(a: Node, b: Node, cs: Seq<Node>)
    requires
        in_subtree(a, b),
        in_subtree_seq(b, cs),
    ensures
        in_subtree_seq(a, cs),
    decreases cs,
{
    if cs.len() > 0 {
        if in_subtree_seq(b, cs.drop_last()) {
            lemma_in_subtree_seq_trans(a, b, cs.drop_last());
        } else {
            lemma_in_subtree_trans(a, b, cs.last());
            lemma_in_subtree_step(a, cs, cs.len() as int - 1);
        }
    }
}

/// One size never exceeds the sum of all.
proof fn lemma_sum_u64_elem(s: Seq<u64>, i: int)
    requires
        0 <= i < s.len(),
    ensures
        s[i] <= sum_u64(s),
{
    lemma_sum_u64_prefix_step(s, i);
    lemma_sum_u64_nonneg(s.subrange(0, i));
    lemma_sum_u64_bound(s, i + 1);
}

} // verus!
