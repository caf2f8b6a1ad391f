//! The sized tree: one `Node` per filesystem entry or synthetic aggregate,
//! built from a scanned directory listing in one bottom-up pass.
use vstd::prelude::*;

verus! {

broadcast use vstd::std_specs::vec::axiom_vec_index_decreases;

/// One entry of the sized tree: a scanned filesystem entry or a synthetic
/// small-file aggregate. A directory's `size` is exactly the sum of its
/// children's sizes; the tree is immutable once built.
#[derive(Debug)]
pub struct Node {
    /// Display label: the entry's file name, or the aggregate bucket's label.
    pub name: String,
    /// Total bytes: a file's length, or the sum of a directory's children.
    pub size: u64,
    /// Identity key: path components from the scan root. An aggregate reuses
    /// the owning directory's path.
    pub path: Vec<String>,
    /// Populated only for directories: real children in descending size
    /// order, with any aggregate appended last.
    pub children: Vec<Node>,
    /// Whether this entry is a directory; an aggregate never is.
    pub is_dir: bool,
}

/// Sum of the `size` fields of a sequence of nodes.
pub open spec fn sum_sizes(cs: Seq<Node>) -> int
    decreases cs.len(),
{
    if cs.len() == 0 {
        0
    } else {
        sum_sizes(cs.drop_last()) + cs.last().size
    }
}

/// The tree invariant: every directory's size is exactly the sum of its
/// children's sizes, recursively, and only directories carry children.
pub open spec fn wf_node(n: Node) -> bool
    decreases n,
{
    &&& (n.is_dir ==> n.size == sum_sizes(n.children@))
    &&& (!n.is_dir ==> n.children@.len() == 0)
    &&& wf_children(n.children@)
}

/// All nodes of a sequence satisfy the tree invariant.
pub open spec fn wf_children(cs: Seq<Node>) -> bool
    decreases cs,
{
    if cs.len() == 0 {
        true
    } else {
        wf_children(cs.drop_last()) && wf_node(cs.last())
    }
}

/// `wf_children` holds exactly when every element is well formed.
pub proof fn lemma_wf_children_index(cs: Seq<Node>)
    ensures
        wf_children(cs) <==> (forall|i: int|
            0 <= i < cs.len() ==> #[trigger] wf_node(cs[i])),
    decreases cs.len(),
{
    if cs.len() > 0 {
        lemma_wf_children_index(cs.drop_last());
        if wf_children(cs) {
            assert forall|i: int| 0 <= i < cs.len() implies #[trigger] wf_node(cs[i]) by {
                if i < cs.len() - 1 {
                    assert(wf_node(cs.drop_last()[i]));
                    assert(cs.drop_last()[i] == cs[i]);
                } else {
                    assert(cs.last() == cs[i]);
                }
            }
        }
        if forall|i: int| 0 <= i < cs.len() ==> #[trigger] wf_node(cs[i]) {
            assert forall|i: int|
                0 <= i < cs.drop_last().len() implies #[trigger] wf_node(
                cs.drop_last()[i],
            ) by {
                assert(wf_node(cs[i]));
                assert(cs.drop_last()[i] == cs[i]);
            }
            assert(wf_node(cs[cs.len() - 1]));
            assert(cs.last() == cs[cs.len() - 1]);
            assert(wf_children(cs));
        }
    }
}

/// A node is well formed once its own sum equation and its children's
/// well-formedness are both established.
pub proof fn lemma_wf_from_parts(n: Node)
    requires
        n.is_dir ==> n.size == sum_sizes(n.children@),
        !n.is_dir ==> n.children@.len() == 0,
        forall|i: int| 0 <= i < n.children@.len() ==> #[trigger] wf_node(n.children@[i]),
    ensures
        wf_node(n),
{
    lemma_wf_children_index(n.children@);
}

impl Node {
    /// Total bytes covered by this node.
    pub fn total_size(&self) -> (r: u64)
        ensures
            r == self.size,
    {
        self.size
    }
}

pub proof fn lemma_sum_sizes_nonneg(cs: Seq<Node>)
    ensures
        0 <= sum_sizes(cs),
    decreases cs.len(),
{
    if cs.len() > 0 {
        lemma_sum_sizes_nonneg(cs.drop_last());
    }
}

pub proof fn lemma_sum_sizes_push(cs: Seq<Node>, n: Node)
    ensures
        sum_sizes(cs.push(n)) == sum_sizes(cs) + n.size,
{
    assert(cs.push(n).drop_last() =~= cs);
}

pub proof fn lemma_sum_sizes_insert(cs: Seq<Node>, i: int, n: Node)
    requires
        0 <= i <= cs.len(),
    ensures
        sum_sizes(cs.insert(i, n)) == sum_sizes(cs) + n.size,
    decreases cs.len(),
{
    if i == cs.len() {
        assert(cs.insert(i, n) =~= cs.push(n));
        lemma_sum_sizes_push(cs, n);
    } else {
        assert(cs.insert(i, n).drop_last() =~= cs.drop_last().insert(i, n));
        assert(cs.insert(i, n).last() == cs.last());
        lemma_sum_sizes_insert(cs.drop_last(), i, n);
    }
}

/// One entry of a scanned directory listing, as the walk over the real
/// filesystem reports it: plain values only, with every read failure
/// recorded in place of what could not be read.
pub enum RawEntry {
    /// A regular file and its byte length.
    File { name: String, size: u64 },
    /// A directory whose listing was read successfully.
    Dir { name: String, entries: Vec<RawEntry> },
    /// A directory whose own listing could not be read;
    /// `permission` tells whether the failure was a permission error.
    UnreadableDir { name: String, permission: bool },
    /// A symbolic link; never sized, never entered.
    Symlink { name: String },
    /// An entry that could not be iterated or whose metadata could not be
    /// read; `permission` tells whether the failure was a permission error.
    Broken { permission: bool },
}

/// Why a scan was aborted.
#[derive(Clone, Copy, PartialEq, Eq, Structural, Debug)]
pub enum ScanError {
    /// A permission error while the ignore flag was unset.
    Permission,
    /// Any other read failure.
    Io,
}

/// The bytes a scan of `raw` counts: file lengths, summed through readable
/// directories; symbolic links and unreadable entries contribute nothing.
pub open spec fn counted_size(raw: RawEntry) -> int
    decreases raw,
{
    match raw {
        RawEntry::File { size, .. } => size as int,
        RawEntry::Dir { entries, .. } => counted_size_seq(entries@),
        _ => 0,
    }
}

/// Sum of `counted_size` over a listing.
pub open spec fn counted_size_seq(es: Seq<RawEntry>) -> int
    decreases es,
{
    if es.len() == 0 {
        0
    } else {
        counted_size_seq(es.drop_last()) + counted_size(es.last())
    }
}

/// The error of a read failure: fatal unless it is a permission error and
/// the ignore flag is set.
pub open spec fn failure_err(permission: bool, ignore: bool) -> Option<ScanError> {
    if ignore && permission {
        None
    } else if permission {
        Some(ScanError::Permission)
    } else {
        Some(ScanError::Io)
    }
}

/// The first fatal failure a scan of `raw` meets under the given ignore
/// policy, in listing order, or `None` when the scan succeeds.
pub open spec fn scan_err(raw: RawEntry, ignore: bool) -> Option<ScanError>
    decreases raw,
{
    match raw {
        RawEntry::File { .. } => None,
        RawEntry::Symlink { .. } => None,
        RawEntry::Dir { entries, .. } => scan_err_seq(entries@, ignore),
        RawEntry::UnreadableDir { permission, .. } => failure_err(permission, ignore),
        RawEntry::Broken { permission } => failure_err(permission, ignore),
    }
}

/// The first fatal failure over a listing, in order.
pub open spec fn scan_err_seq(es: Seq<RawEntry>, ignore: bool) -> Option<ScanError>
    decreases es,
{
    if es.len() == 0 {
        None
    } else if scan_err_seq(es.drop_last(), ignore) is Some {
        scan_err_seq(es.drop_last(), ignore)
    } else {
        scan_err(es.last(), ignore)
    }
}

/// How many entries of a listing become children of the built node:
/// files and directories, readable or not.
pub open spec fn child_slots(es: Seq<RawEntry>) -> int
    decreases es,
{
    if es.len() == 0 {
        0
    } else {
        child_slots(es.drop_last()) + match es.last() {
            RawEntry::File { .. } => 1int,
            RawEntry::Dir { .. } => 1int,
            RawEntry::UnreadableDir { .. } => 1int,
            _ => 0int,
        }
    }
}

pub proof fn lemma_counted_size_nonneg(raw: RawEntry)
    ensures
        0 <= counted_size(raw),
    decreases raw,
{
    if let RawEntry::Dir { entries, .. } = raw {
        lemma_counted_size_seq_nonneg(entries@);
    }
}

pub proof fn lemma_counted_size_seq_nonneg(es: Seq<RawEntry>)
    ensures
        0 <= counted_size_seq(es),
    decreases es,
{
    if es.len() > 0 {
        lemma_counted_size_seq_nonneg(es.drop_last());
        lemma_counted_size_nonneg(es.last());
    }
}

/// A prefix of a listing never counts more bytes than the whole listing.
pub proof fn lemma_counted_size_seq_prefix(es: Seq<RawEntry>, n: int)
    requires
        0 <= n <= es.len(),
    ensures
        counted_size_seq(es.subrange(0, n)) <= counted_size_seq(es),
    decreases es.len() - n,
{
    if n == es.len() {
        assert(es.subrange(0, n) =~= es);
    } else {
        lemma_counted_size_seq_prefix(es, n + 1);
        assert(es.subrange(0, n + 1).drop_last() =~= es.subrange(0, n));
        assert(es.subrange(0, n + 1).last() == es[n]);
        lemma_counted_size_nonneg(es[n]);
    }
}

/// Non-increasing by size.
pub open spec fn sorted_desc(cs: Seq<Node>) -> bool {
    forall|i: int, j: int| 0 <= i <= j < cs.len() ==> #[trigger] cs[i].size >= #[trigger] cs[j].size
}

/// Every element of `cs` is drawn from `orig`.
pub open spec fn drawn_from(cs: Seq<Node>, orig: Seq<Node>) -> bool {
    forall|i: int| 0 <= i < cs.len() ==> orig.contains(#[trigger] cs[i])
}

pub proof fn lemma_sum_sizes_prefix_step(cs: Seq<Node>, i: int)
    requires
        0 <= i < cs.len(),
    ensures
        sum_sizes(cs.subrange(0, i + 1)) == sum_sizes(cs.subrange(0, i)) + cs[i].size,
{
    assert(cs.subrange(0, i + 1).drop_last() =~= cs.subrange(0, i));
    assert(cs.subrange(0, i + 1).last() == cs[i]);
}

/// Inserting an element anywhere in a sequence adds it to the bag of
/// elements.
pub proof fn lemma_to_multiset_insert(s: Seq<Node>, i: int, x: Node)
    requires
        0 <= i <= s.len(),
    ensures
        s.insert(i, x).to_multiset() == s.to_multiset().insert(x),
{
    broadcast use vstd::seq_lib::group_to_multiset_ensures;

    let t = s.insert(i, x);
    assert(t.remove(i) =~= s);
    assert(t[i] == x);
    assert(s.to_multiset() =~= t.to_multiset().remove(x));
    assert(t.contains(x));
    assert(t.to_multiset().count(x) > 0);
    assert forall|y: Node| s.to_multiset().insert(x).count(y) == t.to_multiset().count(
        y,
    ) by {
        if y == x {
            assert(s.to_multiset().count(x) == t.to_multiset().remove(x).count(x));
        } else {
            assert(s.to_multiset().count(y) == t.to_multiset().remove(x).count(y));
        }
    }
    assert(s.insert(i, x).to_multiset() =~= s.to_multiset().insert(x));
}

/// Reorder nodes into descending size order; the result is a permutation
/// of the input, and ties keep their original relative order (stable
/// insertion).
pub fn sort_children(v: Vec<Node>) -> (r: Vec<Node>)
    ensures
        r@.len() == v@.len(),
        sorted_desc(r@),
        sum_sizes(r@) == sum_sizes(v@),
        drawn_from(r@, v@),
        r@.to_multiset() == v@.to_multiset(),
{
    let ghost orig = v@;
    let mut v = v;
    let mut r: Vec<Node> = Vec::new();
    proof {
        broadcast use vstd::seq_lib::group_to_multiset_ensures;

        assert forall|i: int| 0 <= i < v@.len() implies orig.contains(#[trigger] v@[i]) by {
            assert(orig[i] == v@[i]);
        }
        assert forall|y: Node| r@.to_multiset().count(y) == 0 by {
            if r@.to_multiset().count(y) > 0 {
                assert(r@.contains(y));
            }
        }
        assert(r@.to_multiset().add(v@.to_multiset()) =~= orig.to_multiset());
    }
    while v.len() > 0
        invariant
            r@.len() + v@.len() == orig.len(),
            sorted_desc(r@),
            sum_sizes(r@) + sum_sizes(v@) == sum_sizes(orig),
            r@.to_multiset().add(v@.to_multiset()) == orig.to_multiset(),
            drawn_from(r@, orig),
            drawn_from(v@, orig),
        decreases v@.len(),
    {
        let ghost old_v = v@;
        let ghost old_r = r@;
        let x: Node = v.remove(0);
        let mut pos: usize = 0;
        while pos < r.len() && r[pos].size >= x.size
            invariant
                pos <= r@.len(),
                forall|k: int| 0 <= k < pos ==> #[trigger] r@[k].size >= x.size,
            decreases r@.len() - pos,
        {
            pos = pos + 1;
        }
        r.insert(pos, x);
        proof {
            broadcast use vstd::seq_lib::group_to_multiset_ensures;

            assert(old_v.remove(0).insert(0, x) =~= old_v);
            lemma_sum_sizes_insert(old_v.remove(0), 0, x);
            lemma_sum_sizes_insert(old_r, pos as int, x);
            lemma_to_multiset_insert(old_r, pos as int, x);
            assert(old_v[0] == x);
            assert(v@.to_multiset() =~= old_v.to_multiset().remove(x));
            assert(old_v.contains(x));
            assert forall|y: Node| r@.to_multiset().add(v@.to_multiset()).count(y)
                == old_r.to_multiset().add(old_v.to_multiset()).count(y) by {
                if y == x {
                    assert(old_v.to_multiset().count(x) > 0);
                }
            }
            assert(r@.to_multiset().add(v@.to_multiset()) =~= old_r.to_multiset().add(
                old_v.to_multiset(),
            ));
            assert forall|i: int, j: int| 0 <= i <= j < r@.len() implies #[trigger] r@[i].size
                >= #[trigger] r@[j].size by {
                let s = old_r;
                if i == pos && j == pos {
                } else if j < pos {
                    assert(r@[i] == s[i] && r@[j] == s[j]);
                } else if i > pos {
                    assert(r@[i] == s[i - 1] && r@[j] == s[j - 1]);
                } else if i == pos {
                    assert(r@[j] == s[j - 1]);
                    assert(s[pos as int].size < x.size);
                } else if j == pos {
                    assert(r@[i] == s[i]);
                } else {
                    assert(r@[i] == s[i] && r@[j] == s[j - 1]);
                }
            }
            assert forall|i: int| 0 <= i < v@.len() implies orig.contains(#[trigger] v@[i]) by {
                assert(v@[i] == old_v[i + 1]);
                assert(orig.contains(old_v[i + 1]));
            }
            assert forall|i: int| 0 <= i < r@.len() implies orig.contains(#[trigger] r@[i]) by {
                if i < pos {
                    assert(r@[i] == old_r[i]);
                } else if i > pos {
                    assert(r@[i] == old_r[i - 1]);
                } else {
                    assert(r@[i] == x && x == old_v[0] && orig.contains(old_v[0]));
                }
            }
        }
    }
    proof {
        broadcast use vstd::seq_lib::group_to_multiset_ensures;

        assert forall|y: Node| v@.to_multiset().count(y) == 0 by {
            if v@.to_multiset().count(y) > 0 {
                assert(v@.contains(y));
            }
        }
        assert forall|y: Node| r@.to_multiset().count(y) == orig.to_multiset().count(y) by {
            assert(r@.to_multiset().add(v@.to_multiset()).count(y) == orig.to_multiset().count(
                y,
            ));
        }
        assert(r@.to_multiset() =~= orig.to_multiset());
    }
    r
}

/// The adaptive minimum size below which a direct file child is folded into
/// the aggregate bucket: the largest of a fixed floor of 1024 bytes, a
/// count-tiered share of the level's total, and a fifth of the average
/// file size. A level without files filters nothing.
pub open spec fn spec_threshold(file_count: u64, file_total_size: u64, total_size: u64) -> int {
    if file_count == 0 {
        u64::MAX as int
    } else {
        let tier_div: int = if file_count > 200 {
            1000
        } else if file_count > 50 {
            200
        } else {
            100
        };
        let size_based: int = total_size as int / tier_div;
        let avg_based: int = file_total_size as int / (5 * file_count as int);
        let hi: int = if size_based >= avg_based {
            size_based
        } else {
            avg_based
        };
        if hi >= 1024 {
            hi
        } else {
            1024
        }
    }
}

/// Compute the aggregation threshold for one directory level.
pub fn compute_threshold(file_count: u64, file_total_size: u64, total_size: u64) -> (t: u64)
    ensures
        t == spec_threshold(file_count, file_total_size, total_size),
{
    if file_count == 0 {
        return u64::MAX;
    }
    let tier_div: u64 = if file_count > 200 {
        1000
    } else if file_count > 50 {
        200
    } else {
        100
    };
    let size_based: u64 = total_size / tier_div;
    let divisor: u128 = 5u128 * (file_count as u128);
    let avg128: u128 = (file_total_size as u128) / divisor;
    proof {
        let x = file_total_size as int;
        let d = divisor as int;
        assert(x / d <= x) by (nonlinear_arith)
            requires
                d >= 1,
                x >= 0,
        ;
    }
    let avg_based: u64 = avg128 as u64;
    let hi: u64 = if size_based >= avg_based {
        size_based
    } else {
        avg_based
    };
    if hi >= 1024 {
        hi
    } else {
        1024
    }
}

/// Whether a child survives aggregation: directories always do, files only
/// at or above the threshold.
pub open spec fn keeps(c: Node, t: u64) -> bool {
    c.is_dir || c.size >= t
}

/// The children that survive aggregation, in order.
pub open spec fn kept_seq(cs: Seq<Node>, t: u64) -> Seq<Node>
    decreases cs.len(),
{
    if cs.len() == 0 {
        Seq::empty()
    } else if keeps(cs.last(), t) {
        kept_seq(cs.drop_last(), t).push(cs.last())
    } else {
        kept_seq(cs.drop_last(), t)
    }
}

/// The bytes of the children folded into the aggregate bucket.
pub open spec fn removed_sum(cs: Seq<Node>, t: u64) -> int
    decreases cs.len(),
{
    if cs.len() == 0 {
        0
    } else if keeps(cs.last(), t) {
        removed_sum(cs.drop_last(), t)
    } else {
        removed_sum(cs.drop_last(), t) + cs.last().size
    }
}

/// Aggregation splits a level's bytes exactly: what is kept plus what is
/// folded away equals the original sum.
pub proof fn lemma_aggregation_split(cs: Seq<Node>, t: u64)
    ensures
        sum_sizes(kept_seq(cs, t)) + removed_sum(cs, t) == sum_sizes(cs),
        0 <= removed_sum(cs, t),
        kept_seq(cs, t).len() <= cs.len(),
        drawn_from(kept_seq(cs, t), cs),
    decreases cs.len(),
{
    if cs.len() > 0 {
        lemma_aggregation_split(cs.drop_last(), t);
        if keeps(cs.last(), t) {
            lemma_sum_sizes_push(kept_seq(cs.drop_last(), t), cs.last());
        }
        assert forall|i: int| 0 <= i < kept_seq(cs, t).len() implies cs.contains(
            #[trigger] kept_seq(cs, t)[i],
        ) by {
            let k = kept_seq(cs, t);
            let kd = kept_seq(cs.drop_last(), t);
            if i < kd.len() {
                assert(cs.drop_last().contains(kd[i]));
                let j = choose|j: int|
                    0 <= j < cs.drop_last().len() && cs.drop_last()[j] == kd[i];
                assert(cs[j] == k[i]);
            } else {
                assert(k[i] == cs[cs.len() - 1]);
            }
        }
    }
}

/// Display label of the synthetic aggregate bucket.
pub fn other_label() -> (r: String)
    ensures
        r@ == "Other"@,
{
    "Other".to_owned()
}

pub proof fn lemma_agg_prefix_step(cs: Seq<Node>, k: int, t: u64)
    requires
        0 <= k < cs.len(),
    ensures
        kept_seq(cs.subrange(0, k + 1), t) == if keeps(cs[k], t) {
            kept_seq(cs.subrange(0, k), t).push(cs[k])
        } else {
            kept_seq(cs.subrange(0, k), t)
        },
        removed_sum(cs.subrange(0, k + 1), t) == removed_sum(cs.subrange(0, k), t) + if keeps(
            cs[k],
            t,
        ) {
            0int
        } else {
            cs[k].size as int
        },
{
    assert(cs.subrange(0, k + 1).drop_last() =~= cs.subrange(0, k));
    assert(cs.subrange(0, k + 1).last() == cs[k]);
}

pub proof fn lemma_sum_sizes_prefix_le(cs: Seq<Node>, n: int)
    requires
        0 <= n <= cs.len(),
    ensures
        sum_sizes(cs.subrange(0, n)) <= sum_sizes(cs),
    decreases cs.len() - n,
{
    if n == cs.len() {
        assert(cs.subrange(0, n) =~= cs);
    } else {
        lemma_sum_sizes_prefix_le(cs, n + 1);
        lemma_sum_sizes_prefix_step(cs, n);
    }
}

/// Fold every file child smaller than the threshold into one synthetic
/// bucket, appended last when it absorbed anything; directories are never
/// folded. The level's byte total is unchanged.
pub fn aggregate_small(children: Vec<Node>, threshold: u64, dir_path: &Vec<String>) -> (r: Vec<
    Node,
>)
    requires
        sum_sizes(children@) <= u64::MAX,
    ensures
        sum_sizes(r@) == sum_sizes(children@),
        removed_sum(children@, threshold) == 0 ==> r@ == kept_seq(children@, threshold),
        removed_sum(children@, threshold) > 0 ==> {
            &&& r@.len() == kept_seq(children@, threshold).len() + 1
            &&& r@.drop_last() == kept_seq(children@, threshold)
            &&& r@.last().name@ == "Other"@
            &&& r@.last().size == removed_sum(children@, threshold)
            &&& !r@.last().is_dir
            &&& r@.last().children@.len() == 0
            &&& r@.last().path.deep_view() == dir_path.deep_view()
        },
        (forall|i: int| 0 <= i < children@.len() ==> #[trigger] wf_node(children@[i])) ==> (forall|
            i: int,
        | 0 <= i < r@.len() ==> #[trigger] wf_node(r@[i])),
        sorted_desc(children@) ==> sorted_desc(kept_seq(children@, threshold)),
{
    let ghost orig = children@;
    let mut children = children;
    let mut kept: Vec<Node> = Vec::new();
    let mut other_size: u64 = 0;
    proof {
        assert(orig.subrange(0, 0) =~= Seq::<Node>::empty());
        lemma_sum_sizes_nonneg(orig);
    }
    while children.len() > 0
        invariant
            children@.len() <= orig.len(),
            children@ =~= orig.subrange(
                orig.len() - children@.len(),
                orig.len() as int,
            ),
            kept@ == kept_seq(orig.subrange(0, orig.len() - children@.len()), threshold),
            other_size == removed_sum(
                orig.subrange(0, orig.len() - children@.len()),
                threshold,
            ),
            sum_sizes(orig) <= u64::MAX,
        decreases children@.len(),
    {
        let ghost k = orig.len() - children@.len();
        let ghost old_children = children@;
        let c: Node = children.remove(0);
        proof {
            assert(c == orig[k]);
            lemma_agg_prefix_step(orig, k, threshold);
            lemma_aggregation_split(orig.subrange(0, k + 1), threshold);
            lemma_sum_sizes_prefix_le(orig, k + 1);
            lemma_sum_sizes_nonneg(kept_seq(orig.subrange(0, k + 1), threshold));
            assert forall|i: int| 0 <= i < children@.len() implies children@[i] == orig.subrange(
                orig.len() - children@.len(),
                orig.len() as int,
            )[i] by {
                assert(children@[i] == old_children[i + 1]);
            }
        }
        if c.is_dir || c.size >= threshold {
            kept.push(c);
        } else {
            other_size = other_size + c.size;
        }
    }
    proof {
        assert(orig.subrange(0, orig.len() as int) =~= orig);
        lemma_aggregation_split(orig, threshold);
    }
    if other_size > 0 {
        let other = Node {
            name: other_label(),
            size: other_size,
            path: clone_path(dir_path),
            children: Vec::new(),
            is_dir: false,
        };
        proof {
            lemma_sum_sizes_push(kept@, other);
        }
        kept.push(other);
        proof {
            assert(kept@.drop_last() =~= kept_seq(orig, threshold));
        }
    }
    proof {
        if forall|i: int| 0 <= i < orig.len() ==> #[trigger] wf_node(orig[i]) {
            assert forall|i: int| 0 <= i < kept@.len() implies #[trigger] wf_node(kept@[i]) by {
                let ks = kept_seq(orig, threshold);
                if i < ks.len() {
                    assert(kept@[i] == ks[i]);
                    assert(orig.contains(ks[i]));
                    let j = choose|j: int| 0 <= j < orig.len() && orig[j] == ks[i];
                    assert(wf_node(orig[j]));
                } else {
                    assert(kept@[i].children@.len() == 0 && !kept@[i].is_dir);
                }
            }
        }
        if sorted_desc(orig) {
            lemma_kept_sorted(orig, threshold);
        }
    }
    kept
}

/// A subsequence of a size-sorted level is still size-sorted.
pub proof fn lemma_kept_sorted(cs: Seq<Node>, t: u64)
    requires
        sorted_desc(cs),
    ensures
        sorted_desc(kept_seq(cs, t)),
    decreases cs.len(),
{
    if cs.len() > 0 {
        assert(sorted_desc(cs.drop_last())) by {
            assert forall|i: int, j: int|
                0 <= i <= j < cs.drop_last().len() implies #[trigger] cs.drop_last()[i].size
                >= #[trigger] cs.drop_last()[j].size by {
                assert(cs[i].size >= cs[j].size);
            }
        }
        lemma_kept_sorted(cs.drop_last(), t);
        if keeps(cs.last(), t) {
            let k = kept_seq(cs, t);
            let kd = kept_seq(cs.drop_last(), t);
            lemma_aggregation_split(cs.drop_last(), t);
            assert forall|i: int, j: int| 0 <= i <= j < k.len() implies #[trigger] k[i].size
                >= #[trigger] k[j].size by {
                if j < kd.len() {
                    assert(k[i] == kd[i] && k[j] == kd[j]);
                } else if i < kd.len() {
                    assert(k[i] == kd[i] && k[j] == cs.last());
                    assert(cs.drop_last().contains(kd[i]));
                    let m = choose|m: int|
                        0 <= m < cs.drop_last().len() && cs.drop_last()[m] == kd[i];
                    assert(cs[m].size >= cs[cs.len() - 1].size);
                }
            }
        }
    }
}

/// Clone a component path.
pub fn clone_path(p: &Vec<String>) -> (r: Vec<String>)
    ensures
        r.deep_view() == p.deep_view(),
{
    let mut r: Vec<String> = Vec::new();
    let mut i: usize = 0;
    while i < p.len()
        invariant
            i <= p@.len(),
            r@.len() == i,
            forall|k: int| 0 <= k < i ==> #[trigger] r@[k]@ == p@[k]@,
        decreases p@.len() - i,
    {
        r.push(p[i].clone());
        i = i + 1;
    }
    proof {
        assert forall|k: int| 0 <= k < r@.len() implies r.deep_view()[k] =~= p.deep_view()[k] by {
            assert(r@[k]@ == p@[k]@);
        }
        assert(r.deep_view() =~~= p.deep_view());
    }
    r
}

/// The display name a raw entry carries.
pub open spec fn raw_name(raw: RawEntry) -> Seq<char> {
    match raw {
        RawEntry::File { name, .. } => name@,
        RawEntry::Dir { name, .. } => name@,
        RawEntry::UnreadableDir { name, .. } => name@,
        RawEntry::Symlink { name } => name@,
        RawEntry::Broken { .. } => Seq::empty(),
    }
}

/// How many entries of a scanned directory can become children of its node.
pub open spec fn dir_child_slots(raw: RawEntry) -> int {
    match raw {
        RawEntry::Dir { entries, .. } => child_slots(entries@),
        _ => 0,
    }
}

/// How many direct file entries a listing holds.
pub open spec fn file_count_of(es: Seq<RawEntry>) -> int
    decreases es,
{
    if es.len() == 0 {
        0
    } else {
        file_count_of(es.drop_last()) + match es.last() {
            RawEntry::File { .. } => 1int,
            _ => 0int,
        }
    }
}

/// The bytes of a listing's direct file entries.
pub open spec fn file_total_of(es: Seq<RawEntry>) -> int
    decreases es,
{
    if es.len() == 0 {
        0
    } else {
        file_total_of(es.drop_last()) + match es.last() {
            RawEntry::File { size, .. } => size as int,
            _ => 0int,
        }
    }
}

/// Extending a processed prefix of a listing by one entry extends its
/// counted bytes, its first fatal failure and its child count accordingly.
pub proof fn lemma_listing_prefix_step(es: Seq<RawEntry>, i: int, ignore: bool)
    requires
        0 <= i < es.len(),
    ensures
        file_count_of(es.subrange(0, i + 1)) == file_count_of(es.subrange(0, i)) + match es[i] {
            RawEntry::File { .. } => 1int,
            _ => 0int,
        },
        file_total_of(es.subrange(0, i + 1)) == file_total_of(es.subrange(0, i)) + match es[i] {
            RawEntry::File { size, .. } => size as int,
            _ => 0int,
        },
        counted_size_seq(es.subrange(0, i + 1)) == counted_size_seq(es.subrange(0, i))
            + counted_size(es[i]),
        scan_err_seq(es.subrange(0, i + 1), ignore) == if scan_err_seq(
            es.subrange(0, i),
            ignore,
        ) is Some {
            scan_err_seq(es.subrange(0, i), ignore)
        } else {
            scan_err(es[i], ignore)
        },
        child_slots(es.subrange(0, i + 1)) == child_slots(es.subrange(0, i)) + match es[i] {
            RawEntry::File { .. } => 1int,
            RawEntry::Dir { .. } => 1int,
            RawEntry::UnreadableDir { .. } => 1int,
            _ => 0int,
        },
{
    assert(es.subrange(0, i + 1).drop_last() =~= es.subrange(0, i));
    assert(es.subrange(0, i + 1).last() == es[i]);
}

/// Once a prefix of a listing holds a fatal failure, the whole listing
/// reports that same first failure.
pub proof fn lemma_scan_err_of_prefix(es: Seq<RawEntry>, j: int, ignore: bool)
    requires
        0 <= j <= es.len(),
        scan_err_seq(es.subrange(0, j), ignore) is Some,
    ensures
        scan_err_seq(es, ignore) == scan_err_seq(es.subrange(0, j), ignore),
    decreases es.len() - j,
{
    if j == es.len() {
        assert(es.subrange(0, j) =~= es);
    } else {
        lemma_listing_prefix_step(es, j, ignore);
        lemma_scan_err_of_prefix(es, j + 1, ignore);
    }
}

/// No single entry counts more than its whole listing.
pub proof fn lemma_counted_size_elem(es: Seq<RawEntry>, i: int)
    requires
        0 <= i < es.len(),
    ensures
        counted_size(es[i]) <= counted_size_seq(es),
{
    lemma_listing_prefix_step(es, i, false);
    lemma_counted_size_seq_nonneg(es.subrange(0, i));
    lemma_counted_size_seq_prefix(es, i + 1);
}

/// The aggregation threshold of one scanned level.
pub open spec fn level_threshold(es: Seq<RawEntry>) -> u64 {
    spec_threshold(
        file_count_of(es) as u64,
        file_total_of(es) as u64,
        counted_size_seq(es) as u64,
    ) as u64
}

/// `children` is exactly the aggregation of the size-sorted level
/// `sorted` at the level's threshold: the surviving children in order,
/// with one synthetic bucket appended iff the folded files held any
/// bytes, carrying that sum and the owning directory's path.
pub open spec fn level_children(
    children: Seq<Node>,
    sorted: Seq<Node>,
    es: Seq<RawEntry>,
    dirpath: Seq<Seq<char>>,
) -> bool {
    let t = level_threshold(es);
    if removed_sum(sorted, t) == 0 {
        children == kept_seq(sorted, t)
    } else {
        &&& children.len() == kept_seq(sorted, t).len() + 1
        &&& children.drop_last() == kept_seq(sorted, t)
        &&& children.last().name@ == "Other"@
        &&& children.last().size == removed_sum(sorted, t)
        &&& !children.last().is_dir
        &&& children.last().children@.len() == 0
        &&& children.last().path.deep_view() == dirpath
    }
}

/// The nodes a listing contributes to its directory, in listing order:
/// one leaf per file with its name, size and extended path; one
/// recursively built node per directory entry, readable or not; nothing
/// for symbolic links or for skipped broken entries.
pub open spec fn builds_list(
    es: Seq<RawEntry>,
    path: Seq<Seq<char>>,
    ignore: bool,
    built: Seq<Node>,
) -> bool
    decreases es,
{
    if es.len() == 0 {
        built.len() == 0
    } else {
        match es.last() {
            RawEntry::File { name, size } => {
                &&& built.len() > 0
                &&& builds_list(es.drop_last(), path, ignore, built.drop_last())
                &&& built.last().name@ == name@
                &&& built.last().size == size
                &&& built.last().path.deep_view() == path.push(name@)
                &&& !built.last().is_dir
                &&& built.last().children@.len() == 0
            },
            RawEntry::Dir { .. } => {
                &&& built.len() > 0
                &&& builds_list(es.drop_last(), path, ignore, built.drop_last())
                &&& builds(es.last(), path.push(raw_name(es.last())), ignore, built.last())
            },
            RawEntry::UnreadableDir { .. } => {
                &&& built.len() > 0
                &&& builds_list(es.drop_last(), path, ignore, built.drop_last())
                &&& builds(es.last(), path.push(raw_name(es.last())), ignore, built.last())
            },
            _ => builds_list(es.drop_last(), path, ignore, built),
        }
    }
}

/// The node the scan logic owes for one directory-position entry: an
/// unreadable directory becomes an empty zero-size placeholder; a read
/// directory holds exactly the aggregation of the descending stable sort
/// of what its listing contributes, and counts its listing's bytes.
pub open spec fn builds(raw: RawEntry, path: Seq<Seq<char>>, ignore: bool, n: Node) -> bool
    decreases raw,
{
    match raw {
        RawEntry::UnreadableDir { .. } => {
            &&& n.name@ == raw_name(raw)
            &&& n.path.deep_view() == path
            &&& n.is_dir
            &&& n.size == 0
            &&& n.children@.len() == 0
        },
        RawEntry::Dir { entries, .. } => {
            &&& n.name@ == raw_name(raw)
            &&& n.path.deep_view() == path
            &&& n.is_dir
            &&& n.size == counted_size_seq(entries@)
            &&& exists|built: Seq<Node>, sorted: Seq<Node>|
                #![trigger built.to_multiset(), sorted.to_multiset()]
                {
                    &&& builds_list(entries@, path, ignore, built)
                    &&& sorted_desc(sorted)
                    &&& sorted.to_multiset() == built.to_multiset()
                    &&& level_children(n.children@, sorted, entries@, path)
                }
        },
        _ => false,
    }
}

/// Every node a listing contributes carries the listing's directory path
/// extended by its own name.
pub proof fn lemma_builds_list_paths(
    es: Seq<RawEntry>,
    path: Seq<Seq<char>>,
    ignore: bool,
    built: Seq<Node>,
)
    requires
        builds_list(es, path, ignore, built),
    ensures
        forall|k: int|
            0 <= k < built.len() ==> (#[trigger] built[k]).path.deep_view() == path.push(
                built[k].name@,
            ),
    decreases es,
{
    if es.len() > 0 {
        match es.last() {
            RawEntry::File { .. } => {
                assert(built.last().path.deep_view() == path.push(built.last().name@));
                lemma_builds_list_paths(es.drop_last(), path, ignore, built.drop_last());
                assert forall|k: int|
                    0 <= k < built.len() implies (#[trigger] built[k]).path.deep_view()
                    == path.push(built[k].name@) by {
                    if k < built.len() - 1 {
                        assert(built.drop_last()[k] == built[k]);
                        assert(built.drop_last()[k].path.deep_view() == path.push(
                            built.drop_last()[k].name@,
                        ));
                    } else {
                        assert(built.last() == built[k]);
                        assert(built[k].path.deep_view() == path.push(built[k].name@));
                    }
                }
            },
            RawEntry::Dir { .. } => {
                assert(builds(es.last(), path.push(raw_name(es.last())), ignore, built.last()));
                assert(built.last().path.deep_view() == path.push(built.last().name@));
                lemma_builds_list_paths(es.drop_last(), path, ignore, built.drop_last());
                assert forall|k: int|
                    0 <= k < built.len() implies (#[trigger] built[k]).path.deep_view()
                    == path.push(built[k].name@) by {
                    if k < built.len() - 1 {
                        assert(built.drop_last()[k] == built[k]);
                        assert(built.drop_last()[k].path.deep_view() == path.push(
                            built.drop_last()[k].name@,
                        ));
                    } else {
                        assert(built.last() == built[k]);
                        assert(built[k].path.deep_view() == path.push(built[k].name@));
                    }
                }
            },
            RawEntry::UnreadableDir { .. } => {
                assert(builds(es.last(), path.push(raw_name(es.last())), ignore, built.last()));
                assert(built.last().path.deep_view() == path.push(built.last().name@));
                lemma_builds_list_paths(es.drop_last(), path, ignore, built.drop_last());
                assert forall|k: int|
                    0 <= k < built.len() implies (#[trigger] built[k]).path.deep_view()
                    == path.push(built[k].name@) by {
                    if k < built.len() - 1 {
                        assert(built.drop_last()[k] == built[k]);
                        assert(built.drop_last()[k].path.deep_view() == path.push(
                            built.drop_last()[k].name@,
                        ));
                    } else {
                        assert(built.last() == built[k]);
                        assert(built[k].path.deep_view() == path.push(built[k].name@));
                    }
                }
            },
            _ => {
                lemma_builds_list_paths(es.drop_last(), path, ignore, built);
            },
        }
    }
}

/// In a built directory, every child's path is either the directory's own
/// path extended by the child's name, or, for the synthetic bucket alone,
/// the directory's path itself. Zooming into a direct child and then
/// navigating up therefore restores the prior zoom root.
pub proof fn lemma_child_paths(raw: RawEntry, path: Seq<Seq<char>>, ignore: bool, n: Node)
    requires
        builds(raw, path, ignore, n),
    ensures
        forall|i: int|
            0 <= i < n.children@.len() ==> ((#[trigger] n.children@[i]).path.deep_view()
                == n.path.deep_view().push(n.children@[i].name@)
                || n.children@[i].path.deep_view() == n.path.deep_view()),
{
    broadcast use vstd::seq_lib::group_to_multiset_ensures;

    match raw {
        RawEntry::Dir { entries, .. } => {
            let (built, sorted) = choose|built: Seq<Node>, sorted: Seq<Node>|
                #![trigger built.to_multiset(), sorted.to_multiset()]
                {
                    &&& builds_list(entries@, path, ignore, built)
                    &&& sorted_desc(sorted)
                    &&& sorted.to_multiset() == built.to_multiset()
                    &&& level_children(n.children@, sorted, entries@, path)
                };
            lemma_builds_list_paths(entries@, path, ignore, built);
            let t = level_threshold(entries@);
            lemma_aggregation_split(sorted, t);
            let kept = kept_seq(sorted, t);
            assert forall|i: int|
                0 <= i < n.children@.len() implies ((#[trigger] n.children@[i]).path.deep_view()
                == n.path.deep_view().push(n.children@[i].name@)
                || n.children@[i].path.deep_view() == n.path.deep_view()) by {
                let c = n.children@[i];
                if removed_sum(sorted, t) == 0 || i < n.children@.len() - 1 {
                    assert(c == kept[i]);
                    assert(sorted.contains(c));
                    assert(sorted.to_multiset().count(c) > 0);
                    assert(built.to_multiset().count(c) > 0);
                    assert(built.contains(c));
                    let k = choose|k: int| 0 <= k < built.len() && built[k] == c;
                    assert(built[k].path.deep_view() == path.push(built[k].name@));
                }
            }
        },
        _ => {},
    }
}

/// Build the sized tree for one scanned directory: recurse post-order into
/// subdirectories, skip symbolic links, apply the error policy, then sort
/// the level by descending size and fold small files into an aggregate.
/// Fails with the scan's first fatal failure, exactly when one exists.
pub fn build_tree(raw: &RawEntry, path: Vec<String>, ignore: bool) -> (r: Result<Node, ScanError>)
    requires
        raw matches RawEntry::Dir { .. } || raw matches RawEntry::UnreadableDir { .. },
        counted_size(*raw) <= u64::MAX,
    ensures
        r matches Err(e) ==> scan_err(*raw, ignore) == Some(e),
        r matches Ok(n) ==> ({
            &&& scan_err(*raw, ignore) is None
            &&& wf_node(n)
            &&& n.size == counted_size(*raw)
            &&& n.is_dir
            &&& n.name@ == raw_name(*raw)
            &&& n.path.deep_view() == path.deep_view()
            &&& (dir_child_slots(*raw) == 0 ==> n.children@.len() == 0)
            &&& (sorted_desc(n.children@) || (n.children@.len() >= 1 && sorted_desc(
                n.children@.drop_last(),
            ) && !n.children@.last().is_dir && n.children@.last().name@ == "Other"@
                && n.children@.last().children@.len() == 0))
            &&& builds(*raw, path.deep_view(), ignore, n)
        }),
    decreases *raw,
{
    match raw {
        RawEntry::UnreadableDir { name, permission } => {
            if ignore && *permission {
                Ok(
                    Node {
                        name: name.clone(),
                        size: 0,
                        path,
                        children: Vec::new(),
                        is_dir: true,
                    },
                )
            } else if *permission {
                Err(ScanError::Permission)
            } else {
                Err(ScanError::Io)
            }
        },
        RawEntry::Dir { name, entries } => {
            let mut children: Vec<Node> = Vec::new();
            let mut total_size: u64 = 0;
            let mut file_count: u64 = 0;
            let mut file_total_size: u64 = 0;
            let mut idx: usize = 0;
            proof {
                assert(entries@.subrange(0, 0) =~= Seq::<RawEntry>::empty());
            }
            while idx < entries.len()
                invariant
                    raw matches RawEntry::Dir { .. },
                    entries@ == raw->Dir_entries@,
                    counted_size(*raw) <= u64::MAX,
                    counted_size(*raw) == counted_size_seq(entries@),
                    idx <= entries@.len(),
                    scan_err_seq(entries@.subrange(0, idx as int), ignore) is None,
                    total_size == counted_size_seq(entries@.subrange(0, idx as int)),
                    file_total_size <= total_size,
                    file_count <= idx,
                    file_count == file_count_of(entries@.subrange(0, idx as int)),
                    file_total_size == file_total_of(entries@.subrange(0, idx as int)),
                    builds_list(
                        entries@.subrange(0, idx as int),
                        path.deep_view(),
                        ignore,
                        children@,
                    ),
                    sum_sizes(children@) == total_size,
                    forall|i: int|
                        0 <= i < children@.len() ==> #[trigger] wf_node(children@[i]),
                    children@.len() <= child_slots(entries@.subrange(0, idx as int)),
                decreases entries@.len() - idx,
            {
                proof {
                    lemma_listing_prefix_step(entries@, idx as int, ignore);
                    lemma_counted_size_seq_prefix(entries@, idx as int + 1);
                    lemma_counted_size_nonneg(entries@[idx as int]);
                    assert(entries@.subrange(0, idx as int + 1).drop_last() =~= entries@.subrange(
                        0,
                        idx as int,
                    ));
                    assert(entries@.subrange(0, idx as int + 1).last() == entries@[idx as int]);
                }
                let entry: &RawEntry = &entries[idx];
                match entry {
                    RawEntry::Symlink { .. } => {},
                    RawEntry::Broken { permission } => {
                        if !(ignore && *permission) {
                            let e = if *permission {
                                ScanError::Permission
                            } else {
                                ScanError::Io
                            };
                            proof {
                                lemma_scan_err_of_prefix(entries@, idx as int + 1, ignore);
                            }
                            return Err(e);
                        }
                    },
                    RawEntry::File { name: fname, size } => {
                        total_size = total_size + *size;
                        file_total_size = file_total_size + *size;
                        file_count = file_count + 1;
                        let mut fpath = clone_path(&path);
                        let ghost cloned = fpath@;
                        fpath.push(fname.clone());
                        proof {
                            assert forall|k: int|
                                0 <= k < fpath.deep_view().len() implies fpath.deep_view()[k]
                                =~= path.deep_view().push(fname@)[k] by {
                                if k < cloned.len() {
                                    assert(fpath@[k] == cloned[k]);
                                    assert(cloned[k]@ == path.deep_view()[k]);
                                }
                            }
                            assert(fpath.deep_view() =~~= path.deep_view().push(fname@));
                        }
                        let child = Node {
                            name: fname.clone(),
                            size: *size,
                            path: fpath,
                            children: Vec::new(),
                            is_dir: false,
                        };
                        let ghost old_children = children@;
                        proof {
                            lemma_sum_sizes_push(children@, child);
                        }
                        children.push(child);
                        proof {
                            assert(children@.drop_last() =~= old_children);
                            assert(children@.last() == child);
                            assert(builds_list(
                                entries@.subrange(0, idx as int + 1),
                                path.deep_view(),
                                ignore,
                                children@,
                            ));
                        }
                    },
                    RawEntry::Dir { name: dname, .. } => {
                        let mut dpath = clone_path(&path);
                        let ghost cloned = dpath@;
                        dpath.push(dname.clone());
                        proof {
                            lemma_counted_size_elem(entries@, idx as int);
                            assert forall|k: int|
                                0 <= k < dpath.deep_view().len() implies dpath.deep_view()[k]
                                =~= path.deep_view().push(dname@)[k] by {
                                if k < cloned.len() {
                                    assert(dpath@[k] == cloned[k]);
                                    assert(cloned[k]@ == path.deep_view()[k]);
                                }
                            }
                            assert(dpath.deep_view() =~~= path.deep_view().push(dname@));
                            assert(raw_name(entries@[idx as int]) == dname@);
                        }
                        match build_tree(entry, dpath, ignore) {
                            Ok(child) => {
                                total_size = total_size + child.size;
                                let ghost old_children = children@;
                                proof {
                                    lemma_sum_sizes_push(children@, child);
                                }
                                children.push(child);
                                proof {
                                    assert(children@.drop_last() =~= old_children);
                                    assert(children@.last() == child);
                                    assert(builds(
                                        entries@[idx as int],
                                        path.deep_view().push(raw_name(entries@[idx as int])),
                                        ignore,
                                        child,
                                    ));
                                    assert(builds_list(
                                        entries@.subrange(0, idx as int + 1),
                                        path.deep_view(),
                                        ignore,
                                        children@,
                                    ));
                                }
                            },
                            Err(e) => {
                                proof {
                                    lemma_scan_err_of_prefix(entries@, idx as int + 1, ignore);
                                }
                                return Err(e);
                            },
                        }
                    },
                    RawEntry::UnreadableDir { name: dname, .. } => {
                        let mut dpath = clone_path(&path);
                        let ghost cloned = dpath@;
                        dpath.push(dname.clone());
                        proof {
                            lemma_counted_size_elem(entries@, idx as int);
                            assert forall|k: int|
                                0 <= k < dpath.deep_view().len() implies dpath.deep_view()[k]
                                =~= path.deep_view().push(dname@)[k] by {
                                if k < cloned.len() {
                                    assert(dpath@[k] == cloned[k]);
                                    assert(cloned[k]@ == path.deep_view()[k]);
                                }
                            }
                            assert(dpath.deep_view() =~~= path.deep_view().push(dname@));
                            assert(raw_name(entries@[idx as int]) == dname@);
                        }
                        match build_tree(entry, dpath, ignore) {
                            Ok(child) => {
                                total_size = total_size + child.size;
                                let ghost old_children = children@;
                                proof {
                                    lemma_sum_sizes_push(children@, child);
                                }
                                children.push(child);
                                proof {
                                    assert(children@.drop_last() =~= old_children);
                                    assert(children@.last() == child);
                                    assert(builds(
                                        entries@[idx as int],
                                        path.deep_view().push(raw_name(entries@[idx as int])),
                                        ignore,
                                        child,
                                    ));
                                    assert(builds_list(
                                        entries@.subrange(0, idx as int + 1),
                                        path.deep_view(),
                                        ignore,
                                        children@,
                                    ));
                                }
                            },
                            Err(e) => {
                                proof {
                                    lemma_scan_err_of_prefix(entries@, idx as int + 1, ignore);
                                }
                                return Err(e);
                            },
                        }
                    },
                }
                idx = idx + 1;
            }
            proof {
                assert(entries@.subrange(0, entries@.len() as int) =~= entries@);
                lemma_sum_sizes_nonneg(children@);
            }
            let ghost pre_sort = children@;
            let sorted = sort_children(children);
            proof {
                assert forall|i: int| 0 <= i < sorted@.len() implies #[trigger] wf_node(
                    sorted@[i],
                ) by {
                    assert(pre_sort.contains(sorted@[i]));
                    let j = choose|j: int| 0 <= j < pre_sort.len() && pre_sort[j] == sorted@[i];
                    assert(wf_node(pre_sort[j]));
                }
            }
            let threshold = compute_threshold(file_count, file_total_size, total_size);
            let final_children = aggregate_small(sorted, threshold, &path);
            proof {
                lemma_aggregation_split(sorted@, threshold);
            }
            let node = Node {
                name: name.clone(),
                size: total_size,
                path,
                children: final_children,
                is_dir: true,
            };
            proof {
                lemma_wf_from_parts(node);
                let pd = node.path.deep_view();
                let t = level_threshold(entries@);
                assert(file_count_of(entries@) as u64 == file_count);
                assert(file_total_of(entries@) as u64 == file_total_size);
                assert(counted_size_seq(entries@) as u64 == total_size);
                assert(t == threshold);
                assert(level_children(node.children@, sorted@, entries@, pd));
                assert(builds_list(entries@, pd, ignore, pre_sort));
                assert(sorted_desc(sorted@));
                assert(sorted@.to_multiset() == pre_sort.to_multiset());
                assert(exists|built: Seq<Node>, srt: Seq<Node>|
                    #![trigger built.to_multiset(), srt.to_multiset()]
                    {
                        &&& builds_list(entries@, pd, ignore, built)
                        &&& sorted_desc(srt)
                        &&& srt.to_multiset() == built.to_multiset()
                        &&& level_children(node.children@, srt, entries@, pd)
                    });
                assert(builds(*raw, pd, ignore, node));
            }
            Ok(node)
        },
        _ => {
            proof {
                assert(false);
            }
            Err(ScanError::Io)
        },
    }
}

} // verus!
