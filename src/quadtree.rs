//! A static quadtree over rectangles: built once from bounded objects, then asked which
//! objects lie at a point.

use crate::rect::{half, half_i32, Rect, Vec2};
use vstd::arithmetic::power::{lemma_pow_positive, pow};
use vstd::prelude::*;

verus! {

/// A node of the tree's arena; nodes refer to each other by index.
#[derive(Clone, Debug)]
pub enum QuadTreeNode<I> {
    /// A region and the ids of the objects whose bounds overlap it.
    Leaf { bounds: Rect, ids: Vec<I> },
    /// A region split into four quadrants: top left, top right, bottom right, bottom left.
    Branch { bounds: Rect, leaves: [usize; 4] },
}

/// Quadrilateral (quad) tree, used for space partitioning and fast point queries.
///
/// A branch's children are stored before it, so they have lower indices.
#[derive(Clone, Debug)]
pub struct QuadTree<I> {
    /// The arena of nodes.
    pub nodes: Vec<QuadTreeNode<I>>,
    /// Index of the root node; one that names no node makes every query find nothing.
    pub root: usize,
    /// The most entries a leaf was allowed to hold when the tree was built.
    pub split_threshold: usize,
}

/// An error that may occur while a quadtree is built.
#[derive(Clone, Copy, Debug, PartialEq, Eq)]
pub enum QuadTreeBuildError {
    /// The split threshold is too low for the objects (or the root bounds too small):
    /// partitioning did not get below it within the depth limit.
    ReachedRecursionLimit,
}

/// An object given to the builder: an id and the bounds it occupies.
#[derive(Clone, Copy, Debug)]
pub struct Entry<I> {
    /// Identifier of the object.
    pub id: I,
    /// Bounds of the object.
    pub bounds: Rect,
}

/// Anything that has an id and rectangular bounds.
pub trait BoundsProvider {
    /// Identifier of the bounds provider.
    type Id: Copy;

    /// The bounds of the bounds provider.
    spec fn spec_bounds(&self) -> Rect;

    /// The id of the bounds provider.
    spec fn spec_id(&self) -> Self::Id;

    /// Returns the bounds of the bounds provider.
    fn bounds(&self) -> (r: Rect)
        ensures
            r == self.spec_bounds(),
    ;

    /// Returns the id of the bounds provider.
    fn id(&self) -> (r: Self::Id)
        ensures
            r == self.spec_id(),
    ;
}

/// The entry that the builder makes of an object.
pub open spec fn entry_of<T: BoundsProvider>(o: T) -> Entry<T::Id> {
    Entry { id: o.spec_id(), bounds: o.spec_bounds() }
}

impl<I: Copy> BoundsProvider for Entry<I> {
    type Id = I;

    open spec fn spec_bounds(&self) -> Rect {
        self.bounds
    }

    open spec fn spec_id(&self) -> I {
        self.id
    }

    fn bounds(&self) -> (r: Rect) {
        self.bounds
    }

    fn id(&self) -> (r: I) {
        self.id
    }
}

/// Depth at which the builder gives up.
pub const MAX_DEPTH: usize = 64;

/// Quadrant `k` of `r`: size halved toward zero; 0 top left, 1 top right,
/// 2 bottom right, 3 bottom left.
pub open spec fn quadrant(r: Rect, k: int) -> Rect {
    let hw = half(r.size.x as int);
    let hh = half(r.size.y as int);
    let dx = if k == 1 || k == 2 {
        hw
    } else {
        0
    };
    let dy = if k == 2 || k == 3 {
        hh
    } else {
        0
    };
    Rect {
        position: Vec2 { x: (r.position.x + dx) as i32, y: (r.position.y + dy) as i32 },
        size: Vec2 { x: hw as i32, y: hh as i32 },
    }
}

/// The entries of `es` whose bounds overlap `region`, in their order.
pub open spec fn select<I>(region: Rect, es: Seq<Entry<I>>) -> Seq<Entry<I>>
    decreases es.len(),
{
    if es.len() == 0 {
        Seq::empty()
    } else {
        let rest = select(region, es.drop_last());
        if region.overlaps(es.last().bounds) {
            rest.push(es.last())
        } else {
            rest
        }
    }
}

/// The ids of the entries, in their order.
pub open spec fn ids_of<I>(es: Seq<Entry<I>>) -> Seq<I> {
    es.map_values(|e: Entry<I>| e.id)
}

/// Partitioning `es` within `bounds`, starting at `depth`, gets every region down to
/// `thr` entries before the depth limit.
pub open spec fn partitions<I>(bounds: Rect, es: Seq<Entry<I>>, thr: nat, depth: nat) -> bool
    decreases MAX_DEPTH - depth,
{
    depth < MAX_DEPTH && (es.len() <= thr || {
        &&& partitions(quadrant(bounds, 0), select(quadrant(bounds, 0), es), thr, depth + 1)
        &&& partitions(quadrant(bounds, 1), select(quadrant(bounds, 1), es), thr, depth + 1)
        &&& partitions(quadrant(bounds, 2), select(quadrant(bounds, 2), es), thr, depth + 1)
        &&& partitions(quadrant(bounds, 3), select(quadrant(bounds, 3), es), thr, depth + 1)
    })
}

/// Node `idx` of the arena stands for the region `bounds` holding the entries `es`:
/// a leaf with their ids when they are at most `thr`, else a branch whose children
/// stand for the four quadrants with the entries that overlap each.
pub open spec fn represents<I>(
    nodes: Seq<QuadTreeNode<I>>,
    idx: int,
    bounds: Rect,
    es: Seq<Entry<I>>,
    thr: nat,
) -> bool
    decreases idx,
{
    0 <= idx < nodes.len() && if es.len() <= thr {
        match nodes[idx] {
            QuadTreeNode::Leaf { bounds: b, ids } => b == bounds && ids@ == ids_of(es),
            QuadTreeNode::Branch { .. } => false,
        }
    } else {
        match nodes[idx] {
            QuadTreeNode::Branch { bounds: b, leaves } => {
                &&& b == bounds
                &&& (leaves[0] as int) < idx
                &&& represents(
                    nodes,
                    leaves[0] as int,
                    quadrant(bounds, 0),
                    select(quadrant(bounds, 0), es),
                    thr,
                )
                &&& (leaves[1] as int) < idx
                &&& represents(
                    nodes,
                    leaves[1] as int,
                    quadrant(bounds, 1),
                    select(quadrant(bounds, 1), es),
                    thr,
                )
                &&& (leaves[2] as int) < idx
                &&& represents(
                    nodes,
                    leaves[2] as int,
                    quadrant(bounds, 2),
                    select(quadrant(bounds, 2), es),
                    thr,
                )
                &&& (leaves[3] as int) < idx
                &&& represents(
                    nodes,
                    leaves[3] as int,
                    quadrant(bounds, 3),
                    select(quadrant(bounds, 3), es),
                    thr,
                )
            },
            QuadTreeNode::Leaf { .. } => false,
        }
    }
}

/// A branch at index `idx` refers only to lower indices.
pub open spec fn children_below<I>(node: QuadTreeNode<I>, idx: int) -> bool {
    match node {
        QuadTreeNode::Branch { leaves, .. } => forall|c: int|
            0 <= c < 4 ==> (leaves[c] as int) < idx,
        QuadTreeNode::Leaf { .. } => true,
    }
}

/// `id` is the id of an entry of `es` whose bounds overlap `region`.
pub open spec fn id_in_region<I>(es: Seq<Entry<I>>, id: I, region: Rect) -> bool {
    exists|m: int| 0 <= m < es.len() && #[trigger] es[m].id == id && region.overlaps(es[m].bounds)
}

/// Each id held by a leaf is the id of an entry of `es` whose bounds overlap the leaf's region.
pub open spec fn leaf_ids_from<I>(node: QuadTreeNode<I>, es: Seq<Entry<I>>) -> bool {
    match node {
        QuadTreeNode::Leaf { bounds, ids } => forall|j: int|
            #![trigger ids@[j]]
            0 <= j < ids@.len() ==> id_in_region(es, ids@[j], bounds),
        QuadTreeNode::Branch { .. } => true,
    }
}

/// A branch refers only to indices from `lo` on.
pub open spec fn children_from<I>(node: QuadTreeNode<I>, lo: int) -> bool {
    match node {
        QuadTreeNode::Branch { leaves, .. } => forall|c: int|
            0 <= c < 4 ==> lo <= (leaves[c] as int),
        QuadTreeNode::Leaf { .. } => true,
    }
}

/// The region of a node.
pub open spec fn node_bounds<I>(node: QuadTreeNode<I>) -> Rect {
    match node {
        QuadTreeNode::Leaf { bounds, .. } => bounds,
        QuadTreeNode::Branch { bounds, .. } => bounds,
    }
}

/// Node `i` is shaped as the builder makes nodes: a leaf holds at most `thr` ids; a
/// branch's children exist and their regions are its quadrants, in quadrant order.
pub open spec fn well_shaped<I>(nodes: Seq<QuadTreeNode<I>>, i: int, thr: nat) -> bool {
    match nodes[i] {
        QuadTreeNode::Leaf { ids, .. } => ids@.len() <= thr,
        QuadTreeNode::Branch { bounds, leaves } => forall|c: int|
            0 <= c < 4 ==> (leaves[c] as int) < nodes.len() && node_bounds(
                #[trigger] nodes[leaves[c] as int],
            ) == quadrant(bounds, c),
    }
}

/// Every path down from node `idx` meets a leaf after at most `levels` branches.
pub open spec fn depth_below<I>(nodes: Seq<QuadTreeNode<I>>, idx: int, levels: nat) -> bool
    decreases idx,
{
    0 <= idx < nodes.len() && match nodes[idx] {
        QuadTreeNode::Leaf { .. } => true,
        QuadTreeNode::Branch { leaves, .. } => {
            let next = (levels - 1) as nat;
            &&& levels > 0
            &&& (leaves[0] as int) < idx && depth_below(nodes, leaves[0] as int, next)
            &&& (leaves[1] as int) < idx && depth_below(nodes, leaves[1] as int, next)
            &&& (leaves[2] as int) < idx && depth_below(nodes, leaves[2] as int, next)
            &&& (leaves[3] as int) < idx && depth_below(nodes, leaves[3] as int, next)
        },
    }
}

/// Node `i` lies under one of the first `k` children in `leaves`.
pub open spec fn under_first_children<I>(
    nodes: Seq<QuadTreeNode<I>>,
    leaves: [usize; 4],
    k: int,
    i: int,
) -> bool {
    ||| 0 < k && in_subtree(nodes, leaves[0] as int, i)
    ||| 1 < k && in_subtree(nodes, leaves[1] as int, i)
    ||| 2 < k && in_subtree(nodes, leaves[2] as int, i)
    ||| 3 < k && in_subtree(nodes, leaves[3] as int, i)
}

proof fn lemma_in_subtree_extend<I>(
    a: Seq<QuadTreeNode<I>>,
    b: Seq<QuadTreeNode<I>>,
    idx: int,
    k: int,
)
    requires
        in_subtree(a, idx, k),
        a.len() <= b.len(),
        forall|i: int| 0 <= i < a.len() ==> b[i] == a[i],
    ensures
        in_subtree(b, idx, k),
    decreases idx,
{
    if idx != k {
        if let QuadTreeNode::Branch { leaves, .. } = a[idx] {
            if (leaves[0] as int) < idx && in_subtree(a, leaves[0] as int, k) {
                lemma_in_subtree_extend(a, b, leaves[0] as int, k);
            } else if (leaves[1] as int) < idx && in_subtree(a, leaves[1] as int, k) {
                lemma_in_subtree_extend(a, b, leaves[1] as int, k);
            } else if (leaves[2] as int) < idx && in_subtree(a, leaves[2] as int, k) {
                lemma_in_subtree_extend(a, b, leaves[2] as int, k);
            } else {
                lemma_in_subtree_extend(a, b, leaves[3] as int, k);
            }
        }
    }
}

proof fn lemma_depth_below_extend<I>(
    a: Seq<QuadTreeNode<I>>,
    b: Seq<QuadTreeNode<I>>,
    idx: int,
    levels: nat,
)
    requires
        depth_below(a, idx, levels),
        a.len() <= b.len(),
        forall|i: int| 0 <= i < a.len() ==> b[i] == a[i],
    ensures
        depth_below(b, idx, levels),
    decreases idx,
{
    if let QuadTreeNode::Branch { leaves, .. } = a[idx] {
        lemma_depth_below_extend(a, b, leaves[0] as int, (levels - 1) as nat);
        lemma_depth_below_extend(a, b, leaves[1] as int, (levels - 1) as nat);
        lemma_depth_below_extend(a, b, leaves[2] as int, (levels - 1) as nat);
        lemma_depth_below_extend(a, b, leaves[3] as int, (levels - 1) as nat);
    }
}

proof fn lemma_shape_extend<I>(a: Seq<QuadTreeNode<I>>, b: Seq<QuadTreeNode<I>>, i: int, thr: nat)
    requires
        0 <= i < a.len(),
        well_shaped(a, i, thr),
        children_below(a[i], i),
        a.len() <= b.len(),
        forall|j: int| 0 <= j < a.len() ==> b[j] == a[j],
    ensures
        well_shaped(b, i, thr),
{
    if let QuadTreeNode::Branch { leaves, .. } = a[i] {
        assert forall|c: int| 0 <= c < 4 implies b[leaves[c] as int] == a[leaves[c] as int] by {}
    }
}

impl<I> QuadTree<I> {
    /// The arena holds one node, the root: a leaf over `bounds` with `ids`.
    pub open spec fn is_single_leaf(&self, bounds: Rect, ids: Seq<I>) -> bool {
        &&& self.nodes@.len() == 1
        &&& self.root == 0
        &&& match self.nodes@[0] {
            QuadTreeNode::Leaf { bounds: b, ids: v } => b == bounds && v@ == ids,
            QuadTreeNode::Branch { .. } => false,
        }
    }

    /// Every branch refers to children stored before it.
    pub open spec fn wf(&self) -> bool {
        forall|k: int| 0 <= k < self.nodes@.len() ==> children_below(#[trigger] self.nodes@[k], k)
    }

    /// The tree is what building from `root_bounds`, the entries `es` and `thr` yields:
    /// its root stands for `root_bounds` with the entries that overlap it; every node of
    /// the arena lies under the root and is well shaped; every leaf holds only ids of
    /// those entries whose bounds overlap the leaf's region; every leaf lies fewer than
    /// 64 levels down; and the arena holds at most `(4^64 - 1) / 3` nodes.
    pub open spec fn built_from(&self, root_bounds: Rect, es: Seq<Entry<I>>, thr: nat) -> bool {
        let kept = select(root_bounds, es);
        &&& self.wf()
        &&& self.split_threshold == thr
        &&& self.root == self.nodes@.len() - 1
        &&& represents(self.nodes@, self.root as int, root_bounds, kept, thr)
        &&& forall|k: int|
            0 <= k < self.nodes@.len() ==> leaf_ids_from(#[trigger] self.nodes@[k], kept)
        &&& forall|k: int|
            0 <= k < self.nodes@.len() ==> #[trigger] in_subtree(self.nodes@, self.root as int, k)
        &&& forall|k: int|
            0 <= k < self.nodes@.len() ==> #[trigger] well_shaped(self.nodes@, k, thr)
        &&& depth_below(self.nodes@, self.root as int, (MAX_DEPTH - 1) as nat)
        &&& 3 * self.nodes@.len() + 1 <= pow(4, MAX_DEPTH as nat)
    }
}

/// What building from `root_bounds`, the entries `es` and `thr` gives: a tree exactly when
/// partitioning succeeds, and then the tree built from them.
pub open spec fn build_outcome<I>(
    root_bounds: Rect,
    es: Seq<Entry<I>>,
    thr: nat,
    r: Result<QuadTree<I>, QuadTreeBuildError>,
) -> bool {
    &&& r is Ok <==> partitions(root_bounds, select(root_bounds, es), thr, 0)
    &&& r matches Ok(t) ==> t.built_from(root_bounds, es, thr)
    &&& select(root_bounds, es).len() <= thr ==> (r matches Ok(t) && t.is_single_leaf(
        root_bounds,
        ids_of(select(root_bounds, es)),
    ))
}

proof fn lemma_quadrant_fits(r: Rect, k: int)
    requires
        r.edges_fit(),
        0 <= k < 4,
    ensures
        quadrant(r, k).edges_fit(),
        quadrant(r, k).position.x == r.position.x + (if k == 1 || k == 2 {
            half(r.size.x as int)
        } else {
            0
        }),
        quadrant(r, k).position.y == r.position.y + (if k == 2 || k == 3 {
            half(r.size.y as int)
        } else {
            0
        }),
        quadrant(r, k).size.x == half(r.size.x as int),
        quadrant(r, k).size.y == half(r.size.y as int),
{
}

proof fn lemma_select<I>(region: Rect, es: Seq<Entry<I>>)
    ensures
        forall|j: int|
            0 <= j < select(region, es).len() ==> region.overlaps(
                (#[trigger] select(region, es)[j]).bounds,
            ) && exists|m: int| 0 <= m < es.len() && es[m] == select(region, es)[j],
    decreases es.len(),
{
    if es.len() > 0 {
        lemma_select(region, es.drop_last());
        let rest = select(region, es.drop_last());
        assert forall|j: int| 0 <= j < select(region, es).len() implies region.overlaps(
            (#[trigger] select(region, es)[j]).bounds,
        ) && exists|m: int| 0 <= m < es.len() && es[m] == select(region, es)[j] by {
            if j < rest.len() {
                let m = choose|m: int|
                    0 <= m < es.drop_last().len() && es.drop_last()[m] == rest[j];
                assert(es[m] == select(region, es)[j]);
            } else {
                assert(es[es.len() - 1] == select(region, es)[j]);
            }
        }
    }
}

proof fn lemma_leaf_ids_widen<I>(node: QuadTreeNode<I>, sub: Seq<Entry<I>>, es: Seq<Entry<I>>)
    requires
        leaf_ids_from(node, sub),
        forall|j: int|
            0 <= j < sub.len() ==> exists|m: int| 0 <= m < es.len() && es[m] == #[trigger] sub[j],
    ensures
        leaf_ids_from(node, es),
{
    if let QuadTreeNode::Leaf { bounds, ids } = node {
        assert forall|j: int|
            0 <= j < ids@.len() implies id_in_region(es, #[trigger] ids@[j], bounds) by {
            let n = choose|n: int|
                0 <= n < sub.len() && #[trigger] sub[n].id == ids@[j] && bounds.overlaps(
                    sub[n].bounds,
                );
            let m = choose|m: int| 0 <= m < es.len() && es[m] == #[trigger] sub[n];
            assert(es[m].id == ids@[j]);
        }
    }
}

proof fn lemma_represents_extend<I>(
    a: Seq<QuadTreeNode<I>>,
    b: Seq<QuadTreeNode<I>>,
    idx: int,
    bounds: Rect,
    es: Seq<Entry<I>>,
    thr: nat,
)
    requires
        represents(a, idx, bounds, es, thr),
        a.len() <= b.len(),
        forall|i: int| 0 <= i < a.len() ==> b[i] == a[i],
    ensures
        represents(b, idx, bounds, es, thr),
    decreases idx,
{
    if es.len() > thr {
        if let QuadTreeNode::Branch { leaves, .. } = a[idx] {
            lemma_represents_extend(
                a,
                b,
                leaves[0] as int,
                quadrant(bounds, 0),
                select(quadrant(bounds, 0), es),
                thr,
            );
            lemma_represents_extend(
                a,
                b,
                leaves[1] as int,
                quadrant(bounds, 1),
                select(quadrant(bounds, 1), es),
                thr,
            );
            lemma_represents_extend(
                a,
                b,
                leaves[2] as int,
                quadrant(bounds, 2),
                select(quadrant(bounds, 2), es),
                thr,
            );
            lemma_represents_extend(
                a,
                b,
                leaves[3] as int,
                quadrant(bounds, 3),
                select(quadrant(bounds, 3), es),
                thr,
            );
        }
    }
}

proof fn lemma_pow4_step(k: nat)
    requires
        k > 0,
    ensures
        pow(4, k) == 4 * pow(4, (k - 1) as nat),
        pow(4, (k - 1) as nat) >= 1,
{
    reveal(pow);
    lemma_pow_positive(4, (k - 1) as nat);
}

/// Splits `rect` into its four quadrants, in quadrant order.
fn split_rect(rect: &Rect) -> (r: [Rect; 4])
    requires
        rect.edges_fit(),
    ensures
        r[0] == quadrant(*rect, 0),
        r[1] == quadrant(*rect, 1),
        r[2] == quadrant(*rect, 2),
        r[3] == quadrant(*rect, 3),
{
    proof {
        lemma_quadrant_fits(*rect, 1);
        lemma_quadrant_fits(*rect, 2);
        lemma_quadrant_fits(*rect, 3);
    }
    let half_size = Vec2::new(half_i32(rect.size.x), half_i32(rect.size.y));
    [
        Rect { position: rect.position, size: half_size },
        Rect {
            position: Vec2::new(rect.position.x + half_size.x, rect.position.y),
            size: half_size,
        },
        Rect {
            position: Vec2::new(rect.position.x + half_size.x, rect.position.y + half_size.y),
            size: half_size,
        },
        Rect {
            position: Vec2::new(rect.position.x, rect.position.y + half_size.y),
            size: half_size,
        },
    ]
}

/// The entries whose bounds overlap `region`, in their order.
fn select_entries<I: Copy>(region: &Rect, entries: &Vec<Entry<I>>) -> (r: Vec<Entry<I>>)
    ensures
        r@ == select(*region, entries@),
{
    let mut out: Vec<Entry<I>> = Vec::new();
    let mut i: usize = 0;
    while i < entries.len()
        invariant
            i <= entries.len(),
            out@ == select(*region, entries@.take(i as int)),
        decreases entries.len() - i,
    {
        let e = entries[i];
        proof {
            assert(entries@.take(i + 1).drop_last() =~= entries@.take(i as int));
            assert(entries@.take(i + 1).last() == e);
        }
        if region.intersects(e.bounds) {
            out.push(e);
        }
        i += 1;
    }
    assert(entries@.take(entries.len() as int) =~= entries@);
    out
}

/// Builds the subtree for `bounds` holding `entries` and returns the index of its root.
fn build_recursive<I: Copy>(
    nodes: &mut Vec<QuadTreeNode<I>>,
    bounds: Rect,
    entries: &Vec<Entry<I>>,
    split_threshold: usize,
    depth: usize,
) -> (r: Result<usize, QuadTreeBuildError>)
    requires
        bounds.edges_fit(),
        forall|m: int| 0 <= m < entries@.len() ==> bounds.overlaps(#[trigger] entries@[m].bounds),
    ensures
        r is Ok <==> partitions(bounds, entries@, split_threshold as nat, depth as nat),
        depth >= MAX_DEPTH ==> r is Err && final(nodes)@ == old(nodes)@,
        forall|i: int|
            old(nodes)@.len() <= i < final(nodes)@.len() ==> children_from(
                #[trigger] final(nodes)@[i],
                old(nodes)@.len() as int,
            ) && well_shaped(final(nodes)@, i, split_threshold as nat),
        r matches Ok(idx) ==> {
            &&& 3 * (final(nodes)@.len() - old(nodes)@.len()) + 1 <= pow(
                4,
                (MAX_DEPTH - depth) as nat,
            )
            &&& old(nodes)@.len() <= idx
            &&& depth_below(final(nodes)@, idx as int, (MAX_DEPTH - 1 - depth) as nat)
            &&& forall|i: int|
                old(nodes)@.len() <= i < final(nodes)@.len() ==> #[trigger] in_subtree(
                    final(nodes)@,
                    idx as int,
                    i,
                )
        },
        final(nodes)@.len() >= old(nodes)@.len(),
        forall|i: int| 0 <= i < old(nodes)@.len() ==> final(nodes)@[i] == old(nodes)@[i],
        forall|i: int|
            old(nodes)@.len() <= i < final(nodes)@.len() ==> children_below(
                #[trigger] final(nodes)@[i],
                i,
            ) && leaf_ids_from(final(nodes)@[i], entries@),
        r matches Ok(idx) ==> idx == final(nodes)@.len() - 1 && represents(
            final(nodes)@,
            idx as int,
            bounds,
            entries@,
            split_threshold as nat,
        ),
        depth < MAX_DEPTH && entries@.len() <= split_threshold ==> final(nodes)@.len()
            == old(nodes)@.len() + 1,
    decreases MAX_DEPTH - depth,
{
    if depth >= MAX_DEPTH {
        return Err(QuadTreeBuildError::ReachedRecursionLimit);
    }
    if entries.len() <= split_threshold {
        let mut ids: Vec<I> = Vec::new();
        let mut i: usize = 0;
        while i < entries.len()
            invariant
                i <= entries.len(),
                ids@ == ids_of(entries@.take(i as int)),
            decreases entries.len() - i,
        {
            proof {
                assert(ids_of(entries@.take(i + 1)) =~= ids_of(entries@.take(i as int)).push(
                    entries@[i as int].id,
                ));
            }
            ids.push(entries[i].id);
            i += 1;
        }
        assert(entries@.take(entries.len() as int) =~= entries@);
        let index = nodes.len();
        let leaf = QuadTreeNode::Leaf { bounds, ids };
        proof {
            assert forall|j: int| 0 <= j < ids@.len() implies id_in_region(
                entries@,
                #[trigger] ids@[j],
                bounds,
            ) by {
                assert(entries@[j].id == ids@[j]);
            }
        }
        nodes.push(leaf);
        proof {
            lemma_pow4_step((MAX_DEPTH - depth) as nat);
        }
        return Ok(index);
    }
    let quadrants = split_rect(&bounds);
    let mut leaves: [usize; 4] = [usize::MAX; 4];
    let ghost start = nodes@;
    let mut k: usize = 0;
    while k < 4
        invariant
            0 <= k <= 4,
            bounds.edges_fit(),
            depth < MAX_DEPTH,
            entries@.len() > split_threshold,
            forall|c: int| 0 <= c < 4 ==> quadrants[c] == quadrant(bounds, c),
            nodes@.len() >= start.len(),
            start == old(nodes)@,
            forall|i: int| 0 <= i < start.len() ==> nodes@[i] == start[i],
            forall|i: int|
                start.len() <= i < nodes@.len() ==> children_below(#[trigger] nodes@[i], i)
                    && leaf_ids_from(nodes@[i], entries@),
            forall|i: int|
                start.len() <= i < nodes@.len() ==> children_from(
                    #[trigger] nodes@[i],
                    start.len() as int,
                ) && well_shaped(nodes@, i, split_threshold as nat),
            forall|i: int|
                start.len() <= i < nodes@.len() ==> #[trigger] under_first_children(
                    nodes@,
                    leaves,
                    k as int,
                    i,
                ),
            forall|c: int| 0 <= c < k ==> (#[trigger] leaves[c] as int) < nodes@.len(),
            forall|c: int| 0 <= c < k ==> start.len() <= (#[trigger] leaves[c] as int),
            3 * (nodes@.len() - start.len()) + k <= k * pow(4, (MAX_DEPTH - 1 - depth) as nat),
            forall|c: int|
                0 <= c < k ==> depth_below(
                    nodes@,
                    #[trigger] leaves[c] as int,
                    (MAX_DEPTH - 2 - depth) as nat,
                ),
            forall|c: int|
                0 <= c < k ==> represents(
                    nodes@,
                    #[trigger] leaves[c] as int,
                    quadrant(bounds, c),
                    select(quadrant(bounds, c), entries@),
                    split_threshold as nat,
                ),
            forall|c: int|
                0 <= c < k ==> #[trigger] partitions(
                    quadrant(bounds, c),
                    select(quadrant(bounds, c), entries@),
                    split_threshold as nat,
                    depth as nat + 1,
                ),
        decreases 4 - k,
    {
        let quadrant_bounds = quadrants[k];
        let quadrant_entries = select_entries(&quadrant_bounds, entries);
        proof {
            lemma_quadrant_fits(bounds, k as int);
            lemma_select(quadrant_bounds, entries@);
        }
        let ghost before = nodes@;
        let built = build_recursive(
            nodes,
            quadrant_bounds,
            &quadrant_entries,
            split_threshold,
            depth + 1,
        );
        proof {
            assert forall|i: int| start.len() <= i < nodes@.len() implies children_from(
                #[trigger] nodes@[i],
                start.len() as int,
            ) && well_shaped(nodes@, i, split_threshold as nat) && children_below(nodes@[i], i)
                && leaf_ids_from(nodes@[i], entries@) by {
                if i < before.len() {
                    lemma_shape_extend(before, nodes@, i, split_threshold as nat);
                } else {
                    lemma_leaf_ids_widen(nodes@[i], quadrant_entries@, entries@);
                }
            }
        }
        match built {
            Ok(index) => {
                let ghost old_leaves = leaves;
                leaves[k] = index;
                proof {
                    let bound = pow(4, (MAX_DEPTH - 1 - depth) as nat);
                    assert((k + 1) * bound == k * bound + bound) by (nonlinear_arith);
                    assert forall|c: int| 0 <= c <= k implies depth_below(
                        nodes@,
                        #[trigger] leaves[c] as int,
                        (MAX_DEPTH - 2 - depth) as nat,
                    ) by {
                        if c < k {
                            lemma_depth_below_extend(
                                before,
                                nodes@,
                                old_leaves[c] as int,
                                (MAX_DEPTH - 2 - depth) as nat,
                            );
                        }
                    }
                    assert forall|i: int|
                        start.len() <= i < nodes@.len() implies #[trigger] under_first_children(
                        nodes@,
                        leaves,
                        k + 1,
                        i,
                    ) by {
                        if i < before.len() {
                            assert(under_first_children(before, old_leaves, k as int, i));
                            if 0 < k && in_subtree(before, old_leaves[0] as int, i) {
                                lemma_in_subtree_extend(before, nodes@, old_leaves[0] as int, i);
                            } else if 1 < k && in_subtree(before, old_leaves[1] as int, i) {
                                lemma_in_subtree_extend(before, nodes@, old_leaves[1] as int, i);
                            } else {
                                lemma_in_subtree_extend(before, nodes@, old_leaves[2] as int, i);
                            }
                        } else {
                            assert(in_subtree(nodes@, index as int, i));
                        }
                    }
                    assert(forall|c: int| 0 <= c < k ==> leaves[c] == old_leaves[c]);
                    assert(forall|c: int| 0 <= c < k ==> (old_leaves[c] as int) < before.len());
                    assert forall|c: int| 0 <= c <= k implies represents(
                        nodes@,
                        leaves[c] as int,
                        quadrant(bounds, c),
                        select(quadrant(bounds, c), entries@),
                        split_threshold as nat,
                    ) by {
                        if c < k {
                            lemma_represents_extend(
                                before,
                                nodes@,
                                leaves[c] as int,
                                quadrant(bounds, c),
                                select(quadrant(bounds, c), entries@),
                                split_threshold as nat,
                            );
                        }
                    }
                    assert forall|i: int| before.len() <= i < nodes@.len() implies leaf_ids_from(
                        #[trigger] nodes@[i],
                        entries@,
                    ) by {
                        lemma_leaf_ids_widen(nodes@[i], quadrant_entries@, entries@);
                    }
                }
            },
            Err(e) => {
                return Err(e);
            },
        }
        k += 1;
    }
    let index = nodes.len();
    let ghost before = nodes@;
    nodes.push(QuadTreeNode::Branch { bounds, leaves });
    proof {
        assert forall|c: int| 0 <= c < 4 implies represents(
            nodes@,
            leaves[c] as int,
            quadrant(bounds, c),
            select(quadrant(bounds, c), entries@),
            split_threshold as nat,
        ) by {
            lemma_represents_extend(
                before,
                nodes@,
                leaves[c] as int,
                quadrant(bounds, c),
                select(quadrant(bounds, c), entries@),
                split_threshold as nat,
            );
        }
        assert(children_below(nodes@[index as int], index as int));
        assert forall|c: int| 0 <= c < 4 implies node_bounds(
            #[trigger] nodes@[leaves[c] as int],
        ) == quadrant(bounds, c) by {}
        assert(well_shaped(nodes@, index as int, split_threshold as nat));
        assert forall|i: int| start.len() <= i < nodes@.len() implies children_from(
            #[trigger] nodes@[i],
            start.len() as int,
        ) && well_shaped(nodes@, i, split_threshold as nat) && in_subtree(
            nodes@,
            index as int,
            i,
        ) by {
            if i < index {
                lemma_shape_extend(before, nodes@, i, split_threshold as nat);
                assert(under_first_children(before, leaves, 4, i));
                if in_subtree(before, leaves[0] as int, i) {
                    lemma_in_subtree_extend(before, nodes@, leaves[0] as int, i);
                } else if in_subtree(before, leaves[1] as int, i) {
                    lemma_in_subtree_extend(before, nodes@, leaves[1] as int, i);
                } else if in_subtree(before, leaves[2] as int, i) {
                    lemma_in_subtree_extend(before, nodes@, leaves[2] as int, i);
                } else {
                    lemma_in_subtree_extend(before, nodes@, leaves[3] as int, i);
                }
            }
        }
        assert forall|c: int| 0 <= c < 4 implies depth_below(
            nodes@,
            #[trigger] leaves[c] as int,
            (MAX_DEPTH - 2 - depth) as nat,
        ) by {
            lemma_depth_below_extend(
                before,
                nodes@,
                leaves[c] as int,
                (MAX_DEPTH - 2 - depth) as nat,
            );
        }
        assert(partitions(
            quadrant(bounds, 0),
            select(quadrant(bounds, 0), entries@),
            split_threshold as nat,
            depth as nat + 1,
        ));
        assert(partitions(
            quadrant(bounds, 1),
            select(quadrant(bounds, 1), entries@),
            split_threshold as nat,
            depth as nat + 1,
        ));
        assert(partitions(
            quadrant(bounds, 2),
            select(quadrant(bounds, 2), entries@),
            split_threshold as nat,
            depth as nat + 1,
        ));
        assert(partitions(
            quadrant(bounds, 3),
            select(quadrant(bounds, 3), entries@),
            split_threshold as nat,
            depth as nat + 1,
        ));
        assert(depth_below(nodes@, index as int, (MAX_DEPTH - 1 - depth) as nat));
        lemma_pow4_step((MAX_DEPTH - depth) as nat);
        assert forall|i: int| start.len() <= i < nodes@.len() implies #[trigger] in_subtree(
            nodes@,
            index as int,
            i,
        ) by {
            assert(children_from(nodes@[i], start.len() as int));
        }
    }
    Ok(index)
}


impl<I: Copy> QuadTree<I> {
    /// Builds a tree over `root_bounds` from the entries whose bounds overlap it; the others
    /// are dropped. A region holding more than `split_threshold` entries is split into
    /// quadrants; the build fails when that would go 64 levels deep.
    pub fn from_entries(
        root_bounds: Rect,
        entries: &Vec<Entry<I>>,
        split_threshold: usize,
    ) -> (r: Result<Self, QuadTreeBuildError>)
        requires
            root_bounds.edges_fit(),
        ensures
            build_outcome(root_bounds, entries@, split_threshold as nat, r),
    {
        let kept = select_entries(&root_bounds, entries);
        proof {
            lemma_select(root_bounds, entries@);
        }
        let mut nodes: Vec<QuadTreeNode<I>> = Vec::new();
        let root = build_recursive(&mut nodes, root_bounds, &kept, split_threshold, 0)?;
        let tree = QuadTree { nodes, root, split_threshold };
        proof {
            assert forall|k: int| 0 <= k < tree.nodes@.len() implies children_below(
                #[trigger] tree.nodes@[k],
                k,
            ) by {
                assert(children_below(tree.nodes@[k], k) && leaf_ids_from(tree.nodes@[k], kept@));
            }
        }
        Ok(tree)
    }

    /// Builds a tree over `root_bounds` from the objects whose bounds overlap it; see
    /// [`QuadTree::from_entries`]. Each object is asked once for its id and bounds.
    pub fn new<T: BoundsProvider<Id = I>>(
        root_bounds: Rect,
        objects: &[T],
        split_threshold: usize,
    ) -> (r: Result<Self, QuadTreeBuildError>)
        requires
            root_bounds.edges_fit(),
        ensures
            build_outcome(
                root_bounds,
                objects@.map_values(|o: T| entry_of(o)),
                split_threshold as nat,
                r,
            ),
    {
        let mut entries: Vec<Entry<I>> = Vec::new();
        let mut i: usize = 0;
        while i < objects.len()
            invariant
                i <= objects@.len(),
                entries@ == objects@.take(i as int).map_values(|o: T| entry_of(o)),
            decreases objects@.len() - i,
        {
            let object = &objects[i];
            entries.push(Entry { id: object.id(), bounds: object.bounds() });
            proof {
                assert(objects@.take(i + 1).map_values(|o: T| entry_of(o)) =~= objects@.take(
                    i as int,
                ).map_values(|o: T| entry_of(o)).push(entry_of(objects@[i as int])));
            }
            i += 1;
        }
        assert(objects@.take(objects@.len() as int) =~= objects@);
        let r = Self::from_entries(root_bounds, &entries, split_threshold);
        r
    }

    /// Returns the split threshold that the tree was built with.
    pub fn split_threshold(&self) -> (r: usize)
        ensures
            r == self.split_threshold,
    {
        self.split_threshold
    }
}

impl<I: Copy> Default for QuadTree<I> {
    /// An empty arena with root index 0, which refers to no node, and threshold 16.
    fn default() -> (r: Self)
        ensures
            r.nodes@.len() == 0,
            r.root == 0,
            r.split_threshold == 16,
    {
        QuadTree { nodes: Vec::new(), root: 0, split_threshold: 16 }
    }
}


/// A storage with `held` ids and the given capacity (none: unbounded) accepts one more.
pub open spec fn has_room<T>(held: Seq<T>, capacity: Option<nat>) -> bool {
    match capacity {
        None => true,
        Some(c) => held.len() < c,
    }
}

/// What a storage holding `held`, with the given capacity, holds after `offered` is pushed
/// into it id by id: every id while there is room, none after.
pub open spec fn filled<T>(held: Seq<T>, capacity: Option<nat>, offered: Seq<T>) -> Seq<T> {
    match capacity {
        None => held + offered,
        Some(c) => if held.len() >= c {
            held
        } else if held.len() + offered.len() <= c {
            held + offered
        } else {
            held + offered.take(c - held.len())
        },
    }
}

/// A storage for query results.
pub trait QueryStorage {
    /// Id of an entity in the storage.
    type Id;

    /// The ids held, in the order they were accepted.
    spec fn stored(&self) -> Seq<Self::Id>;

    /// The most ids the storage holds; none when it has no bound.
    spec fn capacity(&self) -> Option<nat>;

    /// Tries to push a new id; returns whether it was accepted, which it is exactly when
    /// there is room.
    fn try_push(&mut self, id: Self::Id) -> (accepted: bool)
        ensures
            accepted == has_room(old(self).stored(), old(self).capacity()),
            final(self).capacity() == old(self).capacity(),
            final(self).stored() == (if accepted {
                old(self).stored().push(id)
            } else {
                old(self).stored()
            }),
    ;

    /// Clears the storage.
    fn clear(&mut self)
        ensures
            final(self).stored() == Seq::<Self::Id>::empty(),
            final(self).capacity() == old(self).capacity(),
    ;
}

impl<I> QueryStorage for Vec<I> {
    type Id = I;

    open spec fn stored(&self) -> Seq<I> {
        self@
    }

    open spec fn capacity(&self) -> Option<nat> {
        None
    }

    fn try_push(&mut self, intersection: I) -> (accepted: bool) {
        self.push(intersection);
        true
    }

    fn clear(&mut self) {
        self.clear()
    }
}

/// A storage that holds at most `CAP` ids and refuses more.
#[derive(Debug)]
pub struct BoundedStorage<I, const CAP: usize> {
    items: Vec<I>,
}

impl<I, const CAP: usize> BoundedStorage<I, CAP> {
    /// The ids held, in the order they were accepted.
    pub closed spec fn view(&self) -> Seq<I> {
        self.items@
    }

    /// Never more than `CAP` ids are held.
    #[verifier::type_invariant]
    spec fn within_capacity(&self) -> bool {
        self.items@.len() <= CAP
    }

    /// An empty storage.
    pub fn new() -> (r: Self)
        ensures
            r.view() == Seq::<I>::empty(),
    {
        BoundedStorage { items: Vec::new() }
    }

    /// The number of ids held.
    pub fn len(&self) -> (r: usize)
        ensures
            r == self.view().len(),
            r <= CAP,
    {
        proof {
            use_type_invariant(self);
        }
        self.items.len()
    }

    /// Whether no id is held.
    pub fn is_empty(&self) -> (r: bool)
        ensures
            r == (self.view().len() == 0),
    {
        self.items.len() == 0
    }

    /// Whether the storage holds `CAP` ids (or more).
    pub fn is_full(&self) -> (r: bool)
        ensures
            r == (self.view().len() == CAP),
    {
        proof {
            use_type_invariant(self);
        }
        self.items.len() == CAP
    }

    /// The ids held, in the order they were accepted.
    pub fn as_slice(&self) -> (r: &[I])
        ensures
            r@ == self.view(),
    {
        self.items.as_slice()
    }
}

impl<I, const CAP: usize> QueryStorage for BoundedStorage<I, CAP> {
    type Id = I;

    open spec fn stored(&self) -> Seq<I> {
        self.view()
    }

    open spec fn capacity(&self) -> Option<nat> {
        Some(CAP as nat)
    }

    fn try_push(&mut self, intersection: I) -> (accepted: bool)
        ensures
            final(self).view().len() <= CAP,
    {
        proof {
            use_type_invariant(&*self);
        }
        if self.items.len() < CAP {
            let mut taken = BoundedStorage { items: Vec::new() };
            std::mem::swap(self, &mut taken);
            let mut items = taken.items;
            items.push(intersection);
            *self = BoundedStorage { items };
            true
        } else {
            false
        }
    }

    fn clear(&mut self) {
        *self = BoundedStorage { items: Vec::new() };
    }
}

proof fn lemma_filled_append<T>(held: Seq<T>, capacity: Option<nat>, a: Seq<T>, b: Seq<T>)
    ensures
        filled(filled(held, capacity, a), capacity, b) == filled(held, capacity, a + b),
{
    match capacity {
        None => {
            assert(held + a + b =~= held + (a + b));
        },
        Some(c) => {
            if held.len() < c {
                if held.len() + a.len() + b.len() <= c {
                    assert(held + a + b =~= held + (a + b));
                } else if held.len() + a.len() < c {
                    assert(held + a + b.take(c - held.len() - a.len()) =~= held + (a + b).take(
                        c - held.len(),
                    ));
                } else {
                    assert(held + a.take(c - held.len()) =~= held + (a + b).take(c - held.len()));
                }
            }
        },
    }
}

/// The ids that a query at `p` offers, in order, starting at node `idx`: a leaf whose region
/// contains `p` offers its ids, a branch whose region contains `p` those of its four
/// children in turn; an index that names no node offers nothing.
pub open spec fn hits<I>(nodes: Seq<QuadTreeNode<I>>, idx: int, p: Vec2) -> Seq<I>
    decreases idx,
{
    if 0 <= idx < nodes.len() {
        match nodes[idx] {
            QuadTreeNode::Leaf { bounds, ids } => if bounds.has_point(p) {
                ids@
            } else {
                Seq::empty()
            },
            QuadTreeNode::Branch { bounds, leaves } => if bounds.has_point(p) && (leaves[0] as int)
                < idx && (leaves[1] as int) < idx && (leaves[2] as int) < idx && (leaves[3] as int)
                < idx {
                hits(nodes, leaves[0] as int, p) + hits(nodes, leaves[1] as int, p) + hits(
                    nodes,
                    leaves[2] as int,
                    p,
                ) + hits(nodes, leaves[3] as int, p)
            } else {
                Seq::empty()
            },
        }
    } else {
        Seq::empty()
    }
}

impl<I: Copy> QuadTree<I> {
    /// The ids that a query at `p` offers to the storage, in order.
    pub open spec fn query_hits(&self, p: Vec2) -> Seq<I> {
        hits(self.nodes@, self.root as int, p)
    }

    /// Offers the storage the ids of every leaf whose region contains `point`, reached through
    /// branches whose regions contain it; a leaf stops offering once the storage refuses one.
    /// So the storage ends up with the ids it held, followed by as many of those ids as it
    /// has room for.
    pub fn point_query<S: QueryStorage<Id = I>>(&self, point: Vec2, storage: &mut S)
        requires
            self.wf(),
        ensures
            final(storage).stored() == filled(
                old(storage).stored(),
                old(storage).capacity(),
                self.query_hits(point),
            ),
            final(storage).capacity() == old(storage).capacity(),
    {
        self.point_query_recursive(self.root, point, storage)
    }

    fn point_query_recursive<S: QueryStorage<Id = I>>(
        &self,
        node: usize,
        point: Vec2,
        storage: &mut S,
    )
        requires
            self.wf(),
        ensures
            final(storage).stored() == filled(
                old(storage).stored(),
                old(storage).capacity(),
                hits(self.nodes@, node as int, point),
            ),
            final(storage).capacity() == old(storage).capacity(),
        decreases node,
    {
        let ghost held = storage.stored();
        let ghost capacity = storage.capacity();
        if node >= self.nodes.len() {
            assert(held + Seq::<I>::empty() =~= held);
            return;
        }
        match &self.nodes[node] {
            QuadTreeNode::Leaf { bounds, ids } => {
                if !bounds.contains(point) {
                    assert(held + Seq::<I>::empty() =~= held);
                    return;
                }
                let mut i: usize = 0;
                while i < ids.len()
                    invariant
                        i <= ids@.len(),
                        hits(self.nodes@, node as int, point) == ids@,
                        held == old(storage).stored(),
                        capacity == old(storage).capacity(),
                        storage.capacity() == capacity,
                        storage.stored() == filled(held, capacity, ids@.take(i as int)),
                    decreases ids@.len() - i,
                {
                    let ghost before = storage.stored();
                    let accepted = storage.try_push(ids[i]);
                    proof {
                        lemma_filled_append(
                            held,
                            capacity,
                            ids@.take(i as int),
                            ids@.skip(i as int),
                        );
                        assert(ids@.take(i as int) + ids@.skip(i as int) =~= ids@);
                        lemma_filled_append(
                            held,
                            capacity,
                            ids@.take(i as int),
                            seq![ids@[i as int]],
                        );
                        assert(ids@.take(i as int) + seq![ids@[i as int]] =~= ids@.take(i + 1));
                        if !accepted {
                            assert(filled(before, capacity, ids@.skip(i as int)) == before);
                        } else {
                            assert(before + seq![ids@[i as int]] =~= before.push(ids@[i as int]));
                        }
                    }
                    if !accepted {
                        return;
                    }
                    i += 1;
                }
                assert(ids@.take(ids@.len() as int) =~= ids@);
            },
            QuadTreeNode::Branch { bounds, leaves } => {
                if !bounds.contains(point) {
                    assert(held + Seq::<I>::empty() =~= held);
                    return;
                }
                assert(children_below(self.nodes@[node as int], node as int));
                let ghost h0 = hits(self.nodes@, leaves[0] as int, point);
                let ghost h1 = hits(self.nodes@, leaves[1] as int, point);
                let ghost h2 = hits(self.nodes@, leaves[2] as int, point);
                let ghost h3 = hits(self.nodes@, leaves[3] as int, point);
                self.point_query_recursive(leaves[0], point, storage);
                self.point_query_recursive(leaves[1], point, storage);
                proof {
                    lemma_filled_append(held, capacity, h0, h1);
                }
                self.point_query_recursive(leaves[2], point, storage);
                proof {
                    lemma_filled_append(held, capacity, h0 + h1, h2);
                }
                self.point_query_recursive(leaves[3], point, storage);
                proof {
                    lemma_filled_append(held, capacity, h0 + h1 + h2, h3);
                }
            },
        }
    }
}


/// Node `k` is node `idx` or lies under one of its children.
pub open spec fn in_subtree<I>(nodes: Seq<QuadTreeNode<I>>, idx: int, k: int) -> bool
    decreases idx,
{
    0 <= idx < nodes.len() && (idx == k || match nodes[idx] {
        QuadTreeNode::Branch { leaves, .. } => {
            ||| (leaves[0] as int) < idx && in_subtree(nodes, leaves[0] as int, k)
            ||| (leaves[1] as int) < idx && in_subtree(nodes, leaves[1] as int, k)
            ||| (leaves[2] as int) < idx && in_subtree(nodes, leaves[2] as int, k)
            ||| (leaves[3] as int) < idx && in_subtree(nodes, leaves[3] as int, k)
        },
        QuadTreeNode::Leaf { .. } => false,
    })
}

/// The node is a leaf whose region holds `p` off its edges.
pub open spec fn leaf_strictly_holds<I>(node: QuadTreeNode<I>, p: Vec2) -> bool {
    match node {
        QuadTreeNode::Leaf { bounds, .. } => bounds.has_point_strictly(p),
        QuadTreeNode::Branch { .. } => false,
    }
}

/// The ids a leaf holds; none for a branch.
pub open spec fn node_ids<I>(node: QuadTreeNode<I>) -> Seq<I> {
    match node {
        QuadTreeNode::Leaf { ids, .. } => ids@,
        QuadTreeNode::Branch { .. } => Seq::empty(),
    }
}

proof fn lemma_region_misses<I>(
    nodes: Seq<QuadTreeNode<I>>,
    idx: int,
    bounds: Rect,
    es: Seq<Entry<I>>,
    thr: nat,
    p: Vec2,
)
    requires
        represents(nodes, idx, bounds, es, thr),
        !bounds.has_point(p),
    ensures
        hits(nodes, idx, p) == Seq::<I>::empty(),
{
}

proof fn lemma_strict_hit<I>(
    nodes: Seq<QuadTreeNode<I>>,
    idx: int,
    bounds: Rect,
    es: Seq<Entry<I>>,
    thr: nat,
    k: int,
    p: Vec2,
)
    requires
        bounds.edges_fit(),
        represents(nodes, idx, bounds, es, thr),
        in_subtree(nodes, idx, k),
        leaf_strictly_holds(nodes[k], p),
    ensures
        hits(nodes, idx, p) == node_ids(nodes[k]),
        bounds.has_point_strictly(p),
    decreases idx,
{
    if idx != k {
        let leaves = nodes[idx]->Branch_leaves;
        let c: int = if (leaves[0] as int) < idx && in_subtree(nodes, leaves[0] as int, k) {
            0
        } else if (leaves[1] as int) < idx && in_subtree(nodes, leaves[1] as int, k) {
            1
        } else if (leaves[2] as int) < idx && in_subtree(nodes, leaves[2] as int, k) {
            2
        } else {
            3
        };
        let q = quadrant(bounds, c);
        lemma_quadrant_fits(bounds, 0);
        lemma_quadrant_fits(bounds, 1);
        lemma_quadrant_fits(bounds, 2);
        lemma_quadrant_fits(bounds, 3);
        lemma_strict_hit(nodes, leaves[c] as int, q, select(q, es), thr, k, p);
        assert(bounds.has_point_strictly(p));
        let h = node_ids(nodes[k]);
        let e = Seq::<I>::empty();
        let h0 = hits(nodes, leaves[0] as int, p);
        let h1 = hits(nodes, leaves[1] as int, p);
        let h2 = hits(nodes, leaves[2] as int, p);
        let h3 = hits(nodes, leaves[3] as int, p);
        assert forall|d: int| 0 <= d < 4 && d != c implies !(#[trigger] quadrant(
            bounds,
            d,
        )).has_point(p) by {}
        if c != 0 {
            lemma_region_misses(
                nodes,
                leaves[0] as int,
                quadrant(bounds, 0),
                select(quadrant(bounds, 0), es),
                thr,
                p,
            );
        }
        if c != 1 {
            lemma_region_misses(
                nodes,
                leaves[1] as int,
                quadrant(bounds, 1),
                select(quadrant(bounds, 1), es),
                thr,
                p,
            );
        }
        if c != 2 {
            lemma_region_misses(
                nodes,
                leaves[2] as int,
                quadrant(bounds, 2),
                select(quadrant(bounds, 2), es),
                thr,
                p,
            );
        }
        if c != 3 {
            lemma_region_misses(
                nodes,
                leaves[3] as int,
                quadrant(bounds, 3),
                select(quadrant(bounds, 3), es),
                thr,
                p,
            );
        }
        assert(h0 + h1 + h2 + h3 =~= h);
    }
}

/// A query at a point that lies strictly inside the region of a leaf of a built tree (a
/// leaf reached from the root) offers exactly that leaf's ids, in their stored order.
pub proof fn lemma_query_strictly_inside_leaf<I: Copy>(
    tree: QuadTree<I>,
    root_bounds: Rect,
    es: Seq<Entry<I>>,
    thr: nat,
    k: int,
    p: Vec2,
)
    requires
        root_bounds.edges_fit(),
        tree.built_from(root_bounds, es, thr),
        in_subtree(tree.nodes@, tree.root as int, k),
        leaf_strictly_holds(tree.nodes@[k], p),
    ensures
        tree.query_hits(p) == node_ids(tree.nodes@[k]),
{
    lemma_strict_hit(
        tree.nodes@,
        tree.root as int,
        root_bounds,
        select(root_bounds, es),
        thr,
        k,
        p,
    );
}

/// A tree with an empty arena, such as a default tree, leaves every storage as it was
/// whatever point it is asked about.
pub proof fn lemma_empty_tree_query<I: Copy>(tree: QuadTree<I>, p: Vec2)
    requires
        tree.nodes@.len() == 0,
    ensures
        tree.query_hits(p) == Seq::<I>::empty(),
        forall|held: Seq<I>, capacity: Option<nat>|
            #[trigger] filled(held, capacity, tree.query_hits(p)) == held,
{
    assert forall|held: Seq<I>, capacity: Option<nat>|
        #[trigger] filled(held, capacity, tree.query_hits(p)) == held by {
        assert(held + Seq::<I>::empty() =~= held);
    }
}

/// The node is a leaf whose region contains `p`, edges included.
pub open spec fn leaf_holds<I>(node: QuadTreeNode<I>, p: Vec2) -> bool {
    match node {
        QuadTreeNode::Leaf { bounds, .. } => bounds.has_point(p),
        QuadTreeNode::Branch { .. } => false,
    }
}

/// `id` is the id of an entry of `es` that overlaps the region of a leaf of `nodes`
/// containing `p`.
pub open spec fn id_backed<I>(
    nodes: Seq<QuadTreeNode<I>>,
    id: I,
    p: Vec2,
    es: Seq<Entry<I>>,
) -> bool {
    exists|k: int|
        0 <= k < nodes.len() && leaf_holds(#[trigger] nodes[k], p) && id_in_region(
            es,
            id,
            node_bounds(nodes[k]),
        )
}

/// Each id of `found` is backed as [`id_backed`] says.
pub open spec fn ids_backed<I>(
    nodes: Seq<QuadTreeNode<I>>,
    found: Seq<I>,
    p: Vec2,
    es: Seq<Entry<I>>,
) -> bool {
    forall|j: int| 0 <= j < found.len() ==> #[trigger] id_backed(nodes, found[j], p, es)
}

proof fn lemma_backed_concat<I>(
    nodes: Seq<QuadTreeNode<I>>,
    a: Seq<I>,
    b: Seq<I>,
    p: Vec2,
    es: Seq<Entry<I>>,
)
    requires
        ids_backed(nodes, a, p, es),
        ids_backed(nodes, b, p, es),
    ensures
        ids_backed(nodes, a + b, p, es),
{
    assert forall|j: int| 0 <= j < (a + b).len() implies #[trigger] id_backed(
        nodes,
        (a + b)[j],
        p,
        es,
    ) by {
        if j < a.len() {
            assert((a + b)[j] == a[j]);
            assert(id_backed(nodes, a[j], p, es));
        } else {
            assert((a + b)[j] == b[j - a.len()]);
            assert(id_backed(nodes, b[j - a.len()], p, es));
        }
    }
}

proof fn lemma_hits_backed<I>(nodes: Seq<QuadTreeNode<I>>, idx: int, p: Vec2, es: Seq<Entry<I>>)
    requires
        forall|k: int| 0 <= k < nodes.len() ==> leaf_ids_from(#[trigger] nodes[k], es),
    ensures
        ids_backed(nodes, hits(nodes, idx, p), p, es),
    decreases idx,
{
    if 0 <= idx < nodes.len() {
        match nodes[idx] {
            QuadTreeNode::Leaf { bounds, ids } => {
                if bounds.has_point(p) {
                    assert(leaf_ids_from(nodes[idx], es));
                    assert forall|j: int| 0 <= j < ids@.len() implies #[trigger] id_backed(
                        nodes,
                        ids@[j],
                        p,
                        es,
                    ) by {
                        assert(leaf_holds(nodes[idx], p));
                    }
                }
            },
            QuadTreeNode::Branch { bounds, leaves } => {
                if bounds.has_point(p) && (leaves[0] as int) < idx && (leaves[1] as int) < idx
                    && (leaves[2] as int) < idx && (leaves[3] as int) < idx {
                    let h0 = hits(nodes, leaves[0] as int, p);
                    let h1 = hits(nodes, leaves[1] as int, p);
                    let h2 = hits(nodes, leaves[2] as int, p);
                    let h3 = hits(nodes, leaves[3] as int, p);
                    lemma_hits_backed(nodes, leaves[0] as int, p, es);
                    lemma_hits_backed(nodes, leaves[1] as int, p, es);
                    lemma_hits_backed(nodes, leaves[2] as int, p, es);
                    lemma_hits_backed(nodes, leaves[3] as int, p, es);
                    lemma_backed_concat(nodes, h0, h1, p, es);
                    lemma_backed_concat(nodes, h0 + h1, h2, p, es);
                    lemma_backed_concat(nodes, h0 + h1 + h2, h3, p, es);
                }
            },
        }
    }
}

/// Every id that a query on a built tree offers is the id of an entry that overlaps the
/// root bounds and overlaps the region of a leaf containing the point.
pub proof fn lemma_query_ids_backed<I: Copy>(
    tree: QuadTree<I>,
    root_bounds: Rect,
    es: Seq<Entry<I>>,
    thr: nat,
    p: Vec2,
)
    requires
        tree.built_from(root_bounds, es, thr),
    ensures
        ids_backed(tree.nodes@, tree.query_hits(p), p, select(root_bounds, es)),
        forall|m: int|
            0 <= m < select(root_bounds, es).len() ==> root_bounds.overlaps(
                (#[trigger] select(root_bounds, es)[m]).bounds,
            ),
{
    lemma_hits_backed(tree.nodes@, tree.root as int, p, select(root_bounds, es));
    lemma_select(root_bounds, es);
}

} // verus!
