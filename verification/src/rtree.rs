//! A packed bounding-box tree over administrative boundaries.
//!
//! Bulk loading sorts the boundary list in place, alternating between
//! the x and y axes per level (sort-tile-recursive construction), and
//! then packs contiguous index ranges into a balanced binary tree of
//! bounding rectangles. A point query descends only into subtrees whose
//! rectangle contains the point; the tree prunes candidates but never
//! drops one, so the candidate list equals the flat scan over all
//! boundaries.

use crate::boundary::{lemma_wf_bbox_valid, models, Boundary, BoundaryModel};
use crate::geom::{point_in_multipolygon, BBox, Coord};
use vstd::prelude::*;
use vstd::seq_lib::group_to_multiset_ensures;

verus! {

/// Number of boundaries a leaf may hold.
pub const LEAF_SIZE: usize = 8;

/// One node of the packed tree. A leaf covers the contiguous index
/// range `lo..hi` of the boundary list; an inner node covers the ranges
/// of its two children.
pub enum Node {
    Leaf { env: BBox, lo: usize, hi: usize },
    Inner { env: BBox, left: Box<Node>, right: Box<Node> },
}

/// The sequence `lo, lo+1, ..., hi-1`.
pub open spec fn range_usize(lo: int, hi: int) -> Seq<usize> {
    Seq::new(if hi >= lo { (hi - lo) as nat } else { 0 }, |k: int| (lo + k) as usize)
}

/// Membership in a contiguous index range.
pub proof fn lemma_range_usize_contains(lo: int, hi: int, u: usize)
    requires
        0 <= lo,
        hi <= usize::MAX + 1,
    ensures
        range_usize(lo, hi).contains(u) <==> lo <= u < hi,
{
    if lo <= u < hi {
        assert(range_usize(lo, hi)[u - lo] == u);
    }
    if range_usize(lo, hi).contains(u) {
        let k = choose|k: int| 0 <= k < range_usize(lo, hi).len() && range_usize(lo, hi)[k] == u;
        assert(u == lo + k);
    }
}

/// Rectangle stored at a node.
pub open spec fn node_env(n: Node) -> BBox {
    match n {
        Node::Leaf { env, .. } => env,
        Node::Inner { env, .. } => env,
    }
}

/// Boundary indices covered by a node's subtree, in traversal order.
pub open spec fn node_items(n: Node) -> Seq<usize>
    decreases n,
{
    match n {
        Node::Leaf { lo, hi, .. } => range_usize(lo as int, hi as int),
        Node::Inner { left, right, .. } => node_items(*left) + node_items(*right),
    }
}

/// Structural soundness of a node against the boundary list: every
/// covered index is in bounds and every covered boundary's rectangle
/// lies inside the node's rectangle, recursively.
pub open spec fn node_wf(n: Node, bs: Seq<Boundary>) -> bool
    decreases n,
{
    match n {
        Node::Leaf { env, lo, hi } => lo <= hi <= bs.len() && forall|i: int|
            lo <= i < hi ==> env.subsumes((#[trigger] bs[i]).bbox),
        Node::Inner { env, left, right } => node_wf(*left, bs) && node_wf(*right, bs)
            && env.subsumes(node_env(*left)) && env.subsumes(node_env(*right)),
    }
}

/// Covered indices are in bounds.
pub proof fn lemma_node_items_in_bounds(n: Node, bs: Seq<Boundary>, u: usize)
    requires
        node_wf(n, bs),
        node_items(n).contains(u),
    ensures
        u < bs.len(),
    decreases n,
{
    match n {
        Node::Leaf { env, lo, hi } => {
            lemma_range_usize_contains(lo as int, hi as int, u);
        },
        Node::Inner { left, right, .. } => {
            let li = node_items(*left);
            let ri = node_items(*right);
            let k = choose|k: int| 0 <= k < (li + ri).len() && (li + ri)[k] == u;
            if k < li.len() {
                assert(li[k] == u);
                lemma_node_items_in_bounds(*left, bs, u);
            } else {
                assert(ri[k - li.len()] == u);
                lemma_node_items_in_bounds(*right, bs, u);
            }
        },
    }
}

/// The node's rectangle subsumes the rectangle of every covered
/// boundary.
pub proof fn lemma_node_env_subsumes(n: Node, bs: Seq<Boundary>, u: usize)
    requires
        node_wf(n, bs),
        node_items(n).contains(u),
    ensures
        u < bs.len(),
        node_env(n).subsumes(bs[u as int].bbox),
    decreases n,
{
    lemma_node_items_in_bounds(n, bs, u);
    match n {
        Node::Leaf { env, lo, hi } => {
            lemma_range_usize_contains(lo as int, hi as int, u);
        },
        Node::Inner { left, right, .. } => {
            let li = node_items(*left);
            let ri = node_items(*right);
            let k = choose|k: int| 0 <= k < (li + ri).len() && (li + ri)[k] == u;
            if k < li.len() {
                assert(li[k] == u);
                lemma_node_env_subsumes(*left, bs, u);
            } else {
                assert(ri[k - li.len()] == u);
                lemma_node_env_subsumes(*right, bs, u);
            }
        },
    }
}

/// Node soundness depends only on the covered boundaries.
pub proof fn lemma_node_wf_frame(n: Node, bs1: Seq<Boundary>, bs2: Seq<Boundary>)
    requires
        node_wf(n, bs1),
        bs1.len() == bs2.len(),
        forall|u: usize| node_items(n).contains(u) ==> bs2[u as int] == bs1[u as int],
    ensures
        node_wf(n, bs2),
    decreases n,
{
    match n {
        Node::Leaf { env, lo, hi } => {
            assert forall|i: int| lo <= i < hi implies env.subsumes((#[trigger] bs2[i]).bbox) by {
                lemma_range_usize_contains(lo as int, hi as int, i as usize);
                assert(node_items(n).contains(i as usize));
            }
        },
        Node::Inner { env, left, right } => {
            assert forall|u: usize| node_items(*left).contains(u) implies bs2[u as int] == bs1[u
                as int] by {
                let li = node_items(*left);
                let k = choose|k: int| 0 <= k < li.len() && li[k] == u;
                assert(node_items(n)[k] == u);
                assert(node_items(n).contains(u));
            }
            assert forall|u: usize| node_items(*right).contains(u) implies bs2[u as int] == bs1[u
                as int] by {
                let li = node_items(*left);
                let ri = node_items(*right);
                let k = choose|k: int| 0 <= k < ri.len() && ri[k] == u;
                assert(node_items(n)[li.len() + k] == u);
                assert(node_items(n).contains(u));
            }
            lemma_node_wf_frame(*left, bs1, bs2);
            lemma_node_wf_frame(*right, bs1, bs2);
        },
    }
}

/// Sort key of a boundary: twice the center of its rectangle on the
/// chosen axis.
pub open spec fn sort_key(b: Boundary, by_x: bool) -> int {
    if by_x {
        b.bbox.min_x + b.bbox.max_x
    } else {
        b.bbox.min_y + b.bbox.max_y
    }
}

fn key_of(b: &Boundary, by_x: bool) -> (k: i64)
    requires
        b.bbox.valid(),
    ensures
        k == sort_key(*b, by_x),
{
    if by_x {
        b.bbox.min_x + b.bbox.max_x
    } else {
        b.bbox.min_y + b.bbox.max_y
    }
}

/// The subrange `lo..hi` is sorted by the key.
pub open spec fn sorted_range(bs: Seq<Boundary>, lo: int, hi: int, by_x: bool) -> bool {
    forall|a: int, b: int|
        lo <= a <= b < hi ==> sort_key(#[trigger] bs[a], by_x) <= sort_key(#[trigger] bs[b], by_x)
}

/// Every element of the list is a well-formed boundary.
pub open spec fn all_wf(bs: Seq<Boundary>) -> bool {
    forall|i: int| 0 <= i < bs.len() ==> (#[trigger] bs[i]).wf()
}

/// A permutation of an all-well-formed list is all well formed.
pub proof fn lemma_all_wf_permuted(bs1: Seq<Boundary>, bs2: Seq<Boundary>)
    requires
        all_wf(bs1),
        bs1.to_multiset() == bs2.to_multiset(),
    ensures
        all_wf(bs2),
{
    broadcast use group_to_multiset_ensures;

    assert forall|i: int| 0 <= i < bs2.len() implies (#[trigger] bs2[i]).wf() by {
        assert(bs2.contains(bs2[i]));
        assert(bs2.to_multiset().count(bs2[i]) > 0);
        assert(bs1.contains(bs2[i]));
        let k = choose|k: int| 0 <= k < bs1.len() && bs1[k] == bs2[i];
        assert(bs1[k].wf());
    }
}

/// An element of a filtered sequence is an element of the sequence.
proof fn lemma_filter_subset<A>(s: Seq<A>, pred: spec_fn(A) -> bool, x: A)
    requires
        s.filter(pred).contains(x),
    ensures
        s.contains(x),
    decreases s.len(),
{
    reveal(Seq::filter);
    if s.len() > 0 {
        let rest = s.drop_last();
        let f = rest.filter(pred);
        if pred(s.last()) && x == s.last() {
            assert(s[s.len() - 1] == x);
        } else {
            if pred(s.last()) {
                let k = choose|k: int|
                    0 <= k < f.push(s.last()).len() && f.push(s.last())[k] == x;
                assert(f[k] == x);
            }
            lemma_filter_subset(rest, pred, x);
            let m = choose|m: int| 0 <= m < rest.len() && rest[m] == x;
            assert(s[m] == x);
        }
    }
}

/// Inserting anywhere adds the element to the multiset.
proof fn lemma_insert_to_multiset(s: Seq<Boundary>, i: int, v: Boundary)
    requires
        0 <= i <= s.len(),
    ensures
        s.insert(i, v).to_multiset() == s.to_multiset().insert(v),
{
    broadcast use group_to_multiset_ensures;

    let t = s.insert(i, v);
    assert(t[i] == v);
    assert(t.remove(i) =~= s);
    assert(t.remove(i).to_multiset() == t.to_multiset().remove(v));
    assert(s.to_multiset() == t.to_multiset().remove(v));
    assert(t.contains(v));
    assert(t.to_multiset().count(v) > 0);
    assert(t.to_multiset() =~= s.to_multiset().insert(v));
}

/// Sorts the subrange `lo..hi` of the boundary list in place by the
/// chosen axis, by insertion. The rest of the list is untouched and the
/// list as a whole is a permutation of its old value.
#[verifier::loop_isolation(false)]
fn sort_range(bs: &mut Vec<Boundary>, lo: usize, hi: usize, by_x: bool)
    requires
        lo <= hi <= old(bs)@.len(),
        all_wf(old(bs)@),
    ensures
        final(bs)@.len() == old(bs)@.len(),
        all_wf(final(bs)@),
        final(bs)@.to_multiset() == old(bs)@.to_multiset(),
        forall|i: int|
            (0 <= i < lo || hi <= i < final(bs)@.len()) ==> final(bs)@[i] == old(bs)@[i],
        sorted_range(final(bs)@, lo as int, hi as int, by_x),
{
    if hi - lo <= 1 {
        return ;
    }
    let mut j: usize = lo + 1;
    while j < hi
        invariant
            lo + 1 <= j <= hi,
            bs@.len() == old(bs)@.len(),
            all_wf(bs@),
            bs@.to_multiset() == old(bs)@.to_multiset(),
            forall|i: int| (0 <= i < lo || hi <= i < bs@.len()) ==> bs@[i] == old(bs)@[i],
            sorted_range(bs@, lo as int, j as int, by_x),
        decreases hi - j,
    {
        proof {
            assert forall|i: int| 0 <= i < bs@.len() implies (#[trigger] bs@[i]).bbox.valid() by {
                lemma_wf_bbox_valid(bs@[i]);
            }
        }
        let jkey = key_of(&bs[j], by_x);
        let mut pos: usize = lo;
        while pos < j && key_of(&bs[pos], by_x) <= jkey
            invariant
                lo <= pos <= j,
                forall|i: int| 0 <= i < bs@.len() ==> (#[trigger] bs@[i]).bbox.valid(),
                forall|k: int| lo <= k < pos ==> sort_key(#[trigger] bs@[k], by_x) <= jkey,
            decreases j - pos,
        {
            pos = pos + 1;
        }
        let ghost pre = bs@;
        let b = bs.remove(j);
        bs.insert(pos, b);
        proof {
            let mid = pre.remove(j as int);
            let post = bs@;
            assert(post == mid.insert(pos as int, b));
            broadcast use group_to_multiset_ensures;

            lemma_insert_to_multiset(mid, pos as int, b);
            assert(post.to_multiset() =~= pre.to_multiset());
            lemma_all_wf_permuted(pre, post);
            // untouched outside lo..hi: remove and insert both act inside
            assert(forall|i: int|
                (0 <= i < lo || hi <= i < post.len()) ==> post[i] == #[trigger] pre[i]);
            // the sorted prefix grew by one
            assert(forall|k: int| 0 <= k < pos ==> post[k] == #[trigger] pre[k]);
            assert(post[pos as int] == pre[j as int]);
            assert(forall|k: int| pos < k <= j ==> post[k] == #[trigger] pre[k - 1]);
            // entries shifted right of the insertion point have larger keys
            assert forall|k: int| pos <= k < j implies sort_key(#[trigger] pre[k], by_x)
                > jkey by {
                if pos < j {
                    assert(sort_key(pre[pos as int], by_x) > jkey);
                    assert(sort_key(pre[pos as int], by_x) <= sort_key(pre[k], by_x));
                }
            }
            assert forall|a: int, b2: int|
                lo <= a <= b2 < j + 1 implies sort_key(#[trigger] post[a], by_x) <= sort_key(
                #[trigger] post[b2],
                by_x,
            ) by {
                if a < pos {
                    assert(post[a] == pre[a]);
                }
                if b2 < pos {
                    assert(post[b2] == pre[b2]);
                }
                if a > pos {
                    assert(post[a] == pre[a - 1]);
                }
                if b2 > pos {
                    assert(post[b2] == pre[b2 - 1]);
                }
            }
        }
        j = j + 1;
    }
}

/// Rectangle stored at a node (runtime accessor).
fn node_env_exec(n: &Node) -> (e: BBox)
    ensures
        e == node_env(*n),
{
    match n {
        Node::Leaf { env, .. } => *env,
        Node::Inner { env, .. } => *env,
    }
}

/// Sorts the boundary list spatially for packing: sorts the range by
/// the given axis, then recurses into the two halves with the axes
/// swapped (sort-tile-recursive order).
#[verifier::loop_isolation(false)]
fn str_sort(bs: &mut Vec<Boundary>, lo: usize, hi: usize, by_x: bool)
    requires
        lo <= hi <= old(bs)@.len(),
        all_wf(old(bs)@),
    ensures
        final(bs)@.len() == old(bs)@.len(),
        all_wf(final(bs)@),
        final(bs)@.to_multiset() == old(bs)@.to_multiset(),
        forall|i: int|
            (0 <= i < lo || hi <= i < final(bs)@.len()) ==> final(bs)@[i] == old(bs)@[i],
    decreases hi - lo,
{
    if hi - lo <= LEAF_SIZE {
        return ;
    }
    sort_range(bs, lo, hi, by_x);
    let mid = lo + (hi - lo) / 2;
    str_sort(bs, lo, mid, !by_x);
    str_sort(bs, mid, hi, !by_x);
}

/// Packs the index range `lo..hi` of the boundary list into a balanced
/// subtree, without reordering anything.
#[verifier::loop_isolation(false)]
fn pack_node(bs: &Vec<Boundary>, lo: usize, hi: usize) -> (n: Node)
    requires
        lo < hi <= bs@.len(),
    ensures
        node_wf(n, bs@),
        node_items(n) == range_usize(lo as int, hi as int),
    decreases hi - lo,
{
    if hi - lo <= LEAF_SIZE {
        let mut env = bs[lo].bbox;
        let mut i: usize = lo + 1;
        while i < hi
            invariant
                lo + 1 <= i <= hi,
                forall|j: int| lo <= j < i ==> env.subsumes((#[trigger] bs@[j]).bbox),
            decreases hi - i,
        {
            env = BBox::union(env, bs[i].bbox);
            i = i + 1;
        }
        Node::Leaf { env, lo, hi }
    } else {
        let mid = lo + (hi - lo) / 2;
        let left = pack_node(bs, lo, mid);
        let right = pack_node(bs, mid, hi);
        let env = BBox::union(node_env_exec(&left), node_env_exec(&right));
        let n = Node::Inner { env, left: Box::new(left), right: Box::new(right) };
        proof {
            assert(node_items(n) =~= range_usize(lo as int, hi as int));
        }
        n
    }
}

/// Packs a boundary list into a tree without reordering it: the tree
/// covers the indices in list order.
pub fn pack_rtree(bs: Vec<Boundary>) -> (t: RTree)
    requires
        all_wf(bs@),
    ensures
        t.wf(),
        t.boundaries == bs,
{
    let n = bs.len();
    if n == 0 {
        let root = Node::Leaf { env: BBox { min_x: 0, min_y: 0, max_x: 0, max_y: 0 }, lo: 0, hi: 0 };
        proof {
            assert(node_items(root) =~= range_usize(0, 0));
        }
        RTree { boundaries: bs, root }
    } else {
        let root = pack_node(&bs, 0, n);
        RTree { boundaries: bs, root }
    }
}

/// The spatial index: the boundary list (in bulk-load order) and the
/// packed tree over it.
pub struct RTree {
    pub boundaries: Vec<Boundary>,
    pub root: Node,
}

/// The index `i` names a boundary whose rectangle contains `p`.
pub open spec fn bbox_hits(ms: Seq<BoundaryModel>, p: Coord) -> spec_fn(usize) -> bool {
    |i: usize| ms[i as int].bbox.spec_contains(p)
}

/// The index `i` names a boundary whose geometry contains `p`.
pub open spec fn geom_hits(ms: Seq<BoundaryModel>, p: Coord) -> spec_fn(usize) -> bool {
    |i: usize| point_in_multipolygon(ms[i as int].polys, p)
}

impl RTree {
    /// Well-formedness: a sound tree that covers exactly the indices
    /// `0..len`, in index order, over well-formed boundaries.
    pub open spec fn wf(self) -> bool {
        &&& node_wf(self.root, self.boundaries@)
        &&& node_items(self.root) == range_usize(0, self.boundaries@.len() as int)
        &&& all_wf(self.boundaries@)
    }

    /// Indices of the candidates for `p`: the boundaries whose
    /// rectangle contains `p`, in traversal order.
    pub open spec fn candidates_spec(self, p: Coord) -> Seq<usize> {
        node_items(self.root).filter(bbox_hits(models(self.boundaries@), p))
    }

    /// Indices of the query answer for `p`: the candidates whose
    /// geometry contains `p`, in traversal order.
    pub open spec fn locate_spec(self, p: Coord) -> Seq<usize> {
        self.candidates_spec(p).filter(geom_hits(models(self.boundaries@), p))
    }

    pub fn len(&self) -> (n: usize)
        ensures
            n == self.boundaries@.len(),
    {
        self.boundaries.len()
    }

    /// The boundary at a given index.
    pub fn get(&self, i: usize) -> (b: &Boundary)
        requires
            i < self.boundaries@.len(),
        ensures
            *b == self.boundaries@[i as int],
    {
        &self.boundaries[i]
    }

    /// Bounding-box pruning: the indices of all boundaries whose
    /// rectangle contains the point.
    pub fn locate_all_at_point(&self, p: Coord) -> (out: Vec<usize>)
        requires
            self.wf(),
        ensures
            out@ == self.candidates_spec(p),
    {
        let mut out: Vec<usize> = Vec::new();
        locate_in_node(&self.root, &self.boundaries, p, &mut out);
        out
    }

    /// The full query: bounding-box pruning, then the exact polygon
    /// test on each candidate.
    #[verifier::loop_isolation(false)]
    pub fn locate(&self, p: Coord) -> (out: Vec<usize>)
        requires
            self.wf(),
            p.valid(),
        ensures
            out@ == self.locate_spec(p),
    {
        let cands = self.locate_all_at_point(p);
        let mut out: Vec<usize> = Vec::new();
        let mut j: usize = 0;
        while j < cands.len()
            invariant
                0 <= j <= cands@.len(),
                out@ == cands@.take(j as int).filter(geom_hits(models(self.boundaries@), p)),
            decreases cands@.len() - j,
        {
            let idx = cands[j];
            proof {
                reveal(Seq::filter);
                let items = node_items(self.root);
                let pred = bbox_hits(models(self.boundaries@), p);
                assert(cands@ == items.filter(pred));
                assert(cands@.contains(idx));
                lemma_filter_subset(items, pred, idx);
                lemma_node_items_in_bounds(self.root, self.boundaries@, idx);
                assert(cands@.take(j + 1).drop_last() =~= cands@.take(j as int));
                assert(cands@.take(j + 1).last() == idx);
            }
            if self.boundaries[idx].contains(p) {
                out.push(idx);
            }
            j = j + 1;
        }
        proof {
            assert(cands@.take(cands@.len() as int) =~= cands@);
        }
        out
    }

    /// The flat scan: every boundary tested by rectangle and then by
    /// geometry, in index order, without the tree.
    pub open spec fn flat_scan_spec(self, p: Coord) -> Seq<usize> {
        range_usize(0, self.boundaries@.len() as int).filter(
            bbox_hits(models(self.boundaries@), p),
        ).filter(geom_hits(models(self.boundaries@), p))
    }

    /// Tests every boundary directly, without the tree.
    #[verifier::loop_isolation(false)]
    #[verifier::rlimit(30)]
    pub fn flat_scan(&self, p: Coord) -> (out: Vec<usize>)
        requires
            self.wf(),
            p.valid(),
        ensures
            out@ == self.flat_scan_spec(p),
    {
        let ghost ms = models(self.boundaries@);
        let n = self.boundaries.len();
        let mut cands: Vec<usize> = Vec::new();
        let mut i: usize = 0;
        proof {
            reveal(Seq::filter);
            assert(cands@ =~= range_usize(0, 0).filter(bbox_hits(ms, p)));
        }
        while i < n
            invariant
                0 <= i <= n,
                cands@ == range_usize(0, i as int).filter(bbox_hits(ms, p)),
            decreases n - i,
        {
            proof {
                reveal(Seq::filter);
                assert(range_usize(0, i + 1 as int).drop_last() =~= range_usize(0, i as int));
                assert(range_usize(0, i + 1 as int).last() == i);
            }
            if self.boundaries[i].bbox.contains(p) {
                cands.push(i);
            }
            i = i + 1;
        }
        let mut out: Vec<usize> = Vec::new();
        let mut j: usize = 0;
        proof {
            reveal(Seq::filter);
            assert(out@ =~= cands@.take(0).filter(geom_hits(ms, p)));
        }
        while j < cands.len()
            invariant
                0 <= j <= cands@.len(),
                out@ == cands@.take(j as int).filter(geom_hits(ms, p)),
            decreases cands@.len() - j,
        {
            let idx = cands[j];
            proof {
                reveal(Seq::filter);
                assert(cands@.contains(idx));
                lemma_filter_subset(range_usize(0, n as int), bbox_hits(ms, p), idx);
                lemma_range_usize_contains(0, n as int, idx);
                assert(cands@.take(j + 1).drop_last() =~= cands@.take(j as int));
                assert(cands@.take(j + 1).last() == idx);
            }
            if self.boundaries[idx].contains(p) {
                out.push(idx);
            }
            j = j + 1;
        }
        proof {
            assert(cands@.take(cands@.len() as int) =~= cands@);
        }
        out
    }
}

/// Soundness of the query: every index it returns names a boundary of
/// the tree, and both that boundary's rectangle and its geometry
/// contain the query point.
pub proof fn lemma_locate_sound(t: RTree, p: Coord, k: int)
    requires
        t.wf(),
        0 <= k < t.locate_spec(p).len(),
    ensures
        t.locate_spec(p)[k] < t.boundaries@.len(),
        t.boundaries@[t.locate_spec(p)[k] as int].bbox.spec_contains(p),
        t.boundaries@[t.locate_spec(p)[k] as int].spec_contains(p),
{
    let ms = models(t.boundaries@);
    let items = node_items(t.root);
    let cands = t.candidates_spec(p);
    let res = t.locate_spec(p);
    let idx = res[k];
    cands.lemma_filter_pred(geom_hits(ms, p), k);
    assert(res.contains(idx));
    lemma_filter_subset(cands, geom_hits(ms, p), idx);
    let m = choose|m: int| 0 <= m < cands.len() && cands[m] == idx;
    items.lemma_filter_pred(bbox_hits(ms, p), m);
    lemma_filter_subset(items, bbox_hits(ms, p), idx);
    lemma_node_items_in_bounds(t.root, t.boundaries@, idx);
    assert(ms[idx as int] == t.boundaries@[idx as int]@);
}

/// The tree prunes but never drops a true positive: the query answer
/// equals the flat scan over all boundaries, element for element.
pub proof fn lemma_locate_equals_flat_scan(t: RTree, p: Coord)
    requires
        t.wf(),
    ensures
        t.locate_spec(p) == t.flat_scan_spec(p),
{
}

/// Two well-formed trees over boundary lists with equal models answer
/// every query identically. In particular, an index reloaded from a
/// lossless save is query-equivalent to the index it was saved from.
pub proof fn lemma_query_equivalent(t1: RTree, t2: RTree, p: Coord)
    requires
        t1.wf(),
        t2.wf(),
        models(t1.boundaries@) == models(t2.boundaries@),
    ensures
        t1.locate_spec(p) == t2.locate_spec(p),
{
    assert(t1.boundaries@.len() == t2.boundaries@.len()) by {
        assert(models(t1.boundaries@).len() == t1.boundaries@.len());
        assert(models(t2.boundaries@).len() == t2.boundaries@.len());
    }
}


/// Recursive point query: appends to `out` the covered indices whose
/// rectangle contains `p`, pruned by the node rectangles.
#[verifier::loop_isolation(false)]
fn locate_in_node(n: &Node, bs: &Vec<Boundary>, p: Coord, out: &mut Vec<usize>)
    requires
        node_wf(*n, bs@),
    ensures
        final(out)@ == old(out)@ + node_items(*n).filter(bbox_hits(models(bs@), p)),
    decreases *n,
{
    let env = node_env_exec(n);
    if !env.contains(p) {
        proof {
            let items = node_items(*n);
            let pred = bbox_hits(models(bs@), p);
            assert forall|k: int| 0 <= k < items.len() implies !pred(items[k]) by {
                assert(items.contains(items[k]));
                lemma_node_env_subsumes(*n, bs@, items[k]);
            }
            assert(items.all(|x: usize| !pred(x)));
            items.lemma_all_neg_filter_empty(pred);
            assert(out@ =~= out@ + items.filter(pred));
        }
        return ;
    }
    match n {
        Node::Leaf { env: _, lo, hi } => {
            let mut i: usize = *lo;
            proof {
                reveal(Seq::filter);
                assert(range_usize(*lo as int, *lo as int).filter(bbox_hits(models(bs@), p)) =~= Seq::<
                    usize,
                >::empty());
                assert(out@ =~= old(out)@ + range_usize(*lo as int, *lo as int).filter(
                    bbox_hits(models(bs@), p),
                ));
            }
            while i < *hi
                invariant
                    *lo <= i <= *hi,
                    out@ == old(out)@ + range_usize(*lo as int, i as int).filter(
                        bbox_hits(models(bs@), p),
                    ),
                decreases *hi - i,
            {
                proof {
                    reveal(Seq::filter);
                    let pre = range_usize(*lo as int, i as int);
                    let post = range_usize(*lo as int, i + 1 as int);
                    assert(post.drop_last() =~= pre);
                    assert(post.last() == i);
                }
                if bs[i].bbox.contains(p) {
                    out.push(i);
                }
                i = i + 1;
            }
        },
        Node::Inner { env: _, left, right } => {
            let ghost mid = out@;
            locate_in_node(&**left, bs, p, out);
            locate_in_node(&**right, bs, p, out);
            proof {
                Seq::filter_distributes_over_add(
                    node_items(**left),
                    node_items(**right),
                    bbox_hits(models(bs@), p),
                );
                assert(out@ =~= old(out)@ + node_items(*n).filter(bbox_hits(models(bs@), p)));
            }
        },
    }
}

/// Bulk-loads the tree: sorts the boundaries spatially and packs them
/// into a balanced tree. The resulting list is a permutation of the
/// input.
pub fn build_rtree(boundaries: Vec<Boundary>) -> (t: RTree)
    requires
        all_wf(boundaries@),
    ensures
        t.wf(),
        t.boundaries@.len() == boundaries@.len(),
        t.boundaries@.to_multiset() == boundaries@.to_multiset(),
{
    let mut bs = boundaries;
    let n = bs.len();
    str_sort(&mut bs, 0, n, true);
    pack_rtree(bs)
}

} // verus!
