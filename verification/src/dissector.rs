use vstd::prelude::*;

use crate::rng::{rng_clone, rng_coin, rng_from_entropy, rng_from_seed, rng_range_u16,
    rng_range_usize};
use crate::util::MIN_SIZE;
use rand::rngs::SmallRng;

pub use crate::util::Rect;

verus! {

/// Target room area the generator steers toward.
pub const AVG_AREA: u16 = 36;

/// A region whose area is at least this many times `AVG_AREA` is always split.
pub const AREA_THRESHOLD: u16 = 4;

/// Per-mille trim factor that keeps a rectangle's full span.
const TRIM_FULL: u16 = 1000;

#[derive(Debug, Clone, Copy)]
struct Node {
    bounds: Rect,
    children: Option<(usize, usize)>,
}

/// Two rectangles produced by a vertical split of `p` with at least
/// `MIN_SIZE` kept on both sides: they share the split line and together
/// cover `p` exactly.
pub open spec fn vsplit_pair(p: Rect, a: Rect, b: Rect) -> bool {
    &&& a.top == p.top
    &&& a.bottom == p.bottom
    &&& b.top == p.top
    &&& b.bottom == p.bottom
    &&& a.left == p.left
    &&& b.right == p.right
    &&& a.right == b.left
    &&& p.left + MIN_SIZE <= a.right < p.right - MIN_SIZE
}

/// The horizontal counterpart of `vsplit_pair`.
pub open spec fn hsplit_pair(p: Rect, a: Rect, b: Rect) -> bool {
    &&& a.left == p.left
    &&& a.right == p.right
    &&& b.left == p.left
    &&& b.right == p.right
    &&& a.top == p.top
    &&& b.bottom == p.bottom
    &&& a.bottom == b.top
    &&& p.top + MIN_SIZE <= a.bottom < p.bottom - MIN_SIZE
}

/// `a` and `b` tile `p` along one axis, each keeping at least `MIN_SIZE`.
pub open spec fn split_pair(p: Rect, a: Rect, b: Rect) -> bool {
    vsplit_pair(p, a, b) || hsplit_pair(p, a, b)
}

spec fn count_leaves(ns: Seq<Node>) -> int
    decreases ns.len(),
{
    if ns.len() == 0 {
        0
    } else {
        count_leaves(ns.drop_last()) + if ns.last().children is None {
            1int
        } else {
            0int
        }
    }
}

/// A finished leaf is either unsplittable on both axes or smaller than the
/// forced-split size `AREA_THRESHOLD * AVG_AREA`.
spec fn leaf_settled(ns: Seq<Node>, i: int) -> bool {
    ns[i].children is None ==> (!ns[i].bounds.spec_vsplittable()
        && !ns[i].bounds.spec_hsplittable()) || ns[i].bounds.spec_area() < AREA_THRESHOLD
        * AVG_AREA
}

spec fn node_ok(ns: Seq<Node>, i: int) -> bool {
    let n = ns[i];
    &&& n.bounds.wf()
    &&& n.bounds.spec_width() >= MIN_SIZE
    &&& n.bounds.spec_height() >= MIN_SIZE
    &&& n.bounds.spec_area() <= u16::MAX
    &&& match n.children {
        Option::None => true,
        Option::Some((a, b)) => {
            &&& i < a
            &&& b == a + 1
            &&& (b as int) < ns.len()
            &&& split_pair(n.bounds, ns[a as int].bounds, ns[b as int].bounds)
        },
    }
}

/// A binary space partition: an arena of nodes addressed by index, rooted at
/// node 0; every internal node's two children tile its bounds.
pub struct Dissector {
    nodes: Vec<Node>,
    rng: SmallRng,
}

impl Dissector {
    pub closed spec fn wf(&self) -> bool {
        &&& self.nodes@.len() >= 1
        &&& forall|i: int| 0 <= i < self.nodes@.len() ==> #[trigger] node_ok(self.nodes@, i)
    }

    pub closed spec fn node_count(&self) -> int {
        self.nodes@.len() as int
    }

    /// How many leaves the tree has.
    pub closed spec fn leaf_count(&self) -> int {
        count_leaves(self.nodes@)
    }

    /// Every leaf of the finished tree is either unsplittable on both axes
    /// or smaller than the forced-split size.
    pub closed spec fn leaves_settled(&self) -> bool {
        forall|i: int| 0 <= i < self.nodes@.len() ==> #[trigger] leaf_settled(self.nodes@, i)
    }

    pub closed spec fn bounds_of(&self, i: int) -> Rect {
        self.nodes@[i].bounds
    }

    pub closed spec fn is_leaf(&self, i: int) -> bool {
        self.nodes@[i].children is None
    }

    pub closed spec fn is_inner(&self, i: int) -> bool {
        self.nodes@[i].children is Some
    }

    pub closed spec fn child_indices(&self, i: int) -> (int, int) {
        match self.nodes@[i].children {
            Option::Some((a, b)) => (a as int, b as int),
            Option::None => (0, 0),
        }
    }

    /// `r` is the bounds of some leaf of the tree.
    pub open spec fn is_leaf_bounds(&self, r: Rect) -> bool {
        exists|i: int| 0 <= i < self.node_count() && self.is_leaf(i) && self.bounds_of(i) == r
    }

    /// Build a partition tree over `bounds` with a generator seeded by the
    /// operating system.
    pub fn new(bounds: Rect) -> (d: Dissector)
        requires
            bounds.wf(),
            bounds.spec_width() >= MIN_SIZE,
            bounds.spec_height() >= MIN_SIZE,
            bounds.spec_area() <= u16::MAX,
        ensures
            d.wf(),
            d.node_count() >= 1,
            d.bounds_of(0) == bounds,
            d.leaves_settled(),
    {
        let rng = rng_from_entropy();
        Self::build(bounds, rng)
    }

    /// Build a partition tree over `bounds` from an explicit seed, so that
    /// repeated builds from one seed walk the same tree.
    pub fn new_seeded(bounds: Rect, seed: u64) -> (d: Dissector)
        requires
            bounds.wf(),
            bounds.spec_width() >= MIN_SIZE,
            bounds.spec_height() >= MIN_SIZE,
            bounds.spec_area() <= u16::MAX,
        ensures
            d.wf(),
            d.node_count() >= 1,
            d.bounds_of(0) == bounds,
            d.leaves_settled(),
    {
        let rng = rng_from_seed(seed);
        Self::build(bounds, rng)
    }

    fn build(bounds: Rect, rng: SmallRng) -> (d: Dissector)
        requires
            bounds.wf(),
            bounds.spec_width() >= MIN_SIZE,
            bounds.spec_height() >= MIN_SIZE,
            bounds.spec_area() <= u16::MAX,
        ensures
            d.wf(),
            d.node_count() >= 1,
            d.bounds_of(0) == bounds,
            d.leaves_settled(),
    {
        let mut nodes: Vec<Node> = Vec::new();
        nodes.push(Node { bounds, children: None });
        let mut d = Dissector { nodes, rng };
        d.dissect(0);
        proof {
            assert forall|i: int| 0 <= i < d.nodes@.len() implies #[trigger] leaf_settled(
                d.nodes@,
                i,
            ) by {
                assert(1 <= i < d.nodes@.len() || i == 0);
            }
        }
        d
    }

    /// Recursively split the subtree rooted at `idx`: decide from the node's
    /// size and shape whether to split, pick an axis and a split coordinate
    /// at random, append the two halves, and recurse into them.
    fn dissect(&mut self, idx: usize)
        requires
            old(self).wf(),
            idx < old(self).node_count(),
            old(self).is_leaf(idx as int),
        ensures
            final(self).wf(),
            final(self).node_count() >= old(self).node_count(),
            forall|i: int|
                0 <= i < old(self).node_count() ==> final(self).bounds_of(i) == old(
                    self,
                ).bounds_of(i),
            forall|i: int|
                0 <= i < old(self).node_count() && i != idx ==> final(self).nodes@[i].children
                    == old(self).nodes@[i].children,
            forall|i: int|
                (old(self).node_count() <= i < final(self).node_count() || i == idx)
                    ==> #[trigger] leaf_settled(final(self).nodes@, i),
        decreases old(self).nodes@[idx as int].bounds.spec_width() + old(
            self,
        ).nodes@[idx as int].bounds.spec_height(),
    {
        proof {
            assert(node_ok(self.nodes@, idx as int));
        }
        let bounds = self.nodes[idx].bounds;
        let n = self.nodes.len();

        proof {
            assert(bounds.spec_area() >= 16 && bounds.spec_area() >= bounds.spec_width()
                && bounds.spec_area() >= bounds.spec_height()) by (nonlinear_arith)
                requires
                    bounds.spec_width() >= 4,
                    bounds.spec_height() >= 4,
                    bounds.spec_area() == bounds.spec_width() * bounds.spec_height(),
            ;
        }
        let area = bounds.area();

        // Split propensity in thousandths. The size signal is zero for a room
        // of the target area and rises toward 1000 the more the area deviates
        // from the target, in either direction.
        let min_a = if area < AVG_AREA { area } else { AVG_AREA };
        let max_a = if area < AVG_AREA { AVG_AREA } else { area };
        proof {
            assert(1000 * (min_a as int) / (max_a as int) <= 1000) by (nonlinear_arith)
                requires
                    0 < max_a,
                    min_a <= max_a,
            ;
        }
        let size_milli: u32 = 1000 - ((1000 * (min_a as u32)) / (max_a as u32));

        // The shape signal grows by 200 thousandths for each unit of aspect
        // ratio and crosses zero at an aspect ratio of three halves, so
        // near-square rooms are spared and elongated ones pressed to split.
        let w = bounds.width();
        let h = bounds.height();
        let max_d = if w > h { w } else { h };
        let min_d = if w > h { h } else { w };
        let shape_milli: i32 = ((200 * (max_d as i32)) / (min_d as i32)) - 300;
        proof {
            assert(200 * (max_d as int) / (min_d as int) >= 0) by (nonlinear_arith)
                requires
                    0 < min_d,
                    0 <= max_d,
            ;
        }
        let chance_milli: i32 = (size_milli as i32) + shape_milli;

        let draw = rng_range_u16(&mut self.rng, 0, 1001);
        let forced = area / AVG_AREA >= AREA_THRESHOLD;
        let do_split = (draw as i32) <= chance_milli || forced;

        let split_rects: Option<(Rect, Rect)> = if bounds.hsplittable() && do_split {
            if bounds.vsplittable() && rng_coin(&mut self.rng) {
                let (lo, hi) = bounds.vsplit_range();
                let m = rng_range_u16(&mut self.rng, lo, hi);
                Some(bounds.vsplit(m))
            } else {
                let (lo, hi) = bounds.hsplit_range();
                let m = rng_range_u16(&mut self.rng, lo, hi);
                Some(bounds.hsplit(m))
            }
        } else if bounds.vsplittable() && do_split {
            let (lo, hi) = bounds.vsplit_range();
            let m = rng_range_u16(&mut self.rng, lo, hi);
            Some(bounds.vsplit(m))
        } else {
            None
        };

        if let Some((p, q)) = split_rects {
            proof {
                assert(split_pair(bounds, p, q));
                assert(p.spec_area() <= bounds.spec_area() && q.spec_area()
                    <= bounds.spec_area()) by (nonlinear_arith)
                    requires
                        split_pair(bounds, p, q),
                        bounds.wf(),
                        p.wf(),
                        q.wf(),
                        p.spec_area() == p.spec_width() * p.spec_height(),
                        q.spec_area() == q.spec_width() * q.spec_height(),
                        bounds.spec_area() == bounds.spec_width() * bounds.spec_height(),
                ;
            }
            let pt = p.trimmed(TRIM_FULL, TRIM_FULL);
            let qt = q.trimmed(TRIM_FULL, TRIM_FULL);
            proof {
                assert(pt == p && qt == q);
            }
            let ghost pre = self.nodes@;
            self.nodes.push(Node { bounds: pt, children: None });
            self.nodes.push(Node { bounds: qt, children: None });
            let b = self.nodes.len() - 1;
            let a = b - 1;
            self.nodes[idx] = Node { bounds, children: Some((a, b)) };
            proof {
                assert forall|i: int| 0 <= i < self.nodes@.len() implies #[trigger] node_ok(
                    self.nodes@,
                    i,
                ) by {
                    if i < pre.len() {
                        assert(node_ok(pre, i));
                    }
                }
            }
            proof {
                assert(self.bounds_of(a as int) == p && p.spec_width() + p.spec_height()
                    < bounds.spec_width() + bounds.spec_height());
            }
            self.dissect(a);
            let ghost mid = self.nodes@;
            proof {
                assert(node_ok(self.nodes@, b as int));
                assert(self.bounds_of(b as int) == q && q.spec_width() + q.spec_height()
                    < bounds.spec_width() + bounds.spec_height());
            }
            self.dissect(b);
            proof {
                assert forall|i: int|
                    (pre.len() <= i < self.nodes@.len() || i == idx) implies #[trigger]
                    leaf_settled(self.nodes@, i) by {
                    if i == idx {
                        assert(self.nodes@[idx as int].children is Some);
                    } else if i == b {
                        assert(leaf_settled(self.nodes@, i));
                    } else if i < mid.len() {
                        assert(leaf_settled(mid, i));
                        assert(self.bounds_of(i) == mid[i].bounds);
                        assert(self.nodes@[i].bounds == mid[i].bounds);
                        assert(self.nodes@[i].children == mid[i].children);
                    } else {
                        assert(leaf_settled(self.nodes@, i));
                    }
                }
            }
        } else {
            proof {
                assert(!do_split || (!bounds.spec_vsplittable() && !bounds.spec_hsplittable()));
                if !forced {
                    assert(bounds.spec_area() / (AVG_AREA as int) < AREA_THRESHOLD as int);
                    assert(bounds.spec_area() < AREA_THRESHOLD * AVG_AREA) by (nonlinear_arith)
                        requires
                            bounds.spec_area() >= 0,
                            bounds.spec_area() / (AVG_AREA as int) < AREA_THRESHOLD as int,
                    ;
                }
                assert(leaf_settled(self.nodes@, idx as int));
            }
        }
    }

    /// The bounds of every leaf, in arena index order.
    pub fn leaves(&self) -> (v: Vec<Rect>)
        requires
            self.wf(),
        ensures
            forall|j: int| 0 <= j < v@.len() ==> self.is_leaf_bounds(#[trigger] v@[j]),
            forall|i: int|
                0 <= i < self.node_count() && self.is_leaf(i) ==> v@.contains(self.bounds_of(i)),
            v@.len() == self.leaf_count(),
            1 <= v@.len() <= self.node_count(),
    {
        let mut v: Vec<Rect> = Vec::new();
        let mut i: usize = 0;
        let len = self.nodes.len();
        while i < len
            invariant
                self.wf(),
                len == self.node_count(),
                i <= len,
                v@.len() <= i,
                v@.len() == count_leaves(self.nodes@.take(i as int)),
                forall|j: int| 0 <= j < v@.len() ==> self.is_leaf_bounds(#[trigger] v@[j]),
                forall|i2: int|
                    0 <= i2 < i && self.is_leaf(i2) ==> v@.contains(self.bounds_of(i2)),
            decreases len - i,
        {
            let ghost prev = v@;
            proof {
                assert(self.nodes@.take(i as int + 1).drop_last() =~= self.nodes@.take(i as int));
                assert(self.nodes@.take(i as int + 1).last() == self.nodes@[i as int]);
            }
            if self.nodes[i].children.is_none() {
                v.push(self.nodes[i].bounds);
                proof {
                    assert(v@[prev.len() as int] == self.bounds_of(i as int));
                    assert forall|i2: int|
                        0 <= i2 < i + 1 && self.is_leaf(i2) implies v@.contains(
                        self.bounds_of(i2),
                    ) by {
                        if i2 < i {
                            let j = choose|j: int|
                                0 <= j < prev.len() && prev[j] == self.bounds_of(i2);
                            assert(v@[j] == self.bounds_of(i2));
                        }
                    }
                }
            }
            i += 1;
        }
        proof {
            assert(self.nodes@.take(len as int) =~= self.nodes@);
            assert(self.is_leaf_bounds(v@[0])) by {
                assert(leaf_exists(self)) by {
                    lemma_some_leaf(self, 0);
                }
                let i = choose|i: int|
                    0 <= i < self.node_count() && self.is_leaf(i);
                assert(v@.contains(self.bounds_of(i)));
            }
        }
        v
    }

    /// A finite iterator over at most `n` sampled leaf rooms: the leaves are
    /// collected, a random prefix of them is chosen without replacement using
    /// a snapshot of the tree's generator state, and the iterator hands that
    /// prefix out in order.
    pub fn rooms(&self, n: usize) -> (it: RoomIterator)
        requires
            self.wf(),
        ensures
            it.wf(),
            it.position() == 0,
            it.items().len() <= n,
            it.items().len() == if n as int <= self.leaf_count() {
                n as int
            } else {
                self.leaf_count()
            },
            forall|j: int|
                0 <= j < it.items().len() ==> self.is_leaf_bounds(#[trigger] it.items()[j]),
    {
        let mut rng = rng_clone(&self.rng);
        let mut rects = self.leaves();
        let k = if n < rects.len() { n } else { rects.len() };
        let mut i: usize = 0;
        while i < k
            invariant
                i <= k <= rects@.len(),
                forall|j: int| 0 <= j < rects@.len() ==> self.is_leaf_bounds(#[trigger] rects@[j]),
            decreases k - i,
        {
            let j = rng_range_usize(&mut rng, i, rects.len());
            let a = rects[i];
            let b = rects[j];
            rects[i] = b;
            rects[j] = a;
            i += 1;
        }
        let mut out: Vec<Rect> = Vec::new();
        let mut t: usize = 0;
        while t < k
            invariant
                t <= k <= rects@.len(),
                out@.len() == t,
                forall|j: int| 0 <= j < rects@.len() ==> self.is_leaf_bounds(#[trigger] rects@[j]),
                forall|j: int| 0 <= j < out@.len() ==> self.is_leaf_bounds(#[trigger] out@[j]),
            decreases k - t,
        {
            out.push(rects[t]);
            t += 1;
        }
        RoomIterator { rects: out, pos: 0 }
    }
}

/// The tree has at least one leaf.
spec fn leaf_exists(d: &Dissector) -> bool {
    exists|i: int| 0 <= i < d.node_count() && d.is_leaf(i)
}

/// Walking first children from `i` must end at a leaf, since children always
/// sit at larger indices.
proof fn lemma_some_leaf(d: &Dissector, i: int)
    requires
        d.wf(),
        0 <= i < d.node_count(),
    ensures
        leaf_exists(d),
    decreases d.node_count() - i,
{
    assert(node_ok(d.nodes@, i));
    match d.nodes@[i].children {
        Option::Some((a, b)) => {
            lemma_some_leaf(d, a as int);
        },
        Option::None => {
            assert(0 <= i < d.node_count() && d.is_leaf(i));
        },
    }
}

/// Law (partition tiling): the two children of every internal node tile the
/// parent's bounds exactly along the split axis — they share the split line,
/// keep the parent's span on the other axis, and each keeps at least
/// `MIN_SIZE` on the split axis.
pub proof fn lemma_partition_tiling(d: &Dissector, i: int)
    requires
        d.wf(),
        0 <= i < d.node_count(),
        d.is_inner(i),
    ensures
        ({
            let (a, b) = d.child_indices(i);
            &&& i < a < d.node_count()
            &&& b == a + 1
            &&& b < d.node_count()
            &&& split_pair(d.bounds_of(i), d.bounds_of(a), d.bounds_of(b))
        }),
{
    assert(node_ok(d.nodes@, i));
}

/// Law (leaf minimality, one direction): a node whose bounds can be split on
/// neither axis is always a leaf; only splittable rectangles become internal
/// nodes.
pub proof fn lemma_unsplittable_is_leaf(d: &Dissector, i: int)
    requires
        d.wf(),
        0 <= i < d.node_count(),
        !d.bounds_of(i).spec_vsplittable(),
        !d.bounds_of(i).spec_hsplittable(),
    ensures
        d.is_leaf(i),
{
    assert(node_ok(d.nodes@, i));
    if d.is_inner(i) {
        let (a, b) = d.child_indices(i);
        assert(split_pair(d.bounds_of(i), d.bounds_of(a), d.bounds_of(b)));
    }
}

/// Law (leaf minimality): a leaf is never an oversized splittable region:
/// its bounds either cannot be split on either axis, or its area is below
/// the forced-split size `AREA_THRESHOLD * AVG_AREA`.
pub proof fn lemma_leaf_minimality(d: &Dissector, i: int)
    requires
        d.wf(),
        d.leaves_settled(),
        0 <= i < d.node_count(),
        d.is_leaf(i),
    ensures
        (!d.bounds_of(i).spec_vsplittable() && !d.bounds_of(i).spec_hsplittable()) || d.bounds_of(
            i,
        ).spec_area() < AREA_THRESHOLD * AVG_AREA,
{
    assert(leaf_settled(d.nodes@, i));
}

/// A lazy, finite iterator over sampled rooms; see `Dissector::rooms`.
pub struct RoomIterator {
    rects: Vec<Rect>,
    pos: usize,
}

impl RoomIterator {
    pub closed spec fn wf(&self) -> bool {
        self.pos <= self.rects@.len()
    }

    /// All items this iterator was created with, yielded front to back.
    pub closed spec fn items(&self) -> Seq<Rect> {
        self.rects@
    }

    /// How many items have been yielded already.
    pub closed spec fn position(&self) -> int {
        self.pos as int
    }

    /// The next sampled room, or `None` once all have been yielded.
    pub fn next(&mut self) -> (r: Option<Rect>)
        requires
            old(self).wf(),
        ensures
            final(self).wf(),
            final(self).items() == old(self).items(),
            old(self).position() < old(self).items().len() ==> r == Some(
                old(self).items()[old(self).position()],
            ) && final(self).position() == old(self).position() + 1,
            old(self).position() >= old(self).items().len() ==> r is None && final(self).position()
                == old(self).position(),
    {
        if self.pos < self.rects.len() {
            let r = self.rects[self.pos];
            self.pos += 1;
            Some(r)
        } else {
            None
        }
    }
}

} // verus!
