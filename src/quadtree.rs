//! A depth-bounded quadtree over axis-aligned boxes, used as the broad phase:
//! it proposes every pair of boxes that share a leaf.
use vstd::prelude::*;
use vstd::hash_set::HashSetWithView;
use crate::fixed::in_limit;
use crate::ball::Ball;
use crate::vec2::Vec2;

verus! {

/// The box of one ball: lower corner `pos`, extent `size`, owner `ball_index`.
#[derive(Debug, Clone, Copy, PartialEq, Eq, Structural)]
pub struct QuadTreeEntry {
    pub pos: Vec2,
    pub size: Vec2,
    pub ball_index: usize,
}

/// A node of the tree: a leaf holds entries, an internal node four children.
#[derive(Debug)]
pub struct QuadTreeNode {
    pub pos: Vec2,
    pub size: Vec2,
    pub depth: usize,
    pub children: Option<Box<Quadrants>>,
    pub contents: Vec<QuadTreeEntry>,
    pub max_size: usize,
    pub max_depth: usize,
}

/// The four quadrants of a split node: `a` at the lower corner, `b` above it,
/// `c` beside it, `d` opposite.
#[derive(Debug)]
pub struct Quadrants {
    pub a: QuadTreeNode,
    pub b: QuadTreeNode,
    pub c: QuadTreeNode,
    pub d: QuadTreeNode,
}

/// The tree: a root node, the limits it was made with, and the entries
/// inserted so far, in order.
pub struct QuadTree {
    pub node: QuadTreeNode,
    pub max_depth: usize,
    pub max_size: usize,
    pub inserted: Ghost<Seq<QuadTreeEntry>>,
}

/// The closed rectangle `[pos, pos + size]` holds the point `(px, py)`.
pub open spec fn in_rect(px: int, py: int, pos: Vec2, size: Vec2) -> bool {
    pos.x <= px <= pos.x + size.x && pos.y <= py <= pos.y + size.y
}

/// The closed rectangles `[p1, p1 + s1]` and `[p2, p2 + s2]` meet.
pub open spec fn rects_overlap(p1: Vec2, s1: Vec2, p2: Vec2, s2: Vec2) -> bool {
    p2.x <= p1.x + s1.x && p1.x <= p2.x + s2.x && p2.y <= p1.y + s1.y && p1.y <= p2.y + s2.y
}

/// A rectangle with non-negative extent whose corners are in range.
pub open spec fn rect_wf(pos: Vec2, size: Vec2) -> bool {
    pos.wf() && size.x >= 0 && size.y >= 0 && in_limit(pos.x + size.x) && in_limit(
        pos.y + size.y,
    )
}

/// Where a node's extent is split: the lower half, rounded down.
pub open spec fn half(n: int) -> int {
    n / 2
}

/// Lower corner and extent of quadrant `q` (0 to 3) of `[pos, pos + size]`.
pub open spec fn quadrant(pos: Vec2, size: Vec2, q: int) -> (Vec2, Vec2) {
    let hx = half(size.x as int);
    let hy = half(size.y as int);
    let right = q == 2 || q == 3;
    let top = q == 1 || q == 3;
    (
        Vec2 {
            x: (if right { pos.x + hx } else { pos.x as int }) as i64,
            y: (if top { pos.y + hy } else { pos.y as int }) as i64,
        },
        Vec2 {
            x: (if right { size.x - hx } else { hx }) as i64,
            y: (if top { size.y - hy } else { hy }) as i64,
        },
    )
}

/// Which quadrant of `[pos, pos + size]` the point `(px, py)` is looked up in.
pub open spec fn quadrant_of(px: int, py: int, pos: Vec2, size: Vec2) -> int {
    let right = px > pos.x + half(size.x as int);
    let top = py > pos.y + half(size.y as int);
    if right {
        if top { 3 } else { 2 }
    } else {
        if top { 1 } else { 0 }
    }
}

/// The unordered pair of two entries' balls, larger index first.
pub open spec fn pair_of(a: QuadTreeEntry, b: QuadTreeEntry) -> (usize, usize) {
    if a.ball_index > b.ball_index {
        (a.ball_index, b.ball_index)
    } else {
        (b.ball_index, a.ball_index)
    }
}

/// Some entry of `es` belongs to ball `i`.
pub open spec fn index_inserted(es: Seq<QuadTreeEntry>, i: usize) -> bool {
    exists|e: QuadTreeEntry| es.contains(e) && e.ball_index == i
}

/// The pair `(i, j)` packed into one integer, `i` in the high half.
pub open spec fn pair_key(p: (usize, usize)) -> u128 {
    (p.0 as int * 0x1_0000_0000_0000_0000 + p.1 as int) as u128
}

/// Every pair of entries with distinct balls in `leaf` is in `out`.
pub open spec fn leaf_pairs_in(leaf: Seq<QuadTreeEntry>, out: Seq<(usize, usize)>) -> bool {
    forall|a: int, b: int|
        0 <= a < leaf.len() && 0 <= b < leaf.len() && leaf[a].ball_index != leaf[b].ball_index
            ==> out.contains(#[trigger] pair_of(leaf[a], leaf[b]))
}

/// The pair comes from two entries with distinct balls in `leaf`.
pub open spec fn from_leaf(p: (usize, usize), leaf: Seq<QuadTreeEntry>) -> bool {
    exists|a: int, b: int|
        0 <= a < leaf.len() && 0 <= b < leaf.len() && leaf[a].ball_index != leaf[b].ball_index
            && p == #[trigger] pair_of(leaf[a], leaf[b])
}

proof fn lemma_pair_key_injective(p: (usize, usize), q: (usize, usize))
    requires
        pair_key(p) == pair_key(q),
    ensures
        p == q,
{
    let m: int = 0x1_0000_0000_0000_0000;
    let (a0, a1, b0, b1) = (p.0 as int, p.1 as int, q.0 as int, q.1 as int);
    assert(0 <= a0 * m + a1 < 0x1_0000_0000_0000_0000_0000_0000_0000_0000) by (nonlinear_arith)
        requires
            0 <= a0 < m,
            0 <= a1 < m,
            m == 0x1_0000_0000_0000_0000,
    ;
    assert(0 <= b0 * m + b1 < 0x1_0000_0000_0000_0000_0000_0000_0000_0000) by (nonlinear_arith)
        requires
            0 <= b0 < m,
            0 <= b1 < m,
            m == 0x1_0000_0000_0000_0000,
    ;
    assert(a0 == b0 && a1 == b1) by (nonlinear_arith)
        requires
            a0 * m + a1 == b0 * m + b1,
            0 <= a1 < m,
            0 <= b1 < m,
            m > 0,
    ;
}

/// The entries whose boxes meet the rectangle `[pos, pos + size]`.
pub open spec fn meets(pos: Vec2, size: Vec2) -> spec_fn(QuadTreeEntry) -> bool {
    |e: QuadTreeEntry| rects_overlap(e.pos, e.size, pos, size)
}

/// The rectangle `[p1, p1 + s1]` lies inside `[p2, p2 + s2]`.
pub open spec fn rect_within(p1: Vec2, s1: Vec2, p2: Vec2, s2: Vec2) -> bool {
    p2.x <= p1.x && p1.x + s1.x <= p2.x + s2.x && p2.y <= p1.y && p1.y + s1.y <= p2.y + s2.y
}

/// Filtering by a region and then by a region inside it is filtering by
/// the inner one.
proof fn lemma_filter_within(xs: Seq<QuadTreeEntry>, p1: Vec2, s1: Vec2, p2: Vec2, s2: Vec2)
    requires
        rect_within(p1, s1, p2, s2),
    ensures
        xs.filter(meets(p2, s2)).filter(meets(p1, s1)) == xs.filter(meets(p1, s1)),
    decreases xs.len(),
{
    if xs.len() == 0 {
        reveal(Seq::filter);
        assert(xs.filter(meets(p2, s2)) == xs);
    } else {
        let ys = xs.drop_last();
        let x = xs.last();
        lemma_filter_within(ys, p1, s1, p2, s2);
        assert(xs == ys.push(x));
        ys.lemma_filter_push(x, meets(p2, s2));
        ys.lemma_filter_push(x, meets(p1, s1));
        ys.filter(meets(p2, s2)).lemma_filter_push(x, meets(p1, s1));
    }
}

/// A quadrant lies inside its node's region.
proof fn lemma_quadrant_within(pos: Vec2, size: Vec2, q: int)
    requires
        rect_wf(pos, size),
    ensures
        ({
            let (p, s) = quadrant(pos, size, q);
            rect_within(p, s, pos, size)
        }),
{
}

/// A point of a region lies in the quadrant that it is looked up in.
proof fn lemma_quadrant_contains(px: int, py: int, pos: Vec2, size: Vec2)
    requires
        rect_wf(pos, size),
        in_rect(px, py, pos, size),
    ensures
        ({
            let (p, s) = quadrant(pos, size, quadrant_of(px, py, pos, size));
            in_rect(px, py, p, s)
        }),
{
}

impl Quadrants {
    pub open spec fn get(&self, q: int) -> &QuadTreeNode {
        if q == 0 {
            &self.a
        } else if q == 1 {
            &self.b
        } else if q == 2 {
            &self.c
        } else {
            &self.d
        }
    }
}

impl QuadTreeEntry {
    pub fn new(pos: Vec2, size: Vec2, index: usize) -> (r: QuadTreeEntry)
        ensures
            r.pos == pos,
            r.size == size,
            r.ball_index == index,
    {
        QuadTreeEntry { pos, size, ball_index: index }
    }

    /// True iff this box meets the closed rectangle `[collider_pos,
    /// collider_pos + collider_size]`.
    pub fn colliding(&self, collider_pos: &Vec2, collider_size: &Vec2) -> (r: bool)
        requires
            rect_wf(self.pos, self.size),
            rect_wf(*collider_pos, *collider_size),
        ensures
            r == rects_overlap(self.pos, self.size, *collider_pos, *collider_size),
    {
        collider_pos.x as i128 <= self.pos.x as i128 + self.size.x as i128 && self.pos.x as i128
            <= collider_pos.x as i128 + collider_size.x as i128 && collider_pos.y as i128
            <= self.pos.y as i128 + self.size.y as i128 && self.pos.y as i128 <= collider_pos.y
            as i128 + collider_size.y as i128
    }
}

impl QuadTreeNode {
    /// The shape invariant: a valid region, depth within the bound, and for a
    /// split node four children at the next depth covering the quadrants,
    /// holding no entries of its own.
    pub open spec fn wf(&self) -> bool
        decreases self,
    {
        &&& rect_wf(self.pos, self.size)
        &&& self.depth <= self.max_depth
        &&& (self.children.is_none() && self.depth < self.max_depth ==> self.contents@.len()
            <= self.max_size)
        &&& forall|k: int|
            0 <= k < self.contents@.len() ==> rect_wf(
                #[trigger] self.contents@[k].pos,
                self.contents@[k].size,
            )
        &&& match self.children {
            None => true,
            Some(q) => {
                &&& self.depth < self.max_depth
                &&& self.contents@.len() == 0
                &&& forall|i: int|
                    0 <= i < 4 ==> {
                        let c = #[trigger] q.get(i);
                        &&& (c.pos, c.size) == quadrant(self.pos, self.size, i)
                        &&& c.depth == self.depth + 1
                        &&& c.max_depth == self.max_depth
                        &&& c.max_size == self.max_size
                    }
                &&& q.a.wf()
                &&& q.b.wf()
                &&& q.c.wf()
                &&& q.d.wf()
            },
        }
    }

    /// The contents of the leaf that the point `(px, py)` is looked up in.
    pub open spec fn leaf_at(&self, px: int, py: int) -> Seq<QuadTreeEntry>
        decreases self,
    {
        match self.children {
            None => self.contents@,
            Some(q) => {
                let i = quadrant_of(px, py, self.pos, self.size);
                if i == 0 {
                    q.a.leaf_at(px, py)
                } else if i == 1 {
                    q.b.leaf_at(px, py)
                } else if i == 2 {
                    q.c.leaf_at(px, py)
                } else {
                    q.d.leaf_at(px, py)
                }
            },
        }
    }

    /// Every point shared by this node's region and the entry's box is looked
    /// up in a leaf that holds the entry.
    pub open spec fn covers(&self, e: QuadTreeEntry) -> bool {
        forall|px: int, py: int|
            in_rect(px, py, self.pos, self.size) && in_rect(px, py, e.pos, e.size)
                ==> #[trigger] self.leaf_at(px, py).contains(e)
    }

    /// What was found at a point of both the region and an entry's box is
    /// still found there in `new`.
    pub open spec fn keeps(&self, new: &QuadTreeNode) -> bool {
        forall|px: int, py: int, e: QuadTreeEntry|
            in_rect(px, py, self.pos, self.size) && in_rect(px, py, e.pos, e.size)
                && #[trigger] self.leaf_at(px, py).contains(e) ==> new.leaf_at(px, py).contains(e)
    }

    /// The node's region and limits, which insertion leaves unchanged.
    pub open spec fn same_frame(&self, new: &QuadTreeNode) -> bool {
        &&& new.pos == self.pos
        &&& new.size == self.size
        &&& new.depth == self.depth
        &&& new.max_depth == self.max_depth
        &&& new.max_size == self.max_size
    }

    /// An empty leaf.
    pub fn new(pos: Vec2, size: Vec2, depth: usize, max_size: usize, max_depth: usize) -> (r:
        QuadTreeNode)
        ensures
            r.pos == pos,
            r.size == size,
            r.depth == depth,
            r.max_size == max_size,
            r.max_depth == max_depth,
            r.children.is_none(),
            r.contents@.len() == 0,
    {
        QuadTreeNode { pos, size, depth, children: None, contents: Vec::new(), max_size, max_depth }
    }

    fn create_child(&self, pos: Vec2, size: Vec2) -> (r: QuadTreeNode)
        requires
            self.depth < self.max_depth,
            rect_wf(pos, size),
        ensures
            r.wf(),
            r.pos == pos,
            r.size == size,
            r.depth == self.depth + 1,
            r.max_size == self.max_size,
            r.max_depth == self.max_depth,
            r.children.is_none(),
            r.contents@.len() == 0,
    {
        QuadTreeNode::new(pos, size, self.depth + 1, self.max_size, self.max_depth)
    }

    fn create_children(&self) -> (r: Quadrants)
        requires
            self.wf(),
            self.depth < self.max_depth,
        ensures
            forall|i: int|
                0 <= i < 4 ==> {
                    let c = #[trigger] r.get(i);
                    &&& (c.pos, c.size) == quadrant(self.pos, self.size, i)
                    &&& c.depth == self.depth + 1
                    &&& c.max_depth == self.max_depth
                    &&& c.max_size == self.max_size
                    &&& c.wf()
                    &&& c.children.is_none()
                    &&& c.contents@.len() == 0
                },
    {
        let hx: i64 = self.size.x / 2;
        let hy: i64 = self.size.y / 2;
        let mx: i64 = self.pos.x + hx;
        let my: i64 = self.pos.y + hy;
        let rx: i64 = self.size.x - hx;
        let ry: i64 = self.size.y - hy;
        let a = self.create_child(self.pos, Vec2::new(hx, hy));
        let b = self.create_child(Vec2::new(self.pos.x, my), Vec2::new(hx, ry));
        let c = self.create_child(Vec2::new(mx, self.pos.y), Vec2::new(rx, hy));
        let d = self.create_child(Vec2::new(mx, my), Vec2::new(rx, ry));
        let r = Quadrants { a, b, c, d };
        assert(r.get(0) == &r.a && r.get(1) == &r.b && r.get(2) == &r.c && r.get(3) == &r.d);
        r
    }

    /// Adds an entry to every leaf whose region its box meets; a leaf that
    /// then holds more than `max_size` entries, above `max_depth`, is split
    /// and its entries handed down.
    pub fn insert(&mut self, entry: QuadTreeEntry)
        requires
            old(self).wf(),
            rect_wf(entry.pos, entry.size),
        ensures
            final(self).wf(),
            old(self).same_frame(final(self)),
            old(self).keeps(final(self)),
            final(self).covers(entry),
            !rects_overlap(entry.pos, entry.size, old(self).pos, old(self).size) ==> *final(self)
                == *old(self),
            forall|es: Seq<QuadTreeEntry>| #[trigger]
                old(self).holds(es) ==> final(self).holds(es.push(entry)),
            forall|es: Seq<QuadTreeEntry>|
                old(self).holds(es) && #[trigger] old(self).justified(es) ==> final(self).justified(
                    es.push(entry),
                ),
        decreases old(self).max_depth - old(self).depth, 1int,
    {
        if !entry.colliding(&self.pos, &self.size) {
            proof {
                assert forall|es: Seq<QuadTreeEntry>| #[trigger]
                    old(self).holds(es) implies self.holds(es.push(entry)) by {
                    self.lemma_holds_miss(es, entry);
                }
                assert forall|es: Seq<QuadTreeEntry>|
                    old(self).holds(es) && #[trigger] old(self).justified(es) implies self.justified(
                    es.push(entry),
                ) by {
                    self.lemma_justified_push(es, entry);
                }
            }
            return;
        }
        if self.children.is_some() {
            let ghost before_push = *self;
            self.push_to_children(entry);
            proof {
                assert forall|es: Seq<QuadTreeEntry>|
                    old(self).holds(es) && #[trigger] old(self).justified(es) implies self.justified(
                    es.push(entry),
                ) by {
                    assert(before_push.children_justified(es));
                    es.lemma_filter_len_push(meets(self.pos, self.size), entry);
                }
            }
            return;
        }
        let ghost before = self.contents@;
        self.contents.push(entry);
        proof {
            assert forall|px: int, py: int, e: QuadTreeEntry|
                in_rect(px, py, self.pos, self.size) && in_rect(px, py, e.pos, e.size)
                    && #[trigger] old(self).leaf_at(px, py).contains(e) implies self.leaf_at(
                px,
                py,
            ).contains(e) by {
                let k = choose|k: int| 0 <= k < before.len() && before[k] == e;
                assert(self.contents@[k] == e);
            }
            assert(self.contents@[self.contents@.len() - 1] == entry);
            assert forall|es: Seq<QuadTreeEntry>| #[trigger]
                old(self).holds(es) implies self.contents@ == es.push(entry).filter(
                meets(self.pos, self.size),
            ) by {
                es.lemma_filter_push(entry, meets(self.pos, self.size));
            }
        }
        if self.contents.len() > self.max_size && self.depth < self.max_depth {
            let mut held: Vec<QuadTreeEntry> = Vec::new();
            std::mem::swap(&mut self.contents, &mut held);
            let quads = self.create_children();
            self.children = Some(Box::new(quads));
            assert(quads.get(0) == &quads.a && quads.get(1) == &quads.b && quads.get(2) == &quads.c
                && quads.get(3) == &quads.d);
            proof {
                reveal(Seq::filter);
                let e0 = Seq::<QuadTreeEntry>::empty();
                assert(e0.filter(meets(quads.a.pos, quads.a.size)) == e0);
                assert(e0.filter(meets(quads.b.pos, quads.b.size)) == e0);
                assert(e0.filter(meets(quads.c.pos, quads.c.size)) == e0);
                assert(e0.filter(meets(quads.d.pos, quads.d.size)) == e0);
                assert(quads.a.contents@ =~= e0 && quads.b.contents@ =~= e0 && quads.c.contents@ =~= e0
                    && quads.d.contents@ =~= e0);
                assert(quads.a.justified(e0) && quads.b.justified(e0) && quads.c.justified(e0)
                    && quads.d.justified(e0));
                assert(quads.a.holds(e0) && quads.b.holds(e0) && quads.c.holds(e0) && quads.d.holds(e0));
                assert(held@.subrange(0, 0) == e0);
            }
            let mut i: usize = 0;
            while i < held.len()
                invariant
                    self.wf(),
                    old(self).same_frame(self),
                    self.children.is_some(),
                    0 <= i <= held@.len(),
                    held@ == before.push(entry),
                    forall|k: int| 0 <= k < i ==> self.covers(#[trigger] held@[k]),
                    forall|k: int| 0 <= k < held@.len() ==> rect_wf(#[trigger] held@[k].pos, held@[k].size),
                    self.holds(held@.subrange(0, i as int)),
                    self.children_justified(held@.subrange(0, i as int)),
                decreases held@.len() - i,
            {
                let ghost mid = *self;
                let e = held[i];
                self.push_to_children(e);
                assert(held@.subrange(0, i as int).push(e) == held@.subrange(0, i + 1));
                proof {
                    assert forall|k: int| 0 <= k < i + 1 implies self.covers(#[trigger] held@[k]) by {
                        if k < i {
                            assert forall|px: int, py: int|
                                in_rect(px, py, self.pos, self.size) && in_rect(
                                    px,
                                    py,
                                    held@[k].pos,
                                    held@[k].size,
                                ) implies #[trigger] self.leaf_at(px, py).contains(held@[k]) by {
                                assert(mid.leaf_at(px, py).contains(held@[k]));
                            }
                        }
                    }
                }
                i = i + 1;
            }
            proof {
                assert forall|px: int, py: int, e: QuadTreeEntry|
                    in_rect(px, py, self.pos, self.size) && in_rect(px, py, e.pos, e.size)
                        && #[trigger] old(self).leaf_at(px, py).contains(e) implies self.leaf_at(
                    px,
                    py,
                ).contains(e) by {
                    let k = choose|k: int| 0 <= k < before.len() && before[k] == e;
                    assert(held@[k] == e);
                    assert(self.covers(held@[k]));
                }
                assert(self.covers(held@[held@.len() - 1]));
                assert(held@.subrange(0, held@.len() as int) == held@);
                let q = self.children.unwrap();
                assert(q.get(0) == &q.a && q.get(1) == &q.b && q.get(2) == &q.c && q.get(3) == &q.d);
                assert forall|es: Seq<QuadTreeEntry>| #[trigger]
                    old(self).holds(es) implies self.holds(es.push(entry)) by {
                    let x = es.push(entry);
                    es.lemma_filter_push(entry, meets(self.pos, self.size));
                    assert(held@ == x.filter(meets(self.pos, self.size)));
                    lemma_quadrant_within(self.pos, self.size, 0);
                    lemma_quadrant_within(self.pos, self.size, 1);
                    lemma_quadrant_within(self.pos, self.size, 2);
                    lemma_quadrant_within(self.pos, self.size, 3);
                    q.a.lemma_holds_refilter(x, self.pos, self.size);
                    q.b.lemma_holds_refilter(x, self.pos, self.size);
                    q.c.lemma_holds_refilter(x, self.pos, self.size);
                    q.d.lemma_holds_refilter(x, self.pos, self.size);
                }
                assert forall|es: Seq<QuadTreeEntry>|
                    old(self).holds(es) && #[trigger] old(self).justified(es) implies self.justified(
                    es.push(entry),
                ) by {
                    let x = es.push(entry);
                    es.lemma_filter_push(entry, meets(self.pos, self.size));
                    assert(held@ == x.filter(meets(self.pos, self.size)));
                    lemma_quadrant_within(self.pos, self.size, 0);
                    lemma_quadrant_within(self.pos, self.size, 1);
                    lemma_quadrant_within(self.pos, self.size, 2);
                    lemma_quadrant_within(self.pos, self.size, 3);
                    q.a.lemma_justified_refilter(x, self.pos, self.size);
                    q.b.lemma_justified_refilter(x, self.pos, self.size);
                    q.c.lemma_justified_refilter(x, self.pos, self.size);
                    q.d.lemma_justified_refilter(x, self.pos, self.size);
                }
            }
        }
    }

    /// The contents of some leaf of this node.
    pub open spec fn is_leaf(&self, s: Seq<QuadTreeEntry>) -> bool
        decreases self,
    {
        match self.children {
            None => s == self.contents@,
            Some(q) => q.a.is_leaf(s) || q.b.is_leaf(s) || q.c.is_leaf(s) || q.d.is_leaf(s),
        }
    }

    /// Each leaf holds, in order, exactly the entries of `es` whose boxes
    /// meet its region.
    pub open spec fn holds(&self, es: Seq<QuadTreeEntry>) -> bool
        decreases self,
    {
        match self.children {
            None => self.contents@ == es.filter(meets(self.pos, self.size)),
            Some(q) => q.a.holds(es) && q.b.holds(es) && q.c.holds(es) && q.d.holds(es),
        }
    }

    /// The leaves' contents, from left to right: a leaf's own list, or the
    /// lists of the four children in order.
    pub open spec fn leaf_list(&self) -> Seq<Seq<QuadTreeEntry>>
        decreases self,
    {
        match self.children {
            None => seq![self.contents@],
            Some(q) => q.a.leaf_list() + q.b.leaf_list() + q.c.leaf_list() + q.d.leaf_list(),
        }
    }

    /// Every split node was split for cause: more than `max_size` entries of
    /// `es` meet its region.
    pub open spec fn justified(&self, es: Seq<QuadTreeEntry>) -> bool
        decreases self,
    {
        match self.children {
            None => true,
            Some(q) => {
                &&& es.filter(meets(self.pos, self.size)).len() > self.max_size
                &&& q.a.justified(es)
                &&& q.b.justified(es)
                &&& q.c.justified(es)
                &&& q.d.justified(es)
            },
        }
    }

    /// The four children, if any, are each `justified`.
    pub open spec fn children_justified(&self, es: Seq<QuadTreeEntry>) -> bool {
        match self.children {
            None => true,
            Some(q) => q.a.justified(es) && q.b.justified(es) && q.c.justified(es) && q.d.justified(es),
        }
    }

    /// More entries keep every split justified.
    proof fn lemma_justified_push(&self, es: Seq<QuadTreeEntry>, e: QuadTreeEntry)
        requires
            self.justified(es),
        ensures
            self.justified(es.push(e)),
        decreases self,
    {
        if let Some(q) = self.children {
            es.lemma_filter_len_push(meets(self.pos, self.size), e);
            q.a.lemma_justified_push(es, e);
            q.b.lemma_justified_push(es, e);
            q.c.lemma_justified_push(es, e);
            q.d.lemma_justified_push(es, e);
        }
    }

    /// Within a region, a split justified by the entries of `xs` that meet
    /// the region is justified by `xs`.
    proof fn lemma_justified_refilter(&self, xs: Seq<QuadTreeEntry>, p: Vec2, s: Vec2)
        requires
            self.wf(),
            rect_within(self.pos, self.size, p, s),
            self.justified(xs.filter(meets(p, s))),
        ensures
            self.justified(xs),
        decreases self,
    {
        if let Some(q) = self.children {
            lemma_filter_within(xs, self.pos, self.size, p, s);
            assert(q.get(0) == &q.a && q.get(1) == &q.b && q.get(2) == &q.c && q.get(3) == &q.d);
            lemma_quadrant_within(self.pos, self.size, 0);
            lemma_quadrant_within(self.pos, self.size, 1);
            lemma_quadrant_within(self.pos, self.size, 2);
            lemma_quadrant_within(self.pos, self.size, 3);
            q.a.lemma_justified_refilter(xs, p, s);
            q.b.lemma_justified_refilter(xs, p, s);
            q.c.lemma_justified_refilter(xs, p, s);
            q.d.lemma_justified_refilter(xs, p, s);
        }
    }

    /// Adding an entry that misses the region changes no leaf's contents.
    proof fn lemma_holds_miss(&self, es: Seq<QuadTreeEntry>, e: QuadTreeEntry)
        requires
            self.wf(),
            self.holds(es),
            !rects_overlap(e.pos, e.size, self.pos, self.size),
        ensures
            self.holds(es.push(e)),
        decreases self,
    {
        match self.children {
            None => {
                es.lemma_filter_push(e, meets(self.pos, self.size));
            },
            Some(q) => {
                assert(q.get(0) == &q.a && q.get(1) == &q.b && q.get(2) == &q.c && q.get(3) == &q.d);
                lemma_quadrant_within(self.pos, self.size, 0);
                lemma_quadrant_within(self.pos, self.size, 1);
                lemma_quadrant_within(self.pos, self.size, 2);
                lemma_quadrant_within(self.pos, self.size, 3);
                q.a.lemma_holds_miss(es, e);
                q.b.lemma_holds_miss(es, e);
                q.c.lemma_holds_miss(es, e);
                q.d.lemma_holds_miss(es, e);
            },
        }
    }

    /// Within a region, holding the entries of `xs` that meet it is holding
    /// all of `xs`.
    proof fn lemma_holds_refilter(&self, xs: Seq<QuadTreeEntry>, p: Vec2, s: Vec2)
        requires
            self.wf(),
            rect_within(self.pos, self.size, p, s),
            self.holds(xs.filter(meets(p, s))),
        ensures
            self.holds(xs),
        decreases self,
    {
        match self.children {
            None => {
                lemma_filter_within(xs, self.pos, self.size, p, s);
            },
            Some(q) => {
                assert(q.get(0) == &q.a && q.get(1) == &q.b && q.get(2) == &q.c && q.get(3) == &q.d);
                lemma_quadrant_within(self.pos, self.size, 0);
                lemma_quadrant_within(self.pos, self.size, 1);
                lemma_quadrant_within(self.pos, self.size, 2);
                lemma_quadrant_within(self.pos, self.size, 3);
                q.a.lemma_holds_refilter(xs, p, s);
                q.b.lemma_holds_refilter(xs, p, s);
                q.c.lemma_holds_refilter(xs, p, s);
                q.d.lemma_holds_refilter(xs, p, s);
            },
        }
    }

    /// Every entry of every leaf is one of `es`.
    proof fn lemma_leaf_entries_from(&self, es: Seq<QuadTreeEntry>, l: Seq<QuadTreeEntry>, e: QuadTreeEntry)
        requires
            self.holds(es),
            self.is_leaf(l),
            l.contains(e),
        ensures
            es.contains(e),
        decreases self,
    {
        match self.children {
            None => {
                es.lemma_filter_contains_rev(meets(self.pos, self.size), e);
            },
            Some(q) => {
                if q.a.is_leaf(l) {
                    q.a.lemma_leaf_entries_from(es, l, e);
                } else if q.b.is_leaf(l) {
                    q.b.lemma_leaf_entries_from(es, l, e);
                } else if q.c.is_leaf(l) {
                    q.c.lemma_leaf_entries_from(es, l, e);
                } else {
                    q.d.lemma_leaf_entries_from(es, l, e);
                }
            },
        }
    }

    /// Every leaf appears in the leaf list.
    proof fn lemma_leaf_listed(&self, l: Seq<QuadTreeEntry>)
        requires
            self.is_leaf(l),
        ensures
            self.leaf_list().contains(l),
        decreases self,
    {
        match self.children {
            None => {
                assert(self.leaf_list()[0] == l);
            },
            Some(q) => {
                let la = q.a.leaf_list();
                let lb = q.b.leaf_list();
                let lc = q.c.leaf_list();
                let ld = q.d.leaf_list();
                if q.a.is_leaf(l) {
                    q.a.lemma_leaf_listed(l);
                    let k = choose|k: int| 0 <= k < la.len() && la[k] == l;
                    assert(self.leaf_list()[k] == l);
                } else if q.b.is_leaf(l) {
                    q.b.lemma_leaf_listed(l);
                    let k = choose|k: int| 0 <= k < lb.len() && lb[k] == l;
                    assert(self.leaf_list()[la.len() + k] == l);
                } else if q.c.is_leaf(l) {
                    q.c.lemma_leaf_listed(l);
                    let k = choose|k: int| 0 <= k < lc.len() && lc[k] == l;
                    assert(self.leaf_list()[la.len() + lb.len() + k] == l);
                } else {
                    q.d.lemma_leaf_listed(l);
                    let k = choose|k: int| 0 <= k < ld.len() && ld[k] == l;
                    assert(self.leaf_list()[la.len() + lb.len() + lc.len() + k] == l);
                }
            },
        }
    }

    /// The contents of every leaf, one list per leaf.
    pub fn get_leaf_contents(&self) -> (r: Vec<Vec<QuadTreeEntry>>)
        requires
            self.wf(),
        ensures
            r@.len() == self.leaf_list().len(),
            forall|k: int| 0 <= k < r@.len() ==> #[trigger] r@[k]@ == self.leaf_list()[k],
            forall|l: Seq<QuadTreeEntry>|
                self.is_leaf(l) ==> exists|k: int| 0 <= k < r@.len() && #[trigger] r@[k]@ == l,
            forall|k: int| 0 <= k < r@.len() ==> self.is_leaf(#[trigger] r@[k]@),
            forall|px: int, py: int|
                in_rect(px, py, self.pos, self.size) ==> exists|k: int|
                    0 <= k < r@.len() && #[trigger] r@[k]@ == self.leaf_at(px, py),
        decreases self.max_depth - self.depth,
    {
        match &self.children {
            None => {
                let mut copy: Vec<QuadTreeEntry> = Vec::new();
                let mut i: usize = 0;
                while i < self.contents.len()
                    invariant
                        0 <= i <= self.contents@.len(),
                        copy@ == self.contents@.subrange(0, i as int),
                    decreases self.contents@.len() - i,
                {
                    copy.push(self.contents[i]);
                    i = i + 1;
                }
                assert(copy@ == self.contents@);
                let r = vec![copy];
                assert(r@[0]@ == self.contents@);
                proof {
                    assert forall|l: Seq<QuadTreeEntry>| self.is_leaf(l) implies exists|k: int|
                        0 <= k < r@.len() && #[trigger] r@[k]@ == l by {
                        assert(r@[0]@ == l);
                    }
                }
                r
            },
            Some(q) => {
                assert(q.get(0) == &q.a && q.get(1) == &q.b && q.get(2) == &q.c && q.get(3) == &q.d);
                let mut ret: Vec<Vec<QuadTreeEntry>> = Vec::new();
                let mut ra = q.a.get_leaf_contents();
                let ghost sa = ra@;
                ret.append(&mut ra);
                let mut rb = q.b.get_leaf_contents();
                let ghost sb = rb@;
                ret.append(&mut rb);
                let mut rc = q.c.get_leaf_contents();
                let ghost sc = rc@;
                ret.append(&mut rc);
                let mut rd = q.d.get_leaf_contents();
                let ghost sd = rd@;
                ret.append(&mut rd);
                proof {
                    assert(ret@ == sa + sb + sc + sd);
                    let la = q.a.leaf_list();
                    let lb = q.b.leaf_list();
                    let lc = q.c.leaf_list();
                    let ld = q.d.leaf_list();
                    assert forall|k: int| 0 <= k < ret@.len() implies #[trigger] ret@[k]@
                        == self.leaf_list()[k] by {
                        if k < sa.len() {
                            assert(ret@[k] == sa[k]);
                        } else if k < sa.len() + sb.len() {
                            assert(ret@[k] == sb[k - sa.len()]);
                        } else if k < sa.len() + sb.len() + sc.len() {
                            assert(ret@[k] == sc[k - sa.len() - sb.len()]);
                        } else {
                            assert(ret@[k] == sd[k - sa.len() - sb.len() - sc.len()]);
                        }
                    }
                    assert forall|l: Seq<QuadTreeEntry>| self.is_leaf(l) implies exists|k: int|
                        0 <= k < ret@.len() && #[trigger] ret@[k]@ == l by {
                        assert(q.a.is_leaf(l) || q.b.is_leaf(l) || q.c.is_leaf(l) || q.d.is_leaf(l));
                        if q.a.is_leaf(l) {
                            let k = choose|k: int| 0 <= k < sa.len() && #[trigger] sa[k]@ == l;
                            assert(ret@[k] == sa[k]);
                        } else if q.b.is_leaf(l) {
                            let k = choose|k: int| 0 <= k < sb.len() && #[trigger] sb[k]@ == l;
                            assert(ret@[sa.len() + k] == sb[k]);
                        } else if q.c.is_leaf(l) {
                            let k = choose|k: int| 0 <= k < sc.len() && #[trigger] sc[k]@ == l;
                            assert(ret@[sa.len() + sb.len() + k] == sc[k]);
                        } else {
                            let k = choose|k: int| 0 <= k < sd.len() && #[trigger] sd[k]@ == l;
                            assert(ret@[sa.len() + sb.len() + sc.len() + k] == sd[k]);
                        }
                    }
                    assert forall|k: int| 0 <= k < ret@.len() implies self.is_leaf(
                        #[trigger] ret@[k]@,
                    ) by {
                        if k < sa.len() {
                            assert(ret@[k] == sa[k]);
                        } else if k < sa.len() + sb.len() {
                            assert(ret@[k] == sb[k - sa.len()]);
                        } else if k < sa.len() + sb.len() + sc.len() {
                            assert(ret@[k] == sc[k - sa.len() - sb.len()]);
                        } else {
                            assert(ret@[k] == sd[k - sa.len() - sb.len() - sc.len()]);
                        }
                    }
                    assert forall|px: int, py: int|
                        in_rect(px, py, self.pos, self.size) implies exists|k: int|
                        0 <= k < ret@.len() && #[trigger] ret@[k]@ == self.leaf_at(px, py) by {
                        lemma_quadrant_contains(px, py, self.pos, self.size);
                        let i = quadrant_of(px, py, self.pos, self.size);
                        let c = q.get(i);
                        assert(in_rect(px, py, c.pos, c.size));
                        if i == 0 {
                            let k = choose|k: int| 0 <= k < sa.len() && #[trigger] sa[k]@ == c.leaf_at(px, py);
                            assert(ret@[k] == sa[k]);
                        } else if i == 1 {
                            let k = choose|k: int| 0 <= k < sb.len() && #[trigger] sb[k]@ == c.leaf_at(px, py);
                            assert(ret@[sa.len() + k] == sb[k]);
                        } else if i == 2 {
                            let k = choose|k: int| 0 <= k < sc.len() && #[trigger] sc[k]@ == c.leaf_at(px, py);
                            assert(ret@[sa.len() + sb.len() + k] == sc[k]);
                        } else {
                            let k = choose|k: int| 0 <= k < sd.len() && #[trigger] sd[k]@ == c.leaf_at(px, py);
                            assert(ret@[sa.len() + sb.len() + sc.len() + k] == sd[k]);
                        }
                    }
                }
                ret
            },
        }
    }

    /// Inserts an entry into each of the four children.
    fn push_to_children(&mut self, entry: QuadTreeEntry)
        requires
            old(self).wf(),
            old(self).children.is_some(),
            rect_wf(entry.pos, entry.size),
        ensures
            final(self).wf(),
            final(self).children.is_some(),
            old(self).same_frame(final(self)),
            old(self).keeps(final(self)),
            final(self).covers(entry),
            forall|es: Seq<QuadTreeEntry>| #[trigger]
                old(self).holds(es) ==> final(self).holds(es.push(entry)),
            forall|es: Seq<QuadTreeEntry>|
                old(self).holds(es) && #[trigger] old(self).children_justified(es)
                    ==> final(self).children_justified(es.push(entry)),
        decreases old(self).max_depth - old(self).depth, 0int,
    {
        let boxed = self.children.take().unwrap();
        let mut q: Quadrants = *boxed;
        let ghost q0 = q;
        assert(q0.get(0) == &q0.a && q0.get(1) == &q0.b && q0.get(2) == &q0.c && q0.get(3) == &q0.d);
        q.a.insert(entry);
        q.b.insert(entry);
        q.c.insert(entry);
        q.d.insert(entry);
        assert(q.get(0) == &q.a && q.get(1) == &q.b && q.get(2) == &q.c && q.get(3) == &q.d);
        self.children = Some(Box::new(q));
        proof {
            assert forall|es: Seq<QuadTreeEntry>| #[trigger]
                old(self).holds(es) implies self.holds(es.push(entry)) by {
                assert(q0.a.holds(es) && q0.b.holds(es) && q0.c.holds(es) && q0.d.holds(es));
            }
            assert forall|es: Seq<QuadTreeEntry>|
                old(self).holds(es) && #[trigger] old(self).children_justified(es)
                    implies self.children_justified(es.push(entry)) by {
                assert(q0.a.holds(es) && q0.b.holds(es) && q0.c.holds(es) && q0.d.holds(es));
                assert(q0.a.justified(es) && q0.b.justified(es) && q0.c.justified(es) && q0.d.justified(
                    es,
                ));
            }
            assert forall|px: int, py: int, e: QuadTreeEntry|
                in_rect(px, py, self.pos, self.size) && in_rect(px, py, e.pos, e.size)
                    && #[trigger] old(self).leaf_at(px, py).contains(e) implies self.leaf_at(
                px,
                py,
            ).contains(e) by {
                lemma_quadrant_contains(px, py, self.pos, self.size);
                let i = quadrant_of(px, py, self.pos, self.size);
                assert(q0.get(i).leaf_at(px, py).contains(e));
            }
            assert forall|px: int, py: int|
                in_rect(px, py, self.pos, self.size) && in_rect(
                    px,
                    py,
                    entry.pos,
                    entry.size,
                ) implies #[trigger] self.leaf_at(px, py).contains(entry) by {
                lemma_quadrant_contains(px, py, self.pos, self.size);
                let i = quadrant_of(px, py, self.pos, self.size);
                assert(in_rect(px, py, q.get(i).pos, q.get(i).size));
                assert(q.get(i).leaf_at(px, py).contains(entry));
            }
        }
    }
}

/// Every pair `a < b` of the leaf's entries with distinct balls, among those
/// with `a < i`, or `a == i` and `b < j`, has its key in `seen`.
pub open spec fn seen_upto(leaf: Seq<QuadTreeEntry>, seen: Set<u128>, i: int, j: int) -> bool {
    forall|a: int, b: int|
        0 <= a < b < leaf.len() && (a < i || (a == i && b < j)) && leaf[a].ball_index
            != leaf[b].ball_index ==> seen.contains(#[trigger] pair_key(pair_of(leaf[a], leaf[b])))
}

/// The box of ball `index`: lower corner at its position less its radius,
/// extent twice its radius.
pub open spec fn entry_of(b: Ball, index: usize) -> QuadTreeEntry {
    QuadTreeEntry {
        pos: Vec2 { x: (b.pos.x - b.radius) as i64, y: (b.pos.y - b.radius) as i64 },
        size: Vec2 { x: (2 * b.radius) as i64, y: (2 * b.radius) as i64 },
        ball_index: index,
    }
}

impl QuadTree {
    /// Inserts the bounding box of a ball, tagged with its index.
    pub fn insert_ball(&mut self, ball: &Ball, ball_index: usize)
        requires
            old(self).wf(),
            ball.radius >= 0,
            in_limit(ball.pos.x - ball.radius),
            in_limit(ball.pos.x + ball.radius),
            in_limit(ball.pos.y - ball.radius),
            in_limit(ball.pos.y + ball.radius),
        ensures
            final(self).wf(),
            final(self).node.pos == old(self).node.pos,
            final(self).node.size == old(self).node.size,
            final(self).max_depth == old(self).max_depth,
            final(self).max_size == old(self).max_size,
            final(self).node.covers(entry_of(*ball, ball_index)),
            forall|e: QuadTreeEntry| old(self).node.covers(e) ==> #[trigger] final(self).node.covers(e),
            final(self).inserted@ == old(self).inserted@.push(entry_of(*ball, ball_index)),
    {
        let e = QuadTreeEntry {
            pos: Vec2::new(ball.pos.x - ball.radius, ball.pos.y - ball.radius),
            size: Vec2::fill(2 * ball.radius),
            ball_index,
        };
        self.insert(e);
    }

    /// The root is a well-formed node at depth zero, with the tree's limits.
    pub open spec fn wf(&self) -> bool {
        &&& self.node.wf()
        &&& self.node.depth == 0
        &&& self.node.max_depth == self.max_depth
        &&& self.node.max_size == self.max_size
        &&& self.node.holds(self.inserted@)
        &&& self.node.justified(self.inserted@)
    }

    /// An empty tree over the region `[pos, pos + size]`.
    pub fn new(pos: Vec2, size: Vec2, max_depth: usize, max_size: usize) -> (r: QuadTree)
        requires
            rect_wf(pos, size),
        ensures
            r.wf(),
            r.node.pos == pos,
            r.node.size == size,
            r.max_depth == max_depth,
            r.max_size == max_size,
            r.node.children.is_none(),
            r.node.contents@.len() == 0,
            r.inserted@ == Seq::<QuadTreeEntry>::empty(),
            forall|e: QuadTreeEntry|
                rect_wf(e.pos, e.size) ==> (#[trigger] r.node.covers(e) <==> !rects_overlap(
                    e.pos,
                    e.size,
                    pos,
                    size,
                )),
    {
        let r = QuadTree {
            node: QuadTreeNode::new(pos, size, 0, max_size, max_depth),
            max_depth,
            max_size,
            inserted: Ghost(Seq::empty()),
        };
        proof {
            reveal(Seq::filter);
            assert(r.node.contents@ =~= Seq::<QuadTreeEntry>::empty());
            assert(Seq::<QuadTreeEntry>::empty().filter(meets(pos, size)) == Seq::<QuadTreeEntry>::empty());
        }
        assert forall|e: QuadTreeEntry| rect_wf(e.pos, e.size) implies (#[trigger] r.node.covers(e)
            <==> !rects_overlap(e.pos, e.size, pos, size)) by {
            if rects_overlap(e.pos, e.size, pos, size) {
                let px = if e.pos.x > pos.x { e.pos.x as int } else { pos.x as int };
                let py = if e.pos.y > pos.y { e.pos.y as int } else { pos.y as int };
                assert(in_rect(px, py, pos, size) && in_rect(px, py, e.pos, e.size));
                assert(!r.node.leaf_at(px, py).contains(e));
            }
        }
        r
    }

    /// Adds an entry; every entry already covered stays covered.
    pub fn insert(&mut self, entry: QuadTreeEntry)
        requires
            old(self).wf(),
            rect_wf(entry.pos, entry.size),
        ensures
            final(self).wf(),
            final(self).node.pos == old(self).node.pos,
            final(self).node.size == old(self).node.size,
            final(self).max_depth == old(self).max_depth,
            final(self).max_size == old(self).max_size,
            final(self).node.covers(entry),
            forall|e: QuadTreeEntry| old(self).node.covers(e) ==> #[trigger] final(self).node.covers(e),
            final(self).inserted@ == old(self).inserted@.push(entry),
    {
        let ghost before = self.node;
        self.node.insert(entry);
        self.inserted = Ghost(self.inserted@.push(entry));
        proof {
            assert forall|e: QuadTreeEntry| before.covers(e) implies #[trigger] self.node.covers(e) by {
                assert forall|px: int, py: int|
                    in_rect(px, py, self.node.pos, self.node.size) && in_rect(px, py, e.pos, e.size)
                        implies #[trigger] self.node.leaf_at(px, py).contains(e) by {
                    assert(before.leaf_at(px, py).contains(e));
                }
            }
        }
    }

    /// The candidate pairs: each unordered pair of distinct balls that share
    /// a leaf, once, as `(larger, smaller)`.
    pub fn get_possible_collisions(&self) -> (r: Vec<(usize, usize)>)
        requires
            self.wf(),
        ensures
            r@.no_duplicates(),
            forall|k: int|
                0 <= k < r@.len() ==> (#[trigger] r@[k]).0 > r@[k].1 && exists|s: Seq<QuadTreeEntry>|
                    self.node.is_leaf(s) && from_leaf(r@[k], s),
            forall|l: Seq<QuadTreeEntry>| #[trigger] self.node.is_leaf(l) ==> leaf_pairs_in(l, r@),
            forall|k: int|
                0 <= k < r@.len() ==> index_inserted(self.inserted@, (#[trigger] r@[k]).0),
            forall|px: int, py: int|
                in_rect(px, py, self.node.pos, self.node.size) ==> leaf_pairs_in(
                    #[trigger] self.node.leaf_at(px, py),
                    r@,
                ),
    {
        let leaves = self.node.get_leaf_contents();
        let mut seen: HashSetWithView<u128> = HashSetWithView::new();
        let mut out: Vec<(usize, usize)> = Vec::new();
        let mut l: usize = 0;
        while l < leaves.len()
            invariant
                0 <= l <= leaves@.len(),
                forall|k: int| 0 <= k < leaves@.len() ==> self.node.is_leaf(#[trigger] leaves@[k]@),
                out@.no_duplicates(),
                forall|k: int|
                    0 <= k < out@.len() ==> (#[trigger] out@[k]).0 > out@[k].1 && exists|
                        s: Seq<QuadTreeEntry>,
                    | self.node.is_leaf(s) && from_leaf(out@[k], s),
                forall|k: int| 0 <= k < out@.len() ==> seen@.contains(pair_key(#[trigger] out@[k])),
                forall|key: u128| #[trigger] seen@.contains(key) ==> exists|k: int|
                    0 <= k < out@.len() && pair_key(out@[k]) == key,
                forall|m: int|
                    0 <= m < l ==> seen_upto(
                        #[trigger] leaves@[m]@,
                        seen@,
                        leaves@[m]@.len() as int,
                        0,
                    ),
            decreases leaves@.len() - l,
        {
            let leaf = &leaves[l];
            let ghost lv = leaf@;
            assert(self.node.is_leaf(lv));
            let mut i: usize = 0;
            while i < leaf.len()
                invariant
                    0 <= l < leaves@.len(),
                    lv == leaves@[l as int]@,
                    leaf@ == lv,
                    self.node.is_leaf(lv),
                    0 <= i <= lv.len(),
                    out@.no_duplicates(),
                    forall|k: int|
                        0 <= k < out@.len() ==> (#[trigger] out@[k]).0 > out@[k].1 && exists|
                            s: Seq<QuadTreeEntry>,
                        | self.node.is_leaf(s) && from_leaf(out@[k], s),
                    forall|k: int| 0 <= k < out@.len() ==> seen@.contains(pair_key(#[trigger] out@[k])),
                    forall|key: u128| #[trigger] seen@.contains(key) ==> exists|k: int|
                        0 <= k < out@.len() && pair_key(out@[k]) == key,
                    forall|m: int|
                        0 <= m < l ==> seen_upto(
                            #[trigger] leaves@[m]@,
                            seen@,
                            leaves@[m]@.len() as int,
                            0,
                        ),
                    seen_upto(lv, seen@, i as int, 0),
                decreases lv.len() - i,
            {
                let mut j: usize = i + 1;
                while j < leaf.len()
                    invariant
                        0 <= l < leaves@.len(),
                        lv == leaves@[l as int]@,
                        leaf@ == lv,
                        self.node.is_leaf(lv),
                        0 <= i < lv.len(),
                        i + 1 <= j <= lv.len(),
                        out@.no_duplicates(),
                        forall|k: int|
                            0 <= k < out@.len() ==> (#[trigger] out@[k]).0 > out@[k].1 && exists|
                                s: Seq<QuadTreeEntry>,
                            | self.node.is_leaf(s) && from_leaf(out@[k], s),
                        forall|k: int| 0 <= k < out@.len() ==> seen@.contains(pair_key(#[trigger] out@[k])),
                        forall|key: u128| #[trigger] seen@.contains(key) ==> exists|k: int|
                            0 <= k < out@.len() && pair_key(out@[k]) == key,
                        forall|m: int|
                            0 <= m < l ==> seen_upto(
                                #[trigger] leaves@[m]@,
                                seen@,
                                leaves@[m]@.len() as int,
                                0,
                            ),
                        seen_upto(lv, seen@, i as int, j as int),
                    decreases lv.len() - j,
                {
                    let a = leaf[i].ball_index;
                    let b = leaf[j].ball_index;
                    if a != b {
                        let p: (usize, usize) = if a > b { (a, b) } else { (b, a) };
                        assert(p == pair_of(lv[i as int], lv[j as int]));
                        assert((p.0 as int) * 0x1_0000_0000_0000_0000 + (p.1 as int)
                            < 0x1_0000_0000_0000_0000_0000_0000_0000_0000) by (nonlinear_arith)
                            requires
                                0 <= p.0 < 0x1_0000_0000_0000_0000,
                                0 <= p.1 < 0x1_0000_0000_0000_0000,
                        ;
                        let key: u128 = (p.0 as u128) * 0x1_0000_0000_0000_0000 + p.1 as u128;
                        assert(key == pair_key(p));
                        let ghost seen0 = seen@;
                        let ghost out0 = out@;
                        if seen.insert(key) {
                            out.push(p);
                            proof {
                                assert(!out0.contains(p)) by {
                                    if out0.contains(p) {
                                        let k = choose|k: int| 0 <= k < out0.len() && out0[k] == p;
                                        assert(seen0.contains(pair_key(out0[k])));
                                    }
                                }
                                assert forall|x: int, y: int|
                                    0 <= x < out@.len() && 0 <= y < out@.len() && x != y implies out@[x]
                                    != out@[y] by {
                                    if x < out0.len() && y < out0.len() {
                                        assert(out0[x] != out0[y]);
                                    } else if x < out0.len() {
                                        assert(out@[x] == out0[x]);
                                    } else if y < out0.len() {
                                        assert(out@[y] == out0[y]);
                                    }
                                }
                                assert(from_leaf(p, lv));
                                assert forall|k: int| 0 <= k < out@.len() implies (#[trigger] out@[k]).0
                                    > out@[k].1 && exists|s: Seq<QuadTreeEntry>|
                                    self.node.is_leaf(s) && from_leaf(out@[k], s) by {
                                    if k < out0.len() {
                                        assert(out@[k] == out0[k]);
                                    }
                                }
                                assert forall|key2: u128| #[trigger] seen@.contains(key2) implies exists|k: int|
                                    0 <= k < out@.len() && pair_key(out@[k]) == key2 by {
                                    if key2 == key {
                                        assert(pair_key(out@[out0.len() as int]) == key2);
                                    } else {
                                        let k = choose|k: int| 0 <= k < out0.len() && pair_key(out0[k]) == key2;
                                        assert(out@[k] == out0[k]);
                                    }
                                }
                            }
                        }
                    }
                    j = j + 1;
                }
                i = i + 1;
            }
            l = l + 1;
        }
        proof {
            assert forall|l: Seq<QuadTreeEntry>| #[trigger] self.node.is_leaf(l) implies leaf_pairs_in(
                l,
                out@,
            ) by {
                let m = choose|m: int| 0 <= m < leaves@.len() && #[trigger] leaves@[m]@ == l;
                assert(seen_upto(leaves@[m]@, seen@, leaves@[m]@.len() as int, 0));
                assert forall|a: int, b: int|
                    0 <= a < l.len() && 0 <= b < l.len() && l[a].ball_index != l[b].ball_index
                        implies out@.contains(#[trigger] pair_of(l[a], l[b])) by {
                    let key = if a < b {
                        pair_key(pair_of(l[a], l[b]))
                    } else {
                        pair_key(pair_of(l[b], l[a]))
                    };
                    assert(pair_of(l[a], l[b]) == pair_of(l[b], l[a]));
                    assert(seen@.contains(key));
                    let k = choose|k: int| 0 <= k < out@.len() && pair_key(out@[k]) == key;
                    lemma_pair_key_injective(out@[k], pair_of(l[a], l[b]));
                }
            }
            assert forall|k: int| 0 <= k < out@.len() implies index_inserted(
                self.inserted@,
                (#[trigger] out@[k]).0,
            ) by {
                let l = choose|l: Seq<QuadTreeEntry>| self.node.is_leaf(l) && from_leaf(out@[k], l);
                let (a, b) = choose|a: int, b: int|
                    0 <= a < l.len() && 0 <= b < l.len() && l[a].ball_index != l[b].ball_index
                        && out@[k] == #[trigger] pair_of(l[a], l[b]);
                assert(l.contains(l[a]) && l.contains(l[b]));
                self.node.lemma_leaf_entries_from(self.inserted@, l, l[a]);
                self.node.lemma_leaf_entries_from(self.inserted@, l, l[b]);
                if l[a].ball_index > l[b].ball_index {
                    assert(self.inserted@.contains(l[a]) && l[a].ball_index == out@[k].0);
                } else {
                    assert(self.inserted@.contains(l[b]) && l[b].ball_index == out@[k].0);
                }
            }
            assert forall|px: int, py: int|
                in_rect(px, py, self.node.pos, self.node.size) implies leaf_pairs_in(
                #[trigger] self.node.leaf_at(px, py),
                out@,
            ) by {
                let lf = self.node.leaf_at(px, py);
                let m = choose|m: int| 0 <= m < leaves@.len() && #[trigger] leaves@[m]@ == lf;
                assert(seen_upto(leaves@[m]@, seen@, leaves@[m]@.len() as int, 0));
                assert forall|a: int, b: int|
                    0 <= a < lf.len() && 0 <= b < lf.len() && lf[a].ball_index != lf[b].ball_index
                        implies out@.contains(#[trigger] pair_of(lf[a], lf[b])) by {
                    let key = if a < b {
                        pair_key(pair_of(lf[a], lf[b]))
                    } else {
                        pair_key(pair_of(lf[b], lf[a]))
                    };
                    assert(pair_of(lf[a], lf[b]) == pair_of(lf[b], lf[a]));
                    assert(seen@.contains(key));
                    let k = choose|k: int| 0 <= k < out@.len() && pair_key(out@[k]) == key;
                    lemma_pair_key_injective(out@[k], pair_of(lf[a], lf[b]));
                }
            }
        }
        out
    }
}

} // verus!
