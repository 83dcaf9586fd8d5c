use vstd::prelude::*;

verus! {

// ---------------------------------------------------------------------------
// Rectangle helpers.  A rectangle is `(x, y, w, h)` in pixel coordinates.
// ---------------------------------------------------------------------------
/// Point `p` lies inside the rectangle at `(x, y)` of size `w` by `h`.
pub open spec fn in_rect(p: (u32, u32), x: int, y: int, w: int, h: int) -> bool {
    x <= p.0 < x + w && y <= p.1 < y + h
}

/// Point `p` lies inside rectangle `r`.
pub open spec fn rect_contains(r: (u32, u32, u32, u32), p: (u32, u32)) -> bool {
    in_rect(p, r.0 as int, r.1 as int, r.2 as int, r.3 as int)
}

/// Rectangle `r` lies inside the rectangle at `(x, y)` of size `w` by `h`.
pub open spec fn rect_within(r: (u32, u32, u32, u32), x: int, y: int, w: int, h: int) -> bool {
    x <= r.0 && r.0 + r.2 <= x + w && y <= r.1 && r.1 + r.3 <= y + h
}

/// The two rectangles share no point.
pub open spec fn rects_disjoint(r1: (u32, u32, u32, u32), r2: (u32, u32, u32, u32)) -> bool {
    r1.0 + r1.2 <= r2.0 || r2.0 + r2.2 <= r1.0 || r1.1 + r1.3 <= r2.1 || r2.1 + r2.3 <= r1.1
}

/// Every rectangle of `s` lies inside the rectangle at `(x, y)` of size `w` by `h`.
pub open spec fn all_regions_within(s: Seq<(u32, u32, u32, u32)>, x: int, y: int, w: int, h: int) -> bool {
    forall|i: int| 0 <= i < s.len() ==> rect_within(#[trigger] s[i], x, y, w, h)
}

/// The rectangles of `s` are pairwise disjoint.
pub open spec fn regions_pairwise_disjoint(s: Seq<(u32, u32, u32, u32)>) -> bool {
    forall|i: int, j: int|
        0 <= i < s.len() && 0 <= j < s.len() && i != j ==> rects_disjoint(
            #[trigger] s[i],
            #[trigger] s[j],
        )
}

/// Every rectangle of `s1` is disjoint from every rectangle of `s2`.
pub open spec fn region_seqs_disjoint(
    s1: Seq<(u32, u32, u32, u32)>,
    s2: Seq<(u32, u32, u32, u32)>,
) -> bool {
    forall|i: int, j: int|
        0 <= i < s1.len() && 0 <= j < s2.len() ==> rects_disjoint(#[trigger] s1[i], #[trigger] s2[j])
}

// ---------------------------------------------------------------------------
// The quadtree.
// ---------------------------------------------------------------------------
/// One node of the scratch quadtree built each tick to coalesce the dirty
/// pixel set into rectangles.  Children carve the node by integer halves:
///
/// ```text
///   0 1
/// 0 a b
/// 1 c d
/// ```
pub struct QuadNode {
    pub x: u32,
    pub y: u32,
    pub width: u32,
    pub height: u32,
    pub a: Option<Box<QuadNode>>,
    pub b: Option<Box<QuadNode>>,
    pub c: Option<Box<QuadNode>>,
    pub d: Option<Box<QuadNode>>,
    pub data: Vec<(u32, u32)>,
}

/// All points stored in the subtree under `o`, if any.
pub open spec fn opt_points(o: Option<Box<QuadNode>>) -> Seq<(u32, u32)>
    decreases o,
{
    match o {
        Some(n) => n.points(),
        None => Seq::empty(),
    }
}

/// The child under `o`, if present, has exactly the rectangle `(x, y, w, h)`
/// and is itself well-formed.
pub open spec fn child_wf(o: Option<Box<QuadNode>>, x: int, y: int, w: int, h: int) -> bool
    decreases o,
{
    match o {
        Some(n) => n.x == x && n.y == y && n.width == w && n.height == h && n.wf(),
        None => true,
    }
}

/// All data in the subtree under `o` sits at 1-by-1 leaves.
pub open spec fn opt_at_leaves(o: Option<Box<QuadNode>>) -> bool
    decreases o,
{
    match o {
        Some(n) => n.at_leaves(),
        None => true,
    }
}

/// Every node under `o` that holds points has no children.
pub open spec fn opt_reduced(o: Option<Box<QuadNode>>) -> bool
    decreases o,
{
    match o {
        Some(n) => n.reduced(),
        None => true,
    }
}

/// The rectangles the subtree under `o` would emit.
pub open spec fn opt_regions(o: Option<Box<QuadNode>>) -> Seq<(u32, u32, u32, u32)>
    decreases o,
{
    match o {
        Some(n) => n.spec_regions(),
        None => Seq::empty(),
    }
}

impl QuadNode {
    /// All points stored in this subtree: own list first, then the children
    /// in `a`, `b`, `c`, `d` order.
    pub open spec fn points(self) -> Seq<(u32, u32)>
        decreases self,
    {
        self.data@ + opt_points(self.a) + opt_points(self.b) + opt_points(self.c) + opt_points(
            self.d,
        )
    }

    /// Well-formedness: a non-empty rectangle whose coordinates stay in
    /// range, own points inside the rectangle, a 1-by-1 node is a leaf with
    /// at most one point, and each child covers exactly its quadrant.
    pub open spec fn wf(self) -> bool
        decreases self,
    {
        &&& 1 <= self.width
        &&& 1 <= self.height
        &&& self.x + self.width <= u32::MAX
        &&& self.y + self.height <= u32::MAX
        &&& self.width * self.height <= u32::MAX
        &&& forall|i: int|
            0 <= i < self.data@.len() ==> in_rect(
                #[trigger] self.data@[i],
                self.x as int,
                self.y as int,
                self.width as int,
                self.height as int,
            )
        &&& (self.width == 1 && self.height == 1 ==> self.data@.len() <= 1 && self.a is None
            && self.b is None && self.c is None && self.d is None)
        &&& child_wf(
            self.a,
            self.x as int,
            self.y as int,
            self.width as int / 2,
            self.height as int / 2,
        )
        &&& child_wf(
            self.b,
            self.x + self.width as int / 2,
            self.y as int,
            self.width - self.width as int / 2,
            self.height as int / 2,
        )
        &&& child_wf(
            self.c,
            self.x as int,
            self.y + self.height as int / 2,
            self.width as int / 2,
            self.height - self.height as int / 2,
        )
        &&& child_wf(
            self.d,
            self.x + self.width as int / 2,
            self.y + self.height as int / 2,
            self.width - self.width as int / 2,
            self.height - self.height as int / 2,
        )
    }

    /// During insertion, points sit only at 1-by-1 leaves.
    pub open spec fn at_leaves(self) -> bool
        decreases self,
    {
        &&& (self.data@.len() > 0 ==> self.width == 1 && self.height == 1)
        &&& opt_at_leaves(self.a)
        &&& opt_at_leaves(self.b)
        &&& opt_at_leaves(self.c)
        &&& opt_at_leaves(self.d)
    }

    /// After reduction, a node that holds points has no children, so
    /// emission stops exactly at point-holding nodes.
    pub open spec fn reduced(self) -> bool
        decreases self,
    {
        &&& (self.data@.len() > 0 ==> self.a is None && self.b is None && self.c is None
            && self.d is None)
        &&& opt_reduced(self.a)
        &&& opt_reduced(self.b)
        &&& opt_reduced(self.c)
        &&& opt_reduced(self.d)
    }

    /// Depth-first emission: a node with points emits its full rectangle and
    /// stops; otherwise it recurses into whichever children exist.
    pub open spec fn spec_regions(self) -> Seq<(u32, u32, u32, u32)>
        decreases self,
    {
        if self.data@.len() > 0 {
            seq![(self.x, self.y, self.width, self.height)]
        } else {
            opt_regions(self.a) + opt_regions(self.b) + opt_regions(self.c) + opt_regions(self.d)
        }
    }

    pub fn new(x: u32, y: u32, width: u32, height: u32) -> (n: QuadNode)
        ensures
            n.x == x,
            n.y == y,
            n.width == width,
            n.height == height,
            n.a is None,
            n.b is None,
            n.c is None,
            n.d is None,
            n.data@ == Seq::<(u32, u32)>::empty(),
            n.points() == Seq::<(u32, u32)>::empty(),
            n.at_leaves(),
    {
        let n = QuadNode {
            x,
            y,
            width,
            height,
            a: None,
            b: None,
            c: None,
            d: None,
            data: Vec::new(),
        };
        proof {
            assert(n.points() =~= Seq::<(u32, u32)>::empty());
        }
        n
    }

    /// The quadrant rectangle that the relative coordinate `(x, y)` selects.
    pub fn quad_rect(&self, x: u32, y: u32) -> (r: (u32, u32, u32, u32))
        requires
            self.x + self.width <= u32::MAX,
            self.y + self.height <= u32::MAX,
        ensures
            r.0 == if x < self.width / 2 {
                self.x as int
            } else {
                self.x + self.width as int / 2
            },
            r.1 == if y < self.height / 2 {
                self.y as int
            } else {
                self.y + self.height as int / 2
            },
            r.2 == if x < self.width / 2 {
                self.width as int / 2
            } else {
                self.width - self.width as int / 2
            },
            r.3 == if y < self.height / 2 {
                self.height as int / 2
            } else {
                self.height - self.height as int / 2
            },
    {
        let x_least = x < self.width / 2;
        let y_least = y < self.height / 2;
        (
            match x_least {
                true => self.x,
                false => self.x + self.width / 2,
            },
            match y_least {
                true => self.y,
                false => self.y + self.height / 2,
            },
            match x_least {
                true => self.width / 2,
                false => self.width - self.width / 2,
            },
            match y_least {
                true => self.height / 2,
                false => self.height - self.height / 2,
            },
        )
    }

    /// The child slot that the relative coordinate `(x, y)` selects.
    pub fn mut_quad(&mut self, x: u32, y: u32) -> (q: &mut Option<Box<QuadNode>>)
        ensures
            final(self).x == old(self).x,
            final(self).y == old(self).y,
            final(self).width == old(self).width,
            final(self).height == old(self).height,
            final(self).data == old(self).data,
            ({
                let xl = x < old(self).width / 2;
                let yl = y < old(self).height / 2;
                let so = *old(self);
                let sf = *final(self);
                &&& (xl && yl ==> *q == so.a && sf.a == *final(q) && sf.b == so.b && sf.c == so.c
                    && sf.d == so.d)
                &&& (!xl && yl ==> *q == so.b && sf.b == *final(q) && sf.a == so.a && sf.c == so.c
                    && sf.d == so.d)
                &&& (xl && !yl ==> *q == so.c && sf.c == *final(q) && sf.a == so.a && sf.b == so.b
                    && sf.d == so.d)
                &&& (!xl && !yl ==> *q == so.d && sf.d == *final(q) && sf.a == so.a && sf.b == so.b
                    && sf.c == so.c)
            }),
    {
        let x_least = x < self.width / 2;
        let y_least = y < self.height / 2;
        match (x_least, y_least) {
            (true, true) => &mut self.a,
            (false, true) => &mut self.b,
            (true, false) => &mut self.c,
            (false, false) => &mut self.d,
        }
    }
}

impl QuadNode {
    /// Walk down, creating children lazily, until the 1-by-1 leaf for
    /// `(x, y)` is reached, and store the point there.
    pub fn insert_data(&mut self, x: u32, y: u32)
        requires
            old(self).wf(),
            old(self).at_leaves(),
            in_rect(
                (x, y),
                old(self).x as int,
                old(self).y as int,
                old(self).width as int,
                old(self).height as int,
            ),
        ensures
            final(self).wf(),
            final(self).at_leaves(),
            final(self).x == old(self).x,
            final(self).y == old(self).y,
            final(self).width == old(self).width,
            final(self).height == old(self).height,
            forall|p: (u32, u32)| #[trigger]
                final(self).points().contains(p) <==> old(self).points().contains(p) || p == (x, y),
            final(self).points().len() == old(self).points().len() + (
            if old(self).points().contains((x, y)) {
                0int
            } else {
                1int
            }),
        decreases old(self).width * old(self).height,
    {
        if self.width == 1 && self.height == 1 {
            proof {
                let so = *old(self);
                assert(so.points() =~= so.data@);
                if so.data@.len() > 0 {
                    assert(in_rect(so.data@[0], so.x as int, so.y as int, 1, 1));
                    assert(so.data@[0] == (x, y));
                    assert(so.data@.contains((x, y)));
                }
            }
            self.data.clear();
            self.data.push((x, y));
            proof {
                assert(self.points() =~= self.data@);
                assert(self.points() =~= seq![(x, y)]);
                assert(self.points()[0] == (x, y));
                assert(self.points().contains((x, y)));
                assert forall|p: (u32, u32)| #[trigger] self.points().contains(p) implies old(
                    self,
                ).points().contains(p) || p == (x, y) by {
                    assert(self.points()[0] == (x, y));
                }
            }
            return ;
        }
        let dx = x - self.x;
        let dy = y - self.y;
        let xl = dx < self.width / 2;
        let yl = dy < self.height / 2;
        let (qx, qy, qw, qh) = self.quad_rect(dx, dy);
        let ghost so = *old(self);
        if xl && yl {
            if self.a.is_none() {
                self.a = Some(Box::new(QuadNode::new(qx, qy, qw, qh)));
            }
            let mut child = self.a.take().unwrap();
            proof {
                assert(child.width * child.height < so.width * so.height) by (nonlinear_arith)
                    requires
                        child.width == so.width / 2,
                        child.height == so.height / 2,
                        1 <= child.width,
                        1 <= child.height,
                        1 <= so.width,
                        1 <= so.height,
                ;
                assert(child.width * child.height <= u32::MAX) by (nonlinear_arith)
                    requires
                        child.width <= so.width,
                        child.height <= so.height,
                        so.width * so.height <= u32::MAX,
                        1 <= so.width,
                        1 <= so.height,
                ;
            }
            let ghost child0 = child;
            child.insert_data(x, y);
            self.a = Some(child);
            proof {
                lemma_points_decompose(so);
                lemma_points_decompose(*self);
                lemma_not_in_child(
                    so.b,
                    so.x + so.width as int / 2,
                    so.y as int,
                    so.width - so.width as int / 2,
                    so.height as int / 2,
                    (x, y),
                );
                lemma_not_in_child(
                    so.c,
                    so.x as int,
                    so.y + so.height as int / 2,
                    so.width as int / 2,
                    so.height - so.height as int / 2,
                    (x, y),
                );
                lemma_not_in_child(
                    so.d,
                    so.x + so.width as int / 2,
                    so.y + so.height as int / 2,
                    so.width - so.width as int / 2,
                    so.height - so.height as int / 2,
                    (x, y),
                );
                assert(so.points().contains((x, y)) <==> child0.points().contains((x, y)));
            }
        } else if !xl && yl {
            if self.b.is_none() {
                self.b = Some(Box::new(QuadNode::new(qx, qy, qw, qh)));
            }
            let mut child = self.b.take().unwrap();
            proof {
                assert(child.width * child.height < so.width * so.height) by (nonlinear_arith)
                    requires
                        child.width == so.width - so.width / 2,
                        child.height == so.height / 2,
                        1 <= child.width,
                        1 <= child.height,
                        1 <= so.width,
                        1 <= so.height,
                ;
                assert(child.width * child.height <= u32::MAX) by (nonlinear_arith)
                    requires
                        child.width <= so.width,
                        child.height <= so.height,
                        so.width * so.height <= u32::MAX,
                        1 <= so.width,
                        1 <= so.height,
                ;
            }
            let ghost child0 = child;
            child.insert_data(x, y);
            self.b = Some(child);
            proof {
                lemma_points_decompose(so);
                lemma_points_decompose(*self);
                lemma_not_in_child(
                    so.a,
                    so.x as int,
                    so.y as int,
                    so.width as int / 2,
                    so.height as int / 2,
                    (x, y),
                );
                lemma_not_in_child(
                    so.c,
                    so.x as int,
                    so.y + so.height as int / 2,
                    so.width as int / 2,
                    so.height - so.height as int / 2,
                    (x, y),
                );
                lemma_not_in_child(
                    so.d,
                    so.x + so.width as int / 2,
                    so.y + so.height as int / 2,
                    so.width - so.width as int / 2,
                    so.height - so.height as int / 2,
                    (x, y),
                );
                assert(so.points().contains((x, y)) <==> child0.points().contains((x, y)));
            }
        } else if xl && !yl {
            if self.c.is_none() {
                self.c = Some(Box::new(QuadNode::new(qx, qy, qw, qh)));
            }
            let mut child = self.c.take().unwrap();
            proof {
                assert(child.width * child.height < so.width * so.height) by (nonlinear_arith)
                    requires
                        child.width == so.width / 2,
                        child.height == so.height - so.height / 2,
                        1 <= child.width,
                        1 <= child.height,
                        1 <= so.width,
                        1 <= so.height,
                ;
                assert(child.width * child.height <= u32::MAX) by (nonlinear_arith)
                    requires
                        child.width <= so.width,
                        child.height <= so.height,
                        so.width * so.height <= u32::MAX,
                        1 <= so.width,
                        1 <= so.height,
                ;
            }
            let ghost child0 = child;
            child.insert_data(x, y);
            self.c = Some(child);
            proof {
                lemma_points_decompose(so);
                lemma_points_decompose(*self);
                lemma_not_in_child(
                    so.a,
                    so.x as int,
                    so.y as int,
                    so.width as int / 2,
                    so.height as int / 2,
                    (x, y),
                );
                lemma_not_in_child(
                    so.b,
                    so.x + so.width as int / 2,
                    so.y as int,
                    so.width - so.width as int / 2,
                    so.height as int / 2,
                    (x, y),
                );
                lemma_not_in_child(
                    so.d,
                    so.x + so.width as int / 2,
                    so.y + so.height as int / 2,
                    so.width - so.width as int / 2,
                    so.height - so.height as int / 2,
                    (x, y),
                );
                assert(so.points().contains((x, y)) <==> child0.points().contains((x, y)));
            }
        } else {
            if self.d.is_none() {
                self.d = Some(Box::new(QuadNode::new(qx, qy, qw, qh)));
            }
            let mut child = self.d.take().unwrap();
            proof {
                assert(child.width * child.height < so.width * so.height) by (nonlinear_arith)
                    requires
                        child.width == so.width - so.width / 2,
                        child.height == so.height - so.height / 2,
                        1 <= child.width,
                        1 <= child.height,
                        1 <= so.width,
                        1 <= so.height,
                        !(so.width == 1 && so.height == 1),
                ;
                assert(child.width * child.height <= u32::MAX) by (nonlinear_arith)
                    requires
                        child.width <= so.width,
                        child.height <= so.height,
                        so.width * so.height <= u32::MAX,
                        1 <= so.width,
                        1 <= so.height,
                ;
            }
            let ghost child0 = child;
            child.insert_data(x, y);
            self.d = Some(child);
            proof {
                lemma_points_decompose(so);
                lemma_points_decompose(*self);
                lemma_not_in_child(
                    so.a,
                    so.x as int,
                    so.y as int,
                    so.width as int / 2,
                    so.height as int / 2,
                    (x, y),
                );
                lemma_not_in_child(
                    so.b,
                    so.x + so.width as int / 2,
                    so.y as int,
                    so.width - so.width as int / 2,
                    so.height as int / 2,
                    (x, y),
                );
                lemma_not_in_child(
                    so.c,
                    so.x as int,
                    so.y + so.height as int / 2,
                    so.width as int / 2,
                    so.height - so.height as int / 2,
                    (x, y),
                );
                assert(so.points().contains((x, y)) <==> child0.points().contains((x, y)));
            }
        }
    }

    /// Move every point of this subtree to the end of `out`, in the order
    /// `points` lists them.
    fn drain_into(&mut self, out: &mut Vec<(u32, u32)>)
        requires
            old(self).wf(),
        ensures
            final(out)@ == old(out)@ + old(self).points(),
        decreases old(self).width * old(self).height,
    {
        proof {
            lemma_child_area_smaller(*old(self));
        }
        out.append(&mut self.data);
        match self.a.take() {
            Some(mut n) => {
                n.drain_into(out);
            },
            None => {},
        }
        match self.b.take() {
            Some(mut n) => {
                n.drain_into(out);
            },
            None => {},
        }
        match self.c.take() {
            Some(mut n) => {
                n.drain_into(out);
            },
            None => {},
        }
        match self.d.take() {
            Some(mut n) => {
                n.drain_into(out);
            },
            None => {},
        }
        proof {
            assert(out@ =~= old(out)@ + old(self).points());
        }
    }

    /// Post-order reduction.  Returns the number of points in the subtree.
    /// A node whose subtree holds more points than an eighth of its area,
    /// or whose four quadrants all exist, pulls every point of its subtree
    /// into its own list and drops its children.
    #[verifier::rlimit(60)]
    pub fn reduce(&mut self) -> (count: usize)
        requires
            old(self).wf(),
            old(self).at_leaves(),
        ensures
            final(self).wf(),
            final(self).reduced(),
            final(self).x == old(self).x,
            final(self).y == old(self).y,
            final(self).width == old(self).width,
            final(self).height == old(self).height,
            count == old(self).points().len(),
            final(self).points().len() == count,
            forall|p: (u32, u32)| #[trigger]
                final(self).points().contains(p) <==> old(self).points().contains(p),
            8 * count > old(self).width * old(self).height ==> ({
                let sf = *final(self);
                sf.data@.len() == count && sf.a is None && sf.b is None && sf.c is None
                    && sf.d is None
            }),
            (old(self).a is Some && old(self).b is Some && old(self).c is Some && old(
                self,
            ).d is Some) ==> ({
                let sf = *final(self);
                sf.data@.len() == count && sf.a is None && sf.b is None && sf.c is None
                    && sf.d is None
            }),
        decreases old(self).width * old(self).height,
    {
        proof {
            lemma_points_len_le_area(*old(self));
            lemma_child_area_smaller(*old(self));
        }
        let mut count: usize = self.data.len();
        match self.a.take() {
            Some(mut n) => {
                let c = n.reduce();
                self.a = Some(n);
                count += c;
            },
            None => {},
        }
        match self.b.take() {
            Some(mut n) => {
                let c = n.reduce();
                self.b = Some(n);
                count += c;
            },
            None => {},
        }
        match self.c.take() {
            Some(mut n) => {
                let c = n.reduce();
                self.c = Some(n);
                count += c;
            },
            None => {},
        }
        match self.d.take() {
            Some(mut n) => {
                let c = n.reduce();
                self.d = Some(n);
                count += c;
            },
            None => {},
        }
        let ghost mid = *self;
        proof {
            assert(count == mid.points().len());
            lemma_points_decompose(*old(self));
            lemma_points_decompose(mid);
        }
        let full = self.a.is_some() && self.b.is_some() && self.c.is_some() && self.d.is_some();
        let threshold = ((self.width * self.height) / 8) as usize;
        let merge = count > threshold || full;
        if merge {
            match self.a.take() {
                Some(mut n) => {
                    n.drain_into(&mut self.data);
                },
                None => {},
            }
            match self.b.take() {
                Some(mut n) => {
                    n.drain_into(&mut self.data);
                },
                None => {},
            }
            match self.c.take() {
                Some(mut n) => {
                    n.drain_into(&mut self.data);
                },
                None => {},
            }
            match self.d.take() {
                Some(mut n) => {
                    n.drain_into(&mut self.data);
                },
                None => {},
            }
            proof {
                assert(self.data@ =~= mid.points());
                assert(self.points() =~= self.data@);
                lemma_points_in_rect(mid);
                assert forall|i: int| 0 <= i < self.data@.len() implies in_rect(
                    #[trigger] self.data@[i],
                    self.x as int,
                    self.y as int,
                    self.width as int,
                    self.height as int,
                ) by {
                    assert(mid.points().contains(mid.points()[i]));
                }
            }
        } else {
            proof {
                lemma_points_decompose(*self);
            }
        }
        count
    }

    /// Depth-first emission of the rectangles of every point-holding node.
    pub fn regions(&self) -> (r: Vec<(u32, u32, u32, u32)>)
        requires
            self.wf(),
        ensures
            r@ == self.spec_regions(),
        decreases self.width * self.height,
    {
        proof {
            lemma_child_area_smaller(*self);
        }
        let mut r: Vec<(u32, u32, u32, u32)> = Vec::new();
        if self.data.len() > 0 {
            r.push((self.x, self.y, self.width, self.height));
            proof {
                assert(r@ =~= self.spec_regions());
            }
        } else {
            match &self.a {
                Some(n) => {
                    let mut sub = n.regions();
                    r.append(&mut sub);
                },
                None => {},
            }
            match &self.b {
                Some(n) => {
                    let mut sub = n.regions();
                    r.append(&mut sub);
                },
                None => {},
            }
            match &self.c {
                Some(n) => {
                    let mut sub = n.regions();
                    r.append(&mut sub);
                },
                None => {},
            }
            match &self.d {
                Some(n) => {
                    let mut sub = n.regions();
                    r.append(&mut sub);
                },
                None => {},
            }
            proof {
                assert(r@ =~= self.spec_regions());
            }
        }
        r
    }
}

// ---------------------------------------------------------------------------
// Lemmas about sequences of points and of rectangles.
// ---------------------------------------------------------------------------
/// A child that covers a rectangle the point is not in does not hold the
/// point.
pub proof fn lemma_not_in_child(
    o: Option<Box<QuadNode>>,
    x: int,
    y: int,
    w: int,
    h: int,
    p: (u32, u32),
)
    requires
        child_wf(o, x, y, w, h),
        !in_rect(p, x, y, w, h),
    ensures
        !opt_points(o).contains(p),
{
    match o {
        Some(n) => {
            lemma_points_in_rect(*n);
            if n.points().contains(p) {
                assert(in_rect(p, x, y, w, h));
            }
        },
        None => {
            assert(!Seq::<(u32, u32)>::empty().contains(p));
        },
    }
}

/// Each existing child covers strictly less area than its parent.
pub proof fn lemma_child_area_smaller(n: QuadNode)
    requires
        n.wf(),
    ensures
        n.a is Some ==> (n.a->Some_0).width * (n.a->Some_0).height < n.width * n.height,
        n.b is Some ==> (n.b->Some_0).width * (n.b->Some_0).height < n.width * n.height,
        n.c is Some ==> (n.c->Some_0).width * (n.c->Some_0).height < n.width * n.height,
        n.d is Some ==> (n.d->Some_0).width * (n.d->Some_0).height < n.width * n.height,
{
    let w = n.width as int;
    let h = n.height as int;
    if n.a is Some {
        let c = *n.a->Some_0;
        assert(c.wf());
        assert(c.width * c.height < w * h) by (nonlinear_arith)
            requires
                c.width == w / 2,
                c.height == h / 2,
                1 <= c.width,
                1 <= c.height,
                1 <= w,
                1 <= h,
        ;
    }
    if n.b is Some {
        let c = *n.b->Some_0;
        assert(c.wf());
        assert(c.width * c.height < w * h) by (nonlinear_arith)
            requires
                c.width == w - w / 2,
                c.height == h / 2,
                1 <= c.width,
                1 <= c.height,
                1 <= w,
                1 <= h,
        ;
    }
    if n.c is Some {
        let c = *n.c->Some_0;
        assert(c.wf());
        assert(c.width * c.height < w * h) by (nonlinear_arith)
            requires
                c.width == w / 2,
                c.height == h - h / 2,
                1 <= c.width,
                1 <= c.height,
                1 <= w,
                1 <= h,
        ;
    }
    if n.d is Some {
        let c = *n.d->Some_0;
        assert(c.wf());
        assert(!(n.width == 1 && n.height == 1));
        assert(c.width * c.height < w * h) by (nonlinear_arith)
            requires
                c.width == w - w / 2,
                c.height == h - h / 2,
                1 <= c.width,
                1 <= c.height,
                1 <= w,
                1 <= h,
                !(w == 1 && h == 1),
        ;
    }
}

// ---------------------------------------------------------------------------
// Lemmas about sequences of points and of rectangles (continued).
// ---------------------------------------------------------------------------
/// Membership in a concatenation is membership in either part.
pub proof fn lemma_concat_contains<T>(s1: Seq<T>, s2: Seq<T>)
    ensures
        forall|v: T| #[trigger] (s1 + s2).contains(v) <==> s1.contains(v) || s2.contains(v),
{
    assert forall|v: T| #[trigger] (s1 + s2).contains(v) implies s1.contains(v) || s2.contains(v) by {
        let i = choose|i: int| 0 <= i < (s1 + s2).len() && (s1 + s2)[i] == v;
        if i < s1.len() {
            assert(s1[i] == v);
        } else {
            assert(s2[i - s1.len()] == v);
        }
    }
    assert forall|v: T| s1.contains(v) || s2.contains(v) implies #[trigger] (s1 + s2).contains(v) by {
        if s1.contains(v) {
            let i = choose|i: int| 0 <= i < s1.len() && s1[i] == v;
            assert((s1 + s2)[i] == v);
        } else {
            let i = choose|i: int| 0 <= i < s2.len() && s2[i] == v;
            assert((s1 + s2)[s1.len() + i] == v);
        }
    }
}

/// Membership in a subtree's points is membership in the own list or in one
/// of the children.
pub proof fn lemma_points_decompose(n: QuadNode)
    ensures
        forall|p: (u32, u32)| #[trigger]
            n.points().contains(p) <==> n.data@.contains(p) || opt_points(n.a).contains(p)
                || opt_points(n.b).contains(p) || opt_points(n.c).contains(p) || opt_points(
                n.d,
            ).contains(p),
{
    lemma_concat_contains(self_data_abc(n), opt_points(n.d));
    lemma_concat_contains(self_data_ab(n), opt_points(n.c));
    lemma_concat_contains(self_data_a(n), opt_points(n.b));
    lemma_concat_contains(n.data@, opt_points(n.a));
}

/// First two summands of `points`.
spec fn self_data_a(n: QuadNode) -> Seq<(u32, u32)> {
    n.data@ + opt_points(n.a)
}

/// First three summands of `points`.
spec fn self_data_ab(n: QuadNode) -> Seq<(u32, u32)> {
    n.data@ + opt_points(n.a) + opt_points(n.b)
}

/// First four summands of `points`.
spec fn self_data_abc(n: QuadNode) -> Seq<(u32, u32)> {
    n.data@ + opt_points(n.a) + opt_points(n.b) + opt_points(n.c)
}

/// Every point of a well-formed subtree lies inside its rectangle.
pub proof fn lemma_points_in_rect(n: QuadNode)
    requires
        n.wf(),
    ensures
        forall|p: (u32, u32)| #[trigger]
            n.points().contains(p) ==> in_rect(
                p,
                n.x as int,
                n.y as int,
                n.width as int,
                n.height as int,
            ),
    decreases n,
{
    lemma_points_decompose(n);
    assert forall|p: (u32, u32)| #[trigger] n.points().contains(p) implies in_rect(
        p,
        n.x as int,
        n.y as int,
        n.width as int,
        n.height as int,
    ) by {
        if n.data@.contains(p) {
            let i = choose|i: int| 0 <= i < n.data@.len() && n.data@[i] == p;
            assert(in_rect(n.data@[i], n.x as int, n.y as int, n.width as int, n.height as int));
        } else if opt_points(n.a).contains(p) {
            let child = *n.a->Some_0;
            lemma_points_in_rect(child);
            assert(child.points().contains(p));
        } else if opt_points(n.b).contains(p) {
            let child = *n.b->Some_0;
            lemma_points_in_rect(child);
            assert(child.points().contains(p));
        } else if opt_points(n.c).contains(p) {
            let child = *n.c->Some_0;
            lemma_points_in_rect(child);
            assert(child.points().contains(p));
        } else {
            let child = *n.d->Some_0;
            lemma_points_in_rect(child);
            assert(child.points().contains(p));
        }
    }
}

/// With all points at 1-by-1 leaves, a subtree holds at most one point per
/// pixel of its rectangle.
pub proof fn lemma_points_len_le_area(n: QuadNode)
    requires
        n.wf(),
        n.at_leaves(),
    ensures
        n.points().len() <= n.width * n.height,
    decreases n,
{
    if n.width == 1 && n.height == 1 {
        assert(n.points().len() == n.data@.len());
    } else {
        let w = n.width as int;
        let h = n.height as int;
        assert(n.data@.len() == 0);
        match n.a {
            Some(child) => {
                lemma_points_len_le_area(*child);
            },
            None => {},
        }
        match n.b {
            Some(child) => {
                lemma_points_len_le_area(*child);
            },
            None => {},
        }
        match n.c {
            Some(child) => {
                lemma_points_len_le_area(*child);
            },
            None => {},
        }
        match n.d {
            Some(child) => {
                lemma_points_len_le_area(*child);
            },
            None => {},
        }
        assert((w / 2) * (h / 2) + (w - w / 2) * (h / 2) + (w / 2) * (h - h / 2) + (w - w / 2) * (h
            - h / 2) == w * h) by (nonlinear_arith);
    }
}


/// Rectangles within an inner rectangle are within any enclosing one.
proof fn lemma_within_weaken(
    s: Seq<(u32, u32, u32, u32)>,
    x1: int,
    y1: int,
    w1: int,
    h1: int,
    x2: int,
    y2: int,
    w2: int,
    h2: int,
)
    requires
        all_regions_within(s, x1, y1, w1, h1),
        x2 <= x1,
        x1 + w1 <= x2 + w2,
        y2 <= y1,
        y1 + h1 <= y2 + h2,
    ensures
        all_regions_within(s, x2, y2, w2, h2),
{
    assert forall|i: int| 0 <= i < s.len() implies rect_within(#[trigger] s[i], x2, y2, w2, h2) by {
        assert(rect_within(s[i], x1, y1, w1, h1));
    }
}

/// Concatenation preserves `all_regions_within`.
proof fn lemma_within_concat(
    s1: Seq<(u32, u32, u32, u32)>,
    s2: Seq<(u32, u32, u32, u32)>,
    x: int,
    y: int,
    w: int,
    h: int,
)
    requires
        all_regions_within(s1, x, y, w, h),
        all_regions_within(s2, x, y, w, h),
    ensures
        all_regions_within(s1 + s2, x, y, w, h),
{
    assert forall|i: int| 0 <= i < (s1 + s2).len() implies rect_within(
        #[trigger] (s1 + s2)[i],
        x,
        y,
        w,
        h,
    ) by {
        if i < s1.len() {
            assert(rect_within(s1[i], x, y, w, h));
        } else {
            assert(rect_within(s2[i - s1.len()], x, y, w, h));
        }
    }
}

/// Every emitted rectangle of a well-formed subtree is non-empty and lies
/// inside the subtree's rectangle.
pub proof fn lemma_regions_within(n: QuadNode)
    requires
        n.wf(),
    ensures
        all_regions_within(
            n.spec_regions(),
            n.x as int,
            n.y as int,
            n.width as int,
            n.height as int,
        ),
        forall|i: int| #![trigger n.spec_regions()[i]]
            0 <= i < n.spec_regions().len() ==> 1 <= n.spec_regions()[i].2 && 1
                <= n.spec_regions()[i].3,
    decreases n,
{
    let x = n.x as int;
    let y = n.y as int;
    let w = n.width as int;
    let h = n.height as int;
    if n.data@.len() > 0 {
        assert(rect_within(n.spec_regions()[0], x, y, w, h));
    } else {
        let ra = opt_regions(n.a);
        let rb = opt_regions(n.b);
        let rc = opt_regions(n.c);
        let rd = opt_regions(n.d);
        match n.a {
            Some(child) => {
                lemma_regions_within(*child);
                lemma_within_weaken(ra, x, y, w / 2, h / 2, x, y, w, h);
            },
            None => {},
        }
        match n.b {
            Some(child) => {
                lemma_regions_within(*child);
                lemma_within_weaken(rb, x + w / 2, y, w - w / 2, h / 2, x, y, w, h);
            },
            None => {},
        }
        match n.c {
            Some(child) => {
                lemma_regions_within(*child);
                lemma_within_weaken(rc, x, y + h / 2, w / 2, h - h / 2, x, y, w, h);
            },
            None => {},
        }
        match n.d {
            Some(child) => {
                lemma_regions_within(*child);
                lemma_within_weaken(rd, x + w / 2, y + h / 2, w - w / 2, h - h / 2, x, y, w, h);
            },
            None => {},
        }
        lemma_within_concat(ra, rb, x, y, w, h);
        lemma_within_concat(ra + rb, rc, x, y, w, h);
        lemma_within_concat(ra + rb + rc, rd, x, y, w, h);
        assert forall|i: int| 0 <= i < n.spec_regions().len() implies 1 <= n.spec_regions()[i].2
            && 1 <= n.spec_regions()[i].3 by {
            let s = n.spec_regions();
            if i < ra.len() {
                assert(s[i] == ra[i]);
            } else if i < ra.len() + rb.len() {
                assert(s[i] == rb[i - ra.len()]);
            } else if i < ra.len() + rb.len() + rc.len() {
                assert(s[i] == rc[i - ra.len() - rb.len()]);
            } else {
                assert(s[i] == rd[i - ra.len() - rb.len() - rc.len()]);
            }
        }
    }
}

/// After reduction, every point of the subtree lies inside some emitted
/// rectangle.
pub proof fn lemma_regions_cover(n: QuadNode)
    requires
        n.wf(),
        n.reduced(),
    ensures
        forall|p: (u32, u32)| #[trigger]
            n.points().contains(p) ==> exists|i: int|
                0 <= i < n.spec_regions().len() && rect_contains(n.spec_regions()[i], p),
    decreases n,
{
    lemma_points_decompose(n);
    assert forall|p: (u32, u32)| #[trigger] n.points().contains(p) implies exists|i: int|
        0 <= i < n.spec_regions().len() && rect_contains(n.spec_regions()[i], p) by {
        let s = n.spec_regions();
        if n.data@.len() > 0 {
            let j = choose|j: int| 0 <= j < n.data@.len() && n.data@[j] == p;
            assert(in_rect(n.data@[j], n.x as int, n.y as int, n.width as int, n.height as int));
            assert(rect_contains(s[0], p));
        } else {
            let ra = opt_regions(n.a);
            let rb = opt_regions(n.b);
            let rc = opt_regions(n.c);
            let rd = opt_regions(n.d);
            if opt_points(n.a).contains(p) {
                let child = *n.a->Some_0;
                assert(child.points().contains(p));
                assert(ra == child.spec_regions());
                lemma_regions_cover(child);
                let j = choose|j: int|
                    0 <= j < child.spec_regions().len() && rect_contains(
                        child.spec_regions()[j],
                        p,
                    );
                assert(s[j] == ra[j]);
                assert(rect_contains(s[j], p));
            } else if opt_points(n.b).contains(p) {
                let child = *n.b->Some_0;
                assert(child.points().contains(p));
                assert(rb == child.spec_regions());
                lemma_regions_cover(child);
                let j = choose|j: int|
                    0 <= j < child.spec_regions().len() && rect_contains(
                        child.spec_regions()[j],
                        p,
                    );
                assert(s[ra.len() + j] == rb[j]);
                assert(rect_contains(s[ra.len() + j], p));
            } else if opt_points(n.c).contains(p) {
                let child = *n.c->Some_0;
                assert(child.points().contains(p));
                assert(rc == child.spec_regions());
                lemma_regions_cover(child);
                let j = choose|j: int|
                    0 <= j < child.spec_regions().len() && rect_contains(
                        child.spec_regions()[j],
                        p,
                    );
                assert(s[ra.len() + rb.len() + j] == rc[j]);
                assert(rect_contains(s[ra.len() + rb.len() + j], p));
            } else {
                let child = *n.d->Some_0;
                assert(child.points().contains(p));
                assert(rd == child.spec_regions());
                lemma_regions_cover(child);
                let j = choose|j: int|
                    0 <= j < child.spec_regions().len() && rect_contains(
                        child.spec_regions()[j],
                        p,
                    );
                assert(s[ra.len() + rb.len() + rc.len() + j] == rd[j]);
                assert(rect_contains(s[ra.len() + rb.len() + rc.len() + j], p));
            }
        }
    }
}

/// Rectangle lists confined to two disjoint rectangles are elementwise
/// disjoint.
proof fn lemma_seqs_disjoint_from_rects(
    s1: Seq<(u32, u32, u32, u32)>,
    s2: Seq<(u32, u32, u32, u32)>,
    ax: int,
    ay: int,
    aw: int,
    ah: int,
    bx: int,
    by: int,
    bw: int,
    bh: int,
)
    requires
        all_regions_within(s1, ax, ay, aw, ah),
        all_regions_within(s2, bx, by, bw, bh),
        ax + aw <= bx || bx + bw <= ax || ay + ah <= by || by + bh <= ay,
    ensures
        region_seqs_disjoint(s1, s2),
{
    assert forall|i: int, j: int| 0 <= i < s1.len() && 0 <= j < s2.len() implies rects_disjoint(
        #[trigger] s1[i],
        #[trigger] s2[j],
    ) by {
        assert(rect_within(s1[i], ax, ay, aw, ah));
        assert(rect_within(s2[j], bx, by, bw, bh));
    }
}

/// Pairwise disjointness survives concatenation when the parts are disjoint
/// from each other.
proof fn lemma_pairwise_concat(s1: Seq<(u32, u32, u32, u32)>, s2: Seq<(u32, u32, u32, u32)>)
    requires
        regions_pairwise_disjoint(s1),
        regions_pairwise_disjoint(s2),
        region_seqs_disjoint(s1, s2),
    ensures
        regions_pairwise_disjoint(s1 + s2),
{
    assert forall|i: int, j: int|
        0 <= i < (s1 + s2).len() && 0 <= j < (s1 + s2).len() && i != j implies rects_disjoint(
        #[trigger] (s1 + s2)[i],
        #[trigger] (s1 + s2)[j],
    ) by {
        let n1 = s1.len() as int;
        if i < n1 && j < n1 {
            assert(rects_disjoint(s1[i], s1[j]));
        } else if i < n1 && j >= n1 {
            assert(rects_disjoint(s1[i], s2[j - n1]));
        } else if i >= n1 && j < n1 {
            assert(rects_disjoint(s1[j], s2[i - n1]));
        } else {
            assert(rects_disjoint(s2[i - n1], s2[j - n1]));
        }
    }
}

/// Elementwise disjointness from a third list survives concatenation.
proof fn lemma_seqs_disjoint_concat_left(
    s1: Seq<(u32, u32, u32, u32)>,
    s2: Seq<(u32, u32, u32, u32)>,
    s3: Seq<(u32, u32, u32, u32)>,
)
    requires
        region_seqs_disjoint(s1, s3),
        region_seqs_disjoint(s2, s3),
    ensures
        region_seqs_disjoint(s1 + s2, s3),
{
    assert forall|i: int, j: int|
        0 <= i < (s1 + s2).len() && 0 <= j < s3.len() implies rects_disjoint(
        #[trigger] (s1 + s2)[i],
        #[trigger] s3[j],
    ) by {
        if i < s1.len() {
            assert(rects_disjoint(s1[i], s3[j]));
        } else {
            assert(rects_disjoint(s2[i - s1.len()], s3[j]));
        }
    }
}

/// The emitted rectangles of a well-formed subtree are pairwise disjoint.
pub proof fn lemma_regions_disjoint(n: QuadNode)
    requires
        n.wf(),
    ensures
        regions_pairwise_disjoint(n.spec_regions()),
    decreases n,
{
    if n.data@.len() > 0 {
    } else {
        let x = n.x as int;
        let y = n.y as int;
        let w = n.width as int;
        let h = n.height as int;
        let ra = opt_regions(n.a);
        let rb = opt_regions(n.b);
        let rc = opt_regions(n.c);
        let rd = opt_regions(n.d);
        match n.a {
            Some(child) => {
                lemma_regions_within(*child);
                lemma_regions_disjoint(*child);
            },
            None => {},
        }
        match n.b {
            Some(child) => {
                lemma_regions_within(*child);
                lemma_regions_disjoint(*child);
            },
            None => {},
        }
        match n.c {
            Some(child) => {
                lemma_regions_within(*child);
                lemma_regions_disjoint(*child);
            },
            None => {},
        }
        match n.d {
            Some(child) => {
                lemma_regions_within(*child);
                lemma_regions_disjoint(*child);
            },
            None => {},
        }
        lemma_seqs_disjoint_from_rects(
            ra, rb, x, y, w / 2, h / 2, x + w / 2, y, w - w / 2, h / 2,
        );
        lemma_seqs_disjoint_from_rects(
            ra, rc, x, y, w / 2, h / 2, x, y + h / 2, w / 2, h - h / 2,
        );
        lemma_seqs_disjoint_from_rects(
            ra, rd, x, y, w / 2, h / 2, x + w / 2, y + h / 2, w - w / 2, h - h / 2,
        );
        lemma_seqs_disjoint_from_rects(
            rb, rc, x + w / 2, y, w - w / 2, h / 2, x, y + h / 2, w / 2, h - h / 2,
        );
        lemma_seqs_disjoint_from_rects(
            rb, rd, x + w / 2, y, w - w / 2, h / 2, x + w / 2, y + h / 2, w - w / 2, h - h / 2,
        );
        lemma_seqs_disjoint_from_rects(
            rc, rd, x, y + h / 2, w / 2, h - h / 2, x + w / 2, y + h / 2, w - w / 2, h - h / 2,
        );
        lemma_pairwise_concat(ra, rb);
        lemma_seqs_disjoint_concat_left(ra, rb, rc);
        lemma_pairwise_concat(ra + rb, rc);
        lemma_seqs_disjoint_concat_left(ra + rb, rc, rd);
        lemma_pairwise_concat(ra + rb + rc, rd);
    }
}


/// Some point of the subtree lies inside rectangle `r`.
pub open spec fn some_point_in(n: QuadNode, r: (u32, u32, u32, u32)) -> bool {
    exists|p: (u32, u32)| #[trigger] n.points().contains(p) && rect_contains(r, p)
}

/// After reduction, every emitted rectangle holds at least one point of the
/// subtree: emission stops exactly at point-holding nodes, whose own points
/// lie inside their rectangle.
pub proof fn lemma_regions_have_points(n: QuadNode)
    requires
        n.wf(),
        n.reduced(),
    ensures
        forall|j: int| #![trigger n.spec_regions()[j]]
            0 <= j < n.spec_regions().len() ==> some_point_in(n, n.spec_regions()[j]),
    decreases n,
{
    lemma_points_decompose(n);
    assert forall|j: int| #![trigger n.spec_regions()[j]]
        0 <= j < n.spec_regions().len() implies some_point_in(n, n.spec_regions()[j]) by {
        if n.data@.len() > 0 {
            let p = n.data@[0];
            assert(n.data@.contains(p));
            assert(n.points().contains(p));
            assert(in_rect(p, n.x as int, n.y as int, n.width as int, n.height as int));
            assert(rect_contains(n.spec_regions()[0], p));
        } else {
            let ra = opt_regions(n.a);
            let rb = opt_regions(n.b);
            let rc = opt_regions(n.c);
            let rd = opt_regions(n.d);
            if j < ra.len() {
                let child = *n.a->Some_0;
                assert(ra == child.spec_regions());
                lemma_regions_have_points(child);
                assert(n.spec_regions()[j] == ra[j]);
                assert(some_point_in(child, child.spec_regions()[j]));
                let p = choose|p: (u32, u32)|
                    #[trigger] child.points().contains(p) && rect_contains(
                        child.spec_regions()[j],
                        p,
                    );
                assert(opt_points(n.a).contains(p));
                assert(n.points().contains(p));
                assert(rect_contains(n.spec_regions()[j], p));
            } else if j < ra.len() + rb.len() {
                let child = *n.b->Some_0;
                assert(rb == child.spec_regions());
                lemma_regions_have_points(child);
                assert(n.spec_regions()[j] == rb[j - ra.len()]);
                assert(some_point_in(child, child.spec_regions()[j - ra.len()]));
                let p = choose|p: (u32, u32)|
                    #[trigger] child.points().contains(p) && rect_contains(
                        child.spec_regions()[j - ra.len()],
                        p,
                    );
                assert(opt_points(n.b).contains(p));
                assert(n.points().contains(p));
                assert(rect_contains(n.spec_regions()[j], p));
            } else if j < ra.len() + rb.len() + rc.len() {
                let child = *n.c->Some_0;
                assert(rc == child.spec_regions());
                lemma_regions_have_points(child);
                assert(n.spec_regions()[j] == rc[j - ra.len() - rb.len()]);
                assert(some_point_in(child, child.spec_regions()[j - ra.len() - rb.len()]));
                let p = choose|p: (u32, u32)|
                    #[trigger] child.points().contains(p) && rect_contains(
                        child.spec_regions()[j - ra.len() - rb.len()],
                        p,
                    );
                assert(opt_points(n.c).contains(p));
                assert(n.points().contains(p));
                assert(rect_contains(n.spec_regions()[j], p));
            } else {
                let child = *n.d->Some_0;
                assert(rd == child.spec_regions());
                lemma_regions_have_points(child);
                assert(n.spec_regions()[j] == rd[j - ra.len() - rb.len() - rc.len()]);
                assert(some_point_in(child, child.spec_regions()[j - ra.len() - rb.len() - rc.len()]));
                let p = choose|p: (u32, u32)|
                    #[trigger] child.points().contains(p) && rect_contains(
                        child.spec_regions()[j - ra.len() - rb.len() - rc.len()],
                        p,
                    );
                assert(opt_points(n.d).contains(p));
                assert(n.points().contains(p));
                assert(rect_contains(n.spec_regions()[j], p));
            }
        }
    }
}
} // verus!
