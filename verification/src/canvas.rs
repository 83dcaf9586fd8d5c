use vstd::prelude::*;

use crate::codec::be32_val;
use crate::codec::snapshot_bytes;
use crate::quad::QuadNode;
use crate::quad::rect_contains;
use crate::quad::rects_disjoint;
use crate::quad::rect_within;
use crate::quad::lemma_regions_within;
use crate::quad::lemma_regions_cover;
use crate::quad::lemma_regions_disjoint;
use crate::quad::lemma_regions_have_points;

verus! {

/// How many pending dirty coordinates one drain consumes: all of them, or
/// at most the given budget.
pub open spec fn drain_count(dirty_len: int, max_pixels: Option<usize>) -> int {
    match max_pixels {
        Some(m) => if m < dirty_len {
            m as int
        } else {
            dirty_len
        },
        None => dirty_len,
    }
}

/// The rectangle a region covers.
pub open spec fn region_rect(r: Region) -> (u32, u32, u32, u32) {
    (r.x, r.y, r.w, r.h)
}

/// Some region of `rs` covers the point `p`.
pub open spec fn covered_by(p: (u32, u32), rs: Seq<Region>) -> bool {
    exists|j: int| 0 <= j < rs.len() && rect_contains(region_rect(#[trigger] rs[j]), p)
}

/// Region `r` covers at least one of the first `k` coordinates of the
/// dirty queue.
pub open spec fn hits_drained(r: Region, dirty: Seq<(u32, u32)>, k: int) -> bool {
    exists|i: int| 0 <= i < k && rect_contains(region_rect(r), #[trigger] dirty[i])
}

/// A rectangle of the canvas together with the RGB bytes that cover it,
/// row by row, three bytes per pixel.
pub struct Region {
    pub x: u32,
    pub y: u32,
    pub w: u32,
    pub h: u32,
    pub data: Vec<u8>,
}

/// Mathematical model of a canvas: the dimensions, the flat row-major RGB
/// byte sequence, and the queue of coordinates changed since the last drain,
/// oldest first.
pub struct CanvasView {
    pub width: u32,
    pub height: u32,
    pub pixels: Seq<u8>,
    pub dirty: Seq<(u32, u32)>,
}

impl CanvasView {
    /// A coordinate lies on the canvas.
    pub open spec fn in_bounds(self, x: u32, y: u32) -> bool {
        x < self.width && y < self.height
    }

    /// Byte offset of the first (red) byte of pixel `(x, y)`.
    pub open spec fn pix(self, x: u32, y: u32) -> int {
        (y * self.width + x) * 3
    }

    /// Well-formedness: positive dimensions, a byte count that fits `u32`,
    /// a buffer of exactly `width * height * 3` bytes, and a duplicate-free
    /// dirty queue of on-canvas coordinates.
    pub open spec fn wf(self) -> bool {
        &&& 1 <= self.width
        &&& 1 <= self.height
        &&& self.width * self.height * 3 <= u32::MAX
        &&& self.pixels.len() == self.width * self.height * 3
        &&& forall|i: int|
            0 <= i < self.dirty.len() ==> self.in_bounds(
                #[trigger] self.dirty[i].0,
                self.dirty[i].1,
            )
        &&& forall|i: int, j: int|
            0 <= i < j < self.dirty.len() ==> #[trigger] self.dirty[i] != #[trigger] self.dirty[j]
    }

    /// A blank all-white canvas with nothing dirty.
    pub open spec fn blank(width: u32, height: u32) -> CanvasView {
        CanvasView {
            width,
            height,
            pixels: Seq::new((width * height * 3) as nat, |i: int| 255u8),
            dirty: Seq::empty(),
        }
    }

    /// Effect of one `set_pixel` call: out of bounds is a silent no-op;
    /// otherwise the three bytes are overwritten and the coordinate joins
    /// the dirty queue unless it is already pending.
    pub open spec fn set_pixel(self, x: u32, y: u32, r: u8, g: u8, b: u8) -> CanvasView {
        if !self.in_bounds(x, y) {
            self
        } else {
            let i = self.pix(x, y);
            CanvasView {
                width: self.width,
                height: self.height,
                pixels: self.pixels.update(i, r).update(i + 1, g).update(i + 2, b),
                dirty: if self.dirty.contains((x, y)) {
                    self.dirty
                } else {
                    self.dirty.push((x, y))
                },
            }
        }
    }

    /// Effect of a resize: the top-left overlap is copied, every new byte is
    /// white, and the dirty queue is cleared (clients get a full snapshot
    /// after any resize, so per-pixel deltas would be redundant).
    pub open spec fn resized(self, new_w: u32, new_h: u32) -> CanvasView {
        CanvasView {
            width: new_w,
            height: new_h,
            pixels: Seq::new(
                (new_w * new_h * 3) as nat,
                |i: int|
                    {
                        let k = i % 3;
                        let px = (i / 3) % (new_w as int);
                        let py = (i / 3) / (new_w as int);
                        if px < self.width && py < self.height {
                            self.pixels[(py * self.width + px) * 3 + k]
                        } else {
                            255u8
                        }
                    },
            ),
            dirty: Seq::empty(),
        }
    }

    /// The bytes of the rectangle `(x, y, w, h)`, row by row.
    pub open spec fn region_bytes(self, x: u32, y: u32, w: u32, h: u32) -> Seq<u8> {
        Seq::new(
            (w * h * 3) as nat,
            |i: int|
                {
                    let k = i % 3;
                    let rx = (i / 3) % (w as int);
                    let ry = (i / 3) / (w as int);
                    self.pixels[((y + ry) * self.width + (x + rx)) * 3 + k]
                },
        )
    }
}

/// The authoritative pixel grid plus the set of coordinates changed since
/// the last delta drain.
pub struct Canvas {
    pub width: u32,
    pub height: u32,
    pub pixels: Vec<u8>,
    changed_pixels: Vec<(u32, u32)>,
}

impl View for Canvas {
    type V = CanvasView;

    closed spec fn view(&self) -> CanvasView {
        CanvasView {
            width: self.width,
            height: self.height,
            pixels: self.pixels@,
            dirty: self.changed_pixels@,
        }
    }
}

impl Canvas {
    /// The canvas width in pixels.
    pub fn width(&self) -> (w: u32)
        ensures
            w == self@.width,
    {
        self.width
    }

    /// The canvas height in pixels.
    pub fn height(&self) -> (h: u32)
        ensures
            h == self@.height,
    {
        self.height
    }

    pub fn new(width: u32, height: u32, pixels: Vec<u8>) -> (c: Canvas)
        ensures
            c@ == (CanvasView { width, height, pixels: pixels@, dirty: Seq::<(u32, u32)>::empty() }),
    {
        Canvas { width, height, pixels, changed_pixels: Vec::new() }
    }

    pub fn blank(width: u32, height: u32) -> (c: Canvas)
        requires
            1 <= width,
            1 <= height,
            width * height * 3 <= u32::MAX,
        ensures
            c@ == CanvasView::blank(width, height),
            c@.wf(),
    {
        let count = width * height * 3;
        let pixels: Vec<u8> = vec![255u8; count as usize];
        let c = Canvas::new(width, height, pixels);
        proof {
            assert(c@.pixels =~= CanvasView::blank(width, height).pixels);
            assert(c@ =~= CanvasView::blank(width, height));
        }
        c
    }

    pub fn set_pixel(&mut self, x: u32, y: u32, r: u8, g: u8, b: u8)
        requires
            old(self)@.wf(),
        ensures
            final(self)@ == old(self)@.set_pixel(x, y, r, g, b),
            final(self)@.wf(),
    {
        if x >= self.width || y >= self.height {
            return ;
        }
        let mut found = false;
        let n = self.changed_pixels.len();
        let mut i: usize = 0;
        while i < n
            invariant
                n == self.changed_pixels.len(),
                i <= n,
                found <==> exists|j: int|
                    0 <= j < i && #[trigger] self.changed_pixels@[j] == (x, y),
            decreases n - i,
        {
            if self.changed_pixels[i].0 == x && self.changed_pixels[i].1 == y {
                found = true;
            }
            i += 1;
        }
        assert(found <==> self.changed_pixels@.contains((x, y)));
        if !found {
            self.changed_pixels.push((x, y));
        }
        assert(y * self.width + x < self.width * self.height) by (nonlinear_arith)
            requires
                x < self.width,
                y < self.height,
        ;
        let index = (y * self.width + x) * 3;
        let index = index as usize;
        self.pixels[index] = r;
        self.pixels[index + 1] = g;
        self.pixels[index + 2] = b;
        proof {
            let post = old(self)@.set_pixel(x, y, r, g, b);
            assert(self@.pixels =~= post.pixels);
            assert(self@ =~= post);
        }
    }

    /// Bounds-checked extraction of a rectangle, row by row; `None` when any
    /// corner exceeds the canvas.
    pub fn region(&self, x: u32, y: u32, w: u32, h: u32) -> (r: Option<Region>)
        requires
            self@.wf(),
        ensures
            r is Some <==> x < self@.width && x + w <= self@.width && y < self@.height && y + h
                <= self@.height,
            r is Some ==> {
                let reg = r->Some_0;
                &&& reg.x == x
                &&& reg.y == y
                &&& reg.w == w
                &&& reg.h == h
                &&& reg.data@ == self@.region_bytes(x, y, w, h)
            },
    {
        if x >= self.width || self.width - x < w || y >= self.height || self.height - y < h {
            return None;
        }
        assert(w * h * 3 <= self.width * self.height * 3) by (nonlinear_arith)
            requires
                w <= self.width,
                h <= self.height,
        ;
        let mut data: Vec<u8> = Vec::new();
        let ghost target = self@.region_bytes(x, y, w, h);
        let mut ry: u32 = 0;
        while ry < h
            invariant
                self@.wf(),
                x < self.width || w == 0,
                x + w <= self.width,
                y + h <= self.height,
                ry <= h,
                target == self@.region_bytes(x, y, w, h),
                data@.len() == ry * w * 3,
                forall|i: int| 0 <= i < data@.len() ==> data@[i] == target[i],
            decreases h - ry,
        {
            let mut rx: u32 = 0;
            while rx < w
                invariant
                    self@.wf(),
                    x + w <= self.width,
                    y + h <= self.height,
                    ry < h,
                    rx <= w,
                    target == self@.region_bytes(x, y, w, h),
                    data@.len() == ry * w * 3 + rx * 3,
                    forall|i: int| 0 <= i < data@.len() ==> data@[i] == target[i],
                decreases w - rx,
            {
                assert((y + ry) * self.width + (x + rx) < self.width * self.height)
                    by (nonlinear_arith)
                    requires
                        x + rx < self.width,
                        y + ry < self.height,
                ;
                let index = ((y + ry) * self.width + (x + rx)) * 3;
                let index = index as usize;
                let ghost di = data@.len() as int;
                let p0 = self.pixels[index];
                let p1 = self.pixels[index + 1];
                let p2 = self.pixels[index + 2];
                data.push(p0);
                data.push(p1);
                data.push(p2);
                proof {
                    assert(di == (ry * w + rx) * 3) by (nonlinear_arith)
                        requires
                            di == ry * w * 3 + rx * 3,
                    ;
                    lemma_region_byte(self@, x, y, w, h, rx as int, ry as int, 0);
                    lemma_region_byte(self@, x, y, w, h, rx as int, ry as int, 1);
                    lemma_region_byte(self@, x, y, w, h, rx as int, ry as int, 2);
                    assert(data@[di] == target[di]);
                    assert(data@[di + 1] == target[di + 1]);
                    assert(data@[di + 2] == target[di + 2]);
                    assert(data@.len() == ry * w * 3 + (rx + 1) * 3) by (nonlinear_arith)
                        requires
                            data@.len() == di + 3,
                            di == ry * w * 3 + rx * 3,
                    ;
                }
                rx += 1;
            }
            proof {
                assert((ry + 1) * w * 3 == ry * w * 3 + w * 3) by (nonlinear_arith);
            }
            ry += 1;
        }
        proof {
            assert(data@.len() == h * w * 3) by (nonlinear_arith)
                requires
                    data@.len() == h * w * 3,
            ;
            assert(data@ =~= target);
        }
        Some(Region { x, y, w, h, data })
    }

    /// Resize to `new_w` by `new_h`: keep the top-left overlap, fill the new
    /// area with white, and clear the dirty queue.
    pub fn set_size(&mut self, new_w: u32, new_h: u32)
        requires
            old(self)@.wf(),
            1 <= new_w,
            1 <= new_h,
            new_w * new_h * 3 <= u32::MAX,
        ensures
            final(self)@ == old(self)@.resized(new_w, new_h),
            final(self)@.wf(),
    {
        let ghost target = old(self)@.resized(new_w, new_h);
        let mut new_pixels: Vec<u8> = Vec::new();
        let mut py: u32 = 0;
        while py < new_h
            invariant
                self == old(self),
                self@.wf(),
                new_w * new_h * 3 <= u32::MAX,
                1 <= new_w,
                py <= new_h,
                target == old(self)@.resized(new_w, new_h),
                new_pixels@.len() == py * new_w * 3,
                forall|i: int| 0 <= i < new_pixels@.len() ==> new_pixels@[i] == target.pixels[i],
            decreases new_h - py,
        {
            let mut px: u32 = 0;
            while px < new_w
                invariant
                    self == old(self),
                    self@.wf(),
                    new_w * new_h * 3 <= u32::MAX,
                    py < new_h,
                    px <= new_w,
                    target == old(self)@.resized(new_w, new_h),
                    new_pixels@.len() == py * new_w * 3 + px * 3,
                    forall|i: int|
                        0 <= i < new_pixels@.len() ==> new_pixels@[i] == target.pixels[i],
                decreases new_w - px,
            {
                let ghost di = new_pixels@.len() as int;
                if px < self.width && py < self.height {
                    assert(py * self.width + px < self.width * self.height) by (nonlinear_arith)
                        requires
                            px < self.width,
                            py < self.height,
                    ;
                    let index = ((py * self.width + px) * 3) as usize;
                    let p0 = self.pixels[index];
                    let p1 = self.pixels[index + 1];
                    let p2 = self.pixels[index + 2];
                    new_pixels.push(p0);
                    new_pixels.push(p1);
                    new_pixels.push(p2);
                } else {
                    new_pixels.push(255);
                    new_pixels.push(255);
                    new_pixels.push(255);
                }
                proof {
                    assert(di == (py * new_w + px) * 3) by (nonlinear_arith)
                        requires
                            di == py * new_w * 3 + px * 3,
                    ;
                    lemma_resized_byte(old(self)@, new_w, new_h, px as int, py as int, 0);
                    lemma_resized_byte(old(self)@, new_w, new_h, px as int, py as int, 1);
                    lemma_resized_byte(old(self)@, new_w, new_h, px as int, py as int, 2);
                    assert(new_pixels@[di] == target.pixels[di]);
                    assert(new_pixels@[di + 1] == target.pixels[di + 1]);
                    assert(new_pixels@[di + 2] == target.pixels[di + 2]);
                    assert(new_pixels@.len() == py * new_w * 3 + (px + 1) * 3) by (nonlinear_arith)
                        requires
                            new_pixels@.len() == di + 3,
                            di == py * new_w * 3 + px * 3,
                    ;
                }
                px += 1;
            }
            proof {
                assert((py + 1) * new_w * 3 == py * new_w * 3 + new_w * 3) by (nonlinear_arith);
            }
            py += 1;
        }
        self.width = new_w;
        self.height = new_h;
        self.pixels = new_pixels;
        self.changed_pixels = Vec::new();
        proof {
            assert(new_h * new_w * 3 == new_w * new_h * 3) by (nonlinear_arith);
            assert(self@.pixels =~= target.pixels);
            assert(self@ =~= target);
        }
    }
}

/// The byte of `region_bytes` at pixel `(rx, ry)`, channel `k`, is the
/// canvas byte of pixel `(x + rx, y + ry)`, channel `k`.
proof fn lemma_region_byte(v: CanvasView, x: u32, y: u32, w: u32, h: u32, rx: int, ry: int, k: int)
    requires
        0 <= rx < w,
        0 <= ry < h,
        0 <= k < 3,
    ensures
        v.region_bytes(x, y, w, h)[(ry * w + rx) * 3 + k] == v.pixels[((y + ry) * v.width + (x
            + rx)) * 3 + k],
{
    let i = (ry * w + rx) * 3 + k;
    assert(0 <= i < w * h * 3) by (nonlinear_arith)
        requires
            0 <= rx < w,
            0 <= ry < h,
            0 <= k < 3,
            i == (ry * w + rx) * 3 + k,
    ;
    assert(i % 3 == k && (i / 3) % (w as int) == rx && (i / 3) / (w as int) == ry)
        by (nonlinear_arith)
        requires
            0 <= rx < w,
            0 <= ry < h,
            0 <= k < 3,
            i == (ry * w + rx) * 3 + k,
    ;
}

/// The byte of a resized canvas at pixel `(px, py)`, channel `k`, is the
/// old byte inside the overlap and white outside it.
proof fn lemma_resized_byte(v: CanvasView, new_w: u32, new_h: u32, px: int, py: int, k: int)
    requires
        0 <= px < new_w,
        0 <= py < new_h,
        0 <= k < 3,
    ensures
        v.resized(new_w, new_h).pixels[(py * new_w + px) * 3 + k] == (if px < v.width && py
            < v.height {
            v.pixels[(py * v.width + px) * 3 + k]
        } else {
            255u8
        }),
{
    let i = (py * new_w + px) * 3 + k;
    assert(0 <= i < new_w * new_h * 3) by (nonlinear_arith)
        requires
            0 <= px < new_w,
            0 <= py < new_h,
            0 <= k < 3,
            i == (py * new_w + px) * 3 + k,
    ;
    assert(i % 3 == k && (i / 3) % (new_w as int) == px && (i / 3) / (new_w as int) == py)
        by (nonlinear_arith)
        requires
            0 <= px < new_w,
            0 <= py < new_h,
            0 <= k < 3,
            i == (py * new_w + px) * 3 + k,
    ;
}


impl Canvas {
    /// Drain up to `max_pixels` pending dirty coordinates (all of them when
    /// `None`), oldest first, and coalesce them into rectangular regions by
    /// quadtree reduction.  Every drained coordinate lies in exactly one
    /// returned region; each region stays on the canvas and carries the
    /// current bytes of its rectangle; once more than an eighth of the
    /// canvas was drained, the one returned region is the whole canvas.
    pub fn compile_deltas(&mut self, max_pixels: Option<usize>) -> (regions: Vec<Region>)
        requires
            old(self)@.wf(),
        ensures
            final(self)@.wf(),
            final(self)@.width == old(self)@.width,
            final(self)@.height == old(self)@.height,
            final(self)@.pixels == old(self)@.pixels,
            final(self)@.dirty == old(self)@.dirty.skip(
                drain_count(old(self)@.dirty.len() as int, max_pixels),
            ),
            forall|i: int| #![trigger old(self)@.dirty[i]]
                0 <= i < drain_count(old(self)@.dirty.len() as int, max_pixels) ==> covered_by(
                    old(self)@.dirty[i],
                    regions@,
                ),
            forall|j: int| #![trigger regions@[j]]
                0 <= j < regions@.len() ==> ({
                    let r = regions@[j];
                    &&& 1 <= r.w
                    &&& 1 <= r.h
                    &&& r.x + r.w <= final(self)@.width
                    &&& r.y + r.h <= final(self)@.height
                    &&& r.data@ == final(self)@.region_bytes(r.x, r.y, r.w, r.h)
                }),
            forall|j1: int, j2: int|
                0 <= j1 < regions@.len() && 0 <= j2 < regions@.len() && j1 != j2
                    ==> rects_disjoint(
                    region_rect(#[trigger] regions@[j1]),
                    region_rect(#[trigger] regions@[j2]),
                ),
            forall|j: int| #![trigger regions@[j]]
                0 <= j < regions@.len() ==> hits_drained(
                    regions@[j],
                    old(self)@.dirty,
                    drain_count(old(self)@.dirty.len() as int, max_pixels),
                ),
            8 * drain_count(old(self)@.dirty.len() as int, max_pixels) > old(self)@.width * old(
                self,
            )@.height ==> regions@.len() == 1 && regions@[0].x == 0 && regions@[0].y == 0
                && regions@[0].w == final(self)@.width && regions@[0].h == final(self)@.height,
    {
        let ghost v0 = self@;
        let dirty_len = self.changed_pixels.len();
        let k: usize = match max_pixels {
            Some(m) => if m < dirty_len {
                m
            } else {
                dirty_len
            },
            None => dirty_len,
        };
        proof {
            assert(k == drain_count(v0.dirty.len() as int, max_pixels));
            assert(v0.width * v0.height <= v0.width * v0.height * 3) by (nonlinear_arith)
                requires
                    1 <= v0.width,
                    1 <= v0.height,
            ;
        }
        let mut quad = QuadNode::new(0, 0, self.width, self.height);
        let mut i: usize = 0;
        while i < k
            invariant
                self == old(self),
                self@.wf(),
                i <= k,
                k <= self@.dirty.len(),
                quad.wf(),
                quad.at_leaves(),
                quad.x == 0,
                quad.y == 0,
                quad.width == self@.width,
                quad.height == self@.height,
                forall|p: (u32, u32)| #[trigger]
                    quad.points().contains(p) <==> exists|j: int|
                        0 <= j < i && self@.dirty[j] == p,
                quad.points().len() == i,
            decreases k - i,
        {
            let p = self.changed_pixels[i];
            proof {
                assert(self@.in_bounds(self@.dirty[i as int].0, self@.dirty[i as int].1));
                if quad.points().contains(p) {
                    let j = choose|j: int| 0 <= j < i && self@.dirty[j] == p;
                    assert(self@.dirty[j] != self@.dirty[i as int]);
                    assert(false);
                }
            }
            quad.insert_data(p.0, p.1);
            i += 1;
            proof {
                assert forall|p2: (u32, u32)| #[trigger] quad.points().contains(p2) implies exists|
                    j: int,
                |
                    0 <= j < i && self@.dirty[j] == p2 by {
                    if p2 == p {
                        assert(self@.dirty[i - 1] == p2);
                    }
                }
                assert forall|p2: (u32, u32)|
                    exists|j: int| 0 <= j < i && self@.dirty[j] == p2 implies #[trigger] quad.points(
                ).contains(p2) by {
                    let j = choose|j: int| 0 <= j < i && self@.dirty[j] == p2;
                    if j < i - 1 {
                        assert(exists|j2: int| 0 <= j2 < i - 1 && self@.dirty[j2] == p2);
                    }
                }
            }
        }
        let mut rest: Vec<(u32, u32)> = Vec::new();
        let mut t: usize = k;
        while t < self.changed_pixels.len()
            invariant
                self == old(self),
                k <= t <= self@.dirty.len(),
                rest@ == self@.dirty.subrange(k as int, t as int),
            decreases self@.dirty.len() - t,
        {
            let p = self.changed_pixels[t];
            rest.push(p);
            t += 1;
            proof {
                assert(rest@ =~= self@.dirty.subrange(k as int, t as int));
            }
        }
        proof {
            assert(rest@ =~= v0.dirty.skip(k as int));
        }
        self.changed_pixels = rest;
        proof {
            assert(self@.wf()) by {
                assert(forall|i: int|
                    0 <= i < self@.dirty.len() ==> self@.dirty[i] == v0.dirty[i + k]);
            }
        }
        let count = quad.reduce();
        let ghost qr = quad;
        proof {
            lemma_regions_within(qr);
            lemma_regions_cover(qr);
            lemma_regions_disjoint(qr);
            lemma_regions_have_points(qr);
        }
        let rects = quad.regions();
        let mut out: Vec<Region> = Vec::new();
        let mut ri: usize = 0;
        while ri < rects.len()
            invariant
                self@.wf(),
                self@ == (CanvasView { dirty: self@.dirty, ..v0 }),
                rects@ == qr.spec_regions(),
                qr.x == 0,
                qr.y == 0,
                qr.width == self@.width,
                qr.height == self@.height,
                qr.wf(),
                ri <= rects@.len(),
                out@.len() == ri,
                forall|j: int| #![trigger out@[j]]
                    0 <= j < ri ==> region_rect(out@[j]) == rects@[j] && out@[j].data@
                        == self@.region_bytes(out@[j].x, out@[j].y, out@[j].w, out@[j].h),
            decreases rects@.len() - ri,
        {
            let rr = rects[ri];
            proof {
                lemma_regions_within(qr);
                assert(rect_within(
                    qr.spec_regions()[ri as int],
                    0,
                    0,
                    qr.width as int,
                    qr.height as int,
                ));
                assert(1 <= qr.spec_regions()[ri as int].2 && 1 <= qr.spec_regions()[ri as int].3);
            }
            let reg = match self.region(rr.0, rr.1, rr.2, rr.3) {
                Some(reg) => reg,
                None => vstd::pervasive::unreached(),
            };
            out.push(reg);
            ri += 1;
        }
        proof {
            let k = k as int;
            assert forall|i: int| #![trigger old(self)@.dirty[i]]
                0 <= i < drain_count(old(self)@.dirty.len() as int, max_pixels) implies covered_by(
                old(self)@.dirty[i],
                out@,
            ) by {
                assert(old(self)@.dirty[i] == v0.dirty[i]);
                assert(exists|j: int| 0 <= j < k && v0.dirty[j] == v0.dirty[i]) by {
                    assert(0 <= i < k && v0.dirty[i] == v0.dirty[i]);
                }
                assert(qr.points().contains(v0.dirty[i]));
                let j = choose|j: int|
                    0 <= j < qr.spec_regions().len() && rect_contains(
                        qr.spec_regions()[j],
                        v0.dirty[i],
                    );
                assert(region_rect(out@[j]) == qr.spec_regions()[j]);
                assert(rect_contains(region_rect(out@[j]), v0.dirty[i]));
            }
            assert forall|j: int| #![trigger out@[j]] 0 <= j < out@.len() implies hits_drained(
                out@[j],
                old(self)@.dirty,
                k,
            ) by {
                assert(crate::quad::some_point_in(qr, qr.spec_regions()[j]));
                let p = choose|p: (u32, u32)|
                    #[trigger] qr.points().contains(p) && rect_contains(qr.spec_regions()[j], p);
                let i = choose|i: int| 0 <= i < k && v0.dirty[i] == p;
                assert(region_rect(out@[j]) == qr.spec_regions()[j]);
                assert(rect_contains(region_rect(out@[j]), old(self)@.dirty[i]));
            }
            if 8 * k > v0.width * v0.height {
                assert(qr.data@.len() == count);
                assert(qr.spec_regions() =~= seq![(qr.x, qr.y, qr.width, qr.height)]);
            }
        }
        out
    }
}

/// Effect of applying a list of pixel writes `(x, y, r, g, b)`, in order.
pub open spec fn apply_writes(v: CanvasView, ws: Seq<(u32, u32, u8, u8, u8)>) -> CanvasView
    decreases ws.len(),
{
    if ws.len() == 0 {
        v
    } else {
        apply_writes(v.set_pixel(ws[0].0, ws[0].1, ws[0].2, ws[0].3, ws[0].4), ws.drop_first())
    }
}

/// One pixel write keeps a canvas well-formed and never changes its
/// dimensions or its byte count.
pub proof fn lemma_set_pixel_wf(v: CanvasView, x: u32, y: u32, r: u8, g: u8, b: u8)
    requires
        v.wf(),
    ensures
        v.set_pixel(x, y, r, g, b).wf(),
        v.set_pixel(x, y, r, g, b).width == v.width,
        v.set_pixel(x, y, r, g, b).height == v.height,
        v.set_pixel(x, y, r, g, b).pixels.len() == v.width * v.height * 3,
{
    let post = v.set_pixel(x, y, r, g, b);
    if v.in_bounds(x, y) {
        assert(y * v.width + x < v.width * v.height) by (nonlinear_arith)
            requires
                x < v.width,
                y < v.height,
        ;
        assert(0 <= v.pix(x, y) && v.pix(x, y) + 2 < v.pixels.len());
    }
    assert(post.width == v.width && post.height == v.height);
    assert(post.pixels.len() == v.pixels.len());
    assert(post.pixels.len() == post.width * post.height * 3);
    if v.in_bounds(x, y) && !v.dirty.contains((x, y)) {
        assert forall|i: int, j: int| 0 <= i < j < post.dirty.len() implies #[trigger] post.dirty[i]
            != #[trigger] post.dirty[j] by {
            if j == post.dirty.len() - 1 {
                assert(!v.dirty.contains((x, y)));
                assert(post.dirty[i] == v.dirty[i]);
            }
        }
    }
}

/// Law: however many `set_pixel` calls are applied to a well-formed canvas,
/// the buffer always holds exactly `width * height * 3` bytes (and the
/// canvas stays well-formed, with its dimensions unchanged).
pub proof fn lemma_set_pixel_sequence_preserves_len(
    v: CanvasView,
    ws: Seq<(u32, u32, u8, u8, u8)>,
)
    requires
        v.wf(),
    ensures
        apply_writes(v, ws).wf(),
        apply_writes(v, ws).width == v.width,
        apply_writes(v, ws).height == v.height,
        apply_writes(v, ws).pixels.len() == v.width * v.height * 3,
    decreases ws.len(),
{
    if ws.len() == 0 {
    } else {
        lemma_set_pixel_wf(v, ws[0].0, ws[0].1, ws[0].2, ws[0].3, ws[0].4);
        lemma_set_pixel_sequence_preserves_len(
            v.set_pixel(ws[0].0, ws[0].1, ws[0].2, ws[0].3, ws[0].4),
            ws.drop_first(),
        );
    }
}

/// Law: when the regions of one drain are pairwise disjoint and one of them
/// covers `p`, exactly one of them covers `p`.
pub proof fn lemma_covered_exactly_once(p: (u32, u32), rs: Seq<Region>)
    requires
        covered_by(p, rs),
        forall|j1: int, j2: int|
            0 <= j1 < rs.len() && 0 <= j2 < rs.len() && j1 != j2 ==> rects_disjoint(
                region_rect(#[trigger] rs[j1]),
                region_rect(#[trigger] rs[j2]),
            ),
    ensures
        exists|j: int|
            0 <= j < rs.len() && rect_contains(region_rect(#[trigger] rs[j]), p) && (forall|
                j2: int,
            |
                0 <= j2 < rs.len() && j2 != j ==> !rect_contains(
                    region_rect(#[trigger] rs[j2]),
                    p,
                )),
{
    let j = choose|j: int| 0 <= j < rs.len() && rect_contains(region_rect(#[trigger] rs[j]), p);
    assert forall|j2: int| 0 <= j2 < rs.len() && j2 != j implies !rect_contains(
        region_rect(#[trigger] rs[j2]),
        p,
    ) by {
        assert(rects_disjoint(region_rect(rs[j]), region_rect(rs[j2])));
    }
    assert(0 <= j < rs.len() && rect_contains(region_rect(rs[j]), p) && (forall|j2: int|
        0 <= j2 < rs.len() && j2 != j ==> !rect_contains(region_rect(#[trigger] rs[j2]), p)));
}
impl Canvas {
    /// Serialize the canvas: eight-byte header (width then height, both
    /// big-endian) followed by the raw pixel buffer.
    pub fn to_file(&self) -> (out: Vec<u8>)
        requires
            self@.wf(),
        ensures
            out@ == snapshot_bytes(self@),
    {
        let mut out: Vec<u8> = Vec::new();
        out.push((self.width / 0x1000000) as u8);
        out.push(((self.width / 0x10000) % 0x100) as u8);
        out.push(((self.width / 0x100) % 0x100) as u8);
        out.push((self.width % 0x100) as u8);
        out.push((self.height / 0x1000000) as u8);
        out.push(((self.height / 0x10000) % 0x100) as u8);
        out.push(((self.height / 0x100) % 0x100) as u8);
        out.push((self.height % 0x100) as u8);
        out.extend_from_slice(self.pixels.as_slice());
        proof {
            assert(out@ =~= snapshot_bytes(self@));
        }
        out
    }

    /// Parse a snapshot blob.  `None` when the blob is shorter than the
    /// header, a dimension is zero, the byte count does not match the
    /// header, or the pixel buffer would not fit a 32-bit byte count.
    pub fn from_file(data: Vec<u8>) -> (r: Option<Canvas>)
        ensures
            r is Some <==> ({
                let w = be32_val(data@.subrange(0, 4));
                let h = be32_val(data@.subrange(4, 8));
                &&& data@.len() >= 8
                &&& 1 <= w
                &&& 1 <= h
                &&& w * h * 3 == data@.len() - 8
                &&& w * h * 3 <= u32::MAX
            }),
            r is Some ==> ({
                let c = r->Some_0;
                &&& c@.wf()
                &&& c@.width == be32_val(data@.subrange(0, 4))
                &&& c@.height == be32_val(data@.subrange(4, 8))
                &&& c@.pixels == data@.skip(8)
                &&& c@.dirty == Seq::<(u32, u32)>::empty()
            }),
    {
        let mut data = data;
        if data.len() < 8 {
            return None;
        }
        let width: u32 = (data[0] as u32) * 0x1000000 + (data[1] as u32) * 0x10000 + (data[2]
            as u32) * 0x100 + (data[3] as u32);
        let height: u32 = (data[4] as u32) * 0x1000000 + (data[5] as u32) * 0x10000 + (data[6]
            as u32) * 0x100 + (data[7] as u32);
        proof {
            assert(width == be32_val(data@.subrange(0, 4)));
            assert(height == be32_val(data@.subrange(4, 8)));
        }
        if width == 0 || height == 0 {
            return None;
        }
        let byte_len: u32 = match width.checked_mul(height) {
            Some(wh) => match wh.checked_mul(3) {
                Some(n) => n,
                None => {
                    return None;
                },
            },
            None => {
                return None;
            },
        };
        let pixels = data.split_off(8);
        if byte_len as usize != pixels.len() {
            return None;
        }
        let c = Canvas::new(width, height, pixels);
        Some(c)
    }
}


/// Law: a drain that consumed exactly one coordinate returns exactly one
/// region.  Coverage forces at least one; with every returned region
/// holding a drained coordinate and the regions pairwise disjoint, two
/// regions would share that one coordinate.
pub proof fn lemma_single_drain_single_region(rs: Seq<Region>, dirty: Seq<(u32, u32)>)
    requires
        dirty.len() >= 1,
        covered_by(dirty[0], rs),
        forall|j: int| #![trigger rs[j]] 0 <= j < rs.len() ==> hits_drained(rs[j], dirty, 1),
        forall|j1: int, j2: int|
            0 <= j1 < rs.len() && 0 <= j2 < rs.len() && j1 != j2 ==> rects_disjoint(
                region_rect(#[trigger] rs[j1]),
                region_rect(#[trigger] rs[j2]),
            ),
    ensures
        rs.len() == 1,
        rect_contains(region_rect(rs[0]), dirty[0]),
{
    assert(rs.len() >= 1);
    if rs.len() >= 2 {
        assert(hits_drained(rs[0], dirty, 1));
        assert(hits_drained(rs[1], dirty, 1));
        assert(rect_contains(region_rect(rs[0]), dirty[0]));
        assert(rect_contains(region_rect(rs[1]), dirty[0]));
        assert(rects_disjoint(region_rect(rs[0]), region_rect(rs[1])));
        assert(false);
    }
    assert(hits_drained(rs[0], dirty, 1));
    assert(rect_contains(region_rect(rs[0]), dirty[0]));
}
} // verus!
