//! Window composition: windows (a screen rectangle, a pixel buffer, a stacking order and an
//! opacity) are composed over a background inside a damaged region of the output surface,
//! back to front; damage tracking collects the dirty rectangles between frames.
use vstd::prelude::*;

use crate::gfx::{edges_fit, envelope_of, fits_i32, intersection, max_int, min_int, Color, Rect};
use crate::gfx::surface::{
    bounds, encode, fill_spec, lemma_paint_keeps, lemma_paint_none, lemma_paint_same,
    lemma_paint_step, meets, paint, pixel, rect_has, shade, surface_ok, with_pixels, PixelFormat,
    Surface, SurfaceView,
};

verus! {

/// Most windows in a scene.
pub const MAX_WINDOWS: usize = 32;

/// Most damage rectangles kept before they are merged into their envelope.
pub const MAX_DAMAGE: usize = 16;

/// Leftmost edge of a non-empty list of rectangles.
pub open spec fn lo_x(s: Seq<Rect>) -> int
    decreases s.len(),
{
    if s.len() <= 1 {
        s[0].x as int
    } else {
        min_int(lo_x(s.drop_last()), s.last().x as int)
    }
}

/// Topmost edge of a non-empty list of rectangles.
pub open spec fn lo_y(s: Seq<Rect>) -> int
    decreases s.len(),
{
    if s.len() <= 1 {
        s[0].y as int
    } else {
        min_int(lo_y(s.drop_last()), s.last().y as int)
    }
}

/// Rightmost edge of a non-empty list of rectangles.
pub open spec fn hi_x(s: Seq<Rect>) -> int
    decreases s.len(),
{
    if s.len() <= 1 {
        s[0].x + s[0].w
    } else {
        max_int(hi_x(s.drop_last()), s.last().x + s.last().w)
    }
}

/// Bottom edge of a non-empty list of rectangles.
pub open spec fn hi_y(s: Seq<Rect>) -> int
    decreases s.len(),
{
    if s.len() <= 1 {
        s[0].y + s[0].h
    } else {
        max_int(hi_y(s.drop_last()), s.last().y + s.last().h)
    }
}

/// Every rectangle's edges, and the envelope of them all, fit in 32 bits.
pub open spec fn spread_ok(s: Seq<Rect>) -> bool {
    &&& forall|i: int| 0 <= i < s.len() ==> edges_fit(#[trigger] s[i])
    &&& s.len() > 0 ==> fits_i32(hi_x(s) - lo_x(s)) && fits_i32(hi_y(s) - lo_y(s))
}

/// The envelope of a list of rectangles, merged from the first one on; empty at the origin
/// for an empty list.
pub open spec fn envelope(s: Seq<Rect>) -> Rect
    decreases s.len(),
{
    if s.len() == 0 {
        Rect { x: 0, y: 0, w: 0, h: 0 }
    } else if s.len() == 1 {
        s[0]
    } else {
        envelope_of(envelope(s.drop_last()), s.last())
    }
}

/// Whether `r` holds no pixel.
pub open spec fn is_void(r: Rect) -> bool {
    r.w <= 0 || r.h <= 0
}

/// The envelope of a list whose spread fits is the box from its lowest to its highest edges.
proof fn lemma_envelope(s: Seq<Rect>)
    requires
        s.len() > 0,
        spread_ok(s),
    ensures
        envelope(s) == (Rect {
            x: lo_x(s) as i32,
            y: lo_y(s) as i32,
            w: (hi_x(s) - lo_x(s)) as i32,
            h: (hi_y(s) - lo_y(s)) as i32,
        }),
        fits_i32(lo_x(s)) && fits_i32(lo_y(s)) && fits_i32(hi_x(s)) && fits_i32(hi_y(s)),
        forall|i: int| 0 <= i < s.len() ==> lo_x(s) <= #[trigger] s[i].x && s[i].x + s[i].w <= hi_x(s)
            && lo_y(s) <= s[i].y && s[i].y + s[i].h <= hi_y(s),
    decreases s.len(),
{
    if s.len() > 1 {
        let p = s.drop_last();
        lemma_spread_prefix(s);
        lemma_envelope(p);
        assert forall|i: int| 0 <= i < s.len() implies lo_x(s) <= #[trigger] s[i].x && s[i].x + s[i].w
            <= hi_x(s) && lo_y(s) <= s[i].y && s[i].y + s[i].h <= hi_y(s) by {
            if i < p.len() {
                assert(p[i] == s[i]);
            }
        }
    } else {
        assert(edges_fit(s[0]));
    }
}

/// Dropping the last rectangle keeps the spread within bounds.
proof fn lemma_spread_prefix(s: Seq<Rect>)
    requires
        s.len() > 1,
        spread_ok(s),
    ensures
        spread_ok(s.drop_last()),
        lo_x(s.drop_last()) >= lo_x(s) && hi_x(s.drop_last()) <= hi_x(s),
        lo_y(s.drop_last()) >= lo_y(s) && hi_y(s.drop_last()) <= hi_y(s),
{
    let p = s.drop_last();
    assert forall|i: int| 0 <= i < p.len() implies edges_fit(#[trigger] p[i]) by {
        assert(p[i] == s[i]);
    }
    lemma_lo_hi_order(p);
}

/// The lowest edge of a list is below its highest edge when the rectangles are not inverted.
proof fn lemma_lo_hi_order(s: Seq<Rect>)
    requires
        s.len() > 0,
    ensures
        lo_x(s) <= s[0].x,
        hi_x(s) >= s[0].x + s[0].w,
        lo_y(s) <= s[0].y,
        hi_y(s) >= s[0].y + s[0].h,
    decreases s.len(),
{
    if s.len() > 1 {
        lemma_lo_hi_order(s.drop_last());
    }
}

/// Damage tracking: dirty rectangles collected between frames; when the list is full, it is
/// merged into its envelope.
#[derive(Clone, Copy)]
pub struct Damage {
    rects: [Rect; MAX_DAMAGE],
    len: usize,
}

impl View for Damage {
    type V = Seq<Rect>;

    closed spec fn view(&self) -> Seq<Rect> {
        self.rects@.take(self.len as int)
    }
}

impl Damage {
    /// At most `MAX_DAMAGE` rectangles, none empty, whose envelope fits in 32 bits.
    pub closed spec fn wf(&self) -> bool {
        &&& self.len <= MAX_DAMAGE
        &&& spread_ok(self@)
        &&& forall|i: int| 0 <= i < self@.len() ==> !is_void(#[trigger] self@[i])
    }

    /// Nothing dirty.
    pub fn new() -> (d: Damage)
        ensures
            d.wf(),
            d@ == Seq::<Rect>::empty(),
    {
        let z = Rect::new(0, 0, 0, 0);
        Damage { rects: [z, z, z, z, z, z, z, z, z, z, z, z, z, z, z, z], len: 0 }
    }

    /// Whether nothing is dirty.
    pub fn is_empty(&self) -> (r: bool)
        requires
            self.wf(),
        ensures
            r == (self@.len() == 0),
    {
        self.len == 0
    }

    /// Marks `r` dirty. Empty rectangles are ignored; when the list is full, it is replaced by
    /// the envelope of all its rectangles and `r`.
    pub fn add(&mut self, r: Rect)
        requires
            old(self).wf(),
            !is_void(r) ==> spread_ok(old(self)@.push(r)),
        ensures
            final(self).wf(),
            final(self)@ == if is_void(r) {
                old(self)@
            } else if old(self)@.len() < MAX_DAMAGE {
                old(self)@.push(r)
            } else {
                seq![envelope(old(self)@.push(r))]
            },
    {
        if r.is_empty() {
            return;
        }
        let ghost s = old(self)@.push(r);
        proof {
            assert(s.drop_last() == old(self)@);
            assert(s.last() == r);
        }
        if self.len < MAX_DAMAGE {
            self.rects[self.len] = r;
            self.len = self.len + 1;
            proof {
                assert(self@ =~= s);
            }
        } else {
            proof {
                lemma_spread_prefix(s);
                lemma_envelope(s);
                lemma_envelope(old(self)@);
            }
            let b = self.bounds();
            let env = b.union(&r);
            self.rects[0] = env;
            self.len = 1;
            proof {
                assert(self@ =~= seq![envelope(s)]);
                assert(edges_fit(self@[0]));
            }
        }
    }

    /// Envelope of every dirty rectangle (empty at the origin when nothing is dirty).
    pub fn bounds(&self) -> (b: Rect)
        requires
            self.wf(),
        ensures
            b == envelope(self@),
    {
        if self.len == 0 {
            return Rect::new(0, 0, 0, 0);
        }
        let mut b = self.rects[0];
        let mut i: usize = 1;
        proof {
            assert(self@.take(1) =~= seq![self@[0]]);
        }
        while i < self.len
            invariant
                self.wf(),
                1 <= i <= self.len,
                b == envelope(self@.take(i as int)),
            decreases self.len - i,
        {
            proof {
                let t = self@.take(i + 1);
                assert(t.drop_last() =~= self@.take(i as int));
                assert(t.last() == self@[i as int]);
                assert(spread_ok(t)) by {
                    lemma_spread_take(self@, i + 1);
                }
                lemma_spread_prefix(t);
                lemma_envelope(t.drop_last());
                assert(spread_ok(t.drop_last()));
                assert(edges_fit(t.last()));
                lemma_lo_hi_order(seq![t.last()]);
            }
            b = b.union(&self.rects[i]);
            i = i + 1;
        }
        proof {
            assert(self@.take(self.len as int) =~= self@);
        }
        b
    }

    /// The dirty rectangles.
    pub fn rects(&self) -> (r: &[Rect])
        requires
            self.wf(),
        ensures
            r@ == self@,
    {
        vstd::slice::slice_subrange(self.rects.as_slice(), 0, self.len)
    }

    /// Forgets every dirty rectangle.
    pub fn clear(&mut self)
        requires
            old(self).wf(),
        ensures
            final(self).wf(),
            final(self)@ == Seq::<Rect>::empty(),
    {
        self.len = 0;
    }
}

/// A prefix of a list whose spread fits has a spread that fits.
proof fn lemma_spread_take(s: Seq<Rect>, k: int)
    requires
        0 < k <= s.len(),
        spread_ok(s),
    ensures
        spread_ok(s.take(k)),
    decreases s.len() - k,
{
    if k < s.len() {
        lemma_spread_take(s, k + 1);
        let t = s.take(k + 1);
        lemma_spread_prefix(t);
        assert(t.drop_last() =~= s.take(k));
    } else {
        assert(s.take(k) =~= s);
    }
}

impl Default for Damage {
    fn default() -> (d: Damage)
        ensures
            d.wf(),
            d@ == Seq::<Rect>::empty(),
    {
        Damage::new()
    }
}

/// A window in the scene: a rectangle on screen and the client's pixels.
#[derive(Clone, Copy)]
pub struct Window<'a> {
    /// Position and size on screen.
    pub rect: Rect,
    /// Stacking order (greater is nearer the front).
    pub z: i32,
    /// Content pixels (width `rect.w`, height `rect.h`, `stride` pixels per row).
    pub pixels: &'a [u8],
    /// Pixels per row of the client's buffer.
    pub stride: u32,
    /// Format of the client's pixels.
    pub format: PixelFormat,
    /// Opacity of the whole window (255 opaque, 0 invisible), composed source over what lies
    /// below; buffers carry no per-pixel alpha.
    pub alpha: u8,
}

/// Byte offsets of the window's content fit in 32 bits.
pub open spec fn window_ok(w: Window) -> bool {
    &&& w.stride <= i32::MAX
    &&& w.rect.w > 0 && w.rect.h > 0 ==> ((w.rect.h - 1) * w.stride + w.rect.w - 1) * 4 <= i32::MAX
}

/// Colour of content pixel `(cx, cy)` (relative to the window's corner) with the window's
/// opacity as alpha; `None` outside the window or past the end of its buffer.
pub open spec fn sample_spec(w: Window, cx: int, cy: int) -> Option<Color> {
    if cx < 0 || cy < 0 || cx >= w.rect.w || cy >= w.rect.h {
        None
    } else {
        let o = (cy * w.stride + cx) * 4;
        let p = w.pixels@;
        if o + 4 > p.len() {
            None
        } else {
            Some(
                match w.format {
                    PixelFormat::Rgbx8888 => Color { r: p[o], g: p[o + 1], b: p[o + 2], a: w.alpha },
                    PixelFormat::Bgrx8888 => Color { r: p[o + 2], g: p[o + 1], b: p[o], a: w.alpha },
                    PixelFormat::Unknown => Color { r: 0, g: 0, b: 0, a: 0 },
                },
            )
        }
    }
}

/// Screen pixels that window `w` changes when drawn inside `vis`: those whose sample exists
/// and is not fully transparent, inside the clip.
pub open spec fn win_sel(v: SurfaceView, w: Window, vis: Rect) -> spec_fn(int, int) -> bool {
    |x: int, y: int|
        rect_has(vis, x, y) && rect_has(v.clip, x, y) && match sample_spec(w, x - w.rect.x, y - w.rect.y) {
            Some(c) => c.a != 0,
            None => false,
        }
}

/// What window `w` leaves on screen pixel `(x, y)`: its sample composed over the pixel.
pub open spec fn win_ink(v: SurfaceView, w: Window) -> spec_fn(int, int) -> Seq<u8> {
    |x: int, y: int| encode(v.format, shade(sample_spec(w, x - w.rect.x, y - w.rect.y).unwrap(), pixel(v, x, y)))
}

/// Bytes after drawing window `w` over `v` inside `area`.
pub open spec fn window_paint(v: SurfaceView, w: Window, area: Rect) -> Seq<u8> {
    let vis = intersection(w.rect, area);
    if is_void(vis) {
        v.pixels
    } else {
        paint(v, win_sel(v, w, vis), win_ink(v, w))
    }
}

/// Where window `i` goes among the already ordered windows `s`: after every window whose
/// stacking order is not greater than its own.
pub open spec fn ins_pos(s: Seq<int>, ws: Seq<Window>, zi: int) -> int
    decreases s.len(),
{
    if s.len() == 0 {
        0
    } else if ws[s.last()].z > zi {
        ins_pos(s.drop_last(), ws, zi)
    } else {
        s.len() as int
    }
}

/// The first `n` windows in drawing order: by increasing stacking order, keeping the given
/// order between equal ones.
pub open spec fn zorder(ws: Seq<Window>, n: nat) -> Seq<int>
    decreases n,
{
    if n == 0 {
        Seq::empty()
    } else {
        let s = zorder(ws, (n - 1) as nat);
        let q = ins_pos(s, ws, ws[n - 1].z as int);
        s.take(q).push(n - 1) + s.skip(q)
    }
}

/// Bytes after drawing the windows of `order`, first to last, over `v` inside `area`.
pub open spec fn layers(v: SurfaceView, ws: Seq<Window>, order: Seq<int>, area: Rect) -> Seq<u8>
    decreases order.len(),
{
    if order.len() == 0 {
        v.pixels
    } else {
        let below = layers(v, ws, order.drop_last(), area);
        window_paint(with_pixels(v, below), ws[order.last()], area)
    }
}

/// Bytes after `composite(out, ws, damage, background)`.
pub open spec fn composite_spec(v: SurfaceView, ws: Seq<Window>, damage: Rect, background: Color) -> Seq<u8> {
    let area = intersection(damage, bounds(v));
    if is_void(area) {
        v.pixels
    } else {
        let v1 = SurfaceView { clip: intersection(area, bounds(v)), ..v };
        let v2 = with_pixels(v1, fill_spec(v1, area, background));
        let n = min_int(ws.len() as int, MAX_WINDOWS as int) as nat;
        layers(v2, ws, zorder(ws, n), area)
    }
}

/// The windows that `composite` draws are well-formed and can be cut by the damaged area.
pub open spec fn scene_ok(v: SurfaceView, ws: Seq<Window>, damage: Rect) -> bool {
    forall|i: int|
        0 <= i < min_int(ws.len() as int, MAX_WINDOWS as int) ==> window_ok(#[trigger] ws[i]) && meets(
            ws[i].rect,
            intersection(damage, bounds(v)),
        )
}

impl<'a> Window<'a> {
    /// Colour of content pixel `(cx, cy)` relative to the window's corner, with the window's
    /// opacity in the alpha channel.
    fn sample(&self, cx: i32, cy: i32) -> (r: Option<Color>)
        requires
            window_ok(*self),
        ensures
            r == sample_spec(*self, cx as int, cy as int),
    {
        if cx < 0 || cy < 0 || cx >= self.rect.w || cy >= self.rect.h {
            return None;
        }
        proof {
            assert(cy * self.stride <= (self.rect.h - 1) * self.stride) by (nonlinear_arith)
                requires
                    cy <= self.rect.h - 1,
                    0 <= self.stride,
            ;
            assert(0 <= cy * self.stride) by (nonlinear_arith)
                requires
                    0 <= cy,
                    0 <= self.stride,
            ;
        }
        let o = ((cy * self.stride as i32 + cx) * 4) as usize;
        if o + 4 > self.pixels.len() {
            return None;
        }
        let (p0, p1, p2) = (self.pixels[o], self.pixels[o + 1], self.pixels[o + 2]);
        Some(
            match self.format {
                PixelFormat::Rgbx8888 => Color::rgba(p0, p1, p2, self.alpha),
                PixelFormat::Bgrx8888 => Color::rgba(p2, p1, p0, self.alpha),
                PixelFormat::Unknown => Color::rgba(0, 0, 0, 0),
            },
        )
    }
}

/// The selection `sel` up to, and not including, `(x, y)` in row order.
pub open spec fn upto(sel: spec_fn(int, int) -> bool, x: int, y: int) -> spec_fn(int, int) -> bool {
    |a: int, b: int| sel(a, b) && (b < y || (b == y && a < x))
}

/// Draws window `w` over `out` inside `area`, which lies inside the surface.
fn draw_window(out: &mut Surface<'_>, w: &Window<'_>, area: Rect)
    requires
        old(out).wf(),
        window_ok(*w),
        meets(w.rect, area),
        0 <= area.x && area.x + area.w <= old(out)@.width,
        0 <= area.y && area.y + area.h <= old(out)@.height,
    ensures
        final(out).wf(),
        final(out)@ == with_pixels(old(out)@, window_paint(old(out)@, *w, area)),
{
    let vis = w.rect.intersect(&area);
    if vis.is_empty() {
        return;
    }
    let ghost v0 = out@;
    let ghost sel = win_sel(v0, *w, vis);
    let ghost ink = win_ink(v0, *w);
    let mut y = vis.y;
    proof {
        lemma_paint_none(v0, upto(sel, vis.x as int, y as int), ink);
    }
    while y < vis.y + vis.h
        invariant
            surface_ok(v0),
            window_ok(*w),
            vis == intersection(w.rect, area),
            vis.w > 0 && vis.h > 0,
            edges_fit(w.rect),
            0 <= vis.x && vis.x + vis.w <= v0.width,
            0 <= vis.y && vis.y + vis.h <= v0.height,
            w.rect.x <= vis.x && vis.x + vis.w <= w.rect.x + w.rect.w,
            w.rect.y <= vis.y && vis.y + vis.h <= w.rect.y + w.rect.h,
            sel == win_sel(v0, *w, vis),
            ink == win_ink(v0, *w),
            vis.y <= y <= vis.y + vis.h,
            out.wf(),
            out@ == with_pixels(v0, paint(v0, upto(sel, vis.x as int, y as int), ink)),
        decreases vis.y + vis.h - y,
    {
        let mut x = vis.x;
        while x < vis.x + vis.w
            invariant
                surface_ok(v0),
                window_ok(*w),
                vis == intersection(w.rect, area),
                vis.w > 0 && vis.h > 0,
                edges_fit(w.rect),
                0 <= vis.x && vis.x + vis.w <= v0.width,
                0 <= vis.y && vis.y + vis.h <= v0.height,
                w.rect.x <= vis.x && vis.x + vis.w <= w.rect.x + w.rect.w,
                w.rect.y <= vis.y && vis.y + vis.h <= w.rect.y + w.rect.h,
                sel == win_sel(v0, *w, vis),
                ink == win_ink(v0, *w),
                vis.y <= y < vis.y + vis.h,
                vis.x <= x <= vis.x + vis.w,
                out.wf(),
                out@ == with_pixels(v0, paint(v0, upto(sel, x as int, y as int), ink)),
            decreases vis.x + vis.w - x,
        {
            let sampled = w.sample(x - w.rect.x, y - w.rect.y);
            match sampled {
                Some(c) => {
                    proof {
                        if sel(x as int, y as int) {
                            lemma_paint_keeps(v0, upto(sel, x as int, y as int), ink, x as int, y as int);
                            lemma_paint_step(
                                v0,
                                upto(sel, x as int, y as int),
                                upto(sel, x + 1, y as int),
                                ink,
                                x as int,
                                y as int,
                            );
                        } else {
                            lemma_paint_same(v0, upto(sel, x as int, y as int), upto(sel, x + 1, y as int), ink);
                        }
                    }
                    out.blend(x, y, c);
                },
                None => {
                    proof {
                        lemma_paint_same(v0, upto(sel, x as int, y as int), upto(sel, x + 1, y as int), ink);
                    }
                },
            }
            x = x + 1;
        }
        proof {
            lemma_paint_same(v0, upto(sel, vis.x + vis.w, y as int), upto(sel, vis.x as int, y + 1), ink);
        }
        y = y + 1;
    }
    proof {
        lemma_paint_same(v0, upto(sel, vis.x as int, y as int), sel, ink);
    }
}

/// The indices `i..n` in order.
pub open spec fn span(i: int, n: int) -> Seq<int> {
    Seq::new((n - i) as nat, |k: int| i + k)
}

/// `s` read as mathematical integers.
pub open spec fn ints(s: Seq<usize>) -> Seq<int> {
    Seq::new(s.len(), |k: int| s[k] as int)
}

/// Insertion stops where the window before is not above the one being placed.
proof fn lemma_ins_pos_stop(s: Seq<int>, ws: Seq<Window>, zi: int, j: int)
    requires
        0 <= j <= s.len(),
        forall|k: int| j <= k < s.len() ==> ws[#[trigger] s[k]].z > zi,
        j == 0 || ws[s[j - 1]].z <= zi,
    ensures
        ins_pos(s, ws, zi) == j,
    decreases s.len(),
{
    if s.len() > j {
        let p = s.drop_last();
        assert forall|k: int| j <= k < p.len() implies ws[#[trigger] p[k]].z > zi by {
            assert(p[k] == s[k]);
        }
        if j > 0 {
            assert(p[j - 1] == s[j - 1]);
        }
        lemma_ins_pos_stop(p, ws, zi, j);
    }
}

/// The drawing order of the first `n` windows holds exactly the indices below `n`.
pub proof fn lemma_zorder_indices(ws: Seq<Window>, n: nat)
    ensures
        zorder(ws, n).len() == n,
        forall|k: int| 0 <= k < n ==> 0 <= #[trigger] zorder(ws, n)[k] < n,
    decreases n,
{
    if n > 0 {
        lemma_zorder_indices(ws, (n - 1) as nat);
        let s = zorder(ws, (n - 1) as nat);
        let q = ins_pos(s, ws, ws[n - 1].z as int);
        lemma_ins_pos_range(s, ws, ws[n - 1].z as int);
        let t = s.take(q).push(n - 1) + s.skip(q);
        assert forall|k: int| 0 <= k < n implies 0 <= #[trigger] t[k] < n by {
            if k < q {
                assert(t[k] == s[k]);
            } else if k > q {
                assert(t[k] == s[k - 1]);
            }
        }
    }
}

/// The insertion point lies within the list.
proof fn lemma_ins_pos_range(s: Seq<int>, ws: Seq<Window>, zi: int)
    ensures
        0 <= ins_pos(s, ws, zi) <= s.len(),
    decreases s.len(),
{
    if s.len() > 0 {
        lemma_ins_pos_range(s.drop_last(), ws, zi);
    }
}

/// Indices `0..n` of `windows` in drawing order (insertion sort by stacking order, stable).
fn stack_order(windows: &[Window<'_>], n: usize) -> (order: Vec<usize>)
    requires
        n <= windows@.len(),
    ensures
        ints(order@) == zorder(windows@, n as nat),
{
    let ghost ws = windows@;
    let mut order: Vec<usize> = Vec::new();
    let mut i: usize = 0;
    while i < n
        invariant
            i <= n,
            order@.len() == i,
            forall|k: int| 0 <= k < i ==> #[trigger] order@[k] == k,
        decreases n - i,
    {
        order.push(i);
        i = i + 1;
    }
    proof {
        assert(ints(order@) =~= span(0, n as int));
    }
    if n == 0 {
        proof {
            assert(ints(order@) =~= zorder(ws, 0));
        }
        return order;
    }
    proof {
        let e = zorder(ws, 0);
        assert(e =~= Seq::<int>::empty());
        assert(ins_pos(e, ws, ws[0].z as int) == 0);
        assert(zorder(ws, 1) == e.take(0).push(0) + e.skip(0));
        assert(zorder(ws, 1) =~= seq![0int]);
        assert(ints(order@) =~= zorder(ws, 1) + span(1, n as int));
    }
    let mut i: usize = 1;
    while i < n
        invariant
            ws == windows@,
            n <= ws.len(),
            1 <= i <= n,
            order@.len() == n,
            forall|k: int| 0 <= k < n ==> #[trigger] order@[k] < n,
            ints(order@) == zorder(ws, i as nat) + span(i as int, n as int),
        decreases n - i,
    {
        let ghost s = zorder(ws, i as nat);
        let ghost zi = ws[i as int].z as int;
        proof {
            lemma_zorder_indices(ws, i as nat);
        }
        let mut j = i;
        while j > 0 && windows[order[j - 1]].z > windows[order[j]].z
            invariant
                ws == windows@,
                n <= ws.len(),
                1 <= i < n,
                0 <= j <= i,
                order@.len() == n,
                forall|k: int| 0 <= k < n ==> #[trigger] order@[k] < n,
                s == zorder(ws, i as nat),
                s.len() == i,
                zi == ws[i as int].z,
                forall|k: int| 0 <= k < i ==> 0 <= #[trigger] s[k] < i,
                forall|k: int| j <= k < i ==> ws[#[trigger] s[k]].z > zi,
                ints(order@) == s.take(j as int).push(i as int) + s.skip(j as int) + span(i + 1, n as int),
            decreases j,
        {
            proof {
                assert(ints(order@)[j as int] == i);
                assert(ints(order@)[j - 1] == s[j - 1]);
            }
            let ghost before = ints(order@);
            let a = order[j - 1];
            let b = order[j];
            order.set(j - 1, b);
            order.set(j, a);
            j = j - 1;
            proof {
                let target = s.take(j as int).push(i as int) + s.skip(j as int) + span(i + 1, n as int);
                let prev = s.take(j + 1).push(i as int) + s.skip(j + 1) + span(i + 1, n as int);
                assert(before == prev);
                assert forall|k: int| 0 <= k < n implies #[trigger] ints(order@)[k] == target[k] by {
                    if k < j {
                        assert(prev[k] == s[k]);
                        assert(target[k] == s[k]);
                    } else if k == j {
                        assert(prev[k + 1] == i);
                    } else if k == j + 1 {
                        assert(prev[j as int] == s[j as int]);
                        assert(target[k] == s[j as int]);
                    } else if k <= i {
                        assert(prev[k] == s[k - 1]);
                        assert(target[k] == s[k - 1]);
                    } else {
                        assert(prev[k] == target[k]);
                    }
                }
                assert(ints(order@) =~= target);
                assert forall|k: int| 0 <= k < n implies #[trigger] order@[k] < n by {
                    assert(ints(order@)[k] == order@[k]);
                }
            }
        }
        proof {
            if j > 0 {
                assert(ints(order@)[j as int] == i);
                assert(ints(order@)[j - 1] == s[j - 1]);
            }
            lemma_ins_pos_stop(s, ws, zi, j as int);
            assert(ints(order@) =~= zorder(ws, (i + 1) as nat) + span(i + 1, n as int));
        }
        i = i + 1;
    }
    proof {
        assert(ints(order@) =~= zorder(ws, n as nat));
    }
    order
}

/// A clip that `set_clip` produced is left as it is by being set again.
proof fn lemma_clip_again(v: SurfaceView)
    requires
        surface_ok(v),
    ensures
        intersection(v.clip, bounds(v)) == v.clip,
        edges_fit(v.clip),
{
    assert(v.stride * 1 <= v.stride * v.height && v.height * 1 <= v.stride * v.height) by (nonlinear_arith)
        requires
            v.height >= 1,
            v.stride >= 1,
    ;
}

/// Composes `windows` over `background` inside the region `damage` of `out` (cut to the
/// surface), back to front: by increasing stacking order, keeping the given order between
/// equal ones. Pixels outside the region keep their value; the clip is left as it was.
/// At most `MAX_WINDOWS` windows are drawn.
pub fn composite(out: &mut Surface<'_>, windows: &[Window<'_>], damage: Rect, background: Color)
    requires
        old(out).wf(),
        meets(damage, bounds(old(out)@)),
        scene_ok(old(out)@, windows@, damage),
    ensures
        final(out).wf(),
        final(out)@ == with_pixels(old(out)@, composite_spec(old(out)@, windows@, damage, background)),
{
    let area = damage.intersect(&Rect::new(0, 0, out.width(), out.height()));
    if area.is_empty() {
        return;
    }
    let ghost v0 = out@;
    let ghost ws = windows@;
    let saved = out.clip();
    out.set_clip(area);
    out.fill_rect(area, background);
    let ghost v2 = out@;
    let n = if windows.len() < MAX_WINDOWS { windows.len() } else { MAX_WINDOWS };
    let order = stack_order(windows, n);
    let ghost zo = zorder(ws, n as nat);
    proof {
        lemma_zorder_indices(ws, n as nat);
        assert(zo.take(0) =~= Seq::<int>::empty());
    }
    let mut k: usize = 0;
    while k < n
        invariant
            ws == windows@,
            n <= ws.len(),
            n == min_int(ws.len() as int, MAX_WINDOWS as int),
            scene_ok(v0, ws, damage),
            area == intersection(damage, bounds(v0)),
            !is_void(area),
            0 <= area.x && area.x + area.w <= v0.width,
            0 <= area.y && area.y + area.h <= v0.height,
            zo == zorder(ws, n as nat),
            ints(order@) == zo,
            zo.len() == n,
            forall|i: int| 0 <= i < n ==> 0 <= #[trigger] zo[i] < n,
            0 <= k <= n,
            v2.width == v0.width && v2.height == v0.height,
            out.wf(),
            out@ == with_pixels(v2, layers(v2, ws, zo.take(k as int), area)),
        decreases n - k,
    {
        proof {
            assert(ints(order@)[k as int] == order@[k as int]);
            assert(zo[k as int] < n);
        }
        let w = &windows[order[k]];
        draw_window(out, w, area);
        proof {
            let t = zo.take(k + 1);
            assert(t.drop_last() =~= zo.take(k as int));
            assert(t.last() == zo[k as int]);
        }
        k = k + 1;
    }
    proof {
        assert(zo.take(n as int) =~= zo);
        lemma_clip_again(v0);
    }
    out.set_clip(saved);
}

/// `s` lists windows back to front: by increasing stacking order, and by increasing index
/// between windows of equal stacking order.
pub open spec fn back_to_front(ws: Seq<Window>, s: Seq<int>) -> bool {
    forall|a: int, b: int|
        0 <= a < b < s.len() ==> ws[#[trigger] s[a]].z < ws[#[trigger] s[b]].z || (ws[s[a]].z == ws[s[b]].z
            && s[a] < s[b])
}

/// In a list ordered back to front, the insertion point splits the windows not above `zi`
/// from those above it.
proof fn lemma_ins_pos_split(s: Seq<int>, ws: Seq<Window>, zi: int)
    requires
        back_to_front(ws, s),
    ensures
        forall|k: int| 0 <= k < ins_pos(s, ws, zi) ==> ws[#[trigger] s[k]].z <= zi,
        forall|k: int| ins_pos(s, ws, zi) <= k < s.len() ==> ws[#[trigger] s[k]].z > zi,
    decreases s.len(),
{
    lemma_ins_pos_range(s, ws, zi);
    if s.len() > 0 {
        let p = s.drop_last();
        assert(back_to_front(ws, p)) by {
            assert forall|a: int, b: int| 0 <= a < b < p.len() implies ws[#[trigger] p[a]].z < ws[#[trigger] p[b]].z
                || (ws[p[a]].z == ws[p[b]].z && p[a] < p[b]) by {
                assert(p[a] == s[a] && p[b] == s[b]);
            }
        }
        lemma_ins_pos_split(p, ws, zi);
        if ws[s.last()].z > zi {
            assert forall|k: int| 0 <= k < ins_pos(s, ws, zi) implies ws[#[trigger] s[k]].z <= zi by {
                assert(p[k] == s[k]);
            }
            assert forall|k: int| ins_pos(s, ws, zi) <= k < s.len() implies ws[#[trigger] s[k]].z > zi by {
                if k < p.len() {
                    assert(p[k] == s[k]);
                }
            }
        } else {
            assert forall|k: int| 0 <= k < ins_pos(s, ws, zi) implies ws[#[trigger] s[k]].z <= zi by {
                if k < s.len() - 1 {
                    assert(ws[s[k]].z <= ws[s[s.len() - 1]].z);
                }
            }
        }
    }
}

/// Law: `composite` draws the windows back to front. The drawing order of the first `n`
/// windows lists every index below `n` exactly once, by increasing stacking order, and keeps
/// the given order between windows of equal stacking order.
pub proof fn lemma_zorder_back_to_front(ws: Seq<Window>, n: nat)
    requires
        n <= ws.len(),
    ensures
        zorder(ws, n).len() == n,
        zorder(ws, n).no_duplicates(),
        forall|k: int| 0 <= k < n ==> 0 <= #[trigger] zorder(ws, n)[k] < n,
        back_to_front(ws, zorder(ws, n)),
    decreases n,
{
    lemma_zorder_indices(ws, n);
    if n > 0 {
        let m = (n - 1) as nat;
        lemma_zorder_back_to_front(ws, m);
        let s = zorder(ws, m);
        let zi = ws[m as int].z as int;
        let q = ins_pos(s, ws, zi);
        lemma_ins_pos_range(s, ws, zi);
        lemma_ins_pos_split(s, ws, zi);
        let t = s.take(q).push(m as int) + s.skip(q);
        assert(t == zorder(ws, n));
        assert forall|k: int| 0 <= k < n implies #[trigger] t[k] == (if k < q {
            s[k]
        } else if k == q {
            m as int
        } else {
            s[k - 1]
        }) by {}
        assert forall|a: int, b: int| 0 <= a < b < t.len() implies ws[#[trigger] t[a]].z < ws[#[trigger] t[b]].z
            || (ws[t[a]].z == ws[t[b]].z && t[a] < t[b]) by {
            if a < q && b < q {
            } else if a < q && b == q {
                assert(s[a] < m);
            } else if a < q {
                assert(ws[s[a]].z <= zi && ws[s[b - 1]].z > zi);
            } else if a == q {
                assert(ws[s[b - 1]].z > zi);
            } else {
                assert(s[a - 1] == t[a] && s[b - 1] == t[b]);
            }
        }
        assert forall|a: int, b: int| 0 <= a < t.len() && 0 <= b < t.len() && a != b implies t[a] != t[b] by {
            if a != q && b != q {
                let ia = if a < q { a } else { a - 1 };
                let ib = if b < q { b } else { b - 1 };
                assert(s[ia] == t[a] && s[ib] == t[b]);
                assert(ia != ib);
            } else if a == q {
                let ib = if b < q { b } else { b - 1 };
                assert(s[ib] < m);
            } else {
                let ia = if a < q { a } else { a - 1 };
                assert(s[ia] < m);
            }
        }
    }
}

} // verus!
