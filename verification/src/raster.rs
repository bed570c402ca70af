//! Pixel canvases and the drawing that burns annotations into an exported
//! page image: filled disks, thick lines stepped along by integer error
//! accumulation, and flattening onto white for formats without alpha.
use vstd::prelude::*;

verus! {

/// An 8-bit RGBA colour.
#[derive(Clone, Copy, PartialEq, Eq, Structural, Debug)]
pub struct Rgba {
    pub r: u8,
    pub g: u8,
    pub b: u8,
    pub a: u8,
}

/// A `width` by `height` image of RGBA pixels, stored row by row.
pub struct Canvas {
    width: u32,
    height: u32,
    pixels: Vec<Rgba>,
}

/// The flat index of pixel `(x, y)` in a canvas `width` pixels wide.
pub open spec fn flat_index(width: int, x: int, y: int) -> int {
    y * width + x
}

/// `(x, y)` lies on a `width` by `height` canvas.
pub open spec fn on_canvas(width: int, height: int, x: int, y: int) -> bool {
    0 <= x < width && 0 <= y < height
}

/// Distinct pixels of a canvas have distinct flat indices, all within it.
pub proof fn lemma_flat_index(width: int, height: int, x: int, y: int, x2: int, y2: int)
    requires
        on_canvas(width, height, x, y),
        on_canvas(width, height, x2, y2),
    ensures
        0 <= flat_index(width, x, y) < width * height,
        flat_index(width, x, y) == flat_index(width, x2, y2) ==> x == x2 && y == y2,
{
    assert(0 <= y * width + x < width * height) by (nonlinear_arith)
        requires
            0 <= x < width,
            0 <= y < height,
    ;
    if y != y2 {
        assert(y * width + x != y2 * width + x2) by (nonlinear_arith)
            requires
                0 <= x < width,
                0 <= x2 < width,
                y != y2,
        {
            if y < y2 {
                assert(y2 * width >= (y + 1) * width);
            } else {
                assert(y * width >= (y2 + 1) * width);
            }
        }
    }
}

impl Canvas {
    /// The canvas holds one pixel for each position.
    pub closed spec fn wf(self) -> bool {
        self.pixels@.len() == self.width as int * self.height as int
    }

    /// The width in pixels.
    pub closed spec fn spec_width(self) -> int {
        self.width as int
    }

    /// The height in pixels.
    pub closed spec fn spec_height(self) -> int {
        self.height as int
    }

    /// The pixels, row by row.
    pub closed spec fn rows(self) -> Seq<Rgba> {
        self.pixels@
    }

    /// The colour of pixel `(x, y)`.
    pub open spec fn pixel(self, x: int, y: int) -> Rgba {
        self.rows()[flat_index(self.spec_width(), x, y)]
    }

    /// A canvas filled with one colour.
    pub fn filled(width: u32, height: u32, color: Rgba) -> (c: Canvas)
        requires
            width as int * height as int <= usize::MAX,
        ensures
            c.wf(),
            c.spec_width() == width,
            c.spec_height() == height,
            forall|x: int, y: int|
                on_canvas(width as int, height as int, x, y) ==> #[trigger] c.pixel(x, y) == color,
    {
        let n = width as usize * height as usize;
        let mut pixels: Vec<Rgba> = Vec::new();
        let mut i: usize = 0;
        while i < n
            invariant
                i <= n,
                pixels@.len() == i,
                forall|k: int| 0 <= k < i ==> #[trigger] pixels@[k] == color,
            decreases n - i,
        {
            pixels.push(color);
            i += 1;
        }
        let c = Canvas { width, height, pixels };
        proof {
            assert forall|x: int, y: int|
                on_canvas(width as int, height as int, x, y) implies #[trigger] c.pixel(x, y)
                == color by {
                lemma_flat_index(width as int, height as int, x, y, x, y);
            }
        }
        c
    }

    /// The canvas whose pixels, row by row, are `pixels`; `None` when their
    /// number is not `width * height`.
    pub fn from_pixels(width: u32, height: u32, pixels: Vec<Rgba>) -> (c: Option<Canvas>)
        ensures
            c is Some <==> pixels@.len() == width as int * height as int,
            c matches Some(c) ==> c.wf() && c.spec_width() == width && c.spec_height() == height
                && c.rows() == pixels@,
    {
        assert(width as int * height as int <= u64::MAX) by (nonlinear_arith)
            requires
                width <= u32::MAX,
                height <= u32::MAX,
        ;
        if pixels.len() as u64 == width as u64 * height as u64 {
            Some(Canvas { width, height, pixels })
        } else {
            None
        }
    }

    /// The pixels, row by row.
    pub fn into_pixels(self) -> (pixels: Vec<Rgba>)
        requires
            self.wf(),
        ensures
            pixels@ == self.rows(),
            pixels@.len() == self.spec_width() * self.spec_height(),
    {
        self.pixels
    }

    /// The width in pixels.
    pub fn width(&self) -> (w: u32)
        ensures
            w == self.spec_width(),
    {
        self.width
    }

    /// The height in pixels.
    pub fn height(&self) -> (h: u32)
        ensures
            h == self.spec_height(),
    {
        self.height
    }

    /// The colour of pixel `(x, y)`.
    pub fn get_pixel(&self, x: u32, y: u32) -> (c: Rgba)
        requires
            self.wf(),
            on_canvas(self.spec_width(), self.spec_height(), x as int, y as int),
        ensures
            c == self.pixel(x as int, y as int),
    {
        proof {
            lemma_flat_index(self.width as int, self.height as int, x as int, y as int, x as int, y as int);
            assert(y as int * self.width as int + (x as int) < self.pixels@.len());
            assert(y as int * self.width as int <= y as int * self.width as int + x as int);
        }
        let n = self.pixels.len();
        let yy = y as usize;
        let ww = self.width as usize;
        assert(yy * ww + x < n);
        let row = yy * ww;
        self.pixels[row + x as usize]
    }

    /// Sets pixel `(x, y)` to `color`, leaving every other pixel as it was.
    pub fn put_pixel(&mut self, x: u32, y: u32, color: Rgba)
        requires
            old(self).wf(),
            on_canvas(old(self).spec_width(), old(self).spec_height(), x as int, y as int),
        ensures
            final(self).wf(),
            final(self).spec_width() == old(self).spec_width(),
            final(self).spec_height() == old(self).spec_height(),
            forall|px: int, py: int|
                on_canvas(old(self).spec_width(), old(self).spec_height(), px, py)
                    ==> #[trigger] final(self).pixel(px, py) == if px == x && py == y {
                    color
                } else {
                    old(self).pixel(px, py)
                },
    {
        proof {
            lemma_flat_index(self.width as int, self.height as int, x as int, y as int, x as int, y as int);
            assert(y as int * self.width as int + (x as int) < self.pixels@.len());
        }
        let n = self.pixels.len();
        let yy = y as usize;
        let ww = self.width as usize;
        assert(yy * ww + x < n);
        let i = yy * ww + x as usize;
        self.pixels.set(i, color);
        proof {
            assert forall|px: int, py: int|
                on_canvas(old(self).spec_width(), old(self).spec_height(), px, py)
                    implies #[trigger] self.pixel(px, py) == if px == x && py == y {
                    color
                } else {
                    old(self).pixel(px, py)
                } by {
                lemma_flat_index(self.width as int, self.height as int, px, py, x as int, y as int);
            }
        }
    }
}

/// `(x, y)` lies within distance `radius` of `(cx, cy)`.
pub open spec fn in_disk(cx: int, cy: int, radius: int, x: int, y: int) -> bool {
    radius >= 0 && (x - cx) * (x - cx) + (y - cy) * (y - cy) <= radius * radius
}

/// A point within the disk lies within its bounding square.
proof fn lemma_disk_in_square(cx: int, cy: int, radius: int, x: int, y: int)
    requires
        in_disk(cx, cy, radius, x, y),
    ensures
        -radius <= x - cx <= radius,
        -radius <= y - cy <= radius,
{
    let dx = x - cx;
    let dy = y - cy;
    assert(dx * dx <= radius * radius) by (nonlinear_arith)
        requires
            dx * dx + dy * dy <= radius * radius,
    ;
    assert(-radius <= dx <= radius) by (nonlinear_arith)
        requires
            dx * dx <= radius * radius,
            radius >= 0,
    ;
    assert(dy * dy <= radius * radius) by (nonlinear_arith)
        requires
            dx * dx + dy * dy <= radius * radius,
    ;
    assert(-radius <= dy <= radius) by (nonlinear_arith)
        requires
            dy * dy <= radius * radius,
            radius >= 0,
    ;
}

/// Paints the disk of `radius` around `(cx, cy)` with `color`, clipped to the
/// canvas; no other pixel changes.
pub fn draw_circle_with_color(canvas: &mut Canvas, cx: i32, cy: i32, radius: i32, color: Rgba)
    requires
        old(canvas).wf(),
        radius <= 32767,
        radius > i32::MIN,
        radius < 0 || (i32::MIN <= cx - radius && cx + radius <= i32::MAX && i32::MIN <= cy
            - radius && cy + radius <= i32::MAX),
    ensures
        final(canvas).wf(),
        final(canvas).spec_width() == old(canvas).spec_width(),
        final(canvas).spec_height() == old(canvas).spec_height(),
        forall|x: int, y: int|
            on_canvas(old(canvas).spec_width(), old(canvas).spec_height(), x, y)
                ==> #[trigger] final(canvas).pixel(x, y) == if in_disk(
                cx as int,
                cy as int,
                radius as int,
                x,
                y,
            ) {
                color
            } else {
                old(canvas).pixel(x, y)
            },
{
    let w = canvas.width() as i64;
    let h = canvas.height() as i64;
    let r = radius as i64;
    let r2 = if r >= 0 {
        assert(r * r <= 32767 * 32767) by (nonlinear_arith)
            requires
                0 <= r <= 32767,
        ;
        r * r
    } else {
        0
    };
    let mut dx: i64 = -r;
    proof {
        assert forall|x: int, y: int| in_disk(cx as int, cy as int, radius as int, x, y) implies !(x - cx < dx) by {
            lemma_disk_in_square(cx as int, cy as int, radius as int, x, y);
        }
    }
    while dx <= r
        invariant
            canvas.wf(),
            w == canvas.spec_width(),
            h == canvas.spec_height(),
            w == old(canvas).spec_width(),
            h == old(canvas).spec_height(),
            r == radius,
            r >= 0 ==> r2 == r * r,
            -r <= dx <= r + 1 || r < 0,
            r < 0 ==> dx == -r,
            radius < 0 || (i32::MIN <= cx - radius && cx + radius <= i32::MAX && i32::MIN <= cy
                - radius && cy + radius <= i32::MAX),
            radius <= 32767,
            forall|x: int, y: int|
                on_canvas(w as int, h as int, x, y) ==> #[trigger] canvas.pixel(x, y) == if in_disk(
                    cx as int,
                    cy as int,
                    radius as int,
                    x,
                    y,
                ) && x - cx < dx {
                    color
                } else {
                    old(canvas).pixel(x, y)
                },
        decreases r + 1 - dx,
    {
        let mut dy: i64 = -r;
        proof {
            assert forall|x: int, y: int| in_disk(cx as int, cy as int, radius as int, x, y) implies !(x - cx == dx && y - cy < dy) by {
                lemma_disk_in_square(cx as int, cy as int, radius as int, x, y);
            }
        }
        while dy <= r
            invariant
                canvas.wf(),
                w == canvas.spec_width(),
                h == canvas.spec_height(),
                w == old(canvas).spec_width(),
                h == old(canvas).spec_height(),
                r == radius,
                r2 == r * r,
                r >= 0,
                -r <= dx <= r,
                -r <= dy <= r + 1,
                i32::MIN <= cx - radius && cx + radius <= i32::MAX && i32::MIN <= cy - radius && cy
                    + radius <= i32::MAX,
                radius <= 32767,
                forall|x: int, y: int|
                    on_canvas(w as int, h as int, x, y) ==> #[trigger] canvas.pixel(x, y) == if in_disk(
                        cx as int,
                        cy as int,
                        radius as int,
                        x,
                        y,
                    ) && (x - cx < dx || (x - cx == dx && y - cy < dy)) {
                        color
                    } else {
                        old(canvas).pixel(x, y)
                    },
            decreases r + 1 - dy,
        {
            assert(0 <= dx * dx <= r * r && 0 <= dy * dy <= r * r) by (nonlinear_arith)
                requires
                    -r <= dx <= r,
                    -r <= dy <= r,
            ;
            assert(r * r <= 32767 * 32767) by (nonlinear_arith)
                requires
                    0 <= r <= 32767,
            ;
            let inside = dx * dx + dy * dy <= r2;
            let x = cx as i64 + dx;
            let y = cy as i64 + dy;
            let ghost before = *canvas;
            if inside && x >= 0 && y >= 0 && x < w && y < h {
                canvas.put_pixel(x as u32, y as u32, color);
            }
            proof {
                assert forall|px: int, py: int| on_canvas(w as int, h as int, px, py) implies #[trigger] canvas.pixel(px, py)
                    == if in_disk(cx as int, cy as int, radius as int, px, py) && (px - cx < dx || (px
                    - cx == dx && py - cy < dy + 1)) {
                    color
                } else {
                    old(canvas).pixel(px, py)
                } by {
                    assert(before.pixel(px, py) == if in_disk(cx as int, cy as int, radius as int, px, py)
                        && (px - cx < dx || (px - cx == dx && py - cy < dy)) {
                        color
                    } else {
                        old(canvas).pixel(px, py)
                    });
                }
            }
            dy += 1;
        }
        proof {
            assert forall|x: int, y: int| on_canvas(w as int, h as int, x, y) implies #[trigger] canvas.pixel(x, y)
                == if in_disk(cx as int, cy as int, radius as int, x, y) && x - cx < dx + 1 {
                color
            } else {
                old(canvas).pixel(x, y)
            } by {
                if in_disk(cx as int, cy as int, radius as int, x, y) && x - cx == dx {
                    lemma_disk_in_square(cx as int, cy as int, radius as int, x, y);
                }
            }
        }
        dx += 1;
    }
    proof {
        assert forall|x: int, y: int| on_canvas(w as int, h as int, x, y) implies #[trigger] canvas.pixel(x, y)
            == if in_disk(cx as int, cy as int, radius as int, x, y) {
            color
        } else {
            old(canvas).pixel(x, y)
        } by {
            if in_disk(cx as int, cy as int, radius as int, x, y) {
                lemma_disk_in_square(cx as int, cy as int, radius as int, x, y);
            }
        }
    }
}

/// `|v|`.
pub open spec fn abs(v: int) -> int {
    if v < 0 {
        -v
    } else {
        v
    }
}

/// The direction, `1` or `-1`, in which a coordinate steps from `a` towards `b`.
pub open spec fn step_toward(a: int, b: int) -> int {
    if a < b {
        1
    } else {
        -1
    }
}

/// The points visited when stepping from `(x, y)` with error term `err`
/// towards `(x1, y1)`: while the end is not reached, `x` moves when twice
/// the error is at least `dy`, `y` moves when twice the error is at most
/// `dx`, and the error is adjusted accordingly; at most `fuel` points.
pub open spec fn line_walk(
    x: int,
    y: int,
    err: int,
    x1: int,
    y1: int,
    dx: int,
    dy: int,
    sx: int,
    sy: int,
    fuel: nat,
) -> Seq<(int, int)>
    decreases fuel,
{
    if fuel == 0 {
        Seq::empty()
    } else if x == x1 && y == y1 {
        seq![(x, y)]
    } else {
        let e2 = 2 * err;
        let x2 = if e2 >= dy { x + sx } else { x };
        let err2 = if e2 >= dy { err + dy } else { err };
        let y2 = if e2 <= dx { y + sy } else { y };
        let err3 = if e2 <= dx { err2 + dx } else { err2 };
        seq![(x, y)] + line_walk(x2, y2, err3, x1, y1, dx, dy, sx, sy, (fuel - 1) as nat)
    }
}

/// The points of the line from `(x0, y0)` to `(x1, y1)` chosen by integer
/// error stepping, from the first end to the second.
pub open spec fn line_points(x0: int, y0: int, x1: int, y1: int) -> Seq<(int, int)> {
    let dx = abs(x1 - x0);
    let dy = -abs(y1 - y0);
    line_walk(x0, y0, dx + dy, x1, y1, dx, dy, step_toward(x0, x1), step_toward(y0, y1), (dx - dy + 1) as nat)
}

/// `(x, y)` lies within `radius` of one of `pts`.
pub open spec fn near_any(pts: Seq<(int, int)>, radius: int, x: int, y: int) -> bool {
    exists|i: int| 0 <= i < pts.len() && in_disk(#[trigger] pts[i].0, pts[i].1, radius, x, y)
}

/// In a step of the walk, `x` moves only while it has distance left, `y`
/// likewise, and at least one of them moves.
proof fn lemma_line_step(dx: int, ddy: int, kx: int, ky: int, err: int)
    requires
        0 <= kx <= dx,
        0 <= ky <= ddy,
        err == dx - ddy - kx * ddy + ky * dx,
        !(kx == dx && ky == ddy),
    ensures
        2 * err >= -ddy ==> kx < dx,
        2 * err <= dx ==> ky < ddy,
        2 * err >= -ddy || 2 * err <= dx,
{
    if kx == dx {
        assert(dx * (1 + ky - ddy) <= 0) by (nonlinear_arith)
            requires
                dx >= 0,
                1 + ky - ddy <= 0,
        ;
        assert(err == dx * (1 + ky - ddy) - ddy) by (nonlinear_arith)
            requires
                err == dx - ddy - kx * ddy + ky * dx,
                kx == dx,
        ;
    }
    if ky == ddy {
        assert(ddy * (dx - 1 - kx) >= 0) by (nonlinear_arith)
            requires
                ddy >= 0,
                dx - 1 - kx >= 0,
        ;
        assert(err == dx + ddy * (dx - 1 - kx)) by (nonlinear_arith)
            requires
                err == dx - ddy - kx * ddy + ky * dx,
                ky == ddy,
        ;
    }
}

/// Paints a line of thickness `thickness` (the radius of the disk painted at
/// each point) from `(x0, y0)` to `(x1, y1)`: the pixels within the radius of
/// a point of `line_points` take `color`, and no other pixel changes.
pub fn draw_line_with_color(
    canvas: &mut Canvas,
    x0: i32,
    y0: i32,
    x1: i32,
    y1: i32,
    thickness: i32,
    color: Rgba,
)
    requires
        old(canvas).wf(),
        2 * abs(x1 - x0) <= i32::MAX,
        2 * abs(y1 - y0) <= i32::MAX,
        thickness <= 32767,
        thickness > i32::MIN,
        thickness < 0 || (i32::MIN <= x0 - thickness && x0 + thickness <= i32::MAX && i32::MIN <= x1
            - thickness && x1 + thickness <= i32::MAX && i32::MIN <= y0 - thickness && y0 + thickness
            <= i32::MAX && i32::MIN <= y1 - thickness && y1 + thickness <= i32::MAX),
    ensures
        final(canvas).wf(),
        final(canvas).spec_width() == old(canvas).spec_width(),
        final(canvas).spec_height() == old(canvas).spec_height(),
        forall|x: int, y: int|
            on_canvas(old(canvas).spec_width(), old(canvas).spec_height(), x, y)
                ==> #[trigger] final(canvas).pixel(x, y) == if near_any(
                line_points(x0 as int, y0 as int, x1 as int, y1 as int),
                thickness as int,
                x,
                y,
            ) {
                color
            } else {
                old(canvas).pixel(x, y)
            },
{
    let ghost pts = line_points(x0 as int, y0 as int, x1 as int, y1 as int);
    let ex = x1 as i64;
    let ey = y1 as i64;
    let dx: i64 = if x1 as i64 >= x0 as i64 { x1 as i64 - x0 as i64 } else { x0 as i64 - x1 as i64 };
    let ddy: i64 = if y1 as i64 >= y0 as i64 { y1 as i64 - y0 as i64 } else { y0 as i64 - y1 as i64 };
    let dy: i64 = -ddy;
    let sx: i64 = if x0 < x1 { 1 } else { -1 };
    let sy: i64 = if y0 < y1 { 1 } else { -1 };
    let mut err: i64 = dx + dy;
    let mut x: i64 = x0 as i64;
    let mut y: i64 = y0 as i64;
    let ghost mut kx: int = 0;
    let ghost mut ky: int = 0;
    let ghost mut fuel: nat = (dx - dy + 1) as nat;
    let ghost mut visited: Seq<(int, int)> = Seq::empty();
    assert(visited + pts =~= pts);
    loop
        invariant
            canvas.wf(),
            canvas.spec_width() == old(canvas).spec_width(),
            canvas.spec_height() == old(canvas).spec_height(),
            pts == line_points(x0 as int, y0 as int, x1 as int, y1 as int),
            ex == x1,
            ey == y1,
            dx == abs(x1 - x0),
            ddy == abs(y1 - y0),
            dy == -ddy,
            2 * dx <= i32::MAX,
            2 * ddy <= i32::MAX,
            sx == step_toward(x0 as int, x1 as int),
            sy == step_toward(y0 as int, y1 as int),
            0 <= kx <= dx,
            0 <= ky <= ddy,
            x == x0 + sx * kx,
            y == y0 + sy * ky,
            err == dx - ddy - kx * ddy + ky * dx,
            -3 * ddy <= 2 * err <= 3 * dx,
            fuel >= (dx - kx) + (ddy - ky) + 1,
            pts == visited + line_walk(x as int, y as int, err as int, x1 as int, y1 as int, dx as int, dy as int, sx as int, sy as int, fuel),
            thickness <= 32767,
            thickness > i32::MIN,
            thickness < 0 || (i32::MIN <= x0 - thickness && x0 + thickness <= i32::MAX && i32::MIN <= x1
                - thickness && x1 + thickness <= i32::MAX && i32::MIN <= y0 - thickness && y0 + thickness
                <= i32::MAX && i32::MIN <= y1 - thickness && y1 + thickness <= i32::MAX),
            forall|px: int, py: int|
                on_canvas(old(canvas).spec_width(), old(canvas).spec_height(), px, py)
                    ==> #[trigger] canvas.pixel(px, py) == if near_any(visited, thickness as int, px, py) {
                    color
                } else {
                    old(canvas).pixel(px, py)
                },
        decreases (dx - kx) + (ddy - ky),
    {
        assert(x == x0 + sx * kx && sx * kx == if sx == 1 { kx } else { -kx }) by (nonlinear_arith)
            requires
                x == x0 + sx * kx,
                sx == 1 || sx == -1,
        ;
        assert(y == y0 + sy * ky && sy * ky == if sy == 1 { ky } else { -ky }) by (nonlinear_arith)
            requires
                y == y0 + sy * ky,
                sy == 1 || sy == -1,
        ;
        let ghost before = *canvas;
        draw_circle_with_color(canvas, x as i32, y as i32, thickness, color);
        let ghost old_visited = visited;
        proof {
            visited = visited.push((x as int, y as int));
            assert forall|px: int, py: int|
                on_canvas(old(canvas).spec_width(), old(canvas).spec_height(), px, py)
                    implies #[trigger] canvas.pixel(px, py) == if near_any(visited, thickness as int, px, py) {
                    color
                } else {
                    old(canvas).pixel(px, py)
                } by {
                assert(before.pixel(px, py) == if near_any(old_visited, thickness as int, px, py) {
                    color
                } else {
                    old(canvas).pixel(px, py)
                });
                if near_any(old_visited, thickness as int, px, py) {
                    let i = choose|i: int| 0 <= i < old_visited.len() && in_disk(#[trigger] old_visited[i].0, old_visited[i].1, thickness as int, px, py);
                    assert(visited[i] == old_visited[i]);
                }
                if in_disk(x as int, y as int, thickness as int, px, py) {
                    assert(visited[visited.len() - 1] == (x as int, y as int));
                    assert(in_disk(visited[visited.len() - 1].0, visited[visited.len() - 1].1, thickness as int, px, py));
                }
                if near_any(visited, thickness as int, px, py) && !in_disk(x as int, y as int, thickness as int, px, py) {
                    let i = choose|i: int| 0 <= i < visited.len() && in_disk(#[trigger] visited[i].0, visited[i].1, thickness as int, px, py);
                    assert(old_visited[i] == visited[i]);
                }
            }
        }
        if x == ex && y == ey {
            assert(pts =~= visited);
            return;
        }
        proof {
            assert(!(kx == dx && ky == ddy));
            lemma_line_step(dx as int, ddy as int, kx, ky, err as int);
        }
        let e2 = 2 * err;
        let ghost pre_err = err;
        let ghost pre_x = x;
        let ghost pre_y = y;
        let ghost pre_fuel = fuel;
        if e2 >= dy {
            err = err + dy;
            x = x + sx;
            proof {
                assert(sx * (kx + 1) == sx * kx + sx) by (nonlinear_arith);
                assert((kx + 1) * ddy == kx * ddy + ddy) by (nonlinear_arith);
                kx = kx + 1;
            }
        }
        if e2 <= dx {
            err = err + dx;
            y = y + sy;
            proof {
                assert(sy * (ky + 1) == sy * ky + sy) by (nonlinear_arith);
                assert((ky + 1) * dx == ky * dx + dx) by (nonlinear_arith);
                ky = ky + 1;
            }
        }
        proof {
            fuel = (fuel - 1) as nat;
            assert(line_walk(pre_x as int, pre_y as int, pre_err as int, x1 as int, y1 as int, dx as int, dy as int, sx as int, sy as int, pre_fuel)
                == seq![(pre_x as int, pre_y as int)] + line_walk(x as int, y as int, err as int, x1 as int, y1 as int, dx as int, dy as int, sx as int, sy as int, fuel));
            assert(pts =~= visited + line_walk(x as int, y as int, err as int, x1 as int, y1 as int, dx as int, dy as int, sx as int, sy as int, fuel));
        }
    }
}

/// Each point of `w` is a neighbour (sideways, up or down, or diagonally)
/// of the one before.
#[verifier::opaque]
pub open spec fn adjacent_steps(w: Seq<(int, int)>) -> bool {
    forall|i: int|
        0 <= i < w.len() - 1 ==> abs(#[trigger] w[i + 1].0 - w[i].0) <= 1 && abs(w[i + 1].1 - w[i].1) <= 1
}

/// A single point steps nowhere; a neighbour of the first point of an
/// adjacent walk can be put in front of it.
proof fn lemma_adjacent_cons(p: (int, int), rest: Seq<(int, int)>)
    requires
        rest.len() == 0 || (abs(rest[0].0 - p.0) <= 1 && abs(rest[0].1 - p.1) <= 1),
        adjacent_steps(rest),
    ensures
        adjacent_steps(seq![p] + rest),
{
    reveal(adjacent_steps);
    let w = seq![p] + rest;
    assert forall|i: int| 0 <= i < w.len() - 1 implies abs(#[trigger] w[i + 1].0 - w[i].0) <= 1 && abs(
        w[i + 1].1 - w[i].1,
    ) <= 1 by {
        if i == 0 {
            assert(w[0] == p);
            assert(w[1] == rest[0]);
        } else {
            let j = i - 1;
            assert(w[i] == rest[j]);
            assert(w[i + 1] == rest[j + 1]);
            assert(abs(rest[j + 1].0 - rest[j].0) <= 1 && abs(rest[j + 1].1 - rest[j].1) <= 1);
        }
    }
}

/// Each step of the walk moves each coordinate by at most one towards its
/// end, and the walk ends at `(x1, y1)`.
proof fn lemma_walk_connects(
    x0: int,
    y0: int,
    x1: int,
    y1: int,
    kx: int,
    ky: int,
    err: int,
    fuel: nat,
)
    requires
        0 <= kx <= abs(x1 - x0),
        0 <= ky <= abs(y1 - y0),
        err == abs(x1 - x0) - abs(y1 - y0) - kx * abs(y1 - y0) + ky * abs(x1 - x0),
        fuel >= (abs(x1 - x0) - kx) + (abs(y1 - y0) - ky) + 1,
    ensures
        ({
            let dx = abs(x1 - x0);
            let dy = -abs(y1 - y0);
            let sx = step_toward(x0, x1);
            let sy = step_toward(y0, y1);
            let w = line_walk(x0 + sx * kx, y0 + sy * ky, err, x1, y1, dx, dy, sx, sy, fuel);
            &&& w.len() >= 1
            &&& w[0] == (x0 + sx * kx, y0 + sy * ky)
            &&& w.last() == (x1, y1)
            &&& adjacent_steps(w)
        }),
    decreases fuel,
{
    let dx = abs(x1 - x0);
    let ddy = abs(y1 - y0);
    let dy = -ddy;
    let sx = step_toward(x0, x1);
    let sy = step_toward(y0, y1);
    let x = x0 + sx * kx;
    let y = y0 + sy * ky;
    assert(sx * kx == if sx == 1 { kx } else { -kx }) by (nonlinear_arith)
        requires
            sx == 1 || sx == -1,
    ;
    assert(sy * ky == if sy == 1 { ky } else { -ky }) by (nonlinear_arith)
        requires
            sy == 1 || sy == -1,
    ;
    let w = line_walk(x, y, err, x1, y1, dx, dy, sx, sy, fuel);
    if x == x1 && y == y1 {
        assert(adjacent_steps(Seq::<(int, int)>::empty())) by {
            reveal(adjacent_steps);
        }
        lemma_adjacent_cons((x, y), Seq::empty());
        assert(w =~= seq![(x, y)] + Seq::<(int, int)>::empty());
        return;
    }
    lemma_line_step(dx, ddy, kx, ky, err);
    let e2 = 2 * err;
    let kx2 = if e2 >= dy { kx + 1 } else { kx };
    let err2 = if e2 >= dy { err + dy } else { err };
    let ky2 = if e2 <= dx { ky + 1 } else { ky };
    let err3 = if e2 <= dx { err2 + dx } else { err2 };
    assert(sx * (kx + 1) == sx * kx + sx) by (nonlinear_arith);
    assert(sy * (ky + 1) == sy * ky + sy) by (nonlinear_arith);
    assert((kx + 1) * ddy == kx * ddy + ddy) by (nonlinear_arith);
    assert((ky + 1) * dx == ky * dx + dx) by (nonlinear_arith);
    lemma_walk_connects(x0, y0, x1, y1, kx2, ky2, err3, (fuel - 1) as nat);
    let rest = line_walk(x0 + sx * kx2, y0 + sy * ky2, err3, x1, y1, dx, dy, sx, sy, (fuel - 1) as nat);
    assert(w == seq![(x, y)] + rest);
    assert(w.len() == rest.len() + 1);
    assert(w[0] == (x, y));
    assert(w.last() == rest.last());
    assert(sx * kx2 == if sx == 1 { kx2 } else { -kx2 }) by (nonlinear_arith)
        requires
            sx == 1 || sx == -1,
    ;
    assert(sy * ky2 == if sy == 1 { ky2 } else { -ky2 }) by (nonlinear_arith)
        requires
            sy == 1 || sy == -1,
    ;
    assert(rest[0] == (x0 + sx * kx2, y0 + sy * ky2));
    assert(abs(rest[0].0 - x) <= 1 && abs(rest[0].1 - y) <= 1);
    lemma_adjacent_cons((x, y), rest);
}

/// The points of a drawn line run from its first end to its second, each
/// point a neighbour (sideways, up or down, or diagonally) of the one before.
pub proof fn lemma_line_connects(x0: int, y0: int, x1: int, y1: int)
    ensures
        ({
            let pts = line_points(x0, y0, x1, y1);
            &&& pts.len() >= 1
            &&& pts[0] == (x0, y0)
            &&& pts.last() == (x1, y1)
            &&& forall|i: int|
                0 <= i < pts.len() - 1 ==> abs(#[trigger] pts[i + 1].0 - pts[i].0) <= 1 && abs(
                    pts[i + 1].1 - pts[i].1,
                ) <= 1
        }),
{
    let dx = abs(x1 - x0);
    let ddy = abs(y1 - y0);
    lemma_walk_connects(x0, y0, x1, y1, 0, 0, dx - ddy, (dx + ddy + 1) as nat);
    assert(step_toward(x0, x1) * 0 == 0);
    assert(step_toward(y0, y1) * 0 == 0);
    reveal(adjacent_steps);
}

/// `(x, y)` lies within `radius` of the line between some two consecutive points of `pts`.
pub open spec fn near_polyline(pts: Seq<(i32, i32)>, radius: int, x: int, y: int) -> bool {
    exists|k: int|
        0 <= k < pts.len() - 1 && near_any(
            line_points(#[trigger] pts[k].0 as int, pts[k].1 as int, pts[k + 1].0 as int, pts[k + 1].1 as int),
            radius,
            x,
            y,
        )
}

/// The endpoints `a` and `b` and `radius` stay within the limits of `draw_line_with_color`.
pub open spec fn segment_fits(a: (i32, i32), b: (i32, i32), radius: i32) -> bool {
    &&& 2 * abs(b.0 - a.0) <= i32::MAX
    &&& 2 * abs(b.1 - a.1) <= i32::MAX
    &&& radius < 0 || (i32::MIN <= a.0 - radius && a.0 + radius <= i32::MAX && i32::MIN <= b.0 - radius
        && b.0 + radius <= i32::MAX && i32::MIN <= a.1 - radius && a.1 + radius <= i32::MAX
        && i32::MIN <= b.1 - radius && b.1 + radius <= i32::MAX)
}

/// Paints the lines between each two consecutive points of `pts`, as an
/// eraser stroke is painted: pixels within `thickness` of one of those lines
/// take `color`, and no other pixel changes.
pub fn draw_polyline(canvas: &mut Canvas, pts: &[(i32, i32)], thickness: i32, color: Rgba)
    requires
        old(canvas).wf(),
        thickness <= 32767,
        thickness > i32::MIN,
        forall|k: int| 0 <= k < pts@.len() - 1 ==> segment_fits(#[trigger] pts@[k], pts@[k + 1], thickness),
    ensures
        final(canvas).wf(),
        final(canvas).spec_width() == old(canvas).spec_width(),
        final(canvas).spec_height() == old(canvas).spec_height(),
        forall|x: int, y: int|
            on_canvas(old(canvas).spec_width(), old(canvas).spec_height(), x, y)
                ==> #[trigger] final(canvas).pixel(x, y) == if near_polyline(pts@, thickness as int, x, y) {
                color
            } else {
                old(canvas).pixel(x, y)
            },
{
    if pts.len() == 0 {
        assert forall|x: int, y: int| !#[trigger] near_polyline(pts@, thickness as int, x, y) by {}
        return;
    }
    let mut k: usize = 0;
    assert forall|x: int, y: int| !#[trigger] near_polyline(pts@.take(1), thickness as int, x, y) by {}
    while k < pts.len() - 1
        invariant
            canvas.wf(),
            canvas.spec_width() == old(canvas).spec_width(),
            canvas.spec_height() == old(canvas).spec_height(),
            thickness <= 32767,
            thickness > i32::MIN,
            forall|j: int| 0 <= j < pts@.len() - 1 ==> segment_fits(#[trigger] pts@[j], pts@[j + 1], thickness),
            k < pts.len(),
            forall|x: int, y: int|
                on_canvas(old(canvas).spec_width(), old(canvas).spec_height(), x, y)
                    ==> #[trigger] canvas.pixel(x, y) == if near_polyline(pts@.take(k + 1), thickness as int, x, y) {
                    color
                } else {
                    old(canvas).pixel(x, y)
                },
        decreases pts.len() - k,
    {
        let a = pts[k];
        let b = pts[k + 1];
        assert(segment_fits(pts@[k as int], pts@[k + 1], thickness));
        let ghost before = *canvas;
        draw_line_with_color(canvas, a.0, a.1, b.0, b.1, thickness, color);
        proof {
            let pre = pts@.take(k + 1);
            let post = pts@.take(k + 2);
            assert forall|x: int, y: int|
                on_canvas(old(canvas).spec_width(), old(canvas).spec_height(), x, y)
                    implies #[trigger] canvas.pixel(x, y) == if near_polyline(post, thickness as int, x, y) {
                    color
                } else {
                    old(canvas).pixel(x, y)
                } by {
                assert(before.pixel(x, y) == if near_polyline(pre, thickness as int, x, y) {
                    color
                } else {
                    old(canvas).pixel(x, y)
                });
                let seg = line_points(a.0 as int, a.1 as int, b.0 as int, b.1 as int);
                if near_polyline(pre, thickness as int, x, y) {
                    let j = choose|j: int|
                        0 <= j < pre.len() - 1 && near_any(
                            line_points(#[trigger] pre[j].0 as int, pre[j].1 as int, pre[j + 1].0 as int, pre[j + 1].1 as int),
                            thickness as int,
                            x,
                            y,
                        );
                    assert(post[j] == pre[j] && post[j + 1] == pre[j + 1]);
                }
                if near_any(seg, thickness as int, x, y) {
                    assert(post[k as int] == a && post[k + 1] == b);
                }
                if near_polyline(post, thickness as int, x, y) && !near_any(seg, thickness as int, x, y) {
                    let j = choose|j: int|
                        0 <= j < post.len() - 1 && near_any(
                            line_points(#[trigger] post[j].0 as int, post[j].1 as int, post[j + 1].0 as int, post[j + 1].1 as int),
                            thickness as int,
                            x,
                            y,
                        );
                    if j < k {
                        assert(post[j] == pre[j] && post[j + 1] == pre[j + 1]);
                    } else {
                        assert(post[j] == a && post[j + 1] == b);
                    }
                }
            }
        }
        k += 1;
    }
    assert(pts@.take(k + 1) =~= pts@);
}

/// The RGB bytes of `canvas`, row by row, laid on white: a pixel with alpha
/// zero becomes white and any other keeps its red, green and blue.
pub fn rgb_on_white(canvas: &Canvas) -> (out: Vec<u8>)
    requires
        canvas.wf(),
    ensures
        out@.len() == 3 * canvas.rows().len(),
        forall|k: int|
            0 <= k < canvas.rows().len() ==> {
                let p = #[trigger] canvas.rows()[k];
                &&& out@[3 * k] == if p.a == 0 { 255u8 } else { p.r }
                &&& out@[3 * k + 1] == if p.a == 0 { 255u8 } else { p.g }
                &&& out@[3 * k + 2] == if p.a == 0 { 255u8 } else { p.b }
            },
{
    let n = canvas.pixels.len();
    let mut out: Vec<u8> = Vec::new();
    let mut k: usize = 0;
    while k < n
        invariant
            n == canvas.rows().len(),
            k <= n,
            out@.len() == 3 * k,
            forall|j: int|
                0 <= j < k ==> {
                    let p = #[trigger] canvas.rows()[j];
                    &&& out@[3 * j] == if p.a == 0 { 255u8 } else { p.r }
                    &&& out@[3 * j + 1] == if p.a == 0 { 255u8 } else { p.g }
                    &&& out@[3 * j + 2] == if p.a == 0 { 255u8 } else { p.b }
                },
        decreases n - k,
    {
        let p = canvas.pixels[k];
        if p.a == 0 {
            out.push(255);
            out.push(255);
            out.push(255);
        } else {
            out.push(p.r);
            out.push(p.g);
            out.push(p.b);
        }
        k += 1;
    }
    out
}

/// The tool used in edit mode.
#[derive(Clone, Copy, PartialEq, Eq, Structural, Debug)]
pub enum ToolMode {
    Pen,
    Eraser,
}

/// The colour of the dot at the centre of the cursor: the pen colour with
/// the pen, white with the eraser.
pub fn cursor_color(mode: ToolMode, pen_color: Rgba) -> (c: Rgba)
    ensures
        c == match mode {
            ToolMode::Pen => pen_color,
            ToolMode::Eraser => Rgba { r: 255, g: 255, b: 255, a: 255 },
        },
{
    match mode {
        ToolMode::Pen => pen_color,
        ToolMode::Eraser => Rgba { r: 255, g: 255, b: 255, a: 255 },
    }
}

} // verus!
