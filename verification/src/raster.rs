//! Indexed-color pixel buffers: single pixels, Bresenham lines, clockwise
//! rotation and 4bpp packing (high nibble first).

use vstd::prelude::*;

verus! {

/// Writing value `v` at `(x, y)` of a `w`-wide, `h`-high buffer; points
/// outside are ignored.
pub open spec fn put_pixel(px: Seq<u8>, w: int, h: int, x: int, y: int, v: u8) -> Seq<u8> {
    if 0 <= x < w && 0 <= y < h {
        px.update(y * w + x, v)
    } else {
        px
    }
}

/// Writing `v` at each point of `pts`, in order.
pub open spec fn put_pixels(px: Seq<u8>, w: int, h: int, pts: Seq<(int, int)>, v: u8) -> Seq<u8>
    decreases pts.len(),
{
    if pts.len() == 0 {
        px
    } else {
        put_pixel(put_pixels(px, w, h, pts.drop_last(), v), w, h, pts.last().0, pts.last().1, v)
    }
}

/// The Bresenham error term after `i` x-steps and `j` y-steps of a line
/// with `d = |x1 - x0|` and `e = |y1 - y0|`.
pub open spec fn bres_err(d: int, e: int, i: int, j: int) -> int {
    d * (1 + j) - e * (1 + i)
}

/// The step counts after one Bresenham step.
pub open spec fn bres_next(d: int, e: int, i: int, j: int) -> (int, int) {
    let e2 = 2 * bres_err(d, e, i, j);
    (if e2 >= -e {
        i + 1
    } else {
        i
    }, if e2 <= d {
        j + 1
    } else {
        j
    })
}

pub proof fn lemma_bres_step(d: int, e: int, i: int, j: int)
    requires
        0 <= i <= d,
        0 <= j <= e,
        !(i == d && j == e),
    ensures
        i <= bres_next(d, e, i, j).0 <= d,
        j <= bres_next(d, e, i, j).1 <= e,
        bres_next(d, e, i, j).0 + bres_next(d, e, i, j).1 > i + j,
        bres_next(d, e, i, j).0 <= i + 1,
        bres_next(d, e, i, j).1 <= j + 1,
{
    let err = bres_err(d, e, i, j);
    if i == d {
        assert(j < e);
        assert(2 * err < -e) by (nonlinear_arith)
            requires
                err == d * (1 + j) - e * (1 + i),
                i == d,
                0 <= j < e,
                d >= 0,
        ;
    }
    if j == e {
        assert(i < d);
        assert(2 * err > d) by (nonlinear_arith)
            requires
                err == d * (1 + j) - e * (1 + i),
                j == e,
                0 <= i < d,
                e >= 0,
        ;
    }
}

/// The (x-step, y-step) counts that Bresenham's algorithm visits.
pub open spec fn bres_steps(d: int, e: int, i: int, j: int) -> Seq<(int, int)>
    decreases (d - i) + (e - j),
    when 0 <= i <= d && 0 <= j <= e
{
    if i == d && j == e {
        seq![(i, j)]
    } else {
        proof {
            lemma_bres_step(d, e, i, j);
        }
        let n = bres_next(d, e, i, j);
        seq![(i, j)] + bres_steps(d, e, n.0, n.1)
    }
}

pub open spec fn sign_step(a: int, b: int) -> int {
    if a < b {
        1
    } else {
        -1
    }
}

pub open spec fn abs_int(v: int) -> int {
    if v < 0 {
        -v
    } else {
        v
    }
}

/// The points of the Bresenham line from `(x0, y0)` to `(x1, y1)`.
pub open spec fn line_points(x0: int, y0: int, x1: int, y1: int) -> Seq<(int, int)> {
    let d = abs_int(x1 - x0);
    let e = abs_int(y1 - y0);
    let sx = sign_step(x0, x1);
    let sy = sign_step(y0, y1);
    bres_steps(d, e, 0, 0).map_values(|s: (int, int)| (x0 + sx * s.0, y0 + sy * s.1))
}

pub open spec fn small_coord(v: int) -> bool {
    -0x0800_0000 <= v <= 0x0800_0000
}

/// Writes one pixel of a row-major buffer if `(x, y)` lies inside it.
pub fn set_pixel(pixels: &mut Vec<u8>, width: usize, height: usize, x: i32, y: i32, value: u8)
    requires
        old(pixels)@.len() == width * height,
    ensures
        final(pixels)@ == put_pixel(old(pixels)@, width as int, height as int, x as int, y as int, value),
{
    let len = pixels.len();
    if x >= 0 && y >= 0 && (x as usize) < width && (y as usize) < height {
        proof {
            lemma_index_in_grid(x as int, y as int, width as int, height as int);
            assert((y as int) * (width as int) <= (y as int) * (width as int) + (x as int));
        }
        let idx = (y as usize) * width + (x as usize);
        pixels.set(idx, value);
    }
}

pub proof fn lemma_index_in_grid(x: int, y: int, w: int, h: int)
    requires
        0 <= x < w,
        0 <= y < h,
    ensures
        0 <= y * w + x < w * h,
{
    assert(0 <= y * w + x < w * h) by (nonlinear_arith)
        requires
            0 <= x < w,
            0 <= y < h,
    ;
}

proof fn lemma_put_pixels_push(px: Seq<u8>, w: int, h: int, pts: Seq<(int, int)>, p: (int, int), v: u8)
    ensures
        put_pixels(px, w, h, pts.push(p), v) == put_pixel(put_pixels(px, w, h, pts, v), w, h, p.0, p.1, v),
{
    assert(pts.push(p).drop_last() == pts);
}

pub proof fn lemma_put_pixels_len(px: Seq<u8>, w: int, h: int, pts: Seq<(int, int)>, v: u8)
    requires
        px.len() == w * h,
    ensures
        put_pixels(px, w, h, pts, v).len() == px.len(),
    decreases pts.len(),
{
    if pts.len() > 0 {
        lemma_put_pixels_len(px, w, h, pts.drop_last(), v);
        let p = pts.last();
        if 0 <= p.0 < w && 0 <= p.1 < h {
            lemma_index_in_grid(p.0, p.1, w, h);
        }
    }
}

/// Writing a value at a list of points leaves that value at each of the
/// points that lies on the grid.
pub proof fn put_pixels_paints_its_points(px: Seq<u8>, w: int, h: int, pts: Seq<(int, int)>, v: u8)
    requires
        px.len() == w * h,
    ensures
        forall|m: int|
            0 <= m < pts.len() && 0 <= (#[trigger] pts[m]).0 < w && 0 <= pts[m].1 < h ==> put_pixels(
                px,
                w,
                h,
                pts,
                v,
            )[pts[m].1 * w + pts[m].0] == v,
    decreases pts.len(),
{
    if pts.len() > 0 {
        let dl = pts.drop_last();
        put_pixels_paints_its_points(px, w, h, dl, v);
        lemma_put_pixels_len(px, w, h, dl, v);
        let p = pts.last();
        if 0 <= p.0 < w && 0 <= p.1 < h {
            lemma_index_in_grid(p.0, p.1, w, h);
        }
        assert forall|m: int|
            0 <= m < pts.len() && 0 <= (#[trigger] pts[m]).0 < w && 0 <= pts[m].1 < h implies put_pixels(
            px,
            w,
            h,
            pts,
            v,
        )[pts[m].1 * w + pts[m].0] == v by {
            lemma_index_in_grid(pts[m].0, pts[m].1, w, h);
            if m < pts.len() - 1 {
                assert(dl[m] == pts[m]);
            }
        }
    }
}

/// `bres_steps(d, e, i, j)` is what is left after the steps that led to `(i, j)`.
proof fn lemma_bres_suffix(d: int, e: int, i: int, j: int)
    requires
        0 <= i <= d,
        0 <= j <= e,
        !(i == d && j == e),
    ensures
        bres_steps(d, e, i, j) == seq![(i, j)] + bres_steps(
            d,
            e,
            bres_next(d, e, i, j).0,
            bres_next(d, e, i, j).1,
        ),
{
    lemma_bres_step(d, e, i, j);
}

/// Draws a Bresenham line, endpoints included.
pub fn draw_line(
    pixels: &mut Vec<u8>,
    width: usize,
    height: usize,
    x0: i32,
    y0: i32,
    x1: i32,
    y1: i32,
    value: u8,
)
    requires
        old(pixels)@.len() == width * height,
        small_coord(x0 as int),
        small_coord(y0 as int),
        small_coord(x1 as int),
        small_coord(y1 as int),
    ensures
        final(pixels)@ == put_pixels(
            old(pixels)@,
            width as int,
            height as int,
            line_points(x0 as int, y0 as int, x1 as int, y1 as int),
            value,
        ),
{
    let ghost d = abs_int(x1 - x0);
    let ghost e = abs_int(y1 - y0);
    let dx: i32 = if x1 >= x0 {
        x1 - x0
    } else {
        x0 - x1
    };
    let sx: i32 = if x0 < x1 {
        1
    } else {
        -1
    };
    let dy: i32 = if y1 >= y0 {
        -(y1 - y0)
    } else {
        -(y0 - y1)
    };
    let sy: i32 = if y0 < y1 {
        1
    } else {
        -1
    };
    let mut err: i32 = dx + dy;
    let mut x = x0;
    let mut y = y0;
    let ghost mut i: int = 0;
    let ghost mut j: int = 0;
    let ghost all = bres_steps(d, e, 0, 0);
    let ghost map_pt = |s: (int, int)| (x0 + (sx as int) * s.0, y0 + (sy as int) * s.1);
    let ghost mut visited: Seq<(int, int)> = Seq::empty();
    assert(line_points(x0 as int, y0 as int, x1 as int, y1 as int) == all.map_values(map_pt));
    assert(visited + bres_steps(d, e, 0, 0) == all);
    assert(bres_err(d, e, 0, 0) == d - e) by (nonlinear_arith);
    assert(visited.map_values(map_pt) =~= Seq::<(int, int)>::empty());
    loop
        invariant_except_break
            d == abs_int(x1 - x0),
            e == abs_int(y1 - y0),
            dx == d,
            dy == -e,
            d <= 0x1000_0000,
            e <= 0x1000_0000,
            sx == sign_step(x0 as int, x1 as int),
            sy == sign_step(y0 as int, y1 as int),
            small_coord(x0 as int),
            small_coord(y0 as int),
            small_coord(x1 as int),
            small_coord(y1 as int),
            0 <= i <= d,
            0 <= j <= e,
            err == bres_err(d, e, i, j),
            -2 * e <= err <= 2 * d,
            x == x0 + sx * i,
            y == y0 + sy * j,
            all == visited + bres_steps(d, e, i, j),
            map_pt == (|s: (int, int)| (x0 + (sx as int) * s.0, y0 + (sy as int) * s.1)),
            pixels@ == put_pixels(old(pixels)@, width as int, height as int, visited.map_values(map_pt), value),
        invariant
            pixels@.len() == width * height,
        ensures
            pixels@ == put_pixels(old(pixels)@, width as int, height as int, all.map_values(map_pt), value),
        decreases (d - i) + (e - j),
    {
        set_pixel(pixels, width, height, x, y, value);
        proof {
            if 0 <= x < width && 0 <= y < height {
                lemma_index_in_grid(x as int, y as int, width as int, height as int);
            }
            lemma_put_pixels_push(old(pixels)@, width as int, height as int, visited.map_values(map_pt), map_pt((i, j)), value);
            assert(visited.push((i, j)).map_values(map_pt) =~= visited.map_values(map_pt).push(map_pt((i, j))));
            assert(map_pt((i, j)) == (x as int, y as int));
        }
        if x == x1 && y == y1 {
            proof {
                assert(i == d && j == e) by {
                    if sx == 1 {
                        assert(x1 - x0 == i);
                    } else {
                        assert(x0 - x1 == i);
                    }
                    if sy == 1 {
                        assert(y1 - y0 == j);
                    } else {
                        assert(y0 - y1 == j);
                    }
                }
                assert(bres_steps(d, e, i, j) == seq![(i, j)]);
                assert(all == visited.push((i, j)));
            }
            break;
        }
        proof {
            assert(!(i == d && j == e)) by {
                if i == d && j == e {
                    if sx == 1 {
                        assert(x == x1);
                    } else {
                        assert(x == x1);
                    }
                    if sy == 1 {
                        assert(y == y1);
                    } else {
                        assert(y == y1);
                    }
                }
            }
            lemma_bres_suffix(d, e, i, j);
            lemma_bres_step(d, e, i, j);
            assert(visited + bres_steps(d, e, i, j) =~= visited.push((i, j)) + bres_steps(
                d,
                e,
                bres_next(d, e, i, j).0,
                bres_next(d, e, i, j).1,
            ));
            assert(sx * (i + 1) == sx * i + sx) by (nonlinear_arith);
            assert(sy * (j + 1) == sy * j + sy) by (nonlinear_arith);
            assert(bres_err(d, e, i + 1, j) == bres_err(d, e, i, j) - e) by (nonlinear_arith);
            assert(bres_err(d, e, i, j + 1) == bres_err(d, e, i, j) + d) by (nonlinear_arith);
            assert(bres_err(d, e, i + 1, j + 1) == bres_err(d, e, i, j) - e + d) by (nonlinear_arith);
            assert(-0x3000_0000 <= x0 + sx * i <= 0x3000_0000) by (nonlinear_arith)
                requires
                    sx == 1 || sx == -1,
                    0 <= i <= d <= 0x1000_0000,
                    -0x0800_0000 <= x0 <= 0x0800_0000,
            ;
            assert(-0x3000_0000 <= y0 + sy * j <= 0x3000_0000) by (nonlinear_arith)
                requires
                    sy == 1 || sy == -1,
                    0 <= j <= e <= 0x1000_0000,
                    -0x0800_0000 <= y0 <= 0x0800_0000,
            ;
        }
        let ghost n = bres_next(d, e, i, j);
        let e2 = 2 * err;
        if e2 >= dy {
            err = err + dy;
            x = x + sx;
        }
        if e2 <= dx {
            err = err + dx;
            y = y + sy;
        }
        proof {
            visited = visited.push((i, j));
            i = n.0;
            j = n.1;
        }
    }
}

} // verus!

verus! {

/// A `w`-wide, `h`-high buffer turned a quarter clockwise: the result is
/// `h` wide and `w` high, and pixel `(x, y)` of the source lands at
/// `(h - 1 - y, x)`.
pub open spec fn rotated_cw(src: Seq<u8>, w: int, h: int) -> Seq<u8> {
    Seq::new((w * h) as nat, |k: int| src[(h - 1 - k % h) * w + k / h])
}

/// Turns a row-major buffer a quarter clockwise.
pub fn rotate_clockwise(src: &Vec<u8>, width: usize, height: usize) -> (r: Vec<u8>)
    requires
        src@.len() == width * height,
    ensures
        r@ == rotated_cw(src@, width as int, height as int),
{
    let ghost spec = rotated_cw(src@, width as int, height as int);
    let len = src.len();
    let mut out: Vec<u8> = Vec::new();
    let mut dy: usize = 0;
    while dy < width
        invariant
            src@.len() == width * height,
            len == width * height,
            spec == rotated_cw(src@, width as int, height as int),
            dy <= width,
            out@ == spec.take(dy * height),
        decreases width - dy,
    {
        proof {
            assert(dy * height + height == (dy + 1) * height) by (nonlinear_arith);
            assert((dy + 1) * height <= width * height) by (nonlinear_arith)
                requires
                    dy + 1 <= width,
            ;
        }
        let mut dx: usize = 0;
        while dx < height
            invariant
                src@.len() == width * height,
                len == width * height,
                spec == rotated_cw(src@, width as int, height as int),
                dy < width,
                dx <= height,
                (dy + 1) * height <= width * height,
                dy * height + height == (dy + 1) * height,
                out@ == spec.take(dy * height + dx),
            decreases height - dx,
        {
            let sy = height - 1 - dx;
            proof {
                lemma_index_in_grid(dy as int, sy as int, width as int, height as int);
                assert((sy as int) * (width as int) <= (sy as int) * (width as int) + dy);
                let k = dy * height + dx;
                vstd::arithmetic::div_mod::lemma_fundamental_div_mod_converse(
                    k as int,
                    height as int,
                    dy as int,
                    dx as int,
                );
                assert(k == (dy as int) * (height as int) + (dx as int));
                assert(spec[k as int] == src@[(sy as int) * (width as int) + dy]);
                assert(spec.take(k + 1) == spec.take(k as int).push(spec[k as int]));
            }
            out.push(src[sy * width + dy]);
            dx = dx + 1;
        }
        dy = dy + 1;
    }
    proof {
        assert(spec.take(width * height) == spec);
    }
    out
}

/// The byte of two 4-bit pixels, high nibble first.
pub open spec fn nibble_pair(hi: u8, lo: u8) -> u8 {
    ((hi % 16) * 16 + lo % 16) as u8
}

/// Row `r`, byte `c` of a packed 4bpp image.
pub open spec fn packed_byte(px: Seq<u8>, w: int, r: int, c: int) -> u8 {
    let x = 2 * c;
    nibble_pair(px[r * w + x], if x + 1 < w {
        px[r * w + x + 1]
    } else {
        0u8
    })
}

/// A `w`-wide, `h`-high buffer packed two pixels per byte, each row padded
/// to a whole byte.
pub open spec fn packed_4bpp(px: Seq<u8>, w: int, h: int) -> Seq<u8> {
    let stride = (w + 1) / 2;
    Seq::new((h * stride) as nat, |k: int| packed_byte(px, w, k / stride, k % stride))
}

fn nibble_pair_exec(hi: u8, lo: u8) -> (r: u8)
    ensures
        r == nibble_pair(hi, lo),
{
    let h = hi & 0x0f;
    let l = lo & 0x0f;
    assert(h == hi % 16) by (bit_vector)
        requires
            h == hi & 0x0f,
    ;
    assert(l == lo % 16) by (bit_vector)
        requires
            l == lo & 0x0f,
    ;
    assert((h << 4) | l == h * 16 + l) by (bit_vector)
        requires
            h < 16,
            l < 16,
    ;
    (h << 4) | l
}

/// Packs a row-major 4-bit buffer, high nibble first.
pub fn pack_4bpp(pixels: &Vec<u8>, width: usize, height: usize) -> (r: Vec<u8>)
    requires
        pixels@.len() == width * height,
    ensures
        r@ == packed_4bpp(pixels@, width as int, height as int),
{
    let ghost spec = packed_4bpp(pixels@, width as int, height as int);
    let len = pixels.len();
    let stride = if width % 2 == 0 {
        width / 2
    } else {
        width / 2 + 1
    };
    assert(stride == (width + 1) / 2);
    let mut out: Vec<u8> = Vec::new();
    let mut y: usize = 0;
    while y < height
        invariant
            pixels@.len() == width * height,
            len == width * height,
            spec == packed_4bpp(pixels@, width as int, height as int),
            stride == (width + 1) / 2,
            y <= height,
            out@ == spec.take(y * stride),
        decreases height - y,
    {
        proof {
            assert(y * stride + stride == (y + 1) * stride) by (nonlinear_arith);
            assert((y + 1) * stride <= height * stride) by (nonlinear_arith)
                requires
                    y + 1 <= height,
            ;
        }
        let mut c: usize = 0;
        while c < stride
            invariant
                pixels@.len() == width * height,
                len == width * height,
                spec == packed_4bpp(pixels@, width as int, height as int),
                stride == (width + 1) / 2,
                y < height,
                c <= stride,
                y * stride + stride == (y + 1) * stride,
                (y + 1) * stride <= height * stride,
                out@ == spec.take(y * stride + c),
            decreases stride - c,
        {
            let x = 2 * c;
            proof {
                lemma_index_in_grid(x as int, y as int, width as int, height as int);
                assert((y as int) * (width as int) <= (y as int) * (width as int) + x);
                if x + 1 < width {
                    lemma_index_in_grid(x + 1, y as int, width as int, height as int);
                }
                let k = y * stride + c;
                vstd::arithmetic::div_mod::lemma_fundamental_div_mod_converse(
                    k as int,
                    stride as int,
                    y as int,
                    c as int,
                );
                assert(k == (y as int) * (stride as int) + (c as int));
                assert(spec.take(k + 1) == spec.take(k as int).push(spec[k as int]));
            }
            let hi = pixels[y * width + x];
            let lo = if x + 1 < width {
                pixels[y * width + x + 1]
            } else {
                0
            };
            out.push(nibble_pair_exec(hi, lo));
            c = c + 1;
        }
        y = y + 1;
    }
    proof {
        assert(spec.take(height * stride) == spec);
    }
    out
}

} // verus!

verus! {

pub type Rgb = (u8, u8, u8);

/// The squared RGB distance between two colors.
pub open spec fn color_dist(a: Rgb, b: Rgb) -> int {
    (a.0 - b.0) * (a.0 - b.0) + (a.1 - b.1) * (a.1 - b.1) + (a.2 - b.2) * (a.2 - b.2)
}

/// The first of the candidate palette indices whose color is nearest to `rgb`.
pub open spec fn nearest_among(rgb: Rgb, pal: Seq<Rgb>, cands: Seq<int>) -> int
    decreases cands.len(),
{
    if cands.len() <= 1 {
        cands[0]
    } else {
        let b = nearest_among(rgb, pal, cands.drop_last());
        let c = cands.last();
        if color_dist(rgb, pal[c]) < color_dist(rgb, pal[b]) {
            c
        } else {
            b
        }
    }
}

fn color_dist_exec(a: (u8, u8, u8), b: (u8, u8, u8)) -> (r: i32)
    ensures
        r == color_dist(a, b),
{
    let dr = a.0 as i32 - b.0 as i32;
    let dg = a.1 as i32 - b.1 as i32;
    let db = a.2 as i32 - b.2 as i32;
    assert(dr * dr <= 65025 && dg * dg <= 65025 && db * db <= 65025) by (nonlinear_arith)
        requires
            -255 <= dr <= 255,
            -255 <= dg <= 255,
            -255 <= db <= 255,
    ;
    assert(dr * dr >= 0 && dg * dg >= 0 && db * db >= 0) by (nonlinear_arith);
    dr * dr + dg * dg + db * db
}

/// The first candidate index whose palette color is nearest to `rgb`
/// (ties keep the earlier candidate).
pub fn nearest_palette_index(rgb: (u8, u8, u8), pal: &Vec<(u8, u8, u8)>, cands: &Vec<usize>) -> (r: usize)
    requires
        cands@.len() >= 1,
        forall|k: int| 0 <= k < cands@.len() ==> #[trigger] cands@[k] < pal@.len(),
    ensures
        r == nearest_among(rgb, pal@, cands@.map_values(|c: usize| c as int)),
        r < pal@.len(),
{
    let ghost cs = cands@.map_values(|c: usize| c as int);
    let mut best = cands[0];
    let mut best_dist = color_dist_exec(rgb, pal[best]);
    assert(cs.take(1).len() == 1);
    for k in 1..cands.len()
        invariant
            cands@.len() >= 1,
            forall|k: int| 0 <= k < cands@.len() ==> #[trigger] cands@[k] < pal@.len(),
            cs == cands@.map_values(|c: usize| c as int),
            best == nearest_among(rgb, pal@, cs.take(k as int)),
            best < pal@.len(),
            best_dist == color_dist(rgb, pal@[best as int]),
    {
        let c = cands[k];
        let d = color_dist_exec(rgb, pal[c]);
        proof {
            assert(cs.take(k + 1).drop_last() == cs.take(k as int));
            assert(cs.take(k + 1).last() == c);
        }
        if d < best_dist {
            best = c;
            best_dist = d;
        }
    }
    proof {
        assert(cs.take(cands@.len() as int) == cs);
    }
    best
}

} // verus!

verus! {

/// The 4-bit value at `(x, y)` of a packed `w`-wide bitmap (high nibble
/// first); bytes past the end read as zero.
pub open spec fn packed_value(bytes: Seq<u8>, w: int, x: int, y: int) -> u8 {
    let k = y * ((w + 1) / 2) + x / 2;
    let b = if 0 <= k < bytes.len() {
        bytes[k]
    } else {
        0u8
    };
    if x % 2 == 0 {
        b / 16
    } else {
        b % 16
    }
}

/// A pixel of the `w` x `h` bitmap with a non-zero value.
pub open spec fn lit(bytes: Seq<u8>, w: int, h: int, x: int, y: int) -> bool {
    0 <= x < w && 0 <= y < h && packed_value(bytes, w, x, y) != 0
}

/// Columns `x0..=x1` and rows `y0..=y1` are the tightest box around the
/// lit pixels.
pub open spec fn ink_box(bytes: Seq<u8>, w: int, h: int, x0: int, x1: int, y0: int, y1: int) -> bool {
    &&& exists|y: int| #[trigger] lit(bytes, w, h, x0, y)
    &&& exists|y: int| #[trigger] lit(bytes, w, h, x1, y)
    &&& exists|x: int| #[trigger] lit(bytes, w, h, x, y0)
    &&& exists|x: int| #[trigger] lit(bytes, w, h, x, y1)
    &&& forall|x: int, y: int| #[trigger] lit(bytes, w, h, x, y) ==> x0 <= x <= x1 && y0 <= y <= y1
}

pub open spec fn scanned(x: int, y: int, cx: int, cy: int) -> bool {
    y < cy || (y == cy && x < cx)
}

fn packed_value_exec(bytes: &[u8], width: usize, height: usize, x: usize, y: usize) -> (r: u8)
    requires
        x < width,
        y < height,
        height * ((width + 1) / 2) <= usize::MAX,
    ensures
        r == packed_value(bytes@, width as int, x as int, y as int),
{
    let stride = width / 2 + width % 2;
    assert(stride == (width + 1) / 2);
    assert(y * stride + x / 2 < height * stride) by (nonlinear_arith)
        requires
            y < height,
            x < width,
            stride == (width + 1) / 2,
    ;
    let k = y * stride + x / 2;
    let b: u8 = if k < bytes.len() {
        bytes[k]
    } else {
        0
    };
    if x % 2 == 0 {
        b / 16
    } else {
        b % 16
    }
}

/// The box around the non-zero pixels of a packed 4bpp bitmap, widened by
/// one pixel on each side within the bitmap, as `(left, right, top,
/// bottom)` with the right and bottom ends exclusive; `None` when every
/// pixel is zero.
pub fn preview_pixel_bounds(bytes: &[u8], width: usize, height: usize) -> (r: Option<(usize, usize, usize, usize)>)
    requires
        height * ((width + 1) / 2) <= usize::MAX,
    ensures
        r is None <==> forall|x: int, y: int| !#[trigger] lit(bytes@, width as int, height as int, x, y),
        r matches Some(v) ==> exists|x0: int, x1: int, y0: int, y1: int|
            #[trigger] ink_box(bytes@, width as int, height as int, x0, x1, y0, y1) && v.0 == (if x0 > 0 { x0 - 1 } else { 0 })
                && v.1 == (if x1 + 2 < width { x1 + 2 } else { width as int }) && v.2 == (if y0 > 0 { y0 - 1 } else { 0 })
                && v.3 == (if y1 + 2 < height { y1 + 2 } else { height as int }),
{
    let ghost b = bytes@;
    let ghost w = width as int;
    let ghost h = height as int;
    let mut left = width;
    let mut right: usize = 0;
    let mut top = height;
    let mut bottom: usize = 0;
    let ghost mut ly: int = 0;
    let ghost mut ry: int = 0;
    let ghost mut tx: int = 0;
    let ghost mut bx: int = 0;
    let mut y: usize = 0;
    while y < height
        invariant
            b == bytes@,
            w == width,
            h == height,
            y <= height,
            height * ((width + 1) / 2) <= usize::MAX,
            left <= width,
            right <= width,
            top <= height,
            bottom <= height,
            (right == 0) == (bottom == 0),
            forall|px: int, py: int| #[trigger] lit(b, w, h, px, py) && py < y ==> left <= px < right && top <= py < bottom,
            right > 0 ==> lit(b, w, h, left as int, ly) && lit(b, w, h, right - 1, ry) && lit(b, w, h, tx, top as int)
                && lit(b, w, h, bx, bottom - 1),
        decreases height - y,
    {
        let mut x: usize = 0;
        while x < width
            invariant
                b == bytes@,
                w == width,
                h == height,
                y < height,
                x <= width,
                height * ((width + 1) / 2) <= usize::MAX,
                left <= width,
                right <= width,
                top <= height,
                bottom <= height,
                (right == 0) == (bottom == 0),
                forall|px: int, py: int| #[trigger] lit(b, w, h, px, py) && scanned(px, py, x as int, y as int) ==> left <= px < right
                    && top <= py < bottom,
                right > 0 ==> lit(b, w, h, left as int, ly) && lit(b, w, h, right - 1, ry) && lit(b, w, h, tx, top as int)
                    && lit(b, w, h, bx, bottom - 1),
            decreases width - x,
        {
            let v = packed_value_exec(bytes, width, height, x, y);
            if v != 0 {
                assert(lit(b, w, h, x as int, y as int));
                if x < left || right == 0 {
                    left = x;
                    proof { ly = y as int; }
                }
                if x + 1 > right {
                    right = x + 1;
                    proof { ry = y as int; }
                }
                if y < top || bottom == 0 {
                    top = y;
                    proof { tx = x as int; }
                }
                if y + 1 > bottom {
                    bottom = y + 1;
                    proof { bx = x as int; }
                }
            }
            proof {
                assert forall|px: int, py: int| #[trigger] lit(b, w, h, px, py) && scanned(px, py, x + 1, y as int) implies
                    left <= px < right && top <= py < bottom by {
                    if !scanned(px, py, x as int, y as int) {
                        assert(px == x && py == y);
                    }
                }
            }
            x = x + 1;
        }
        proof {
            assert forall|px: int, py: int| #[trigger] lit(b, w, h, px, py) && py < y + 1 implies left <= px < right && top
                <= py < bottom by {
                assert(scanned(px, py, x as int, y as int));
            }
        }
        y = y + 1;
    }
    if left < right && top < bottom {
        let l = if left > 0 { left - 1 } else { 0 };
        let rr = if right < width { right + 1 } else { width };
        let t = if top > 0 { top - 1 } else { 0 };
        let bt = if bottom < height { bottom + 1 } else { height };
        assert(ink_box(b, w, h, left as int, right - 1, top as int, bottom - 1));
        Some((l, rr, t, bt))
    } else {
        proof {
            assert forall|px: int, py: int| !#[trigger] lit(b, w, h, px, py) by {
                if lit(b, w, h, px, py) {
                    assert(py < y);
                }
            }
        }
        None
    }
}

} // verus!

verus! {

/// Reading a packed bitmap back: the value `preview_pixel_bounds` sees at
/// each pixel of a bitmap that `pack_4bpp` packed is that pixel's low nibble.
pub proof fn packed_pixels_read_back(px: Seq<u8>, w: int, h: int, x: int, y: int)
    requires
        w > 0,
        h > 0,
        px.len() == w * h,
        0 <= x < w,
        0 <= y < h,
    ensures
        packed_value(packed_4bpp(px, w, h), w, x, y) == px[y * w + x] % 16,
{
    let stride = (w + 1) / 2;
    let c = x / 2;
    let k = y * stride + c;
    assert(0 <= c < stride);
    assert(0 <= y * stride) by (nonlinear_arith)
        requires
            0 <= y,
            0 < stride,
    ;
    assert(k < h * stride) by (nonlinear_arith)
        requires
            k == y * stride + c,
            0 <= c < stride,
            y < h,
    ;
    vstd::arithmetic::div_mod::lemma_fundamental_div_mod_converse(k, stride, y, c);
    assert(0 <= y * w) by (nonlinear_arith)
        requires
            0 <= y,
            0 < w,
    ;
    assert(y * w + x < w * h) by (nonlinear_arith)
        requires
            0 <= x < w,
            0 <= y < h,
    ;
    let packed = packed_4bpp(px, w, h);
    assert(packed[k] == packed_byte(px, w, y, c));
    let hi = px[y * w + 2 * c];
    let lo: u8 = if 2 * c + 1 < w { px[y * w + 2 * c + 1] } else { 0u8 };
    assert(packed_byte(px, w, y, c) == nibble_pair(hi, lo));
    let b = nibble_pair(hi, lo);
    assert(b as int == (hi % 16) * 16 + lo % 16);
    if x % 2 == 0 {
        assert(2 * c == x);
        assert(b / 16 == hi % 16);
    } else {
        assert(2 * c + 1 == x);
        assert(b % 16 == lo % 16);
    }
}

} // verus!
