//! The 4bpp SHV preview bitmap, quantized to the observed Designer 1 palette.

use vstd::prelude::*;
use crate::model::{
    count_commands, is_positioning, lemma_running_bounds_contain, lemma_running_bounds_positioned,
    running_bounds, selected_thread, CommandModel, Design, StitchCommand, StitchPoint, Thread,
};
use crate::raster::{
    draw_line, lemma_put_pixels_len, line_points, nearest_among, nearest_palette_index,
    pack_4bpp, packed_4bpp, put_pixel, put_pixels, rotate_clockwise, rotated_cw, set_pixel,
    small_coord, Rgb,
};
use crate::shv::{end_index, next_thread, threads_sliceable};
use crate::stream::round_div;
use crate::text::{color_sliceable, parse_hex_rgb, rgb_of};

verus! {

/// The 16 colors of the Designer 1 preview palette.
pub open spec fn designer1_palette() -> Seq<Rgb> {
    seq![
        (230u8, 190u8, 100u8),
        (40u8, 40u8, 40u8),
        (240u8, 240u8, 240u8),
        (0u8, 100u8, 200u8),
        (0u8, 60u8, 160u8),
        (20u8, 100u8, 40u8),
        (40u8, 160u8, 40u8),
        (200u8, 40u8, 40u8),
        (150u8, 60u8, 180u8),
        (220u8, 170u8, 40u8),
        (120u8, 120u8, 120u8),
        (200u8, 100u8, 80u8),
        (220u8, 120u8, 40u8),
        (180u8, 100u8, 140u8),
        (220u8, 140u8, 160u8),
        (160u8, 40u8, 40u8),
    ]
}

pub fn designer1_palette_colors() -> (r: Vec<(u8, u8, u8)>)
    ensures
        r@ == designer1_palette(),
{
    let r = vec![
        (230, 190, 100),
        (40, 40, 40),
        (240, 240, 240),
        (0, 100, 200),
        (0, 60, 160),
        (20, 100, 40),
        (40, 160, 40),
        (200, 40, 40),
        (150, 60, 180),
        (220, 170, 40),
        (120, 120, 120),
        (200, 100, 80),
        (220, 120, 40),
        (180, 100, 140),
        (220, 140, 160),
        (160, 40, 40),
    ];
    assert(r@ =~= designer1_palette());
    r
}

/// All 16 palette indices, in order.
pub open spec fn all_palette_indices() -> Seq<int> {
    Seq::new(16, |i: int| i)
}

/// The palette index nearest to an RGB color.
pub open spec fn nearest_preview_value(rgb: Rgb) -> u8 {
    nearest_among(rgb, designer1_palette(), all_palette_indices()) as u8
}

/// The preview palette index of thread `idx` (or the first thread): the
/// nearest palette color, or 1 without a parseable color.
pub open spec fn quantized_index(threads: Seq<Thread>, idx: int) -> u8 {
    match selected_thread(threads, idx) {
        None => 1,
        Some(t) => match rgb_of(t.color) {
            None => 1,
            Some(rgb) => nearest_preview_value(rgb),
        },
    }
}

fn nearest_palette_value(rgb: (u8, u8, u8)) -> (r: u8)
    ensures
        r == nearest_preview_value(rgb),
        r < 16,
{
    let pal = designer1_palette_colors();
    let mut cands: Vec<usize> = Vec::new();
    for i in 0..16usize
        invariant
            cands@ == Seq::new(i as nat, |k: int| k as usize),
    {
        cands.push(i);
        assert(cands@ =~= Seq::new((i + 1) as nat, |k: int| k as usize));
    }
    assert(cands@.map_values(|c: usize| c as int) =~= all_palette_indices());
    nearest_palette_index(rgb, &pal, &cands) as u8
}

/// The preview palette index of a design's thread `index` (or its first
/// thread): the nearest palette color, or 1 without a parseable color.
pub fn quantized_thread_index(design: &Design, index: usize) -> (r: u8)
    requires
        selected_thread(design.threads@, index as int) matches Some(t) ==> color_sliceable(t.color),
    ensures
        r == quantized_index(design.threads@, index as int),
        r < 16,
{
    let thread = if index < design.threads.len() {
        &design.threads[index]
    } else if design.threads.len() > 0 {
        &design.threads[0]
    } else {
        return 1;
    };
    let rgb = match &thread.color {
        Some(s) => parse_hex_rgb(Some(s.as_str())),
        None => None,
    };
    match rgb {
        Some(c) => nearest_palette_value(c),
        None => 1,
    }
}

/// The preview rasterizer's state: pixels, the previous pixel of the
/// current run, the thread index and its palette value.
pub struct RasterState {
    pub px: Seq<u8>,
    pub prev: Option<(int, int)>,
    pub thread: int,
    pub color: u8,
}

/// What the preview rasterizer does with one point drawn at pixel `pt`.
pub open spec fn raster_step(st: RasterState, c: CommandModel, pt: (int, int), th: Seq<Thread>, w: int, h: int) -> RasterState {
    match c {
        CommandModel::Jump | CommandModel::Trim => RasterState {
            px: put_pixel(st.px, w, h, pt.0, pt.1, st.color),
            prev: Some(pt),
            thread: st.thread,
            color: st.color,
        },
        CommandModel::Stitch => RasterState {
            px: match st.prev {
                Some(q) => put_pixels(st.px, w, h, line_points(q.0, q.1, pt.0, pt.1), st.color),
                None => put_pixel(st.px, w, h, pt.0, pt.1, st.color),
            },
            prev: Some(pt),
            thread: st.thread,
            color: st.color,
        },
        CommandModel::ColorChange | CommandModel::Stop => {
            let t = next_thread(th, st.thread);
            RasterState { px: st.px, prev: None, thread: t, color: quantized_index(th, t) }
        },
        _ => RasterState { px: st.px, prev: None, thread: st.thread, color: st.color },
    }
}

/// The rasterizer's state after the first `k` points, point `i` drawn at `coords[i]`.
pub open spec fn raster_prefix(
    ps: Seq<StitchPoint>,
    coords: Seq<(int, int)>,
    th: Seq<Thread>,
    w: int,
    h: int,
    k: int,
) -> RasterState
    decreases k,
{
    if k <= 0 {
        RasterState {
            px: Seq::new((w * h) as nat, |i: int| 0u8),
            prev: None,
            thread: 0,
            color: quantized_index(th, 0),
        }
    } else {
        raster_step(raster_prefix(ps, coords, th, w, h, k - 1), ps[k - 1].command@, coords[k - 1], th, w, h)
    }
}

/// The pixels of a design drawn up to its first `End`, point `i` at `coords[i]`.
pub open spec fn raster_pixels(ps: Seq<StitchPoint>, coords: Seq<(int, int)>, th: Seq<Thread>, w: int, h: int) -> Seq<u8> {
    raster_prefix(ps, coords, th, w, h, end_index(ps)).px
}

pub open spec fn coords_small(coords: Seq<(i32, i32)>) -> bool {
    forall|k: int| 0 <= k < coords.len() ==> small_coord(#[trigger] coords[k].0 as int) && small_coord(coords[k].1 as int)
}

pub open spec fn coord_ints(coords: Seq<(i32, i32)>) -> Seq<(int, int)> {
    coords.map_values(|p: (i32, i32)| (p.0 as int, p.1 as int))
}

} // verus!

verus! {

proof fn lemma_put_pixel_len(px: Seq<u8>, w: int, h: int, x: int, y: int, v: u8)
    requires
        px.len() == w * h,
    ensures
        put_pixel(px, w, h, x, y, v).len() == px.len(),
{
    if 0 <= x < w && 0 <= y < h {
        crate::raster::lemma_index_in_grid(x, y, w, h);
    }
}

proof fn lemma_end_prefix(ps: Seq<StitchPoint>)
    ensures
        0 <= end_index(ps) <= ps.len(),
        forall|j: int| 0 <= j < end_index(ps) ==> !(#[trigger] ps[j].command@ is End),
        end_index(ps) < ps.len() ==> ps[end_index(ps)].command@ is End,
{
    crate::shv::lemma_end_from(ps, 0);
}

/// Draws the design into a `width` x `height` buffer, point `i` at pixel
/// `coords[i]`: jumps set a pixel, stitches draw a line from the previous
/// pixel, color changes switch the palette value; drawing stops at the
/// first `End`.
pub fn rasterize_design(design: &Design, coords: &Vec<(i32, i32)>, width: usize, height: usize) -> (r: Vec<u8>)
    requires
        coords@.len() == design.points@.len(),
        coords_small(coords@),
        width * height <= usize::MAX,
        threads_sliceable(design.threads@, design.points@),
    ensures
        r@ == raster_pixels(design.points@, coord_ints(coords@), design.threads@, width as int, height as int),
        r@.len() == width * height,
{
    let ghost ps = design.points@;
    let ghost th = design.threads@;
    let ghost cs = coord_ints(coords@);
    let ghost w = width as int;
    let ghost h = height as int;
    proof {
        lemma_end_prefix(ps);
        assert(count_commands(ps.take(0), 3) == 0) by {
            assert(ps.take(0).len() == 0);
        }
    }
    let mut pixels: Vec<u8> = vec![0u8; width * height];
    assert(pixels@ =~= raster_prefix(ps, cs, th, w, h, 0).px);
    let mut prev: Option<(i32, i32)> = None;
    let mut thread_index: usize = 0;
    let mut color = quantized_thread_index(design, 0);
    let n = design.points.len();
    let mut i: usize = 0;
    while i < n && !design.points[i].command.is_end_command()
        invariant
            ps == design.points@,
            th == design.threads@,
            cs == coord_ints(coords@),
            w == width,
            h == height,
            n == ps.len(),
            coords@.len() == n,
            coords_small(coords@),
            width * height <= usize::MAX,
            threads_sliceable(th, ps),
            0 <= i <= end_index(ps),
            end_index(ps) <= n,
            forall|j: int| 0 <= j < end_index(ps) ==> !(#[trigger] ps[j].command@ is End),
            end_index(ps) < n ==> ps[end_index(ps)].command@ is End,
            pixels@ == raster_prefix(ps, cs, th, w, h, i as int).px,
            pixels@.len() == width * height,
            match prev {
                Some(q) => raster_prefix(ps, cs, th, w, h, i as int).prev == Some((q.0 as int, q.1 as int))
                    && small_coord(q.0 as int) && small_coord(q.1 as int),
                None => raster_prefix(ps, cs, th, w, h, i as int).prev is None,
            },
            thread_index == raster_prefix(ps, cs, th, w, h, i as int).thread,
            color == raster_prefix(ps, cs, th, w, h, i as int).color,
            thread_index <= count_commands(ps.take(i as int), 3),
            th.len() > 0 ==> thread_index < th.len(),
            th.len() == 0 ==> thread_index == 0,
        decreases n - i,
    {
        let ghost st = raster_prefix(ps, cs, th, w, h, i as int);
        let p = &design.points[i];
        let pt = coords[i];
        proof {
            assert(ps.take(i + 1).drop_last() == ps.take(i as int));
            crate::shv::lemma_count_mono(ps, i + 1, end_index(ps));
            assert(small_coord(coords@[i as int].0 as int));
        }
        match &p.command {
            StitchCommand::Jump | StitchCommand::Trim => {
                proof {
                    lemma_put_pixel_len(pixels@, w, h, pt.0 as int, pt.1 as int, color);
                }
                set_pixel(&mut pixels, width, height, pt.0, pt.1, color);
                prev = Some(pt);
            },
            StitchCommand::Stitch => {
                match prev {
                    Some(q) => {
                        proof {
                            lemma_put_pixels_len(pixels@, w, h, line_points(q.0 as int, q.1 as int, pt.0 as int, pt.1 as int), color);
                        }
                        draw_line(&mut pixels, width, height, q.0, q.1, pt.0, pt.1, color);
                    },
                    None => {
                        proof {
                            lemma_put_pixel_len(pixels@, w, h, pt.0 as int, pt.1 as int, color);
                        }
                        set_pixel(&mut pixels, width, height, pt.0, pt.1, color);
                    },
                }
                prev = Some(pt);
            },
            StitchCommand::ColorChange | StitchCommand::Stop => {
                let last_thread: usize = if design.threads.len() >= 1 {
                    design.threads.len() - 1
                } else {
                    0
                };
                thread_index = if thread_index + 1 <= last_thread {
                    thread_index + 1
                } else {
                    last_thread
                };
                proof {
                    if thread_index < th.len() {
                        assert(color_sliceable(th[thread_index as int].color));
                    }
                    if th.len() > 0 {
                        assert(color_sliceable(th[0].color));
                    }
                }
                color = quantized_thread_index(design, thread_index);
                prev = None;
            },
            _ => {
                prev = None;
            },
        }
        i = i + 1;
    }
    proof {
        assert(i == end_index(ps));
    }
    pixels
}

} // verus!

verus! {

pub const SHV_PREVIEW_UNITS_PER_PIXEL: i32 = 10;

/// The bounding box (min x, max x, min y, max y) of the positioning
/// points, or all zero without any.
pub open spec fn preview_box(ps: Seq<StitchPoint>) -> (int, int, int, int) {
    if count_commands(ps, 5) > 0 {
        running_bounds(ps)
    } else {
        (0, 0, 0, 0)
    }
}

pub open spec fn clamp_int(v: int, lo: int, hi: int) -> int {
    if v < lo {
        lo
    } else if v > hi {
        hi
    } else {
        v
    }
}

/// The preview size along one axis: one pixel per started 10 units, plus
/// one, kept within `1..=255`.
pub open spec fn preview_extent(span: int) -> int {
    let s = if span > 0 {
        span
    } else {
        0
    };
    clamp_int((s + 9) / 10 + 1, 1, 255)
}

/// The (width, height) in pixels of the design's preview before rotation.
pub open spec fn auto_dims(ps: Seq<StitchPoint>) -> (int, int) {
    let b = preview_box(ps);
    (preview_extent(b.1 - b.0), preview_extent(b.3 - b.2))
}

/// The pixel of a positioning point: 10 units per pixel from the box's
/// left and top edges, clamped into the bitmap.
pub open spec fn auto_coord(ps: Seq<StitchPoint>, p: StitchPoint) -> (int, int) {
    let b = preview_box(ps);
    let d = auto_dims(ps);
    if is_positioning(p.command@) {
        (clamp_int((p.x - b.0) / 10, 0, d.0 - 1), clamp_int((b.3 - p.y) / 10, 0, d.1 - 1))
    } else {
        (0, 0)
    }
}

pub open spec fn auto_coords(ps: Seq<StitchPoint>) -> Seq<(int, int)> {
    ps.map_values(|p: StitchPoint| auto_coord(ps, p))
}

/// The SHV preview of a design: (width byte, height byte, packed bitmap)
/// of the bitmap turned a quarter clockwise.
pub open spec fn auto_preview(ps: Seq<StitchPoint>, th: Seq<Thread>) -> (u8, u8, Seq<u8>) {
    let d = auto_dims(ps);
    let px = raster_pixels(ps, auto_coords(ps), th, d.0, d.1);
    (d.1 as u8, d.0 as u8, packed_4bpp(rotated_cw(px, d.0, d.1), d.1, d.0))
}

/// The preview's `i32` span arithmetic does not overflow.
pub open spec fn preview_arith_ok(ps: Seq<StitchPoint>) -> bool {
    let b = preview_box(ps);
    b.1 - b.0 <= i32::MAX - 10 && b.3 - b.2 <= i32::MAX - 10
}

fn preview_extent_exec(span: i32) -> (r: usize)
    requires
        span <= i32::MAX - 10,
    ensures
        r == preview_extent(span as int),
        1 <= r <= 255,
{
    let s = if span > 0 {
        span
    } else {
        0
    };
    let px = (s + SHV_PREVIEW_UNITS_PER_PIXEL - 1) / SHV_PREVIEW_UNITS_PER_PIXEL + 1;
    let c = if px < 1 {
        1
    } else if px > 255 {
        255
    } else {
        px
    };
    c as usize
}

/// Renders the SHV preview: 10 design units per pixel, drawn with the
/// nearest palette colors, turned a quarter clockwise and packed 4bpp.
/// Returns (width, height, packed bitmap) of the turned bitmap.
pub fn render_preview_4bpp_auto(design: &Design) -> (r: (u8, u8, Vec<u8>))
    requires
        preview_arith_ok(design.points@),
        threads_sliceable(design.threads@, design.points@),
    ensures
        (r.0, r.1, r.2@) == auto_preview(design.points@, design.threads@),
{
    let ghost ps = design.points@;
    let n = design.points.len();
    let mut min_x = i32::MAX;
    let mut max_x = i32::MIN;
    let mut min_y = i32::MAX;
    let mut max_y = i32::MIN;
    let mut any = false;
    for i in 0..n
        invariant
            n == ps.len(),
            ps == design.points@,
            (min_x as int, max_x as int, min_y as int, max_y as int) == running_bounds(ps.take(i as int)),
            any == (count_commands(ps.take(i as int), 5) > 0),
    {
        let p = &design.points[i];
        assert(ps.take(i + 1).drop_last() == ps.take(i as int));
        if p.command.is_positioning_move() {
            any = true;
            if p.x < min_x {
                min_x = p.x;
            }
            if p.x > max_x {
                max_x = p.x;
            }
            if p.y < min_y {
                min_y = p.y;
            }
            if p.y > max_y {
                max_y = p.y;
            }
        }
    }
    assert(ps.take(n as int) == ps);
    if !any {
        min_x = 0;
        max_x = 0;
        min_y = 0;
        max_y = 0;
    } else {
        proof {
            lemma_running_bounds_positioned(ps);
        }
    }
    let width = preview_extent_exec(max_x - min_x);
    let height = preview_extent_exec(max_y - min_y);
    let mut coords: Vec<(i32, i32)> = Vec::new();
    for i in 0..n
        invariant
            n == ps.len(),
            ps == design.points@,
            (min_x as int, max_x as int, min_y as int, max_y as int) == preview_box(ps),
            (width as int, height as int) == auto_dims(ps),
            preview_arith_ok(ps),
            1 <= width <= 255,
            1 <= height <= 255,
            coord_ints(coords@) == auto_coords(ps).take(i as int),
            coords_small(coords@),
    {
        let p = &design.points[i];
        let c: (i32, i32) = if p.command.is_positioning_move() {
            proof {
                lemma_running_bounds_contain(ps, i as int);
                assert(count_commands(ps, 5) > 0) by {
                    lemma_count_positive(ps, i as int);
                }
            }
            let cx = (p.x - min_x) / SHV_PREVIEW_UNITS_PER_PIXEL;
            let cy = (max_y - p.y) / SHV_PREVIEW_UNITS_PER_PIXEL;
            let wx = width as i32 - 1;
            let hy = height as i32 - 1;
            (if cx < 0 {
                0
            } else if cx > wx {
                wx
            } else {
                cx
            }, if cy < 0 {
                0
            } else if cy > hy {
                hy
            } else {
                cy
            })
        } else {
            (0, 0)
        };
        let ghost prev = coords@;
        coords.push(c);
        proof {
            assert(auto_coords(ps).take(i + 1) =~= auto_coords(ps).take(i as int).push(auto_coord(ps, ps[i as int])));
            assert(coord_ints(coords@) =~= coord_ints(prev).push((c.0 as int, c.1 as int)));
        }
    }
    assert(auto_coords(ps).take(n as int) =~= auto_coords(ps));
    proof {
        assert(width * height <= 255 * 255) by (nonlinear_arith)
            requires
                width <= 255,
                height <= 255,
        ;
    }
    let pixels = rasterize_design(design, &coords, width, height);
    let rotated = rotate_clockwise(&pixels, width, height);
    proof {
        assert(width * height == height * width) by (nonlinear_arith);
    }
    let packed = pack_4bpp(&rotated, height, width);
    (height as u8, width as u8, packed)
}

proof fn lemma_count_positive(ps: Seq<StitchPoint>, k: int)
    requires
        0 <= k < ps.len(),
        is_positioning(ps[k].command@),
    ensures
        count_commands(ps, 5) > 0,
    decreases ps.len(),
{
    if k < ps.len() - 1 {
        lemma_count_positive(ps.drop_last(), k);
    }
}

} // verus!

verus! {

/// Why a preview could not be rendered.
#[derive(Debug, Clone, Copy, PartialEq, Eq, Structural)]
pub enum PreviewError {
    /// The width or the height is zero.
    ZeroSize,
}

/// The box a fitted preview is scaled to: that of the positioning points,
/// or (0, 1, 0, 1) without any.
pub open spec fn fit_box(ps: Seq<StitchPoint>) -> (int, int, int, int) {
    if count_commands(ps, 5) > 0 {
        running_bounds(ps)
    } else {
        (0, 1, 0, 1)
    }
}

/// The box's spans, at least one.
pub open spec fn fit_spans(ps: Seq<StitchPoint>) -> (int, int) {
    let b = fit_box(ps);
    (if b.1 - b.0 > 1 { b.1 - b.0 } else { 1 }, if b.3 - b.2 > 1 { b.3 - b.2 } else { 1 })
}

/// The fitted scale as a fraction `p / q`: the box fills a `w` x `h` bitmap
/// less two pixels of padding on each side, at least 1/1000.
pub open spec fn fit_scale(ps: Seq<StitchPoint>, w: int, h: int) -> (int, int) {
    let s = fit_spans(ps);
    let a = w - 5;
    let c = h - 5;
    let f = if a * s.1 <= c * s.0 {
        (a, s.0)
    } else {
        (c, s.1)
    };
    if 1000 * f.0 < f.1 {
        (1, 1000)
    } else {
        f
    }
}

/// The pixel of design point `(x, y)` in a fitted `w` x `h` preview: the
/// scaled box is centred within the padding, positions are rounded to the
/// nearest pixel (halves away from zero) and clamped into the bitmap. The
/// scale and offsets are exact fractions, rounded once at the end; where
/// an `f64` computation's rounding error falls across a half (such as an
/// exact 3.5 computed as 3.4999999999999996), this picks the other pixel.
pub open spec fn fit_pixel(ps: Seq<StitchPoint>, w: int, h: int, x: int, y: int) -> (int, int) {
    let b = fit_box(ps);
    let s = fit_spans(ps);
    let f = fit_scale(ps, w, h);
    let p = f.0;
    let q = f.1;
    (
        clamp_int(round_div(2 * p * (x - b.0) + 4 * q + (w - 5) * q - s.0 * p, 2 * q), 0, w - 1),
        clamp_int(round_div(2 * p * (b.3 - y) + 4 * q + (h - 5) * q - s.1 * p, 2 * q), 0, h - 1),
    )
}

pub open spec fn fit_coords(ps: Seq<StitchPoint>, w: int, h: int) -> Seq<(int, int)> {
    ps.map_values(
        |p: StitchPoint|
            if is_positioning(p.command@) {
                fit_pixel(ps, w, h, p.x as int, p.y as int)
            } else {
                (0, 0)
            },
    )
}

/// `round_div` on `i128` operands within reach.
pub(crate) fn round_div_i128(q: i128, n: i128) -> (r: i128)
    requires
        1 <= n <= 0x1_0000_0000_0000,
        -0x1_0000_0000_0000_0000 <= q <= 0x1_0000_0000_0000_0000,
    ensures
        r == round_div(q as int, n as int),
{
    if q >= 0 {
        (2 * q + n) / (2 * n)
    } else {
        proof {
            vstd::arithmetic::div_mod::lemma_div_is_ordered(0, -2 * q + n, 2 * n);
            vstd::arithmetic::div_mod::lemma_div_is_ordered(-2 * q + n, 0x3_0000_0000_0000_0000, 2 * n);
            vstd::arithmetic::div_mod::lemma_div_is_ordered_by_denominator(0x3_0000_0000_0000_0000, 1, 2 * n);
        }
        -((-2 * q + n) / (2 * n))
    }
}

fn clamp_i128(v: i128, hi: i128) -> (r: i128)
    requires
        hi >= 0,
    ensures
        r == clamp_int(v as int, 0, hi as int),
{
    if v < 0 {
        0
    } else if v > hi {
        hi
    } else {
        v
    }
}

/// Renders a quantized 4bpp preview of `width` x `height` pixels, the
/// design fitted inside two pixels of padding; pixels are packed high
/// nibble first.
pub fn render_preview_4bpp(design: &Design, width: u8, height: u8) -> (r: Result<Vec<u8>, PreviewError>)
    requires
        width > 0 && height > 0 ==> threads_sliceable(design.threads@, design.points@),
    ensures
        width == 0 || height == 0 ==> r == Err::<Vec<u8>, PreviewError>(PreviewError::ZeroSize),
        width > 0 && height > 0 ==> (r matches Ok(v) && v@ == packed_4bpp(
            raster_pixels(
                design.points@,
                fit_coords(design.points@, width as int, height as int),
                design.threads@,
                width as int,
                height as int,
            ),
            width as int,
            height as int,
        )),
{
    if width == 0 || height == 0 {
        return Err(PreviewError::ZeroSize);
    }
    let ghost ps = design.points@;
    let ghost w = width as int;
    let ghost h = height as int;
    let n = design.points.len();
    let mut min_x = i32::MAX;
    let mut max_x = i32::MIN;
    let mut min_y = i32::MAX;
    let mut max_y = i32::MIN;
    let mut any = false;
    for i in 0..n
        invariant
            n == ps.len(),
            ps == design.points@,
            (min_x as int, max_x as int, min_y as int, max_y as int) == running_bounds(ps.take(i as int)),
            any == (count_commands(ps.take(i as int), 5) > 0),
    {
        let p = &design.points[i];
        assert(ps.take(i + 1).drop_last() == ps.take(i as int));
        if p.command.is_positioning_move() {
            any = true;
            if p.x < min_x {
                min_x = p.x;
            }
            if p.x > max_x {
                max_x = p.x;
            }
            if p.y < min_y {
                min_y = p.y;
            }
            if p.y > max_y {
                max_y = p.y;
            }
        }
    }
    assert(ps.take(n as int) == ps);
    proof {
        if any {
            lemma_running_bounds_positioned(ps);
        }
    }
    let (left, right, bottom, top): (i128, i128, i128, i128) = if any {
        (min_x as i128, max_x as i128, min_y as i128, max_y as i128)
    } else {
        (0, 1, 0, 1)
    };
    let sx: i128 = if right - left > 1 {
        right - left
    } else {
        1
    };
    let sy: i128 = if top - bottom > 1 {
        top - bottom
    } else {
        1
    };
    let a: i128 = width as i128 - 5;
    let c: i128 = height as i128 - 5;
    assert(-5 * 0x2_0000_0000 <= a * sy <= 255 * 0x2_0000_0000) by (nonlinear_arith)
        requires
            -5 <= a <= 250,
            1 <= sy <= 0x2_0000_0000,
    ;
    assert(-5 * 0x2_0000_0000 <= c * sx <= 255 * 0x2_0000_0000) by (nonlinear_arith)
        requires
            -5 <= c <= 250,
            1 <= sx <= 0x2_0000_0000,
    ;
    let (p0, q0) = if a * sy <= c * sx {
        (a, sx)
    } else {
        (c, sy)
    };
    let (p, q) = if 1000 * p0 < q0 {
        (1i128, 1000i128)
    } else {
        (p0, q0)
    };
    assert(0 <= p <= 250 && 1 <= q <= 0x2_0000_0000);
    let mut coords: Vec<(i32, i32)> = Vec::new();
    for i in 0..n
        invariant
            n == ps.len(),
            ps == design.points@,
            w == width as int,
            h == height as int,
            width > 0,
            height > 0,
            fit_box(ps) == (left as int, right as int, bottom as int, top as int),
            fit_spans(ps) == (sx as int, sy as int),
            fit_scale(ps, w, h) == (p as int, q as int),
            0 <= p <= 250,
            1 <= q <= 0x2_0000_0000,
            i32::MIN <= left <= i32::MAX,
            i32::MIN <= top <= i32::MAX,
            1 <= sx <= 0x2_0000_0000,
            1 <= sy <= 0x2_0000_0000,
            coord_ints(coords@) == fit_coords(ps, w, h).take(i as int),
            coords_small(coords@),
    {
        let pt = &design.points[i];
        let c: (i32, i32) = if pt.command.is_positioning_move() {
            let dx = pt.x as i128 - left;
            let dy = top - pt.y as i128;
            assert(-0x2_0000_0000 * 250 <= p * dx <= 0x2_0000_0000 * 250) by (nonlinear_arith)
                requires
                    -0x2_0000_0000 <= dx <= 0x2_0000_0000,
                    0 <= p <= 250,
            ;
            assert(-0x2_0000_0000 * 250 <= p * dy <= 0x2_0000_0000 * 250) by (nonlinear_arith)
                requires
                    -0x2_0000_0000 <= dy <= 0x2_0000_0000,
                    0 <= p <= 250,
            ;
            assert(0 <= sx * p <= 0x2_0000_0000 * 250 && 0 <= sy * p <= 0x2_0000_0000 * 250)
                by (nonlinear_arith)
                requires
                    1 <= sx <= 0x2_0000_0000,
                    1 <= sy <= 0x2_0000_0000,
                    0 <= p <= 250,
            ;
            assert(-5 * 0x2_0000_0000 <= (width as i128 - 5) * q <= 250 * 0x2_0000_0000 && -5
                * 0x2_0000_0000 <= (height as i128 - 5) * q <= 250 * 0x2_0000_0000) by (nonlinear_arith)
                requires
                    1 <= q <= 0x2_0000_0000,
                    1 <= width <= 255,
                    1 <= height <= 255,
            ;
            assert(-0x2_0000_0000 * 500 <= 2 * p * dx <= 0x2_0000_0000 * 500 && -0x2_0000_0000 * 500
                <= 2 * p * dy <= 0x2_0000_0000 * 500) by (nonlinear_arith)
                requires
                    -0x2_0000_0000 <= dx <= 0x2_0000_0000,
                    -0x2_0000_0000 <= dy <= 0x2_0000_0000,
                    0 <= p <= 250,
            ;
            let nx = 2 * p * dx + 4 * q + (width as i128 - 5) * q - sx * p;
            let ny = 2 * p * dy + 4 * q + (height as i128 - 5) * q - sy * p;
            let px = clamp_i128(round_div_i128(nx, 2 * q), width as i128 - 1);
            let py = clamp_i128(round_div_i128(ny, 2 * q), height as i128 - 1);
            (px as i32, py as i32)
        } else {
            (0, 0)
        };
        let ghost prev = coords@;
        coords.push(c);
        proof {
            assert(fit_coords(ps, w, h).take(i + 1) =~= fit_coords(ps, w, h).take(i as int).push(
                fit_coords(ps, w, h)[i as int],
            ));
            assert(coord_ints(coords@) =~= coord_ints(prev).push((c.0 as int, c.1 as int)));
        }
    }
    assert(fit_coords(ps, w, h).take(n as int) =~= fit_coords(ps, w, h));
    proof {
        assert(width as usize * height as usize <= 255 * 255) by (nonlinear_arith)
            requires
                width <= 255,
                height <= 255,
        ;
    }
    let pixels = rasterize_design(design, &coords, width as usize, height as usize);
    Ok(pack_4bpp(&pixels, width as usize, height as usize))
}

} // verus!

verus! {

/// One step of a design's drawn path: a line to, or a move to, a point.
#[derive(Debug, Clone, Copy, PartialEq, Eq, Structural)]
pub struct PathStep {
    pub line: bool,
    pub x: i32,
    pub y: i32,
}

/// The path of the points so far, whether the pen is down, and whether an
/// `End` was met: jumps and trims move, a stitch draws a line when the pen
/// is down and else moves and puts the pen down; color changes, stops and
/// other commands lift the pen; nothing after `End` counts.
pub open spec fn path_state(ps: Seq<StitchPoint>) -> (Seq<PathStep>, bool, bool)
    decreases ps.len(),
{
    if ps.len() == 0 {
        (Seq::empty(), false, false)
    } else {
        let (steps, pen, ended) = path_state(ps.drop_last());
        let p = ps.last();
        if ended {
            (steps, pen, true)
        } else {
            match p.command@ {
                CommandModel::End => (steps, pen, true),
                CommandModel::Jump | CommandModel::Trim => (
                    steps.push(PathStep { line: false, x: p.x, y: p.y }),
                    false,
                    false,
                ),
                CommandModel::Stitch => (steps.push(PathStep { line: pen, x: p.x, y: p.y }), true, false),
                _ => (steps, false, false),
            }
        }
    }
}

/// The drawn path of a design, as an SVG preview draws it.
pub fn design_path_steps(design: &Design) -> (r: Vec<PathStep>)
    ensures
        r@ == path_state(design.points@).0,
{
    let ghost ps = design.points@;
    let mut steps: Vec<PathStep> = Vec::new();
    let mut pen = false;
    let mut i: usize = 0;
    while i < design.points.len()
        invariant
            ps == design.points@,
            i <= ps.len(),
            path_state(ps.take(i as int)) == (steps@, pen, false),
        decreases ps.len() - i,
    {
        let p = &design.points[i];
        assert(ps.take(i + 1).drop_last() =~= ps.take(i as int));
        match &p.command {
            StitchCommand::End => {
                proof {
                    lemma_path_ended(ps, i as int + 1);
                    assert(ps.take(ps.len() as int) =~= ps);
                }
                return steps;
            },
            StitchCommand::Jump | StitchCommand::Trim => {
                steps.push(PathStep { line: false, x: p.x, y: p.y });
                pen = false;
            },
            StitchCommand::Stitch => {
                steps.push(PathStep { line: pen, x: p.x, y: p.y });
                pen = true;
            },
            _ => {
                pen = false;
            },
        }
        i = i + 1;
    }
    assert(ps.take(ps.len() as int) =~= ps);
    steps
}

/// Once `End` is met, the path stays as it is.
proof fn lemma_path_ended(ps: Seq<StitchPoint>, k: int)
    requires
        0 <= k <= ps.len(),
        path_state(ps.take(k)).2,
    ensures
        path_state(ps).0 == path_state(ps.take(k)).0,
    decreases ps.len() - k,
{
    if k < ps.len() {
        assert(ps.take(k + 1).drop_last() =~= ps.take(k));
        lemma_path_ended(ps, k + 1);
    } else {
        assert(ps.take(k) =~= ps);
    }
}

} // verus!

verus! {

/// The running bounds of the positioning points and whether there is one.
fn positioning_bounds(design: &Design) -> (r: (bool, i32, i32, i32, i32))
    ensures
        r.0 == (count_commands(design.points@, 5) > 0),
        (r.1 as int, r.2 as int, r.3 as int, r.4 as int) == running_bounds(design.points@),
{
    let ghost ps = design.points@;
    let mut any = false;
    let mut min_x = i32::MAX;
    let mut max_x = i32::MIN;
    let mut min_y = i32::MAX;
    let mut max_y = i32::MIN;
    for i in 0..design.points.len()
        invariant
            ps == design.points@,
            any == (count_commands(ps.take(i as int), 5) > 0),
            (min_x as int, max_x as int, min_y as int, max_y as int) == running_bounds(ps.take(i as int)),
    {
        let p = &design.points[i];
        assert(ps.take(i + 1).drop_last() == ps.take(i as int));
        if p.command.is_positioning_move() {
            any = true;
            if p.x < min_x {
                min_x = p.x;
            }
            if p.x > max_x {
                max_x = p.x;
            }
            if p.y < min_y {
                min_y = p.y;
            }
            if p.y > max_y {
                max_y = p.y;
            }
        }
    }
    assert(ps.take(ps.len() as int) == ps);
    (any, min_x, max_x, min_y, max_y)
}

/// Whether the preview renderers' extents stay within `i32` (their
/// precondition `preview_arith_ok`).
pub fn preview_fits(design: &Design) -> (r: bool)
    ensures
        r == preview_arith_ok(design.points@),
{
    let (any, min_x, max_x, min_y, max_y) = positioning_bounds(design);
    if !any {
        return true;
    }
    (max_x as i64 - min_x as i64) <= (i32::MAX - 10) as i64 && (max_y as i64 - min_y as i64) <= (i32::MAX
        - 10) as i64
}

/// Whether the statistics' width and height are `i32` values (the
/// precondition `stats_fit` of `Design::stats`).
pub fn stats_fits(design: &Design) -> (r: bool)
    ensures
        r == crate::model::stats_fit(design.points@),
{
    let (_, min_x, max_x, min_y, max_y) = positioning_bounds(design);
    if min_x == i32::MAX {
        return true;
    }
    (max_x as i64 - min_x as i64) <= i32::MAX as i64 && (max_y as i64 - min_y as i64) <= i32::MAX as i64
}

} // verus!

verus! {

/// The thread a design is on after its first `k` points: one more for each
/// color change or stop, never past the last thread.
pub open spec fn thread_after(ps: Seq<StitchPoint>, th: Seq<Thread>, k: int) -> int {
    let changes = count_commands(ps.take(k), 3) as int;
    let last = if th.len() >= 1 {
        th.len() - 1
    } else {
        0
    };
    if changes <= last {
        changes
    } else {
        last
    }
}

/// The preview draws in the color of the thread the design is on: after
/// `k` points the rasterizer is on thread `min(color changes so far, last
/// thread)` and draws with that thread's quantized palette value, so each
/// color change or stop switches the drawing color to the next thread's.
pub proof fn preview_draws_in_current_thread_color(
    ps: Seq<StitchPoint>,
    coords: Seq<(int, int)>,
    th: Seq<Thread>,
    w: int,
    h: int,
    k: int,
)
    requires
        0 <= k <= ps.len(),
    ensures
        raster_prefix(ps, coords, th, w, h, k).thread == thread_after(ps, th, k),
        raster_prefix(ps, coords, th, w, h, k).color == quantized_index(th, thread_after(ps, th, k)),
    decreases k,
{
    if k > 0 {
        preview_draws_in_current_thread_color(ps, coords, th, w, h, k - 1);
        assert(ps.take(k).drop_last() == ps.take(k - 1));
        assert(ps.take(k).last() == ps[k - 1]);
    } else {
        assert(ps.take(0).len() == 0);
    }
}

proof fn lemma_raster_len(ps: Seq<StitchPoint>, coords: Seq<(int, int)>, th: Seq<Thread>, w: int, h: int, k: int)
    requires
        w > 0,
        h > 0,
    ensures
        raster_prefix(ps, coords, th, w, h, k).px.len() == w * h,
    decreases k,
{
    if k > 0 {
        lemma_raster_len(ps, coords, th, w, h, k - 1);
        let st = raster_prefix(ps, coords, th, w, h, k - 1);
        let pt = coords[k - 1];
        if 0 <= pt.0 < w && 0 <= pt.1 < h {
            crate::raster::lemma_index_in_grid(pt.0, pt.1, w, h);
        }
        if let Some(q) = st.prev {
            lemma_put_pixels_len(st.px, w, h, line_points(q.0, q.1, pt.0, pt.1), st.color);
        }
    } else {
        assert(w * h >= 0) by (nonlinear_arith)
            requires
                w > 0,
                h > 0,
        ;
    }
}

/// Each point of the preview is drawn in its thread's color: a jump or
/// trim marks its pixel, and a stitch draws the line from the run's
/// previous pixel (or marks its own pixel when it starts a run), all in
/// the quantized color of the thread the design is on at that point.
pub proof fn preview_points_take_their_thread_color(
    ps: Seq<StitchPoint>,
    coords: Seq<(int, int)>,
    th: Seq<Thread>,
    w: int,
    h: int,
    k: int,
)
    requires
        0 <= k < ps.len(),
        w > 0,
        h > 0,
    ensures
        ({
            let before = raster_prefix(ps, coords, th, w, h, k);
            let after = raster_prefix(ps, coords, th, w, h, k + 1);
            let c = quantized_index(th, thread_after(ps, th, k));
            let pt = coords[k];
            &&& (ps[k].command@ is Jump || ps[k].command@ is Trim || (ps[k].command@ is Stitch
                && before.prev is None)) && 0 <= pt.0 < w && 0 <= pt.1 < h ==> after.px[pt.1 * w + pt.0]
                == c
            &&& ps[k].command@ is Stitch && before.prev is Some ==> {
                let q = before.prev->0;
                let line = line_points(q.0, q.1, pt.0, pt.1);
                forall|m: int|
                    0 <= m < line.len() && 0 <= (#[trigger] line[m]).0 < w && 0 <= line[m].1 < h
                        ==> after.px[line[m].1 * w + line[m].0] == c
            }
        }),
{
    let before = raster_prefix(ps, coords, th, w, h, k);
    preview_draws_in_current_thread_color(ps, coords, th, w, h, k);
    lemma_raster_len(ps, coords, th, w, h, k);
    let pt = coords[k];
    if 0 <= pt.0 < w && 0 <= pt.1 < h {
        crate::raster::lemma_index_in_grid(pt.0, pt.1, w, h);
    }
    if let Some(q) = before.prev {
        crate::raster::put_pixels_paints_its_points(
            before.px,
            w,
            h,
            line_points(q.0, q.1, pt.0, pt.1),
            before.color,
        );
    }
}

} // verus!
