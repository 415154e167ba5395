//! The Designer 1 SHV writer.
//!
//! Layout: an 86-byte notice, the name (length byte and ASCII), a preview
//! header and 4bpp preview bitmap, a summary block (color count, constants,
//! extents, total record count), one 14-byte row per color segment, and
//! the two-byte-record stitch stream.

use vstd::prelude::*;
use crate::model::{
    count_commands, is_positioning, selected_thread, CommandModel, Design, SignatureMode,
    StitchCommand, StitchPoint, Thread,
};
use crate::stream::{
    be16, be32, extend_bytes, extents_fit, fits_i16, item_bytes, items_bytes, push_i16be,
    push_u32be, seq_extents, lemma_items_bytes_append, push_jump16, push_stitch_pair,
    lemma_items_bytes_len, lemma_items_bytes_push, lemma_round_between, round_div, split_count,
    split_pieces, split_pieces_are_legal_and_exact, split_stitch_delta,
    StreamItem,
};
use crate::preview::{auto_preview, preview_arith_ok, render_preview_4bpp_auto};
use crate::text::{color_sliceable, parse_hex_rgb, rgb_of, str_chars, trim, trim_chars};

verus! {

pub const DEFAULT_BLACK_COLOR_INDEX: u8 = 7;

pub const DEFAULT_OTHER_COLOR_INDEX: u8 = 0;

/// Why an SHV file could not be built.
#[derive(Debug, Clone, Copy, PartialEq, Eq, Structural)]
pub enum ShvBuildError {
    /// A jump delta or a segment start does not fit in a signed 16-bit value.
    Int16OutOfRange,
    /// The design produced no stitch records.
    NoStitchRecords,
    /// More than 255 color segments.
    TooManySegments,
    /// More than `u32::MAX` records.
    TooManyRecords,
    /// A position on the stitch path lies outside the signed 16-bit range.
    CoordinateOutOfRange,
}

/// The SHV color index of a thread color: 7 for near-black, else 0.
pub open spec fn thread_color_index(color: Option<String>) -> u8 {
    match rgb_of(color) {
        Some(rgb) => if rgb.0 <= 32 && rgb.1 <= 32 && rgb.2 <= 32 {
            DEFAULT_BLACK_COLOR_INDEX
        } else {
            DEFAULT_OTHER_COLOR_INDEX
        },
        None => DEFAULT_OTHER_COLOR_INDEX,
    }
}

/// The color index of the segment sewn with thread `idx`.
pub open spec fn segment_color(threads: Seq<Thread>, idx: int) -> u8 {
    match selected_thread(threads, idx) {
        Some(t) => thread_color_index(t.color),
        None => DEFAULT_BLACK_COLOR_INDEX,
    }
}

/// A color segment: `(color index, raw start x, raw start y, items)`.
pub type SegModel = (u8, int, int, Seq<StreamItem>);

/// The writer's state after some points.
pub struct EncodeState {
    pub segs: Seq<SegModel>,
    pub x: int,
    pub y: int,
    pub thread: int,
    pub positions: Seq<(int, int)>,
    pub failed: bool,
}

pub open spec fn initial_state(threads: Seq<Thread>) -> EncodeState {
    EncodeState {
        segs: seq![(segment_color(threads, 0), 0int, 0int, Seq::<StreamItem>::empty())],
        x: 0,
        y: 0,
        thread: 0,
        positions: seq![(0int, 0int)],
        failed: false,
    }
}

/// The stitch items a stitch delta becomes.
pub open spec fn piece_items(dx: int, dy: int) -> Seq<StreamItem> {
    split_pieces(dx, dy).map_values(|p: (int, int)| (false, p.0, p.1))
}

/// The Cartesian positions visited by the pieces of a stitch delta from raw `(x, y)`.
pub open spec fn piece_positions(x: int, y: int, dx: int, dy: int) -> Seq<(int, int)> {
    let n = split_count(dx, dy);
    Seq::new(
        n as nat,
        |k: int| (x + round_div(dx * (k + 1), n), -(y + round_div(dy * (k + 1), n))),
    )
}

pub open spec fn min_int(a: int, b: int) -> int {
    if a <= b {
        a
    } else {
        b
    }
}

/// The thread index after a color change: the next thread, or the last one.
pub open spec fn next_thread(threads: Seq<Thread>, t: int) -> int {
    min_int(t + 1, if threads.len() >= 1 {
        threads.len() - 1
    } else {
        0
    })
}

pub open spec fn with_last_items(segs: Seq<SegModel>, items: Seq<StreamItem>) -> Seq<SegModel> {
    let last = segs.last();
    segs.update(segs.len() - 1, (last.0, last.1, last.2, last.3 + items))
}

/// What the writer does with one point (before the first `End`).
pub open spec fn encode_step(st: EncodeState, p: StitchPoint, threads: Seq<Thread>) -> EncodeState {
    if st.failed {
        st
    } else {
        let tx = p.x as int;
        let ty = -(p.y as int);
        let dx = tx - st.x;
        let dy = ty - st.y;
        match p.command@ {
            CommandModel::ColorChange | CommandModel::Stop => if st.segs.last().3.len() > 0 {
                let t = next_thread(threads, st.thread);
                EncodeState {
                    segs: st.segs.push((segment_color(threads, t), st.x, st.y, Seq::empty())),
                    x: st.x,
                    y: st.y,
                    thread: t,
                    positions: st.positions,
                    failed: false,
                }
            } else {
                st
            },
            CommandModel::Jump | CommandModel::Trim => if fits_i16(dx) && fits_i16(dy) {
                EncodeState {
                    segs: with_last_items(st.segs, seq![(true, dx, dy)]),
                    x: tx,
                    y: ty,
                    thread: st.thread,
                    positions: st.positions.push((tx, -ty)),
                    failed: false,
                }
            } else {
                EncodeState {
                    segs: st.segs,
                    x: st.x,
                    y: st.y,
                    thread: st.thread,
                    positions: st.positions,
                    failed: true,
                }
            },
            CommandModel::Stitch => EncodeState {
                segs: with_last_items(st.segs, piece_items(dx, dy)),
                x: tx,
                y: ty,
                thread: st.thread,
                positions: st.positions + piece_positions(st.x, st.y, dx, dy),
                failed: false,
            },
            _ => st,
        }
    }
}

/// The writer's state after the first `k` points.
pub open spec fn encode_prefix(ps: Seq<StitchPoint>, threads: Seq<Thread>, k: int) -> EncodeState
    decreases k,
{
    if k <= 0 {
        initial_state(threads)
    } else {
        encode_step(encode_prefix(ps, threads, k - 1), ps[k - 1], threads)
    }
}

/// The index of the first `End` point at or after `i`, or the length.
pub open spec fn end_from(ps: Seq<StitchPoint>, i: int) -> int
    decreases ps.len() - i,
{
    if i >= ps.len() {
        ps.len() as int
    } else if ps[i].command@ is End {
        i
    } else {
        end_from(ps, i + 1)
    }
}

/// The number of points the writer processes: those before the first `End`.
pub open spec fn end_index(ps: Seq<StitchPoint>) -> int {
    end_from(ps, 0)
}

/// The segments that hold at least one item.
pub open spec fn nonempty_segs(segs: Seq<SegModel>) -> Seq<SegModel>
    decreases segs.len(),
{
    if segs.len() == 0 {
        Seq::empty()
    } else {
        let rest = nonempty_segs(segs.drop_last());
        if segs.last().3.len() > 0 {
            rest.push(segs.last())
        } else {
            rest
        }
    }
}

/// The state after the return to the origin with the needle lifted.
pub open spec fn return_home(st: EncodeState) -> EncodeState {
    if st.x != 0 || st.y != 0 {
        if fits_i16(-st.x) && fits_i16(-st.y) {
            EncodeState {
                segs: with_last_items(st.segs, seq![(true, -st.x, -st.y)]),
                x: 0,
                y: 0,
                thread: st.thread,
                positions: st.positions.push((0int, 0int)),
                failed: false,
            }
        } else {
            EncodeState {
                segs: st.segs,
                x: st.x,
                y: st.y,
                thread: st.thread,
                positions: st.positions,
                failed: true,
            }
        }
    } else {
        st
    }
}

/// The color segments and visited Cartesian positions of a design.
pub open spec fn encode_design(ps: Seq<StitchPoint>, threads: Seq<Thread>) -> Result<
    (Seq<SegModel>, Seq<(int, int)>),
    ShvBuildError,
> {
    let st = encode_prefix(ps, threads, end_index(ps));
    if st.failed {
        Err(ShvBuildError::Int16OutOfRange)
    } else {
        let home = return_home(st);
        if home.failed {
            Err(ShvBuildError::Int16OutOfRange)
        } else {
            let segs = nonempty_segs(home.segs);
            if segs.len() == 0 {
                Err(ShvBuildError::NoStitchRecords)
            } else {
                Ok((segs, home.positions))
            }
        }
    }
}

/// The writer's integer arithmetic stays within `i32` for this point.
pub open spec fn point_arith_ok(st: EncodeState, p: StitchPoint) -> bool {
    let dx = p.x - st.x;
    let dy = -(p.y as int) - st.y;
    &&& p.y != i32::MIN
    &&& i32::MIN <= dx <= i32::MAX
    &&& i32::MIN <= dy <= i32::MAX
    &&& p.command@ is Stitch ==> dx != i32::MIN && dy != i32::MIN
}

/// The writer's `i32` arithmetic does not overflow on this design: for the
/// points it processes (through the first `End`), and for the return home.
pub open spec fn encode_arith_ok(ps: Seq<StitchPoint>, threads: Seq<Thread>) -> bool {
    &&& forall|i: int|
        0 <= i < ps.len() && i <= end_index(ps) && !(#[trigger] encode_prefix(
            ps,
            threads,
            i,
        )).failed ==> point_arith_ok(encode_prefix(ps, threads, i), ps[i])
    &&& !encode_prefix(ps, threads, end_index(ps)).failed ==> encode_prefix(
        ps,
        threads,
        end_index(ps),
    ).x != i32::MIN
}

/// The number of color changes and stops before the first `End`.
pub open spec fn color_change_count(ps: Seq<StitchPoint>) -> int {
    count_commands(ps.take(end_index(ps)), 3) as int
}

/// The thread colors that the design's color changes can reach parse
/// without a slicing panic.
pub open spec fn threads_sliceable(threads: Seq<Thread>, ps: Seq<StitchPoint>) -> bool {
    forall|j: int|
        0 <= j < threads.len() && j <= color_change_count(ps) ==> color_sliceable(
            #[trigger] threads[j].color,
        )
}

/// The thread colors the writer reads parse without a slicing panic: the
/// first thread's, and each one a color change after a non-empty segment
/// moves to.
pub open spec fn writer_threads_sliceable(threads: Seq<Thread>, ps: Seq<StitchPoint>) -> bool {
    forall|i: int|
        #![trigger encode_prefix(ps, threads, i)]
        0 <= i <= end_index(ps) && threads.len() > 0 ==> color_sliceable(
            threads[encode_prefix(ps, threads, i).thread].color,
        )
}

} // verus!

verus! {

/// One color segment as the writer builds it.
pub struct Segment {
    pub color_index: u8,
    pub start_x_raw: i32,
    pub start_y_raw: i32,
    pub records: Vec<u8>,
}

impl Segment {
    pub open spec fn matches(&self, m: SegModel) -> bool {
        &&& self.color_index == m.0
        &&& self.start_x_raw as int == m.1
        &&& self.start_y_raw as int == m.2
        &&& self.records@ == items_bytes(m.3)
    }

    pub fn record_count(&self) -> (r: usize)
        ensures
            r == self.records@.len() / 2,
    {
        self.records.len() / 2
    }
}

pub open spec fn int_pairs(pos: Seq<(i32, i32)>) -> Seq<(int, int)> {
    pos.map_values(|p: (i32, i32)| (p.0 as int, p.1 as int))
}

pub open spec fn positions_match(pos: Seq<(i32, i32)>, model: Seq<(int, int)>) -> bool {
    int_pairs(pos) == model
}

/// The exec writer state `done + [cur]`, position and thread agree with `st`.
pub open spec fn state_matches(
    st: EncodeState,
    done: Seq<Segment>,
    cur: Segment,
    x: i32,
    y: i32,
    t: usize,
    pos: Seq<(i32, i32)>,
) -> bool {
    &&& st.segs.len() == done.len() + 1
    &&& forall|k: int| 0 <= k < done.len() ==> (#[trigger] done[k]).matches(st.segs[k])
    &&& forall|k: int| 0 <= k < done.len() ==> (#[trigger] st.segs[k]).3.len() > 0
    &&& cur.matches(st.segs.last())
    &&& st.x == x as int
    &&& st.y == y as int
    &&& st.thread == t as int
    &&& positions_match(pos, st.positions)
}

pub proof fn lemma_end_from(ps: Seq<StitchPoint>, s: int)
    requires
        0 <= s <= ps.len(),
    ensures
        s <= end_from(ps, s) <= ps.len(),
        forall|j: int| s <= j < end_from(ps, s) ==> !(#[trigger] ps[j].command@ is End),
        end_from(ps, s) < ps.len() ==> ps[end_from(ps, s)].command@ is End,
    decreases ps.len() - s,
{
    if s < ps.len() && !(ps[s].command@ is End) {
        lemma_end_from(ps, s + 1);
    }
}

proof fn lemma_failed_persists(ps: Seq<StitchPoint>, th: Seq<Thread>, a: int, b: int)
    requires
        0 <= a <= b,
        encode_prefix(ps, th, a).failed,
    ensures
        encode_prefix(ps, th, b).failed,
    decreases b - a,
{
    if a < b {
        lemma_failed_persists(ps, th, a, b - 1);
    }
}

fn thread_to_color_index(thread: &Thread) -> (r: u8)
    requires
        color_sliceable(thread.color),
    ensures
        r == thread_color_index(thread.color),
{
    let rgb = match &thread.color {
        Some(s) => parse_hex_rgb(Some(s.as_str())),
        None => None,
    };
    match rgb {
        Some((r, g, b)) => if r <= 32 && g <= 32 && b <= 32 {
            DEFAULT_BLACK_COLOR_INDEX
        } else {
            DEFAULT_OTHER_COLOR_INDEX
        },
        None => DEFAULT_OTHER_COLOR_INDEX,
    }
}

fn new_segment(design: &Design, thread_index: usize, x_raw: i32, y_raw: i32) -> (s: Segment)
    requires
        thread_index < design.threads@.len() ==> color_sliceable(
            design.threads@[thread_index as int].color,
        ),
        design.threads@.len() > 0 ==> color_sliceable(design.threads@[0].color),
    ensures
        s.matches((segment_color(design.threads@, thread_index as int), x_raw as int, y_raw as int, Seq::empty())),
{
    let color_index = if thread_index < design.threads.len() {
        thread_to_color_index(&design.threads[thread_index])
    } else if design.threads.len() > 0 {
        thread_to_color_index(&design.threads[0])
    } else {
        DEFAULT_BLACK_COLOR_INDEX
    };
    Segment { color_index, start_x_raw: x_raw, start_y_raw: y_raw, records: Vec::new() }
}

} // verus!

verus! {

/// Appends the stitch pieces of a delta to a segment, following the
/// needle from raw `(x0, y0)`.
fn append_stitch(
    cur: &mut Segment,
    positions: &mut Vec<(i32, i32)>,
    x0: i32,
    y0: i32,
    dx: i32,
    dy: i32,
)
    requires
        dx != i32::MIN,
        dy != i32::MIN,
        i32::MIN <= x0 + dx <= i32::MAX,
        i32::MIN < y0 + dy <= i32::MAX,
        y0 > i32::MIN,
    ensures
        final(cur).color_index == old(cur).color_index,
        final(cur).start_x_raw == old(cur).start_x_raw,
        final(cur).start_y_raw == old(cur).start_y_raw,
        final(cur).records@ == old(cur).records@ + items_bytes(piece_items(dx as int, dy as int)),
        int_pairs(final(positions)@) == int_pairs(old(positions)@) + piece_positions(
            x0 as int,
            y0 as int,
            dx as int,
            dy as int,
        ),
{
    let pieces = split_stitch_delta(dx, dy);
    let ghost n = split_count(dx as int, dy as int);
    let ghost items = piece_items(dx as int, dy as int);
    let ghost pp = piece_positions(x0 as int, y0 as int, dx as int, dy as int);
    proof {
        split_pieces_are_legal_and_exact(dx as int, dy as int);
    }
    let mut x = x0;
    let mut y = y0;
    let np = pieces.len();
    for j in 0..np
        invariant
            np == pieces@.len(),
            np == n,
            n == split_count(dx as int, dy as int),
            n >= 1,
            items == piece_items(dx as int, dy as int),
            pp == piece_positions(x0 as int, y0 as int, dx as int, dy as int),
            forall|k: int|
                0 <= k < pieces@.len() ==> (#[trigger] pieces@[k].0 as int, pieces@[k].1 as int)
                    == split_pieces(dx as int, dy as int)[k],
            dx != i32::MIN,
            dy != i32::MIN,
            i32::MIN <= x0 + dx <= i32::MAX,
            i32::MIN < y0 + dy <= i32::MAX,
            y0 > i32::MIN,
            x == x0 + round_div(dx * j, n),
            y == y0 + round_div(dy * j, n),
            cur.color_index == old(cur).color_index,
            cur.start_x_raw == old(cur).start_x_raw,
            cur.start_y_raw == old(cur).start_y_raw,
            cur.records@ == old(cur).records@ + items_bytes(items.take(j as int)),
            int_pairs(positions@) == int_pairs(old(positions)@) + pp.take(j as int),
    {
        let (sx, sy) = pieces[j];
        proof {
            split_pieces_are_legal_and_exact(dx as int, dy as int);
            lemma_round_between(dx as int, n, j + 1);
            lemma_round_between(dy as int, n, j + 1);
            assert(split_pieces(dx as int, dy as int)[j as int] == (
                round_div(dx * (j + 1), n) - round_div(dx * j, n),
                round_div(dy * (j + 1), n) - round_div(dy * j, n),
            ));
        }
        let ghost prev_pos = positions@;
        push_stitch_pair(&mut cur.records, sx, sy);
        x = x + sx;
        y = y + sy;
        positions.push((x, -y));
        proof {
            assert(items[j as int] == (false, sx as int, sy as int));
            assert(items.take(j + 1) == items.take(j as int).push(items[j as int]));
            lemma_items_bytes_push(items.take(j as int), items[j as int]);
            assert(pp[j as int] == (x as int, -(y as int)));
            assert(pp.take(j + 1) == pp.take(j as int).push(pp[j as int]));
            assert(int_pairs(positions@) =~= int_pairs(prev_pos).push((x as int, -(y as int))));
            assert(int_pairs(positions@) =~= int_pairs(old(positions)@) + pp.take(j + 1));
        }
    }
    proof {
        assert(items.take(np as int) == items);
        assert(pp.take(np as int) == pp);
    }
}

} // verus!

verus! {

/// The thread-index bounds the writer keeps.
pub open spec fn thread_bounds(st: EncodeState, th: Seq<Thread>, ps: Seq<StitchPoint>, i: int) -> bool {
    &&& 0 <= st.thread <= count_commands(ps.take(i), 3)
    &&& th.len() > 0 ==> st.thread < th.len()
    &&& th.len() == 0 ==> st.thread == 0
}

proof fn lemma_count_take_step(ps: Seq<StitchPoint>, i: int)
    requires
        0 <= i < ps.len(),
    ensures
        count_commands(ps.take(i + 1), 3) == count_commands(ps.take(i), 3) + if (
        ps[i].command@ is ColorChange || ps[i].command@ is Stop) {
            1int
        } else {
            0int
        },
{
    assert(ps.take(i + 1).drop_last() == ps.take(i));
}

/// Splits the processed points into color segments of stream items, and
/// records every position the needle visits.
fn build_segments(design: &Design) -> (r: Result<(Vec<Segment>, Vec<(i32, i32)>), ShvBuildError>)
    requires
        encode_arith_ok(design.points@, design.threads@),
        writer_threads_sliceable(design.threads@, design.points@),
    ensures
        match encode_design(design.points@, design.threads@) {
            Err(e) => r == Err::<(Vec<Segment>, Vec<(i32, i32)>), ShvBuildError>(e),
            Ok(m) => r matches Ok(v) && v.0@.len() == m.0.len() && (forall|k: int|
                0 <= k < v.0@.len() ==> (#[trigger] v.0@[k]).matches(m.0[k])) && positions_match(
                v.1@,
                m.1,
            ),
        },
{
    let ghost ps = design.points@;
    let ghost th = design.threads@;
    let n = design.points.len();
    let mut thread_index: usize = 0;
    let mut x_raw: i32 = 0;
    let mut y_raw: i32 = 0;
    let mut done: Vec<Segment> = Vec::new();
    proof {
        lemma_end_from(ps, 0);
        assert(count_commands(ps.take(0), 3) == 0) by {
            assert(ps.take(0).len() == 0);
        }
        assert(encode_prefix(ps, th, 0).thread == 0);
    }
    let mut current = new_segment(design, 0, 0, 0);
    let mut positions: Vec<(i32, i32)> = Vec::new();
    positions.push((0, 0));
    proof {
        assert(int_pairs(positions@) =~= seq![(0int, 0int)]);
    }
    let mut i: usize = 0;
    while i < n && !design.points[i].command.is_end_command()
        invariant
            ps == design.points@,
            th == design.threads@,
            n == ps.len(),
            0 <= i <= end_index(ps),
            end_index(ps) <= n,
            forall|j: int| 0 <= j < end_index(ps) ==> !(#[trigger] ps[j].command@ is End),
            end_index(ps) < n ==> ps[end_index(ps)].command@ is End,
            encode_arith_ok(ps, th),
            writer_threads_sliceable(th, ps),
            th.len() > 0 ==> color_sliceable(th[0].color),
            !encode_prefix(ps, th, i as int).failed,
            state_matches(
                encode_prefix(ps, th, i as int),
                done@,
                current,
                x_raw,
                y_raw,
                thread_index,
                positions@,
            ),
            thread_bounds(encode_prefix(ps, th, i as int), th, ps, i as int),
            y_raw > i32::MIN,
        decreases n - i,
    {
        let ghost st = encode_prefix(ps, th, i as int);
        let p = &design.points[i];
        proof {
            lemma_count_take_step(ps, i as int);
            assert(point_arith_ok(st, ps[i as int]));
            assert(count_commands(ps.take(i as int), 3) <= count_commands(ps.take(end_index(ps)), 3))
                by {
                lemma_count_mono(ps, i as int, end_index(ps));
            }
        }
        let target_x = p.x;
        let target_y = -p.y;
        let dx = target_x - x_raw;
        let dy = target_y - y_raw;
        match &p.command {
            StitchCommand::ColorChange | StitchCommand::Stop => {
                if current.records.len() > 0 {
                    proof {
                        lemma_items_bytes_len(st.segs.last().3);
                    }
                    let last_thread: usize = if design.threads.len() >= 1 {
                        design.threads.len() - 1
                    } else {
                        0
                    };
                    thread_index = if thread_index + 1 <= last_thread {
                        thread_index + 1
                    } else {
                        last_thread
                    };
                    proof {
                        assert(encode_prefix(ps, th, i + 1) == encode_step(st, ps[i as int], th));
                        assert(encode_prefix(ps, th, i + 1).thread == thread_index);
                    }
                    let mut finished = new_segment(design, thread_index, x_raw, y_raw);
                    std::mem::swap(&mut current, &mut finished);
                    done.push(finished);
                } else {
                    proof {
                        assert(st.segs.last().3.len() == 0) by {
                            lemma_items_bytes_len(st.segs.last().3);
                        }
                    }
                }
            },
            StitchCommand::Jump | StitchCommand::Trim => {
                let ghost old_records = current.records@;
                if !push_jump16(&mut current.records, dx, dy) {
                    proof {
                        assert(encode_prefix(ps, th, i + 1).failed);
                        lemma_failed_persists(ps, th, i + 1, end_index(ps));
                    }
                    return Err(ShvBuildError::Int16OutOfRange);
                }
                proof {
                    lemma_items_bytes_push(st.segs.last().3, (true, dx as int, dy as int));
                    assert(st.segs.last().3 + seq![(true, dx as int, dy as int)] == st.segs.last().3.push(
                        (true, dx as int, dy as int),
                    ));
                }
                let ghost prev_pos = positions@;
                x_raw = target_x;
                y_raw = target_y;
                positions.push((x_raw, -y_raw));
                proof {
                    assert(int_pairs(positions@) =~= int_pairs(prev_pos).push((x_raw as int, -(y_raw as int))));
                }
            },
            StitchCommand::Stitch => {
                let ghost old_records = current.records@;
                append_stitch(&mut current, &mut positions, x_raw, y_raw, dx, dy);
                proof {
                    lemma_items_bytes_append(st.segs.last().3, piece_items(dx as int, dy as int));
                    split_pieces_are_legal_and_exact(dx as int, dy as int);
                }
                x_raw = target_x;
                y_raw = target_y;
            },
            _ => {},
        }
        proof {
            let st2 = encode_prefix(ps, th, i + 1);
            assert(st2 == encode_step(st, ps[i as int], th));
            assert forall|k: int| 0 <= k < done@.len() implies (#[trigger] done@[k]).matches(
                st2.segs[k],
            ) by {}
        }
        i = i + 1;
    }
    proof {
        lemma_end_from(ps, 0);
        assert(i == end_index(ps));
    }
    let ghost st = encode_prefix(ps, th, i as int);
    if x_raw != 0 || y_raw != 0 {
        if !push_jump16(&mut current.records, -x_raw, -y_raw) {
            return Err(ShvBuildError::Int16OutOfRange);
        }
        proof {
            lemma_items_bytes_push(st.segs.last().3, (true, -x_raw as int, -y_raw as int));
            assert(st.segs.last().3 + seq![(true, -x_raw as int, -y_raw as int)] == st.segs.last().3.push(
                (true, -x_raw as int, -y_raw as int),
            ));
        }
        let ghost prev_pos = positions@;
        positions.push((0, 0));
        proof {
            assert(int_pairs(positions@) =~= int_pairs(prev_pos).push((0int, 0int)));
        }
    }
    let ghost home = return_home(st);
    proof {
        lemma_items_bytes_len(home.segs.last().3);
        lemma_nonempty_segs(home.segs);
    }
    if current.records.len() > 0 {
        done.push(current);
    }
    if done.len() == 0 {
        return Err(ShvBuildError::NoStitchRecords);
    }
    Ok((done, positions))
}

pub proof fn lemma_count_mono(ps: Seq<StitchPoint>, a: int, b: int)
    requires
        0 <= a <= b <= ps.len(),
    ensures
        count_commands(ps.take(a), 3) <= count_commands(ps.take(b), 3),
    decreases b - a,
{
    if a < b {
        lemma_count_mono(ps, a, b - 1);
        assert(ps.take(b).drop_last() == ps.take(b - 1));
    }
}

/// When every segment but the last holds items, dropping the empty ones
/// keeps the others and the last only if it holds items.
proof fn lemma_nonempty_segs(segs: Seq<SegModel>)
    requires
        segs.len() >= 1,
        forall|k: int| 0 <= k < segs.len() - 1 ==> (#[trigger] segs[k]).3.len() > 0,
    ensures
        nonempty_segs(segs) == if segs.last().3.len() > 0 {
            segs
        } else {
            segs.drop_last()
        },
    decreases segs.len(),
{
    lemma_nonempty_all(segs.drop_last());
}

proof fn lemma_nonempty_all(segs: Seq<SegModel>)
    requires
        forall|k: int| 0 <= k < segs.len() ==> (#[trigger] segs[k]).3.len() > 0,
    ensures
        nonempty_segs(segs) == segs,
    decreases segs.len(),
{
    if segs.len() > 0 {
        lemma_nonempty_all(segs.drop_last());
        assert(segs.drop_last().push(segs.last()) == segs);
    }
}

} // verus!

verus! {

/// The 86-byte Viking licence notice.
pub open spec fn official_notice() -> Seq<u8> {
    seq![
        69u8,
        109u8,
        98u8,
        114u8,
        111u8,
        105u8,
        100u8,
        101u8,
        114u8,
        121u8,
        32u8,
        100u8,
        105u8,
        115u8,
        107u8,
        32u8,
        99u8,
        114u8,
        101u8,
        97u8,
        116u8,
        101u8,
        100u8,
        32u8,
        117u8,
        115u8,
        105u8,
        110u8,
        103u8,
        32u8,
        115u8,
        111u8,
        102u8,
        116u8,
        119u8,
        97u8,
        114u8,
        101u8,
        32u8,
        108u8,
        105u8,
        99u8,
        101u8,
        110u8,
        115u8,
        101u8,
        100u8,
        32u8,
        102u8,
        114u8,
        111u8,
        109u8,
        32u8,
        86u8,
        105u8,
        107u8,
        105u8,
        110u8,
        103u8,
        32u8,
        83u8,
        101u8,
        119u8,
        105u8,
        110u8,
        103u8,
        32u8,
        77u8,
        97u8,
        99u8,
        104u8,
        105u8,
        110u8,
        101u8,
        115u8,
        32u8,
        65u8,
        66u8,
        44u8,
        32u8,
        83u8,
        119u8,
        101u8,
        100u8,
        101u8,
        110u8,
    ]
}

/// The 86-byte notice region that starts SHV, MHV and PHV files.
pub open spec fn notice_bytes(mode: SignatureMode) -> Seq<u8> {
    match mode {
        SignatureMode::Official => official_notice(),
        SignatureMode::Zero => Seq::new(86, |i: int| 0u8),
    }
}

/// The notice region for a signature mode.
pub fn signature_bytes(signature: SignatureMode) -> (r: Vec<u8>)
    ensures
        r@ == notice_bytes(signature),
        r@.len() == 86,
{
    match signature {
        SignatureMode::Official => {
            let v: Vec<u8> = vec![69, 109, 98, 114, 111, 105, 100, 101, 114, 121, 32, 100, 105, 115, 107, 32, 99, 114, 101, 97, 116, 101, 100, 32, 117, 115, 105, 110, 103, 32, 115, 111, 102, 116, 119, 97, 114, 101, 32, 108, 105, 99, 101, 110, 115, 101, 100, 32, 102, 114, 111, 109, 32, 86, 105, 107, 105, 110, 103, 32, 83, 101, 119, 105, 110, 103, 32, 77, 97, 99, 104, 105, 110, 101, 115, 32, 65, 66, 44, 32, 83, 119, 101, 100, 101, 110];
            assert(v@ =~= official_notice());
            v
        },
        SignatureMode::Zero => {
            let v: Vec<u8> = vec![0u8; 86];
            assert(v@ =~= Seq::new(86, |i: int| 0u8));
            v
        },
    }
}

} // verus!

verus! {

/// Printable ASCII or space.
pub open spec fn ascii_printable(c: char) -> bool {
    ('!' <= c && c <= '~') || c == ' '
}

/// A name character, or `_` for one that is not printable ASCII.
pub open spec fn name_char(c: char) -> char {
    if ascii_printable(c) {
        c
    } else {
        '_'
    }
}

/// The ASCII bytes an SHV name is stored as: the trimmed name with
/// non-printable characters replaced by `_`, `design` when that is empty,
/// cut to `min(max_len, 255)` bytes.
pub open spec fn shv_name(name: Seq<char>, max_len: int) -> Seq<u8> {
    let cleaned = trim(name).map_values(|c: char| name_char(c));
    let chosen = if cleaned.len() == 0 {
        seq!['d', 'e', 's', 'i', 'g', 'n']
    } else {
        cleaned
    };
    let bytes = chosen.map_values(|c: char| c as u8);
    let cap = if max_len < 255 {
        max_len
    } else {
        255
    };
    if cap < bytes.len() {
        bytes.take(cap)
    } else {
        bytes
    }
}

fn safe_ascii_name(name: &str, max_len: usize) -> (r: Vec<u8>)
    ensures
        r@ == shv_name(name@, max_len as int),
{
    let trimmed = trim_chars(&str_chars(name));
    let mut cleaned: Vec<char> = Vec::new();
    for i in 0..trimmed.len()
        invariant
            cleaned@ == trimmed@.take(i as int).map_values(|c: char| name_char(c)),
    {
        let c = trimmed[i];
        let m = if ('!' <= c && c <= '~') || c == ' ' {
            c
        } else {
            '_'
        };
        cleaned.push(m);
        assert(trimmed@.take(i + 1).map_values(|c: char| name_char(c)) =~= trimmed@.take(
            i as int,
        ).map_values(|c: char| name_char(c)).push(name_char(c)));
    }
    assert(trimmed@.take(trimmed@.len() as int) == trimmed@);
    let chosen = if cleaned.len() == 0 {
        vec!['d', 'e', 's', 'i', 'g', 'n']
    } else {
        cleaned
    };
    let ghost ch = chosen@;
    let mut bytes: Vec<u8> = Vec::new();
    for i in 0..chosen.len()
        invariant
            ch == chosen@,
            forall|k: int| 0 <= k < ch.len() ==> (#[trigger] ch[k] as u32) < 0x80,
            bytes@ == ch.take(i as int).map_values(|c: char| c as u8),
    {
        let c = chosen[i];
        assert((c as u32) < 0x80);
        let b = c as u8;
        bytes.push(b);
        assert(ch.take(i + 1).map_values(|c: char| c as u8) =~= ch.take(i as int).map_values(
            |c: char| c as u8,
        ).push(c as u8));
    }
    assert(ch.take(ch.len() as int) == ch);
    let cap = if max_len < 255 {
        max_len
    } else {
        255
    };
    if cap < bytes.len() {
        bytes.truncate(cap);
    }
    bytes
}

} // verus!

verus! {

/// A bounding box in Cartesian units.
#[derive(Debug, Clone, Copy, PartialEq, Eq, Structural)]
pub struct Extents {
    pub right: i16,
    pub top: i16,
    pub left: i16,
    pub bottom: i16,
}

/// A Cartesian position.
#[derive(Debug, Clone, Copy, PartialEq, Eq, Structural)]
pub struct Point {
    pub x: i16,
    pub y: i16,
}

impl Extents {
    pub open spec fn as_tuple(self) -> (int, int, int, int) {
        (self.right as int, self.top as int, self.left as int, self.bottom as int)
    }
}

/// The bounding box of a non-empty list of positions, or `None` when a
/// side does not fit in a signed 16-bit value.
fn extents_from_positions(positions: &Vec<(i32, i32)>) -> (r: Option<Extents>)
    requires
        positions@.len() >= 1,
    ensures
        r is Some <==> extents_fit(seq_extents(int_pairs(positions@))),
        r matches Some(e) ==> e.as_tuple() == seq_extents(int_pairs(positions@)),
{
    let ghost ip = int_pairs(positions@);
    let mut right = positions[0].0;
    let mut left = positions[0].0;
    let mut top = positions[0].1;
    let mut bottom = positions[0].1;
    assert(ip.take(1).drop_last().len() == 0);
    assert(seq_extents(ip.take(1)) == (right as int, top as int, left as int, bottom as int));
    for i in 1..positions.len()
        invariant
            positions@.len() >= 1,
            ip == int_pairs(positions@),
            seq_extents(ip.take(i as int)) == (right as int, top as int, left as int, bottom as int),
    {
        let (x, y) = positions[i];
        assert(ip.take(i + 1).drop_last() == ip.take(i as int));
        assert(ip.take(i + 1).last() == (x as int, y as int));
        if x > right {
            right = x;
        }
        if y > top {
            top = y;
        }
        if x < left {
            left = x;
        }
        if y < bottom {
            bottom = y;
        }
    }
    assert(ip.take(positions@.len() as int) == ip);
    if right < -32768 || right > 32767 || top < -32768 || top > 32767 || left < -32768 || left
        > 32767 || bottom < -32768 || bottom > 32767 {
        return None;
    }
    Some(Extents { right: right as i16, top: top as i16, left: left as i16, bottom: bottom as i16 })
}

} // verus!

verus! {

/// Six constant bytes of the summary block.
pub open spec fn summary_constants() -> Seq<u8> {
    seq![0xc4u8, 0x28u8, 0x00u8, 0x30u8, 0x00u8, 0x00u8]
}

/// The stream records of a segment.
pub open spec fn seg_records(seg: SegModel) -> int {
    (items_bytes(seg.3).len() / 2) as int
}

/// The 14-byte color row of a segment: record count, color index, five
/// zero bytes, raw start x and y.
pub open spec fn seg_row(seg: SegModel) -> Seq<u8> {
    be32(seg_records(seg)) + seq![seg.0, 0u8, 0u8, 0u8, 0u8, 0u8] + be16(seg.1) + be16(seg.2)
}

pub open spec fn seg_rows(segs: Seq<SegModel>) -> Seq<u8>
    decreases segs.len(),
{
    if segs.len() == 0 {
        Seq::empty()
    } else {
        seg_rows(segs.drop_last()) + seg_row(segs.last())
    }
}

/// The stitch stream: the records of all segments, in order.
pub open spec fn seg_stream(segs: Seq<SegModel>) -> Seq<u8>
    decreases segs.len(),
{
    if segs.len() == 0 {
        Seq::empty()
    } else {
        seg_stream(segs.drop_last()) + items_bytes(segs.last().3)
    }
}

/// Every segment's raw start fits in a signed 16-bit value.
pub open spec fn rows_fit(segs: Seq<SegModel>) -> bool {
    forall|k: int| 0 <= k < segs.len() ==> fits_i16(#[trigger] segs[k].1) && fits_i16(segs[k].2)
}

/// The six-byte preview header: height, width, half height, half width,
/// half height, half width.
pub open spec fn preview_header(w: u8, h: u8) -> Seq<u8> {
    seq![h, w, (h / 2) as u8, (w / 2) as u8, (h / 2) as u8, (w / 2) as u8]
}

/// An SHV file laid out from its parts.
pub open spec fn shv_layout(
    sig: SignatureMode,
    name: Seq<u8>,
    preview: (u8, u8, Seq<u8>),
    segs: Seq<SegModel>,
    ext: (int, int, int, int),
) -> Seq<u8> {
    notice_bytes(sig) + seq![name.len() as u8] + name + preview_header(preview.0, preview.1)
        + preview.2 + seq![segs.len() as u8] + summary_constants() + be16(ext.0) + be16(ext.1)
        + be16(ext.2) + be16(ext.3) + be32((seg_stream(segs).len() / 2) as int) + seg_rows(segs)
        + seg_stream(segs)
}

/// The writer gets as far as rendering the preview.
pub open spec fn shv_reaches_preview(ps: Seq<StitchPoint>, th: Seq<Thread>) -> bool {
    match encode_design(ps, th) {
        Err(_) => false,
        Ok(m) => m.0.len() <= 255 && seg_stream(m.0).len() / 2 <= u32::MAX && extents_fit(
            seq_extents(m.1),
        ),
    }
}

/// The SHV file of a design named `name` (before cleaning), or why there is none.
pub open spec fn shv_file(
    ps: Seq<StitchPoint>,
    th: Seq<Thread>,
    name: Seq<char>,
    sig: SignatureMode,
) -> Result<Seq<u8>, ShvBuildError> {
    match encode_design(ps, th) {
        Err(e) => Err(e),
        Ok(m) => {
            let segs = m.0;
            let pos = m.1;
            if segs.len() > 255 {
                Err(ShvBuildError::TooManySegments)
            } else if seg_stream(segs).len() / 2 > u32::MAX {
                Err(ShvBuildError::TooManyRecords)
            } else if !extents_fit(seq_extents(pos)) {
                Err(ShvBuildError::CoordinateOutOfRange)
            } else if !rows_fit(segs) {
                Err(ShvBuildError::Int16OutOfRange)
            } else {
                Ok(
                    shv_layout(
                        sig,
                        shv_name(name, 32),
                        auto_preview(ps, th),
                        segs,
                        seq_extents(pos),
                    ),
                )
            }
        },
    }
}

#[derive(Debug, Clone)]
pub struct ShvOptions {
    /// Overrides the design's name.
    pub name: Option<String>,
    pub signature: SignatureMode,
}

impl Default for ShvOptions {
    fn default() -> (r: Self)
        ensures
            r.name is None,
            r.signature == SignatureMode::Official,
    {
        ShvOptions { name: None, signature: SignatureMode::Official }
    }
}

/// The name an SHV file is written under: the override, else the design's.
pub open spec fn name_source(design_name: String, options: ShvOptions) -> Seq<char> {
    match options.name {
        Some(n) => n@,
        None => design_name@,
    }
}

proof fn lemma_seg_stream_parts(segs: Seq<SegModel>, k: int)
    requires
        0 <= k < segs.len(),
    ensures
        items_bytes(segs[k].3).len() <= seg_stream(segs).len(),
    decreases segs.len(),
{
    if k < segs.len() - 1 {
        lemma_seg_stream_parts(segs.drop_last(), k);
    }
}

/// The stitch stream of the segments.
fn collect_stream(segments: &Vec<Segment>, Ghost(segs): Ghost<Seq<SegModel>>) -> (r: Vec<u8>)
    requires
        segments@.len() == segs.len(),
        forall|j: int| 0 <= j < segments@.len() ==> (#[trigger] segments@[j]).matches(segs[j]),
    ensures
        r@ == seg_stream(segs),
{
    let mut stream: Vec<u8> = Vec::new();
    for k in 0..segments.len()
        invariant
            segments@.len() == segs.len(),
            forall|j: int| 0 <= j < segments@.len() ==> (#[trigger] segments@[j]).matches(segs[j]),
            stream@ == seg_stream(segs.take(k as int)),
    {
        extend_bytes(&mut stream, &segments[k].records);
        assert(segs.take(k + 1).drop_last() == segs.take(k as int));
    }
    assert(segs.take(segments@.len() as int) == segs);
    stream
}

/// Appends the color rows, or fails when a segment start does not fit in
/// 16 bits.
fn write_rows(out: &mut Vec<u8>, segments: &Vec<Segment>, Ghost(segs): Ghost<Seq<SegModel>>) -> (r: bool)
    requires
        segments@.len() == segs.len(),
        forall|j: int| 0 <= j < segments@.len() ==> (#[trigger] segments@[j]).matches(segs[j]),
        seg_stream(segs).len() / 2 <= u32::MAX,
    ensures
        r == rows_fit(segs),
        r ==> final(out)@ == old(out)@ + seg_rows(segs),
{
    let mut k: usize = 0;
    while k < segments.len()
        invariant
            0 <= k <= segments@.len(),
            segments@.len() == segs.len(),
            forall|j: int| 0 <= j < segments@.len() ==> (#[trigger] segments@[j]).matches(segs[j]),
            forall|j: int| 0 <= j < k ==> fits_i16(#[trigger] segs[j].1) && fits_i16(segs[j].2),
            out@ == old(out)@ + seg_rows(segs.take(k as int)),
            seg_stream(segs).len() / 2 <= u32::MAX,
        decreases segments@.len() - k,
    {
        let seg = &segments[k];
        proof {
            lemma_seg_stream_parts(segs, k as int);
        }
        let ghost before = out@;
        push_u32be(out, seg.record_count() as u32);
        out.push(seg.color_index);
        out.push(0x00);
        out.push(0x00);
        out.push(0x00);
        out.push(0x00);
        out.push(0x00);
        if seg.start_x_raw < -32768 || seg.start_x_raw > 32767 || seg.start_y_raw < -32768
            || seg.start_y_raw > 32767 {
            proof {
                assert(!(fits_i16(segs[k as int].1) && fits_i16(segs[k as int].2)));
            }
            return false;
        }
        push_i16be(out, seg.start_x_raw);
        push_i16be(out, seg.start_y_raw);
        proof {
            assert(fits_i16(segs[k as int].1) && fits_i16(segs[k as int].2));
            assert(segs.take(k + 1).drop_last() == segs.take(k as int));
            assert(out@ =~= before + seg_row(segs[k as int]));
            assert forall|j: int| 0 <= j < k + 1 implies fits_i16(#[trigger] segs[j].1) && fits_i16(
                segs[j].2,
            ) by {
                if j == k as int {
                    assert(fits_i16(segs[k as int].1));
                }
            }
        }
        k = k + 1;
    }
    assert(segs.take(segments@.len() as int) == segs);
    assert(rows_fit(segs));
    true
}

/// The header of an SHV file up to the color rows.
pub open spec fn shv_head(
    sig: SignatureMode,
    name: Seq<u8>,
    preview: (u8, u8, Seq<u8>),
    nsegs: int,
    ext: (int, int, int, int),
    total: int,
) -> Seq<u8> {
    notice_bytes(sig) + seq![name.len() as u8] + name + preview_header(preview.0, preview.1)
        + preview.2 + seq![nsegs as u8] + summary_constants() + be16(ext.0) + be16(ext.1)
        + be16(ext.2) + be16(ext.3) + be32(total)
}

proof fn lemma_layout_parts(
    sig: SignatureMode,
    name: Seq<u8>,
    preview: (u8, u8, Seq<u8>),
    segs: Seq<SegModel>,
    ext: (int, int, int, int),
)
    ensures
        shv_layout(sig, name, preview, segs, ext) == shv_head(
            sig,
            name,
            preview,
            segs.len() as int,
            ext,
            (seg_stream(segs).len() / 2) as int,
        ) + seg_rows(segs) + seg_stream(segs),
{
}

fn write_head(
    signature: SignatureMode,
    name_bytes: &Vec<u8>,
    preview_width: u8,
    preview_height: u8,
    preview: &Vec<u8>,
    nsegs: usize,
    extents: Extents,
    total: u32,
) -> (r: Vec<u8>)
    requires
        nsegs <= 255,
    ensures
        r@ == shv_head(
            signature,
            name_bytes@,
            (preview_width, preview_height, preview@),
            nsegs as int,
            extents.as_tuple(),
            total as int,
        ),
{
    let prefix = signature_bytes(signature);
    let mut out: Vec<u8> = Vec::new();
    extend_bytes(&mut out, &prefix);
    out.push(name_bytes.len() as u8);
    extend_bytes(&mut out, name_bytes);
    out.push(preview_height);
    out.push(preview_width);
    out.push(preview_height / 2);
    out.push(preview_width / 2);
    out.push(preview_height / 2);
    out.push(preview_width / 2);
    extend_bytes(&mut out, preview);
    out.push(nsegs as u8);
    out.push(0xc4);
    out.push(0x28);
    out.push(0x00);
    out.push(0x30);
    out.push(0x00);
    out.push(0x00);
    push_i16be(&mut out, extents.right as i32);
    push_i16be(&mut out, extents.top as i32);
    push_i16be(&mut out, extents.left as i32);
    push_i16be(&mut out, extents.bottom as i32);
    push_u32be(&mut out, total);
    assert(out@ =~= shv_head(
        signature,
        name_bytes@,
        (preview_width, preview_height, preview@),
        nsegs as int,
        extents.as_tuple(),
        total as int,
    ));
    out
}

/// Builds a Designer 1 SHV file from a design.
pub fn build_shv(design: &Design, options: &ShvOptions) -> (r: Result<Vec<u8>, ShvBuildError>)
    requires
        encode_arith_ok(design.points@, design.threads@),
        writer_threads_sliceable(design.threads@, design.points@),
        shv_reaches_preview(design.points@, design.threads@) ==> threads_sliceable(
            design.threads@,
            design.points@,
        ),
        shv_reaches_preview(design.points@, design.threads@) ==> preview_arith_ok(design.points@),
    ensures
        match shv_file(
            design.points@,
            design.threads@,
            name_source(design.name, *options),
            options.signature,
        ) {
            Ok(b) => r matches Ok(v) && v@ == b,
            Err(e) => r == Err::<Vec<u8>, ShvBuildError>(e),
        },
{
    let ghost ps = design.points@;
    let ghost th = design.threads@;
    let name_bytes = match &options.name {
        Some(n) => safe_ascii_name(n.as_str(), 32),
        None => safe_ascii_name(design.name.as_str(), 32),
    };
    let (segments, positions) = match build_segments(design) {
        Ok(v) => v,
        Err(e) => return Err(e),
    };
    let ghost m = encode_design(ps, th)->Ok_0;
    let ghost segs = m.0;
    if segments.len() > 255 {
        return Err(ShvBuildError::TooManySegments);
    }
    let stream = collect_stream(&segments, Ghost(segs));
    let total = stream.len() / 2;
    if total > 0xffff_ffff {
        return Err(ShvBuildError::TooManyRecords);
    }
    proof {
        lemma_positions_nonempty(ps, th);
    }
    let extents = match extents_from_positions(&positions) {
        Some(e) => e,
        None => return Err(ShvBuildError::CoordinateOutOfRange),
    };
    let (preview_width, preview_height, preview) = render_preview_4bpp_auto(design);
    let mut out = write_head(
        options.signature,
        &name_bytes,
        preview_width,
        preview_height,
        &preview,
        segments.len(),
        extents,
        total as u32,
    );
    if !write_rows(&mut out, &segments, Ghost(segs)) {
        return Err(ShvBuildError::Int16OutOfRange);
    }
    extend_bytes(&mut out, &stream);
    proof {
        lemma_layout_parts(
            options.signature,
            name_bytes@,
            (preview_width, preview_height, preview@),
            segs,
            seq_extents(m.1),
        );
    }
    Ok(out)
}

proof fn lemma_positions_nonempty(ps: Seq<StitchPoint>, th: Seq<Thread>)
    requires
        encode_design(ps, th) is Ok,
    ensures
        encode_design(ps, th)->Ok_0.1.len() >= 1,
{
    lemma_positions_prefix(ps, th, end_index(ps));
}

proof fn lemma_positions_prefix(ps: Seq<StitchPoint>, th: Seq<Thread>, k: int)
    ensures
        encode_prefix(ps, th, k).positions.len() >= 1,
    decreases k,
{
    if k > 0 {
        lemma_positions_prefix(ps, th, k - 1);
    }
}

} // verus!

verus! {

/// Whether the thread colors a design's color changes reach all parse
/// without slicing inside a character (the writer's and the preview's
/// precondition on threads).
pub fn threads_are_sliceable(design: &Design) -> (r: bool)
    ensures
        r == threads_sliceable(design.threads@, design.points@),
{
    let ghost ps = design.points@;
    let mut i: usize = 0;
    let mut changes: usize = 0;
    proof {
        lemma_end_from(ps, 0);
    }
    while i < design.points.len() && !design.points[i].command.is_end_command()
        invariant
            ps == design.points@,
            i <= end_index(ps),
            end_index(ps) <= ps.len(),
            forall|j: int| 0 <= j < end_index(ps) ==> !(#[trigger] ps[j].command@ is End),
            end_index(ps) < ps.len() ==> ps[end_index(ps)].command@ is End,
            changes == count_commands(ps.take(i as int), 3),
            changes <= i,
        decreases ps.len() - i,
    {
        assert(ps.take(i + 1).drop_last() == ps.take(i as int));
        match &design.points[i].command {
            StitchCommand::ColorChange | StitchCommand::Stop => {
                changes = changes + 1;
            },
            _ => {},
        }
        i = i + 1;
    }
    assert(i == end_index(ps));
    let mut j: usize = 0;
    while j < design.threads.len() && j <= changes
        invariant
            ps == design.points@,
            changes == color_change_count(ps),
            forall|k: int|
                0 <= k < j && k < design.threads@.len() && k <= changes ==> color_sliceable(
                    #[trigger] design.threads@[k].color,
                ),
        decreases design.threads.len() - j,
    {
        if !crate::text::color_is_sliceable(&design.threads[j].color) {
            assert(!color_sliceable(design.threads@[j as int].color));
            assert(!threads_sliceable(design.threads@, design.points@));
            return false;
        }
        j = j + 1;
    }
    true
}

} // verus!

verus! {

/// Whether the writer's `i32` arithmetic stays in range on this design
/// (the precondition `encode_arith_ok` of `build_shv`).
pub fn writer_arith_fits(design: &Design) -> (r: bool)
    ensures
        r == encode_arith_ok(design.points@, design.threads@),
{
    let ghost ps = design.points@;
    let ghost th = design.threads@;
    proof {
        lemma_end_from(ps, 0);
    }
    let mut x: i64 = 0;
    let mut y: i64 = 0;
    let mut failed = false;
    let mut i: usize = 0;
    while i < design.points.len()
        invariant
            ps == design.points@,
            th == design.threads@,
            i <= end_index(ps),
            end_index(ps) <= ps.len(),
            forall|j: int| 0 <= j < end_index(ps) ==> !(#[trigger] ps[j].command@ is End),
            end_index(ps) < ps.len() ==> ps[end_index(ps)].command@ is End,
            encode_prefix(ps, th, i as int).x == x as int,
            encode_prefix(ps, th, i as int).y == y as int,
            encode_prefix(ps, th, i as int).failed == failed,
            i32::MIN <= x <= i32::MAX,
            i32::MIN <= y <= i32::MAX,
            forall|j: int|
                0 <= j < i && !(#[trigger] encode_prefix(ps, th, j)).failed ==> point_arith_ok(
                    encode_prefix(ps, th, j),
                    ps[j],
                ),
        decreases ps.len() - i,
    {
        let p = &design.points[i];
        let ghost st = encode_prefix(ps, th, i as int);
        if !failed {
            let dx = p.x as i64 - x;
            let ok = p.y != i32::MIN && i32::MIN as i64 <= dx && dx <= i32::MAX as i64 && i32::MIN as i64 <= -(
            p.y as i64) - y && -(p.y as i64) - y <= i32::MAX as i64 && (!p.command.is_drawn_stitch() || (dx
                != i32::MIN as i64 && -(p.y as i64) - y != i32::MIN as i64));
            if !ok {
                assert(!point_arith_ok(st, ps[i as int]));
                assert(!encode_arith_ok(ps, th));
                return false;
            }
        }
        if p.command.is_end_command() {
            assert(i == end_index(ps));
            let home_ok = failed || x != i32::MIN as i64;
            assert forall|j: int|
                0 <= j < ps.len() && j <= end_index(ps) && !(#[trigger] encode_prefix(ps, th, j)).failed implies point_arith_ok(
                encode_prefix(ps, th, j),
                ps[j],
            ) by {}
            return home_ok;
        }
        assert(encode_prefix(ps, th, i + 1) == encode_step(st, ps[i as int], th));
        if !failed {
            let ty = -(p.y as i64);
            let dx = p.x as i64 - x;
            let dy = ty - y;
            match &p.command {
                StitchCommand::Jump | StitchCommand::Trim => {
                    if -32768 <= dx && dx <= 32767 && -32768 <= dy && dy <= 32767 {
                        x = p.x as i64;
                        y = ty;
                    } else {
                        failed = true;
                    }
                },
                StitchCommand::Stitch => {
                    x = p.x as i64;
                    y = ty;
                },
                _ => {},
            }
        }
        i = i + 1;
    }
    assert(i == end_index(ps));
    failed || x != i32::MIN as i64
}

} // verus!

verus! {

/// Whether the thread colors the writer reads parse without slicing
/// inside a character (the precondition `writer_threads_sliceable` of
/// `build_shv`).
pub fn writer_threads_are_sliceable(design: &Design) -> (r: bool)
    ensures
        r == writer_threads_sliceable(design.threads@, design.points@),
{
    let ghost ps = design.points@;
    let ghost th = design.threads@;
    proof {
        lemma_end_from(ps, 0);
    }
    if design.threads.len() > 0 && !crate::text::color_is_sliceable(&design.threads[0].color) {
        assert(encode_prefix(ps, th, 0).thread == 0);
        return false;
    }
    let last_thread: usize = if design.threads.len() >= 1 {
        design.threads.len() - 1
    } else {
        0
    };
    let mut x: i64 = 0;
    let mut y: i64 = 0;
    let mut thread: usize = 0;
    let mut nonempty = false;
    let mut failed = false;
    let mut i: usize = 0;
    while i < design.points.len() && !design.points[i].command.is_end_command()
        invariant
            ps == design.points@,
            th == design.threads@,
            last_thread == (if th.len() >= 1 { th.len() - 1 } else { 0 }),
            i <= end_index(ps),
            end_index(ps) <= ps.len(),
            forall|j: int| 0 <= j < end_index(ps) ==> !(#[trigger] ps[j].command@ is End),
            end_index(ps) < ps.len() ==> ps[end_index(ps)].command@ is End,
            encode_prefix(ps, th, i as int).x == x as int,
            encode_prefix(ps, th, i as int).y == y as int,
            encode_prefix(ps, th, i as int).thread == thread as int,
            encode_prefix(ps, th, i as int).failed == failed,
            encode_prefix(ps, th, i as int).segs.len() >= 1,
            nonempty == (encode_prefix(ps, th, i as int).segs.last().3.len() > 0),
            thread <= last_thread,
            -0x8000_0000 <= x <= 0x8000_0000,
            -0x8000_0000 <= y <= 0x8000_0000,
            forall|j: int|
                #![trigger encode_prefix(ps, th, j)]
                0 <= j <= i && th.len() > 0 ==> color_sliceable(th[encode_prefix(ps, th, j).thread].color),
        decreases ps.len() - i,
    {
        let p = &design.points[i];
        let ghost st = encode_prefix(ps, th, i as int);
        assert(encode_prefix(ps, th, i + 1) == encode_step(st, ps[i as int], th));
        if !failed {
            let tx = p.x as i64;
            let ty = -(p.y as i64);
            let dx = tx - x;
            let dy = ty - y;
            match &p.command {
                StitchCommand::ColorChange | StitchCommand::Stop => {
                    if nonempty {
                        thread = if thread < last_thread {
                            thread + 1
                        } else {
                            last_thread
                        };
                        nonempty = false;
                        if design.threads.len() > 0 && !crate::text::color_is_sliceable(
                            &design.threads[thread].color,
                        ) {
                            assert(i + 1 <= end_index(ps));
                            return false;
                        }
                    }
                },
                StitchCommand::Jump | StitchCommand::Trim => {
                    if -32768 <= dx && dx <= 32767 && -32768 <= dy && dy <= 32767 {
                        x = tx;
                        y = ty;
                        nonempty = true;
                    } else {
                        failed = true;
                    }
                },
                StitchCommand::Stitch => {
                    x = tx;
                    y = ty;
                    nonempty = true;
                },
                _ => {},
            }
        }
        i = i + 1;
    }
    assert(i == end_index(ps));
    true
}

/// Whether `build_shv` gets as far as the preview on this design: its
/// segments come out, at most 255 of them, with a record count that fits
/// in 32 bits and extents that fit in 16 bits.
pub fn reaches_preview(design: &Design) -> (r: bool)
    requires
        encode_arith_ok(design.points@, design.threads@),
        writer_threads_sliceable(design.threads@, design.points@),
    ensures
        r == shv_reaches_preview(design.points@, design.threads@),
{
    let ghost ps = design.points@;
    let ghost th = design.threads@;
    let (segments, positions) = match build_segments(design) {
        Ok(v) => v,
        Err(_) => return false,
    };
    let ghost m = encode_design(ps, th)->Ok_0;
    if segments.len() > 255 {
        return false;
    }
    let stream = collect_stream(&segments, Ghost(m.0));
    if stream.len() / 2 > 0xffff_ffff {
        return false;
    }
    proof {
        lemma_positions_nonempty(ps, th);
    }
    extents_from_positions(&positions).is_some()
}

} // verus!

verus! {

/// A thread is written as SHV color 7 (black) exactly when its color
/// parses to `(r, g, b)` with every channel at most 32; every other thread,
/// a bright color or one that does not parse, is written as color 0. A
/// segment sewn with thread `idx` (the first thread where there is no such
/// thread) takes that thread's color index.
pub proof fn shv_color_is_black_only_for_dark_threads(color: Option<String>, th: Seq<Thread>, idx: int)
    ensures
        thread_color_index(color) == 7 || thread_color_index(color) == 0,
        (thread_color_index(color) == 7) <==> (rgb_of(color) matches Some(rgb) && rgb.0 <= 32 && rgb.1
            <= 32 && rgb.2 <= 32),
        0 <= idx < th.len() ==> segment_color(th, idx) == thread_color_index(th[idx].color),
        th.len() > 0 && !(0 <= idx < th.len()) ==> segment_color(th, idx) == thread_color_index(
            th[0].color,
        ),
        th.len() == 0 ==> segment_color(th, idx) == 7,
{
}

/// The segment being sewn always carries the color index of the thread
/// the writer is on: after any number of points, the last segment's color
/// is that thread's, and a color change that closes a non-empty segment
/// moves to the next thread and opens a segment in its color.
pub proof fn current_segment_has_current_thread_color(ps: Seq<StitchPoint>, th: Seq<Thread>, k: int)
    requires
        0 <= k,
    ensures
        encode_prefix(ps, th, k).segs.len() >= 1,
        encode_prefix(ps, th, k).segs.last().0 == segment_color(th, encode_prefix(ps, th, k).thread),
    decreases k,
{
    if k > 0 {
        current_segment_has_current_thread_color(ps, th, k - 1);
    }
}

} // verus!
