//! Reading a generated SHV file back: the header fields, the color table,
//! and a decode of the stitch stream with the extents and final position
//! it reaches.

use vstd::prelude::*;
use std::collections::BTreeMap;
use crate::shv::{Extents, Point};
use crate::stream::{
    decode_steps, extents_fit, fits_i16, max_i, min_i, path, path_end, read_be16, read_be32,
    read_i8, seq_extents, to_cart, StreamStep,
};
use crate::text::string_from_chars;

verus! {

/// Why a blob could not be read as a generated SHV file.
#[derive(Debug, Clone, Copy, PartialEq, Eq, Structural)]
pub enum ShvParseError {
    /// Shorter than the notice and the name length byte.
    TooSmall,
    /// The name or the preview header runs past the end.
    HeaderTruncated,
    /// The summary block runs past the end.
    SummaryTruncated,
    /// The color table runs past the end.
    ColorTableTruncated,
    /// The stitch stream is not a whole number of two-byte records.
    OddStitchStream,
    /// A decoded position lies outside the signed 16-bit range.
    CoordinateOutOfRange,
}

/// The end of the name: it starts at 0x57, after its length byte at 0x56.
pub open spec fn name_end(b: Seq<u8>) -> int {
    0x57 + b[0x56]
}

pub open spec fn preview_offset(b: Seq<u8>) -> int {
    name_end(b) + 6
}

/// Height rows of `ceil(width / 2)` bytes.
pub open spec fn preview_len(b: Seq<u8>) -> int {
    b[name_end(b)] * ((b[name_end(b) + 1] + 1) / 2)
}

pub open spec fn summary_offset(b: Seq<u8>) -> int {
    preview_offset(b) + preview_len(b)
}

pub open spec fn color_count(b: Seq<u8>) -> int {
    b[summary_offset(b)] as int
}

pub open spec fn rows_offset(b: Seq<u8>) -> int {
    summary_offset(b) + 19
}

pub open spec fn stitch_offset(b: Seq<u8>) -> int {
    rows_offset(b) + 14 * color_count(b)
}

pub open spec fn stitch_stream(b: Seq<u8>) -> Seq<u8> {
    b.skip(stitch_offset(b))
}

pub open spec fn stream_steps(b: Seq<u8>) -> Seq<StreamStep> {
    decode_steps(stitch_stream(b))
}

/// The moves of decoded steps.
pub open spec fn step_deltas(steps: Seq<StreamStep>) -> Seq<(int, int)> {
    steps.map_values(|st: StreamStep| (st.1, st.2))
}

/// The raw positions after each decoded step.
pub open spec fn step_path(steps: Seq<StreamStep>) -> Seq<(int, int)> {
    path(step_deltas(steps))
}

/// The Cartesian position after each decoded step.
pub open spec fn event_positions(b: Seq<u8>) -> Seq<(int, int)> {
    to_cart(step_path(stream_steps(b)))
}

/// The raw position at the end of the stream.
pub open spec fn final_raw(b: Seq<u8>) -> (int, int) {
    path_end(step_path(stream_steps(b)))
}

/// The summary extents (right, top, left, bottom).
pub open spec fn summary_ext(b: Seq<u8>) -> (int, int, int, int) {
    let s = summary_offset(b);
    (
        read_be16(b[s + 7], b[s + 8]),
        read_be16(b[s + 9], b[s + 10]),
        read_be16(b[s + 11], b[s + 12]),
        read_be16(b[s + 13], b[s + 14]),
    )
}

/// The summary's total record count.
pub open spec fn summary_total(b: Seq<u8>) -> int {
    let s = summary_offset(b);
    read_be32(b[s + 15], b[s + 16], b[s + 17], b[s + 18])
}

/// What stops a blob from being read, checked in the reader's order.
pub open spec fn shv_parse_error(b: Seq<u8>) -> Option<ShvParseError> {
    if b.len() < 0x57 {
        Some(ShvParseError::TooSmall)
    } else if name_end(b) + 6 > b.len() {
        Some(ShvParseError::HeaderTruncated)
    } else if summary_offset(b) + 19 > b.len() {
        Some(ShvParseError::SummaryTruncated)
    } else if stitch_offset(b) > b.len() {
        Some(ShvParseError::ColorTableTruncated)
    } else if stitch_stream(b).len() % 2 != 0 {
        Some(ShvParseError::OddStitchStream)
    } else if stream_steps(b).len() > 0 && !extents_fit(seq_extents(event_positions(b))) {
        Some(ShvParseError::CoordinateOutOfRange)
    } else if !fits_i16(final_raw(b).0) || !fits_i16(-final_raw(b).1) {
        Some(ShvParseError::CoordinateOutOfRange)
    } else {
        None
    }
}

/// How often escape byte `e` starts a command: jump groups count as `0x01`.
pub open spec fn escape_count(steps: Seq<StreamStep>, e: u8) -> nat
    decreases steps.len(),
{
    if steps.len() == 0 {
        0
    } else {
        escape_count(steps.drop_last(), e) + if steps.last().0 != 0 && steps.last().3 == e {
            1nat
        } else {
            0nat
        }
    }
}

/// The escape bytes that occur, with their counts.
pub open spec fn escape_counts(steps: Seq<StreamStep>) -> Map<u8, usize> {
    Map::new(|e: u8| escape_count(steps, e) > 0, |e: u8| escape_count(steps, e) as usize)
}

pub open spec fn hex_char(v: int) -> char {
    if v < 10 {
        (48 + v) as char
    } else {
        (87 + v) as char
    }
}

pub open spec fn byte_hex(x: u8) -> Seq<char> {
    seq![hex_char((x / 16) as int), hex_char((x % 16) as int)]
}

/// Bytes as two lowercase hex digits each, separated by spaces.
pub open spec fn hex_text(bytes: Seq<u8>) -> Seq<char>
    decreases bytes.len(),
{
    if bytes.len() == 0 {
        Seq::empty()
    } else if bytes.len() == 1 {
        byte_hex(bytes[0])
    } else {
        hex_text(bytes.drop_last()) + seq![' '] + byte_hex(bytes.last())
    }
}

pub open spec fn all_ascii(b: Seq<u8>) -> bool {
    forall|i: int| 0 <= i < b.len() ==> #[trigger] b[i] < 0x80
}

pub open spec fn ascii_chars(b: Seq<u8>) -> Seq<char> {
    b.map_values(|x: u8| x as char)
}

/// What `String::from_utf8_lossy` makes of some bytes.
pub uninterp spec fn utf8_lossy(bytes: Seq<u8>) -> Seq<char>;

/// `String::from_utf8_lossy`, made owned. Its result is named; the one fact
/// stated beside the name is std's documented behaviour on valid UTF-8,
/// here ASCII: the characters come back unchanged.
#[verifier::external_body]
pub(crate) fn string_from_utf8_lossy(bytes: &[u8]) -> (s: String)
    ensures
        s@ == utf8_lossy(bytes@),
        all_ascii(bytes@) ==> s@ == ascii_chars(bytes@),
{
    String::from_utf8_lossy(bytes).into_owned()
}

} // verus!

verus! {

/// One 14-byte row of the color table.
#[derive(Debug, Clone)]
pub struct ShvColorRowReport {
    pub records: u32,
    pub color_index: u8,
    pub start_x_raw: i16,
    pub start_y_raw: i16,
    pub raw_hex: String,
}

impl ShvColorRowReport {
    /// The row read from the 14 bytes at `off`.
    pub open spec fn reads(&self, b: Seq<u8>, off: int) -> bool {
        &&& self.records as int == read_be32(b[off], b[off + 1], b[off + 2], b[off + 3])
        &&& self.color_index == b[off + 4]
        &&& self.start_x_raw as int == read_be16(b[off + 10], b[off + 11])
        &&& self.start_y_raw as int == read_be16(b[off + 12], b[off + 13])
        &&& self.raw_hex@ == hex_text(b.subrange(off, off + 14))
    }
}

/// What the reader found in a generated SHV file.
#[derive(Debug, Clone)]
pub struct ShvReadbackReport {
    pub name: String,
    pub preview_width: u8,
    pub preview_height: u8,
    pub summary_offset: usize,
    pub color_count: u8,
    pub summary_extents: Extents,
    pub total_records: u32,
    pub color_rows: Vec<ShvColorRowReport>,
    pub stitch_offset: usize,
    pub stitch_bytes: usize,
    pub record_count_from_bytes: usize,
    pub parsed_event_count: usize,
    /// Escape records by their second byte (`80 xx`); a jump group counts once, as `0x01`.
    pub command_counts: BTreeMap<u8, usize>,
    pub computed_extents: Option<Extents>,
    pub final_position: Point,
    pub preview_offset: usize,
    pub preview_length: usize,
}

impl ShvReadbackReport {
    /// The report is what the blob holds.
    pub open spec fn reads(&self, b: Seq<u8>) -> bool {
        &&& self.name@ == utf8_lossy(b.subrange(0x57, name_end(b)))
        &&& all_ascii(b.subrange(0x57, name_end(b))) ==> self.name@ == ascii_chars(
            b.subrange(0x57, name_end(b)),
        )
        &&& self.preview_height == b[name_end(b)]
        &&& self.preview_width == b[name_end(b) + 1]
        &&& self.preview_offset == preview_offset(b)
        &&& self.preview_length == preview_len(b)
        &&& self.summary_offset == summary_offset(b)
        &&& self.color_count == b[summary_offset(b)]
        &&& self.summary_extents.as_tuple() == summary_ext(b)
        &&& self.total_records == summary_total(b)
        &&& self.color_rows@.len() == color_count(b)
        &&& forall|k: int|
            0 <= k < self.color_rows@.len() ==> (#[trigger] self.color_rows@[k]).reads(
                b,
                rows_offset(b) + 14 * k,
            )
        &&& self.stitch_offset == stitch_offset(b)
        &&& self.stitch_bytes == stitch_stream(b).len()
        &&& self.record_count_from_bytes == stitch_stream(b).len() / 2
        &&& self.parsed_event_count == stream_steps(b).len()
        &&& self.command_counts@ == escape_counts(stream_steps(b))
        &&& stream_steps(b).len() == 0 ==> self.computed_extents is None
        &&& stream_steps(b).len() > 0 ==> (self.computed_extents matches Some(e) && e.as_tuple()
            == seq_extents(event_positions(b)))
        &&& self.final_position.x == final_raw(b).0
        &&& self.final_position.y == -final_raw(b).1
    }
}

} // verus!

verus! {

/// Whether `u8` keys obey the ordering laws that `BTreeMap`'s contracts assume.
pub open spec fn byte_keys_ordered() -> bool {
    vstd::laws_cmp::obeys_cmp::<u8>()
}

proof fn lemma_byte_keys()
    ensures
        byte_keys_ordered(),
{
    broadcast use vstd::laws_cmp::group_laws_cmp;

}

proof fn lemma_step_path_push(d: Seq<StreamStep>, st: StreamStep)
    ensures
        step_path(d.push(st)) == step_path(d).push(
            (path_end(step_path(d)).0 + st.1, path_end(step_path(d)).1 + st.2),
        ),
        step_path(d).len() == d.len(),
{
    let m = step_deltas(d.push(st));
    assert(m.drop_last() =~= step_deltas(d));
    assert(m.last() == (st.1, st.2));
    lemma_path_len(step_deltas(d));
}

pub proof fn lemma_path_len(d: Seq<(int, int)>)
    ensures
        path(d).len() == d.len(),
    decreases d.len(),
{
    if d.len() > 0 {
        lemma_path_len(d.drop_last());
    }
}

proof fn lemma_escape_push(d: Seq<StreamStep>, st: StreamStep, e: u8)
    ensures
        escape_count(d.push(st), e) == escape_count(d, e) + if st.0 != 0 && st.3 == e {
            1nat
        } else {
            0nat
        },
{
    assert(d.push(st).drop_last() =~= d);
}

proof fn lemma_escape_le(d: Seq<StreamStep>, e: u8)
    ensures
        escape_count(d, e) <= d.len(),
    decreases d.len(),
{
    if d.len() > 0 {
        lemma_escape_le(d.drop_last(), e);
    }
}

/// `seq_extents` bounds every position of a non-empty list.
pub proof fn lemma_extents_bound(p: Seq<(int, int)>)
    requires
        p.len() >= 1,
    ensures
        forall|k: int|
            0 <= k < p.len() ==> {
                let e = seq_extents(p);
                &&& e.2 <= (#[trigger] p[k]).0 <= e.0
                &&& e.3 <= p[k].1 <= e.1
            },
    decreases p.len(),
{
    if p.len() > 1 {
        lemma_extents_bound(p.drop_last());
        assert forall|k: int| 0 <= k < p.len() - 1 implies #[trigger] p[k] == p.drop_last()[k] by {}
    }
}

/// A byte read back as a signed value.
fn i8_value(b: u8) -> (r: i128)
    ensures
        r == read_i8(b),
{
    if b >= 128 {
        b as i128 - 256
    } else {
        b as i128
    }
}

fn be16_value(hi: u8, lo: u8) -> (r: i128)
    ensures
        r == read_be16(hi, lo),
        -32768 <= r <= 32767,
{
    let u = hi as i128 * 256 + lo as i128;
    if u >= 32768 {
        u - 65536
    } else {
        u
    }
}

/// What a pass over the stitch stream collects.
struct StreamScan {
    /// Cartesian position and needle-down flag after each step.
    points: Vec<(i128, i128, bool)>,
    counts: BTreeMap<u8, usize>,
    /// Running (right, top, left, bottom) of the Cartesian positions.
    ext: Option<(i128, i128, i128, i128)>,
    /// Raw position at the end.
    x: i128,
    y: i128,
}

pub open spec fn points_match(points: Seq<(i128, i128, bool)>, steps: Seq<StreamStep>) -> bool {
    &&& points.len() == steps.len()
    &&& forall|k: int|
        0 <= k < points.len() ==> ((#[trigger] points[k]).0 as int, points[k].1 as int) == to_cart(
            step_path(steps),
        )[k] && points[k].2 == (steps[k].0 == 0)
}

pub open spec fn ext_matches(ext: Option<(i128, i128, i128, i128)>, steps: Seq<StreamStep>) -> bool {
    &&& steps.len() == 0 ==> ext is None
    &&& steps.len() > 0 ==> (ext matches Some(e) && (e.0 as int, e.1 as int, e.2 as int, e.3 as int)
        == seq_extents(to_cart(step_path(steps))))
}

/// Decodes the stitch stream as the reader does.
fn scan_stream(s: &Vec<u8>) -> (r: StreamScan)
    ensures
        points_match(r.points@, decode_steps(s@)),
        r.counts@ == escape_counts(decode_steps(s@)),
        (r.x as int, r.y as int) == path_end(step_path(decode_steps(s@))),
        ext_matches(r.ext, decode_steps(s@)),
{
    proof {
        lemma_byte_keys();
    }
    let n = s.len();
    let mut i: usize = 0;
    let ghost mut done: Seq<StreamStep> = Seq::empty();
    let mut points: Vec<(i128, i128, bool)> = Vec::new();
    let mut counts: BTreeMap<u8, usize> = BTreeMap::new();
    let mut ext: Option<(i128, i128, i128, i128)> = None;
    let mut x: i128 = 0;
    let mut y: i128 = 0;
    proof {
        assert(done + decode_steps(s@.skip(0)) =~= decode_steps(s@)) by {
            assert(s@.skip(0) =~= s@);
        }
        assert(escape_counts(done) =~= counts@);
        assert(step_deltas(done) =~= Seq::<(int, int)>::empty());
    }
    while n - i >= 2
        invariant
            n == s@.len(),
            i <= n,
            byte_keys_ordered(),
            decode_steps(s@) == done + decode_steps(s@.skip(i as int)),
            done.len() <= i,
            points_match(points@, done),
            counts@ == escape_counts(done),
            (x as int, y as int) == path_end(step_path(done)),
            -32768 * i <= x <= 32768 * i,
            -32768 * i <= y <= 32768 * i,
            ext_matches(ext, done),
        decreases n - i,
    {
        let ghost t = s@.skip(i as int);
        let a = s[i];
        let b = s[i + 1];
        let dx: i128;
        let dy: i128;
        let adv: usize;
        let esc: Option<u8>;
        let down: bool;
        if a == 0x80 {
            if b == 0x01 && n - i >= 8 && s[i + 6] == 0x80 && s[i + 7] == 0x02 {
                dx = be16_value(s[i + 2], s[i + 3]);
                dy = be16_value(s[i + 4], s[i + 5]);
                adv = 8;
            } else {
                dx = 0;
                dy = 0;
                adv = 2;
            }
            esc = Some(b);
            down = false;
        } else {
            dx = i8_value(a);
            dy = i8_value(b);
            adv = 2;
            esc = None;
            down = true;
        }
        let ghost st: StreamStep = if a == 0x80 {
            (if adv == 8 {
                1int
            } else {
                2int
            }, dx as int, dy as int, b)
        } else {
            (0int, dx as int, dy as int, 0u8)
        };
        proof {
            assert(t[0] == a && t[1] == b);
            assert(t.skip(adv as int) =~= s@.skip(i + adv));
            if adv == 8 {
                assert(t[2] == s[i + 2] && t[3] == s[i + 3] && t[4] == s[i + 4] && t[5] == s[i + 5]);
                assert(t[6] == s[i + 6] && t[7] == s[i + 7]);
            } else if a == 0x80 {
                if b == 0x01 && t.len() >= 8 {
                    assert(t[6] == s[i + 6] && t[7] == s[i + 7]);
                }
            }
            assert(decode_steps(t) == seq![st] + decode_steps(s@.skip(i + adv)));
            assert(done.push(st) + decode_steps(s@.skip(i + adv)) =~= done + decode_steps(t));
            lemma_step_path_push(done, st);
            lemma_escape_le(done, b);
        }
        match esc {
            Some(e) => {
                let c: usize = match counts.get(&e) {
                    Some(v) => *v,
                    None => 0,
                };
                assert(c == escape_count(done, e));
                counts.insert(e, c + 1);
                proof {
                    assert forall|k: u8| #[trigger] escape_count(done.push(st), k) == escape_count(
                        done,
                        k,
                    ) + if k == e {
                        1nat
                    } else {
                        0nat
                    } by {
                        lemma_escape_push(done, st, k);
                    }
                    assert(counts@ =~= escape_counts(done.push(st)));
                }
            },
            None => {
                proof {
                    assert forall|k: u8| #[trigger] escape_count(done.push(st), k) == escape_count(
                        done,
                        k,
                    ) by {
                        lemma_escape_push(done, st, k);
                    }
                    assert(counts@ =~= escape_counts(done.push(st)));
                }
            },
        }
        x = x + dx;
        y = y + dy;
        let cx = x;
        let cy = -y;
        let ghost cart_old = to_cart(step_path(done));
        ext = match ext {
            None => Some((cx, cy, cx, cy)),
            Some((r, tp, l, bm)) => Some(
                (
                    if cx > r {
                        cx
                    } else {
                        r
                    },
                    if cy > tp {
                        cy
                    } else {
                        tp
                    },
                    if cx < l {
                        cx
                    } else {
                        l
                    },
                    if cy < bm {
                        cy
                    } else {
                        bm
                    },
                ),
            ),
        };
        points.push((cx, cy, down));
        proof {
            let cart_new = to_cart(step_path(done.push(st)));
            assert(cart_new =~= cart_old.push((cx as int, cy as int)));
            if done.len() > 0 {
                assert(cart_new.drop_last() =~= cart_old);
            } else {
                assert(cart_new.len() == 1);
            }
            done = done.push(st);
        }
        i = i + adv;
    }
    proof {
        assert(s@.skip(i as int).len() < 2);
        assert(decode_steps(s@.skip(i as int)) == Seq::<StreamStep>::empty());
        assert(done + Seq::<StreamStep>::empty() =~= done);
    }
    StreamScan { points, counts, ext, x, y }
}

} // verus!

verus! {

pub(crate) fn hex_digit_char(v: u8) -> (c: char)
    requires
        v < 16,
    ensures
        c == hex_char(v as int),
{
    if v < 10 {
        (48 + v) as char
    } else {
        (87 + v) as char
    }
}

/// Bytes as two lowercase hex digits each, separated by spaces.
pub fn hex_bytes(bytes: &[u8]) -> (r: String)
    ensures
        r@ == hex_text(bytes@),
{
    let mut chars: Vec<char> = Vec::new();
    for i in 0..bytes.len()
        invariant
            chars@ == hex_text(bytes@.take(i as int)),
    {
        let v = bytes[i];
        proof {
            assert(bytes@.take(i + 1).drop_last() =~= bytes@.take(i as int));
            assert(bytes@.take(i + 1).last() == v);
            if i == 0 {
                assert(bytes@.take(1) =~= seq![v]);
            }
        }
        if i > 0 {
            chars.push(' ');
        }
        chars.push(hex_digit_char(v / 16));
        chars.push(hex_digit_char(v % 16));
        proof {
            if i == 0 {
                assert(chars@ =~= byte_hex(v));
            } else {
                assert(chars@ =~= hex_text(bytes@.take(i as int)) + seq![' '] + byte_hex(v));
            }
        }
    }
    assert(bytes@.take(bytes@.len() as int) =~= bytes@);
    string_from_chars(&chars)
}

/// The bytes `blob[start..end]`.
fn copy_range(blob: &[u8], start: usize, end: usize) -> (r: Vec<u8>)
    requires
        start <= end <= blob@.len(),
    ensures
        r@ == blob@.subrange(start as int, end as int),
{
    let mut out: Vec<u8> = Vec::new();
    for i in start..end
        invariant
            start <= end <= blob@.len(),
            out@ == blob@.subrange(start as int, i as int),
    {
        out.push(blob[i]);
        assert(blob@.subrange(start as int, i + 1) =~= blob@.subrange(start as int, i as int).push(
            blob@[i as int],
        ));
    }
    out
}

fn i16_at(blob: &[u8], off: usize) -> (r: i16)
    requires
        off + 2 <= blob@.len(),
    ensures
        r as int == read_be16(blob@[off as int], blob@[off + 1]),
{
    be16_value(blob[off], blob[off + 1]) as i16
}

fn u32_at(blob: &[u8], off: usize) -> (r: u32)
    requires
        off + 4 <= blob@.len(),
    ensures
        r as int == read_be32(blob@[off as int], blob@[off + 1], blob@[off + 2], blob@[off + 3]),
{
    blob[off] as u32 * 0x100_0000 + blob[off + 1] as u32 * 0x1_0000 + blob[off + 2] as u32 * 256
        + blob[off + 3] as u32
}

fn read_color_row(blob: &[u8], off: usize) -> (r: ShvColorRowReport)
    requires
        off + 14 <= blob@.len(),
    ensures
        r.reads(blob@, off as int),
{
    let n = blob.len();
    assert(off + 14 <= n);
    let raw = copy_range(blob, off, off + 14);
    ShvColorRowReport {
        records: u32_at(blob, off),
        color_index: blob[off + 4],
        start_x_raw: i16_at(blob, off + 10),
        start_y_raw: i16_at(blob, off + 12),
        raw_hex: hex_bytes(raw.as_slice()),
    }
}

fn fits_i16_exec(v: i128) -> (r: bool)
    ensures
        r == fits_i16(v as int),
{
    -32768 <= v && v <= 32767
}

/// Reads a generated SHV file: header fields, color table, and a decode
/// of the stitch stream (two-byte records; `80 01 dx dy 80 02` jump groups).
pub fn parse_generated_shv(blob: &[u8]) -> (r: Result<ShvReadbackReport, ShvParseError>)
    ensures
        match shv_parse_error(blob@) {
            Some(e) => r == Err::<ShvReadbackReport, ShvParseError>(e),
            None => r matches Ok(rep) && rep.reads(blob@),
        },
{
    let ghost b = blob@;
    let len = blob.len();
    if len < 0x57 {
        return Err(ShvParseError::TooSmall);
    }
    let name_len = blob[0x56] as usize;
    let name_end = 0x57 + name_len;
    if name_end + 6 > len {
        return Err(ShvParseError::HeaderTruncated);
    }
    let name_bytes = copy_range(blob, 0x57, name_end);
    let name = string_from_utf8_lossy(name_bytes.as_slice());
    let preview_height = blob[name_end];
    let preview_width = blob[name_end + 1];
    let stride = (preview_width as usize + 1) / 2;
    assert(stride <= 128);
    assert(preview_height as usize * stride <= 255 * 128) by (nonlinear_arith)
        requires
            stride <= 128,
            preview_height <= 255,
    ;
    let preview_length = preview_height as usize * stride;
    let preview_offset = name_end + 6;
    let summary_offset = preview_offset + preview_length;
    if summary_offset + 19 > len {
        return Err(ShvParseError::SummaryTruncated);
    }
    let color_count = blob[summary_offset];
    let summary_extents = Extents {
        right: i16_at(blob, summary_offset + 7),
        top: i16_at(blob, summary_offset + 9),
        left: i16_at(blob, summary_offset + 11),
        bottom: i16_at(blob, summary_offset + 13),
    };
    let total_records = u32_at(blob, summary_offset + 15);
    let rows_start = summary_offset + 19;
    let stitch_offset = rows_start + 14 * color_count as usize;
    if stitch_offset > len {
        return Err(ShvParseError::ColorTableTruncated);
    }
    let mut color_rows: Vec<ShvColorRowReport> = Vec::new();
    for k in 0..color_count as usize
        invariant
            b == blob@,
            len == b.len(),
            rows_start + 14 * color_count <= b.len(),
            rows_start == rows_offset(b),
            color_rows@.len() == k,
            forall|j: int|
                0 <= j < k ==> (#[trigger] color_rows@[j]).reads(b, rows_offset(b) + 14 * j),
    {
        color_rows.push(read_color_row(blob, rows_start + 14 * k));
    }
    let stream = copy_range(blob, stitch_offset, len);
    assert(stream@ =~= stitch_stream(b));
    if stream.len() % 2 != 0 {
        return Err(ShvParseError::OddStitchStream);
    }
    let scan = scan_stream(&stream);
    let computed_extents = match scan.ext {
        None => None,
        Some((r, t, l, bm)) => {
            if !(fits_i16_exec(r) && fits_i16_exec(t) && fits_i16_exec(l) && fits_i16_exec(bm)) {
                return Err(ShvParseError::CoordinateOutOfRange);
            }
            Some(Extents { right: r as i16, top: t as i16, left: l as i16, bottom: bm as i16 })
        },
    };
    let fy = -scan.y;
    if !fits_i16_exec(scan.x) || !fits_i16_exec(fy) {
        return Err(ShvParseError::CoordinateOutOfRange);
    }
    let final_position = Point { x: scan.x as i16, y: fy as i16 };
    let record_count_from_bytes = stream.len() / 2;
    Ok(
        ShvReadbackReport {
            name,
            preview_width,
            preview_height,
            summary_offset,
            color_count,
            summary_extents,
            total_records,
            color_rows,
            stitch_offset,
            stitch_bytes: stream.len(),
            record_count_from_bytes,
            parsed_event_count: scan.points.len(),
            command_counts: scan.counts,
            computed_extents,
            final_position,
            preview_offset,
            preview_length,
        },
    )
}

} // verus!

verus! {

/// Why a blob is not a consistent generated SHV file.
#[derive(Debug, Clone, Copy)]
pub enum ShvCheckError {
    /// The blob could not be read.
    Parse(ShvParseError),
    /// The summary's record count differs from the stream's.
    RecordCountMismatch { summary: u32, bytes: usize },
    /// The summary's extents differ from those of the decoded positions.
    ExtentMismatch { summary: Extents, computed: Option<Extents> },
    /// The stream does not end at the origin.
    FinalPositionNotOrigin(Point),
}

/// The summary extents are those of the decoded positions (of which there is one at least).
pub open spec fn shv_extents_agree(b: Seq<u8>) -> bool {
    stream_steps(b).len() > 0 && summary_ext(b) == seq_extents(event_positions(b))
}

/// A generated SHV file is consistent: it reads, its summary counts the
/// stream's records and bounds its positions, and the stream ends at the origin.
pub open spec fn shv_valid(b: Seq<u8>) -> bool {
    &&& shv_parse_error(b) is None
    &&& summary_total(b) == stitch_stream(b).len() / 2
    &&& shv_extents_agree(b)
    &&& final_raw(b) == (0int, 0int)
}

/// Reads a generated SHV file and checks it for consistency.
pub fn validate_generated_shv(blob: &[u8]) -> (r: Result<ShvReadbackReport, ShvCheckError>)
    ensures
        r is Ok <==> shv_valid(blob@),
        r matches Ok(rep) ==> rep.reads(blob@),
        r matches Err(ShvCheckError::Parse(e)) ==> shv_parse_error(blob@) == Some(e),
        shv_parse_error(blob@) matches Some(e) ==> r matches Err(ShvCheckError::Parse(e2)) && e2 == e,
        r matches Err(ShvCheckError::RecordCountMismatch { summary, bytes }) ==> {
            &&& shv_parse_error(blob@) is None
            &&& summary == summary_total(blob@)
            &&& bytes == stitch_stream(blob@).len() / 2
            &&& summary != bytes
        },
        r matches Err(ShvCheckError::ExtentMismatch { summary, computed }) ==> {
            &&& shv_parse_error(blob@) is None
            &&& summary_total(blob@) == stitch_stream(blob@).len() / 2
            &&& !shv_extents_agree(blob@)
            &&& summary.as_tuple() == summary_ext(blob@)
            &&& (stream_steps(blob@).len() == 0 <==> computed is None)
            &&& (computed matches Some(c) ==> c.as_tuple() == seq_extents(event_positions(blob@)))
        },
        r matches Err(ShvCheckError::FinalPositionNotOrigin(p)) ==> {
            &&& shv_parse_error(blob@) is None
            &&& summary_total(blob@) == stitch_stream(blob@).len() / 2
            &&& shv_extents_agree(blob@)
            &&& p.x == final_raw(blob@).0
            &&& p.y == -final_raw(blob@).1
            &&& final_raw(blob@) != (0int, 0int)
        },
{
    let report = match parse_generated_shv(blob) {
        Ok(rep) => rep,
        Err(e) => return Err(ShvCheckError::Parse(e)),
    };
    if report.total_records as usize != report.record_count_from_bytes {
        return Err(
            ShvCheckError::RecordCountMismatch {
                summary: report.total_records,
                bytes: report.record_count_from_bytes,
            },
        );
    }
    let agree = match report.computed_extents {
        Some(c) => c == report.summary_extents,
        None => false,
    };
    if !agree {
        return Err(
            ShvCheckError::ExtentMismatch {
                summary: report.summary_extents,
                computed: report.computed_extents,
            },
        );
    }
    if report.final_position.x != 0 || report.final_position.y != 0 {
        return Err(ShvCheckError::FinalPositionNotOrigin(report.final_position));
    }
    Ok(report)
}

/// The decoded needle positions of a generated SHV file, in Cartesian
/// units, each with `true` for a needle-down stitch and `false` for a jump
/// or command position.
pub fn stitch_points_from_shv(blob: &[u8]) -> (r: Result<Vec<(i32, i32, bool)>, ShvParseError>)
    ensures
        match shv_parse_error(blob@) {
            Some(e) => r == Err::<Vec<(i32, i32, bool)>, ShvParseError>(e),
            None => r matches Ok(v) && v@.len() == stream_steps(blob@).len() && forall|k: int|
                0 <= k < v@.len() ==> ((#[trigger] v@[k]).0 as int, v@[k].1 as int) == event_positions(
                    blob@,
                )[k] && v@[k].2 == (stream_steps(blob@)[k].0 == 0),
        },
{
    let report = match parse_generated_shv(blob) {
        Ok(rep) => rep,
        Err(e) => return Err(e),
    };
    let ghost b = blob@;
    let stream = copy_range(blob, report.stitch_offset, blob.len());
    assert(stream@ =~= stitch_stream(b));
    let scan = scan_stream(&stream);
    let ghost pos = event_positions(b);
    proof {
        if pos.len() > 0 {
            lemma_extents_bound(pos);
        }
    }
    let mut out: Vec<(i32, i32, bool)> = Vec::new();
    for k in 0..scan.points.len()
        invariant
            b == blob@,
            pos == event_positions(b),
            stream@ == stitch_stream(b),
            points_match(scan.points@, stream_steps(b)),
            shv_parse_error(b) is None,
            pos.len() > 0 ==> extents_fit(seq_extents(pos)),
            forall|j: int|
                0 <= j < pos.len() ==> {
                    let e = seq_extents(pos);
                    &&& e.2 <= (#[trigger] pos[j]).0 <= e.0
                    &&& e.3 <= pos[j].1 <= e.1
                },
            out@.len() == k,
            forall|j: int|
                0 <= j < k ==> ((#[trigger] out@[j]).0 as int, out@[j].1 as int) == pos[j]
                    && out@[j].2 == (stream_steps(b)[j].0 == 0),
    {
        let (x, y, down) = scan.points[k];
        proof {
            lemma_path_len(step_deltas(stream_steps(b)));
            assert(pos.len() == stream_steps(b).len());
            assert(pos[k as int] == (x as int, y as int));
        }
        out.push((x as i32, y as i32, down));
    }
    Ok(out)
}

} // verus!
