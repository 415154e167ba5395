//! The SHV stitch stream: two-byte records holding signed 8-bit stitch
//! deltas, and escaped jump groups `80 01 [dx i16 BE] [dy i16 BE] 80 02`.

use vstd::prelude::*;
use vstd::arithmetic::div_mod::{lemma_div_is_ordered, lemma_fundamental_div_mod, lemma_mod_bound};

verus! {

pub open spec fn abs_int(v: int) -> int {
    if v < 0 {
        -v
    } else {
        v
    }
}

/// `x / n` rounded to the nearest integer, halves away from zero (`f64::round`).
pub open spec fn round_div(q: int, n: int) -> int {
    if q >= 0 {
        (2 * q + n) / (2 * n)
    } else {
        -((-2 * q + n) / (2 * n))
    }
}

/// The number of pieces a stitch delta is split into: `ceil(max(|dx|, |dy|) / 127)`,
/// at least one.
pub open spec fn split_count(dx: int, dy: int) -> int {
    let m = if abs_int(dx) >= abs_int(dy) {
        abs_int(dx)
    } else {
        abs_int(dy)
    };
    if m == 0 {
        1
    } else {
        (m + 126) / 127
    }
}

/// The `n` pieces of a stitch delta: piece `k` moves from the rounded
/// `k/n` point of the delta to the rounded `(k+1)/n` point. The points are
/// the exact fractions rounded to the nearest integer (halves away from
/// zero); a computation in `f64` rounds the quotient first and can land on
/// the other side of a half for deltas near the `i32` limits.
pub open spec fn split_pieces(dx: int, dy: int) -> Seq<(int, int)> {
    let n = split_count(dx, dy);
    Seq::new(
        n as nat,
        |k: int|
            (
                round_div(dx * (k + 1), n) - round_div(dx * k, n),
                round_div(dy * (k + 1), n) - round_div(dy * k, n),
            ),
    )
}

/// A delta fits a normal stitch record: `-127..=127` (`-128` is the escape byte).
pub open spec fn legal_stitch_delta(v: int) -> bool {
    -127 <= v <= 127
}

proof fn lemma_floor_step(a: int, c: int, b: int)
    requires
        a >= 0,
        b > 0,
        0 <= c <= 127 * b,
    ensures
        0 <= (a + c) / b - a / b <= 127,
{
    lemma_fundamental_div_mod(a, b);
    lemma_fundamental_div_mod(a + c, b);
    lemma_mod_bound(a, b);
    lemma_mod_bound(a + c, b);
    let q1 = a / b;
    let q2 = (a + c) / b;
    let r1 = a % b;
    let r2 = (a + c) % b;
    assert(b * (q2 - q1) == c + r1 - r2) by (nonlinear_arith)
        requires
            a == b * q1 + r1,
            a + c == b * q2 + r2,
    ;
    assert(q2 - q1 < 128) by (nonlinear_arith)
        requires
            b * (q2 - q1) == c + r1 - r2,
            c <= 127 * b,
            0 <= r1 < b,
            0 <= r2,
            b > 0,
    ;
    assert(q2 - q1 > -1) by (nonlinear_arith)
        requires
            b * (q2 - q1) == c + r1 - r2,
            c >= 0,
            r1 >= 0,
            r2 < b,
            b > 0,
    ;
}

proof fn lemma_count_pos(dx: int, dy: int)
    ensures
        split_count(dx, dy) >= 1,
        abs_int(dx) <= 127 * split_count(dx, dy),
        abs_int(dy) <= 127 * split_count(dx, dy),
{
    let m = if abs_int(dx) >= abs_int(dy) {
        abs_int(dx)
    } else {
        abs_int(dy)
    };
    if m > 0 {
        lemma_fundamental_div_mod(m + 126, 127);
        lemma_mod_bound(m + 126, 127);
    }
}

/// The rounded `k/n` point of `d` lies between 0 and `d`, and the step to
/// the next point is a legal stitch delta with the sign of `d`.
proof fn lemma_round_step(d: int, n: int, k: int)
    requires
        n >= 1,
        0 <= k < n,
        abs_int(d) <= 127 * n,
    ensures
        d >= 0 ==> 0 <= round_div(d * (k + 1), n) - round_div(d * k, n) <= 127,
        d < 0 ==> -127 <= round_div(d * (k + 1), n) - round_div(d * k, n) <= 0,
{
    let e = abs_int(d);
    assert(e * (k + 1) == e * k + e) by (nonlinear_arith);
    assert(e * k >= 0) by (nonlinear_arith)
        requires
            e >= 0,
            k >= 0,
    ;
    lemma_floor_step(2 * e * k + n, 2 * e, 2 * n);
    if d >= 0 {
        assert(d * (k + 1) == e * (k + 1));
        assert(d * k == e * k);
        assert(2 * (d * (k + 1)) + n == (2 * e * k + n) + 2 * e) by (nonlinear_arith)
            requires
                d * (k + 1) == e * k + e,
                d * k == e * k,
        ;
        assert(2 * (d * k) + n == 2 * e * k + n) by (nonlinear_arith)
            requires
                d * k == e * k,
        ;
    } else {
        assert(d * (k + 1) == -(e * (k + 1))) by (nonlinear_arith)
            requires
                e == -d,
        ;
        assert(d * k == -(e * k)) by (nonlinear_arith)
            requires
                e == -d,
        ;
        assert(-2 * (d * (k + 1)) + n == (2 * e * k + n) + 2 * e) by (nonlinear_arith)
            requires
                d * (k + 1) == -(e * (k + 1)),
                e * (k + 1) == e * k + e,
        ;
        if k == 0 {
            assert(d * k == 0);
            assert(e * k == 0);
            lemma_half_div(n);
            assert(2 * e * k == 0) by (nonlinear_arith)
                requires
                    k == 0,
            ;
        } else {
            assert(e * k > 0) by (nonlinear_arith)
                requires
                    e > 0,
                    k > 0,
            ;
            assert(-2 * (d * k) + n == 2 * e * k + n) by (nonlinear_arith)
                requires
                    d * k == -(e * k),
            ;
        }
        assert(d * (k + 1) < 0) by (nonlinear_arith)
            requires
                d < 0,
                k >= 0,
        ;
    }
}

proof fn lemma_half_div(n: int)
    requires
        n >= 1,
    ensures
        n / (2 * n) == 0,
{
    lemma_fundamental_div_mod(n, 2 * n);
    lemma_mod_bound(n, 2 * n);
    assert(0 <= n / (2 * n) < 1) by (nonlinear_arith)
        requires
            n == (2 * n) * (n / (2 * n)) + n % (2 * n),
            0 <= n % (2 * n) < 2 * n,
            n >= 1,
    ;
}

proof fn lemma_round_ends(d: int, n: int)
    requires
        n >= 1,
    ensures
        round_div(d * 0, n) == 0,
        round_div(d * n, n) == d,
{
    assert(d * 0 == 0);
    lemma_half_div(n);
    let e = abs_int(d);
    let q = (2 * e * n + n) / (2 * n);
    lemma_fundamental_div_mod(2 * e * n + n, 2 * n);
    lemma_mod_bound(2 * e * n + n, 2 * n);
    assert(q == e) by (nonlinear_arith)
        requires
            2 * e * n + n == (2 * n) * q + (2 * e * n + n) % (2 * n),
            0 <= (2 * e * n + n) % (2 * n) < 2 * n,
            n >= 1,
            e >= 0,
    ;
    if d >= 0 {
        assert(2 * (d * n) + n == 2 * e * n + n) by (nonlinear_arith)
            requires
                e == d,
        ;
    } else {
        assert(-2 * (d * n) + n == 2 * e * n + n) by (nonlinear_arith)
            requires
                e == -d,
        ;
        assert(d * n < 0) by (nonlinear_arith)
            requires
                d < 0,
                n >= 1,
        ;
    }
}

/// The rounded `k/n` point of `d` lies between 0 and `d`.
pub proof fn lemma_round_between(d: int, n: int, k: int)
    requires
        n >= 1,
        0 <= k <= n,
    ensures
        d >= 0 ==> 0 <= round_div(d * k, n) <= d,
        d < 0 ==> d <= round_div(d * k, n) <= 0,
{
    let e = abs_int(d);
    assert(0 <= e * k <= e * n) by (nonlinear_arith)
        requires
            e >= 0,
            0 <= k <= n,
    ;
    assert(0 <= 2 * e * k <= 2 * e * n) by (nonlinear_arith)
        requires
            e >= 0,
            0 <= k <= n,
    ;
    lemma_div_is_ordered(0, 2 * e * k + n, 2 * n);
    lemma_div_is_ordered(2 * e * k + n, 2 * e * n + n, 2 * n);
    lemma_round_ends(e, n);
    assert(2 * (e * n) + n == 2 * e * n + n) by (nonlinear_arith);
    assert(2 * (e * k) + n == 2 * e * k + n) by (nonlinear_arith);
    assert(0int / (2 * n) == 0);
    if d >= 0 {
        assert(d * k == e * k);
    } else {
        assert(d * k == -(e * k)) by (nonlinear_arith)
            requires
                e == -d,
        ;
        if k > 0 {
            assert(e * k > 0) by (nonlinear_arith)
                requires
                    e > 0,
                    k > 0,
            ;
        } else {
            assert(d * k == 0);
        }
    }
}

/// Splitting a stitch delta: every piece is a legal stitch delta, the
/// pieces add up to the delta, and the running sum after `k` pieces is the
/// rounded `k/n` point of the delta.
pub proof fn split_pieces_are_legal_and_exact(dx: int, dy: int)
    ensures
        split_pieces(dx, dy).len() >= 1,
        forall|k: int|
            0 <= k < split_pieces(dx, dy).len() ==> legal_stitch_delta(
                #[trigger] split_pieces(dx, dy)[k].0,
            ) && legal_stitch_delta(split_pieces(dx, dy)[k].1),
        round_div(dx * split_count(dx, dy), split_count(dx, dy)) == dx,
        round_div(dy * split_count(dx, dy), split_count(dx, dy)) == dy,
        round_div(dx * 0, split_count(dx, dy)) == 0,
        round_div(dy * 0, split_count(dx, dy)) == 0,
{
    let n = split_count(dx, dy);
    lemma_count_pos(dx, dy);
    lemma_round_ends(dx, n);
    lemma_round_ends(dy, n);
    assert forall|k: int| 0 <= k < split_pieces(dx, dy).len() implies legal_stitch_delta(
        #[trigger] split_pieces(dx, dy)[k].0,
    ) && legal_stitch_delta(split_pieces(dx, dy)[k].1) by {
        lemma_round_step(dx, n, k);
        lemma_round_step(dy, n, k);
    }
}

/// The sum of some stitch pieces.
pub open spec fn pieces_sum(s: Seq<(int, int)>) -> (int, int)
    decreases s.len(),
{
    if s.len() == 0 {
        (0, 0)
    } else {
        let prev = pieces_sum(s.drop_last());
        (prev.0 + s.last().0, prev.1 + s.last().1)
    }
}

proof fn lemma_pieces_prefix_sum(dx: int, dy: int, k: int)
    requires
        0 <= k <= split_count(dx, dy),
    ensures
        pieces_sum(split_pieces(dx, dy).take(k)) == (
            round_div(dx * k, split_count(dx, dy)) - round_div(dx * 0, split_count(dx, dy)),
            round_div(dy * k, split_count(dx, dy)) - round_div(dy * 0, split_count(dx, dy)),
        ),
    decreases k,
{
    let s = split_pieces(dx, dy);
    if k > 0 {
        lemma_pieces_prefix_sum(dx, dy, k - 1);
        assert(s.take(k).drop_last() == s.take(k - 1));
        assert(s.take(k).last() == s[k - 1]);
    } else {
        assert(s.take(0).len() == 0);
    }
}

proof fn lemma_legal_sum_bound(s: Seq<(int, int)>)
    requires
        forall|k: int|
            0 <= k < s.len() ==> legal_stitch_delta(#[trigger] s[k].0) && legal_stitch_delta(s[k].1),
    ensures
        abs_int(pieces_sum(s).0) <= 127 * s.len(),
        abs_int(pieces_sum(s).1) <= 127 * s.len(),
    decreases s.len(),
{
    if s.len() > 0 {
        let dl = s.drop_last();
        assert forall|k: int| 0 <= k < dl.len() implies legal_stitch_delta(#[trigger] dl[k].0)
            && legal_stitch_delta(dl[k].1) by {
            assert(dl[k] == s[k]);
        }
        lemma_legal_sum_bound(dl);
        assert(legal_stitch_delta(s[s.len() - 1].0) && legal_stitch_delta(s[s.len() - 1].1));
    }
}

/// A long stitch splits into pieces that add up to the stitch, and into
/// as few as any split into legal stitch deltas can have: a sequence of
/// legal deltas that adds up to a non-zero stitch has at least
/// `split_count` of them. (A zero stitch still gives one piece, `(0, 0)`.)
pub proof fn split_pieces_add_up_and_are_fewest(dx: int, dy: int, other: Seq<(int, int)>)
    requires
        forall|k: int|
            0 <= k < other.len() ==> legal_stitch_delta(#[trigger] other[k].0) && legal_stitch_delta(
                other[k].1,
            ),
        pieces_sum(other) == (dx, dy),
        dx != 0 || dy != 0,
    ensures
        pieces_sum(split_pieces(dx, dy)) == (dx, dy),
        split_pieces(dx, dy).len() <= other.len(),
{
    let n = split_count(dx, dy);
    split_pieces_are_legal_and_exact(dx, dy);
    lemma_pieces_prefix_sum(dx, dy, n);
    assert(split_pieces(dx, dy).take(n) == split_pieces(dx, dy));
    lemma_legal_sum_bound(other);
    let m = if abs_int(dx) >= abs_int(dy) {
        abs_int(dx)
    } else {
        abs_int(dy)
    };
    let len = other.len() as int;
    assert(m <= 127 * len);
    assert(m > 0);
    assert((m + 126) / 127 <= len) by (nonlinear_arith)
        requires
            0 < m <= 127 * len,
    ;
}

} // verus!

verus! {

fn round_div_exec(q: i64, n: i64) -> (r: i64)
    requires
        1 <= n <= 0x1_0000_0000,
        -0x100_0000_0000_0000 <= q <= 0x100_0000_0000_0000,
        n <= 0x200_0000,
    ensures
        r == round_div(q as int, n as int),
{
    if q >= 0 {
        (2 * q + n) / (2 * n)
    } else {
        proof {
            lemma_div_is_ordered(0, -2 * q + n, 2 * n);
            lemma_div_is_ordered(-2 * q + n, 0x300_0000_0000_0000, 2 * n);
            assert(0x300_0000_0000_0000int / (2 * n) <= 0x300_0000_0000_0000) by {
                lemma_div_is_ordered_by_den(0x300_0000_0000_0000, 2 * n);
            }
        }
        -((-2 * q + n) / (2 * n))
    }
}

proof fn lemma_div_is_ordered_by_den(x: int, d: int)
    requires
        x >= 0,
        d >= 1,
    ensures
        x / d <= x,
{
    lemma_fundamental_div_mod(x, d);
    lemma_mod_bound(x, d);
    assert(x / d <= x) by (nonlinear_arith)
        requires
            x == d * (x / d) + x % d,
            0 <= x % d,
            d >= 1,
            x >= 0,
    ;
}

/// Splits a stitch delta into legal signed-byte stitch deltas: the
/// smallest piece count `n` that can be legal, piece `k` running from the
/// rounded `k/n` point to the rounded `(k+1)/n` point of the delta.
/// Rounded exactly, every piece at that count is legal
/// (`split_pieces_are_legal_and_exact`), so no larger count is ever
/// tried; halves are rounded exactly, where `f64` arithmetic may land a
/// hair to either side of them.
pub fn split_stitch_delta(dx: i32, dy: i32) -> (r: Vec<(i32, i32)>)
    requires
        dx != i32::MIN,
        dy != i32::MIN,
    ensures
        r@.len() == split_pieces(dx as int, dy as int).len(),
        forall|k: int|
            0 <= k < r@.len() ==> (#[trigger] r@[k].0 as int, r@[k].1 as int) == split_pieces(
                dx as int,
                dy as int,
            )[k],
{
    let adx: i64 = if dx < 0 {
        -(dx as i64)
    } else {
        dx as i64
    };
    let ady: i64 = if dy < 0 {
        -(dy as i64)
    } else {
        dy as i64
    };
    let m: i64 = if adx >= ady {
        adx
    } else {
        ady
    };
    let n: i64 = if m == 0 {
        1
    } else {
        (m + 126) / 127
    };
    let ghost gn = split_count(dx as int, dy as int);
    assert(n == gn);
    proof {
        split_pieces_are_legal_and_exact(dx as int, dy as int);
        lemma_count_pos(dx as int, dy as int);
        lemma_div_is_ordered(m + 126, 0x8000_0000int + 126, 127);
        assert((0x8000_0000int + 126) / 127 <= 0x200_0000);
    }
    let mut pieces: Vec<(i32, i32)> = Vec::new();
    let mut px: i64 = 0;
    let mut py: i64 = 0;
    let mut i: i64 = 0;
    while i < n
        invariant
            n == gn,
            gn == split_count(dx as int, dy as int),
            1 <= n <= 0x200_0000,
            0 <= i <= n,
            px == round_div(dx * i, n as int),
            py == round_div(dy * i, n as int),
            pieces@.len() == i,
            forall|k: int|
                0 <= k < i ==> (#[trigger] pieces@[k].0 as int, pieces@[k].1 as int)
                    == split_pieces(dx as int, dy as int)[k],
        decreases n - i,
    {
        assert(-0x8000_0000i64 * 0x200_0000 <= (dx as i64) * (i + 1) <= 0x8000_0000i64 * 0x200_0000)
            by (nonlinear_arith)
            requires
                i32::MIN <= dx <= i32::MAX,
                0 <= i + 1 <= 0x200_0000,
        ;
        assert(-0x8000_0000i64 * 0x200_0000 <= (dy as i64) * (i + 1) <= 0x8000_0000i64 * 0x200_0000)
            by (nonlinear_arith)
            requires
                i32::MIN <= dy <= i32::MAX,
                0 <= i + 1 <= 0x200_0000,
        ;
        let tx = round_div_exec((dx as i64) * (i + 1), n);
        let ty = round_div_exec((dy as i64) * (i + 1), n);
        assert(split_pieces(dx as int, dy as int)[i as int] == (
            round_div(dx * (i + 1), n as int) - round_div(dx * i, n as int),
            round_div(dy * (i + 1), n as int) - round_div(dy * i, n as int),
        ));
        assert(split_pieces(dx as int, dy as int)[i as int] == (tx - px, ty - py));
        proof {
            split_pieces_are_legal_and_exact(dx as int, dy as int);
        }
        assert(legal_stitch_delta(split_pieces(dx as int, dy as int)[i as int].0));
        assert(legal_stitch_delta(split_pieces(dx as int, dy as int)[i as int].1));
        pieces.push(((tx - px) as i32, (ty - py) as i32));
        px = tx;
        py = ty;
        i = i + 1;
    }
    pieces
}

} // verus!

verus! {

/// A stitch stream event before encoding: `(is_jump, dx, dy)` in raw
/// (+Y down) units.
pub type StreamItem = (bool, int, int);

/// The byte of a signed 8-bit delta (`v as i8 as u8`).
pub open spec fn s8(v: int) -> u8 {
    if v >= 0 {
        v as u8
    } else {
        (v + 256) as u8
    }
}

/// A signed value in `-32768..=32767` as two big-endian bytes.
pub open spec fn be16(v: int) -> Seq<u8> {
    let u = if v >= 0 {
        v
    } else {
        v + 65536
    };
    seq![(u / 256) as u8, (u % 256) as u8]
}

/// An unsigned 32-bit value as four big-endian bytes.
pub open spec fn be32(v: int) -> Seq<u8> {
    seq![
        (v / 0x100_0000) as u8,
        ((v / 0x1_0000) % 256) as u8,
        ((v / 256) % 256) as u8,
        (v % 256) as u8,
    ]
}

/// A byte read as a signed 8-bit value (`b as i8`).
pub open spec fn read_i8(b: u8) -> int {
    if b >= 128 {
        b - 256
    } else {
        b as int
    }
}

/// Two big-endian bytes read as a signed 16-bit value.
pub open spec fn read_be16(hi: u8, lo: u8) -> int {
    let u = hi * 256 + lo;
    if u >= 32768 {
        u - 65536
    } else {
        u
    }
}

/// Four big-endian bytes read as an unsigned 32-bit value.
pub open spec fn read_be32(b0: u8, b1: u8, b2: u8, b3: u8) -> int {
    b0 * 0x100_0000 + b1 * 0x1_0000 + b2 * 256 + b3
}

pub open spec fn fits_i16(v: int) -> bool {
    -32768 <= v <= 32767
}

/// The records of one stream item: a stitch pair, or a four-record jump group.
pub open spec fn item_bytes(it: StreamItem) -> Seq<u8> {
    if it.0 {
        seq![0x80u8, 0x01u8] + be16(it.1) + be16(it.2) + seq![0x80u8, 0x02u8]
    } else {
        seq![s8(it.1), s8(it.2)]
    }
}

/// The records of a sequence of stream items.
pub open spec fn items_bytes(items: Seq<StreamItem>) -> Seq<u8>
    decreases items.len(),
{
    if items.len() == 0 {
        Seq::empty()
    } else {
        items_bytes(items.drop_last()) + item_bytes(items.last())
    }
}

/// An item that the stream can hold: a legal stitch delta, or a jump whose
/// deltas fit in 16 bits.
pub open spec fn item_ok(it: StreamItem) -> bool {
    if it.0 {
        fits_i16(it.1) && fits_i16(it.2)
    } else {
        legal_stitch_delta(it.1) && legal_stitch_delta(it.2)
    }
}

/// The number of two-byte records an item takes.
pub open spec fn item_records(it: StreamItem) -> int {
    if it.0 {
        4
    } else {
        1
    }
}

/// One decoded stream step: `(kind, dx, dy, escape)` with kind 0 a stitch
/// record, 1 a jump group, 2 an escape record that starts no jump group;
/// `escape` is the second byte of an escape record.
pub type StreamStep = (int, int, int, u8);

/// How the reader decodes a stream of two-byte records.
pub open spec fn decode_steps(s: Seq<u8>) -> Seq<StreamStep>
    decreases s.len(),
{
    if s.len() < 2 {
        Seq::empty()
    } else if s[0] == 0x80 {
        if s[1] == 0x01 && s.len() >= 8 && s[6] == 0x80 && s[7] == 0x02 {
            seq![(1int, read_be16(s[2], s[3]), read_be16(s[4], s[5]), 0x01u8)] + decode_steps(
                s.skip(8),
            )
        } else {
            seq![(2int, 0int, 0int, s[1])] + decode_steps(s.skip(2))
        }
    } else {
        seq![(0int, read_i8(s[0]), read_i8(s[1]), 0u8)] + decode_steps(s.skip(2))
    }
}

/// The decoded step that an item becomes.
pub open spec fn item_step(it: StreamItem) -> StreamStep {
    if it.0 {
        (1int, it.1, it.2, 0x01u8)
    } else {
        (0int, it.1, it.2, 0u8)
    }
}

/// The running raw positions after each delta, starting from the origin.
pub open spec fn path(d: Seq<(int, int)>) -> Seq<(int, int)>
    decreases d.len(),
{
    if d.len() == 0 {
        Seq::empty()
    } else {
        let p = path(d.drop_last());
        let e = path_end(p);
        p.push((e.0 + d.last().0, e.1 + d.last().1))
    }
}

/// The last position of a path, or the origin.
pub open spec fn path_end(p: Seq<(int, int)>) -> (int, int) {
    if p.len() == 0 {
        (0, 0)
    } else {
        p.last()
    }
}

pub open spec fn item_delta(it: StreamItem) -> (int, int) {
    (it.1, it.2)
}

pub open spec fn step_delta(st: StreamStep) -> (int, int) {
    (st.1, st.2)
}

/// Raw (+Y down) positions as Cartesian (+Y up) positions.
pub open spec fn to_cart(p: Seq<(int, int)>) -> Seq<(int, int)> {
    p.map_values(|q: (int, int)| (q.0, -q.1))
}

proof fn lemma_s8_read(v: int)
    requires
        legal_stitch_delta(v),
    ensures
        read_i8(s8(v)) == v,
        s8(v) != 0x80,
{
}

pub proof fn lemma_be16_read(v: int)
    requires
        fits_i16(v),
    ensures
        read_be16(be16(v)[0], be16(v)[1]) == v,
{
    let u = if v >= 0 {
        v
    } else {
        v + 65536
    };
    lemma_fundamental_div_mod(u, 256);
    lemma_mod_bound(u, 256);
    assert(0 <= u / 256 < 256) by {
        lemma_div_is_ordered(u, 65535, 256);
        lemma_div_is_ordered(0, u, 256);
    }
}

pub proof fn lemma_be32_read(v: int)
    requires
        0 <= v <= u32::MAX,
    ensures
        read_be32(be32(v)[0], be32(v)[1], be32(v)[2], be32(v)[3]) == v,
{
    let a = v / 0x100_0000;
    let b = v / 0x1_0000;
    let c = v / 256;
    lemma_fundamental_div_mod(v, 0x100_0000);
    lemma_fundamental_div_mod(v, 0x1_0000);
    lemma_fundamental_div_mod(v, 256);
    lemma_mod_bound(v, 0x100_0000);
    lemma_mod_bound(v, 0x1_0000);
    lemma_mod_bound(v, 256);
    lemma_fundamental_div_mod(b, 256);
    lemma_mod_bound(b, 256);
    lemma_fundamental_div_mod(c, 256);
    lemma_mod_bound(c, 256);
    lemma_div_is_ordered(v, u32::MAX as int, 0x100_0000);
    lemma_div_is_ordered(0, v, 0x100_0000);
    lemma_div_is_ordered(0, v, 0x1_0000);
    lemma_div_is_ordered(0, v, 256);
    assert(a == b / 256) by {
        vstd::arithmetic::div_mod::lemma_div_denominator(v, 0x1_0000, 256);
    }
    assert(b == c / 256) by {
        vstd::arithmetic::div_mod::lemma_div_denominator(v, 256, 256);
    }
}

pub proof fn lemma_items_bytes_append(a: Seq<StreamItem>, b: Seq<StreamItem>)
    ensures
        items_bytes(a + b) == items_bytes(a) + items_bytes(b),
    decreases b.len(),
{
    if b.len() == 0 {
        assert(a + b == a);
    } else {
        lemma_items_bytes_append(a, b.drop_last());
        assert((a + b).drop_last() == a + b.drop_last());
    }
}

proof fn lemma_items_bytes_front(items: Seq<StreamItem>)
    requires
        items.len() > 0,
    ensures
        items_bytes(items) == item_bytes(items[0]) + items_bytes(items.drop_first()),
{
    lemma_items_bytes_append(seq![items[0]], items.drop_first());
    assert(seq![items[0]] + items.drop_first() == items);
    assert(seq![items[0]].drop_last() == Seq::<StreamItem>::empty());
    assert(items_bytes(Seq::<StreamItem>::empty()) == Seq::<u8>::empty());
    assert(items_bytes(seq![items[0]]) == Seq::<u8>::empty() + item_bytes(items[0]));
    assert(Seq::<u8>::empty() + item_bytes(items[0]) == item_bytes(items[0]));
}

/// Reading back the records of well-formed items gives one step per item.
pub proof fn lemma_decode_items(items: Seq<StreamItem>)
    requires
        forall|i: int| 0 <= i < items.len() ==> item_ok(#[trigger] items[i]),
    ensures
        decode_steps(items_bytes(items)) == items.map_values(|it: StreamItem| item_step(it)),
    decreases items.len(),
{
    if items.len() == 0 {
        assert(items_bytes(items) == Seq::<u8>::empty());
        assert(items.map_values(|it: StreamItem| item_step(it)) =~= Seq::<StreamStep>::empty());
    } else {
        let it = items[0];
        let rest = items.drop_first();
        assert forall|i: int| 0 <= i < rest.len() implies item_ok(#[trigger] rest[i]) by {
            assert(rest[i] == items[i + 1]);
        }
        lemma_decode_items(rest);
        lemma_items_bytes_front(items);
        let s = items_bytes(items);
        let hb = item_bytes(it);
        assert(item_ok(items[0]));
        if it.0 {
            lemma_be16_read(it.1);
            lemma_be16_read(it.2);
            assert(hb.len() == 8);
            assert(s.skip(8) == items_bytes(rest));
            assert(s[0] == 0x80 && s[1] == 0x01 && s[6] == 0x80 && s[7] == 0x02);
            assert(s[2] == be16(it.1)[0] && s[3] == be16(it.1)[1]);
            assert(s[4] == be16(it.2)[0] && s[5] == be16(it.2)[1]);
        } else {
            lemma_s8_read(it.1);
            lemma_s8_read(it.2);
            assert(hb.len() == 2);
            assert(s.skip(2) == items_bytes(rest));
        }
        assert(items.map_values(|it: StreamItem| item_step(it)) =~= seq![item_step(it)]
            + rest.map_values(|it: StreamItem| item_step(it)));
    }
}

} // verus!

verus! {

/// Appends a normal stitch record.
pub fn push_stitch_pair(records: &mut Vec<u8>, dx: i32, dy: i32)
    requires
        legal_stitch_delta(dx as int),
        legal_stitch_delta(dy as int),
    ensures
        final(records)@ == old(records)@ + item_bytes((false, dx as int, dy as int)),
{
    let bx: u8 = if dx >= 0 {
        dx as u8
    } else {
        (dx + 256) as u8
    };
    let by: u8 = if dy >= 0 {
        dy as u8
    } else {
        (dy + 256) as u8
    };
    records.push(bx);
    records.push(by);
    assert(final(records)@ == old(records)@ + item_bytes((false, dx as int, dy as int)));
}

/// Appends a signed 16-bit value, big-endian.
pub fn push_i16be(out: &mut Vec<u8>, v: i32)
    requires
        fits_i16(v as int),
    ensures
        final(out)@ == old(out)@ + be16(v as int),
{
    let u: i32 = if v >= 0 {
        v
    } else {
        v + 65536
    };
    out.push((u / 256) as u8);
    out.push((u % 256) as u8);
    assert(final(out)@ == old(out)@ + be16(v as int));
}

/// Appends an unsigned 32-bit value, big-endian.
pub fn push_u32be(out: &mut Vec<u8>, v: u32)
    ensures
        final(out)@ == old(out)@ + be32(v as int),
{
    out.push((v / 0x100_0000) as u8);
    out.push(((v / 0x1_0000) % 256) as u8);
    out.push(((v / 256) % 256) as u8);
    out.push((v % 256) as u8);
    assert(final(out)@ == old(out)@ + be32(v as int));
}

/// Appends a jump group, or fails when a delta does not fit in 16 bits.
pub fn push_jump16(records: &mut Vec<u8>, dx: i32, dy: i32) -> (r: bool)
    ensures
        r == (fits_i16(dx as int) && fits_i16(dy as int)),
        r ==> final(records)@ == old(records)@ + item_bytes((true, dx as int, dy as int)),
        !r ==> final(records)@ == old(records)@,
{
    if dx < -32768 || dx > 32767 || dy < -32768 || dy > 32767 {
        return false;
    }
    records.push(0x80);
    records.push(0x01);
    push_i16be(records, dx);
    push_i16be(records, dy);
    records.push(0x80);
    records.push(0x02);
    assert(final(records)@ == old(records)@ + item_bytes((true, dx as int, dy as int)));
    true
}

} // verus!

verus! {

pub proof fn lemma_items_bytes_len(items: Seq<StreamItem>)
    ensures
        items_bytes(items).len() >= 2 * items.len(),
        items_bytes(items).len() % 2 == 0,
    decreases items.len(),
{
    if items.len() > 0 {
        lemma_items_bytes_len(items.drop_last());
    }
}

pub proof fn lemma_items_bytes_push(items: Seq<StreamItem>, it: StreamItem)
    ensures
        items_bytes(items.push(it)) == items_bytes(items) + item_bytes(it),
{
    assert(items.push(it).drop_last() == items);
}

} // verus!

verus! {

pub open spec fn max_i(a: int, b: int) -> int {
    if a >= b {
        a
    } else {
        b
    }
}

pub open spec fn min_i(a: int, b: int) -> int {
    if a <= b {
        a
    } else {
        b
    }
}

/// (right, top, left, bottom): the largest x, largest y, smallest x and
/// smallest y of a non-empty list of positions.
pub open spec fn seq_extents(p: Seq<(int, int)>) -> (int, int, int, int)
    decreases p.len(),
{
    if p.len() == 0 {
        (0, 0, 0, 0)
    } else if p.len() == 1 {
        (p[0].0, p[0].1, p[0].0, p[0].1)
    } else {
        let e = seq_extents(p.drop_last());
        let q = p.last();
        (max_i(e.0, q.0), max_i(e.1, q.1), min_i(e.2, q.0), min_i(e.3, q.1))
    }
}

pub open spec fn extents_fit(e: (int, int, int, int)) -> bool {
    fits_i16(e.0) && fits_i16(e.1) && fits_i16(e.2) && fits_i16(e.3)
}

} // verus!

verus! {

/// Appends all bytes of `src`.
pub fn extend_bytes(out: &mut Vec<u8>, src: &Vec<u8>)
    ensures
        final(out)@ == old(out)@ + src@,
{
    for i in 0..src.len()
        invariant
            out@ == old(out)@ + src@.take(i as int),
    {
        out.push(src[i]);
        assert(src@.take(i + 1) == src@.take(i as int).push(src@[i as int]));
    }
    assert(src@.take(src@.len() as int) == src@);
}

} // verus!
