//! What the SHV writer's output gives back when it is read: the writer's
//! needle path, record count and extents.

use vstd::prelude::*;
use crate::model::{CommandModel, SignatureMode, StitchPoint, Thread};
use crate::preview::{auto_dims, auto_preview, preview_extent};
use crate::readback::{
    all_ascii, ascii_chars, ShvReadbackReport,
    color_count, event_positions, final_raw, name_end, preview_len, rows_offset,
    shv_extents_agree, shv_parse_error, shv_valid, step_deltas, step_path, stitch_offset,
    stitch_stream, stream_steps, summary_ext, summary_offset, summary_total,
};
use crate::shv::{
    encode_design, encode_prefix, encode_step, end_index, lemma_end_from, next_thread,
    nonempty_segs,
    notice_bytes, piece_items, piece_positions, preview_header, return_home, seg_row, seg_rows,
    seg_stream, segment_color, shv_file, shv_head, shv_layout, shv_name, summary_constants, name_char,
    with_last_items, EncodeState, SegModel,
};
use crate::stream::{
    be16, be32, decode_steps, extents_fit, fits_i16, item_ok, item_step, items_bytes,
    lemma_be16_read, lemma_be32_read, lemma_decode_items, lemma_items_bytes_append,
    lemma_items_bytes_len, max_i, min_i, path, path_end, read_be16, read_be32, round_div,
    seq_extents, split_count, split_pieces, split_pieces_are_legal_and_exact, to_cart,
    StreamItem, StreamStep,
};

verus! {

/// The stream items of all segments, in order.
pub open spec fn all_items(segs: Seq<SegModel>) -> Seq<StreamItem>
    decreases segs.len(),
{
    if segs.len() == 0 {
        Seq::empty()
    } else {
        all_items(segs.drop_last()) + segs.last().3
    }
}

/// The moves of stream items.
pub open spec fn item_deltas(items: Seq<StreamItem>) -> Seq<(int, int)> {
    items.map_values(|it: StreamItem| (it.1, it.2))
}

/// The writer's state follows its items: the recorded positions are the
/// origin and then the Cartesian path of the items, the needle stands at
/// the path's end, and every item fits the stream.
pub open spec fn tracks_path(st: EncodeState) -> bool {
    let items = all_items(st.segs);
    let d = item_deltas(items);
    &&& st.segs.len() >= 1
    &&& st.positions == seq![(0int, 0int)] + to_cart(path(d))
    &&& (st.x, st.y) == path_end(path(d))
    &&& forall|i: int| 0 <= i < items.len() ==> item_ok(#[trigger] items[i])
}

proof fn lemma_all_items_with_last(segs: Seq<SegModel>, items: Seq<StreamItem>)
    requires
        segs.len() >= 1,
    ensures
        all_items(with_last_items(segs, items)) == all_items(segs) + items,
{
    let w = with_last_items(segs, items);
    assert(w.drop_last() =~= segs.drop_last());
    assert(all_items(segs.drop_last()) + (segs.last().3 + items) =~= all_items(segs) + items);
}

proof fn lemma_all_items_push(segs: Seq<SegModel>, seg: SegModel)
    ensures
        all_items(segs.push(seg)) == all_items(segs) + seg.3,
{
    assert(segs.push(seg).drop_last() =~= segs);
}

proof fn lemma_path_push(d: Seq<(int, int)>, q: (int, int))
    ensures
        path(d.push(q)) == path(d).push(
            (path_end(path(d)).0 + q.0, path_end(path(d)).1 + q.1),
        ),
{
    assert(d.push(q).drop_last() =~= d);
}

proof fn lemma_path_len(d: Seq<(int, int)>)
    ensures
        path(d).len() == d.len(),
    decreases d.len(),
{
    if d.len() > 0 {
        lemma_path_len(d.drop_last());
    }
}

proof fn lemma_item_deltas_append(a: Seq<StreamItem>, b: Seq<StreamItem>)
    ensures
        item_deltas(a + b) == item_deltas(a) + item_deltas(b),
{
    assert(item_deltas(a + b) =~= item_deltas(a) + item_deltas(b));
}

/// The path through the pieces of a stitch delta, from the path's end
/// `(x, y)`: the rounded `k/n` points.
proof fn lemma_path_pieces(d: Seq<(int, int)>, dx: int, dy: int, j: int)
    requires
        0 <= j <= split_count(dx, dy),
    ensures
        ({
            let n = split_count(dx, dy);
            let e = path_end(path(d));
            let p = split_pieces(dx, dy).take(j);
            &&& path(d + p) == path(d) + Seq::new(
                j as nat,
                |k: int| (e.0 + round_div(dx * (k + 1), n), e.1 + round_div(dy * (k + 1), n)),
            )
            &&& path_end(path(d + p)) == (e.0 + round_div(dx * j, n), e.1 + round_div(dy * j, n))
        }),
    decreases j,
{
    let n = split_count(dx, dy);
    let e = path_end(path(d));
    split_pieces_are_legal_and_exact(dx, dy);
    if j == 0 {
        assert(split_pieces(dx, dy).take(0) =~= Seq::<(int, int)>::empty());
        assert(d + split_pieces(dx, dy).take(0) =~= d);
        assert(path(d) + Seq::new(
            0,
            |k: int| (e.0 + round_div(dx * (k + 1), n), e.1 + round_div(dy * (k + 1), n)),
        ) =~= path(d));
        assert(dx * 0 == 0 && dy * 0 == 0);
    } else {
        lemma_path_pieces(d, dx, dy, j - 1);
        let p0 = split_pieces(dx, dy).take(j - 1);
        let p1 = split_pieces(dx, dy).take(j);
        let q = split_pieces(dx, dy)[j - 1];
        assert(d + p1 =~= (d + p0).push(q));
        lemma_path_push(d + p0, q);
        lemma_path_len(d);
        lemma_path_len(d + p0);
        assert(path(d) + Seq::new(
            j as nat,
            |k: int| (e.0 + round_div(dx * (k + 1), n), e.1 + round_div(dy * (k + 1), n)),
        ) =~= (path(d) + Seq::new(
            (j - 1) as nat,
            |k: int| (e.0 + round_div(dx * (k + 1), n), e.1 + round_div(dy * (k + 1), n)),
        )).push((e.0 + round_div(dx * j, n), e.1 + round_div(dy * j, n))));
    }
}

proof fn lemma_to_cart_append(a: Seq<(int, int)>, b: Seq<(int, int)>)
    ensures
        to_cart(a + b) == to_cart(a) + to_cart(b),
{
    assert(to_cart(a + b) =~= to_cart(a) + to_cart(b));
}

/// A stitch step keeps the writer's state on its path.
proof fn lemma_stitch_step(st: EncodeState, dx: int, dy: int)
    requires
        tracks_path(st),
    ensures
        ({
            let items = all_items(st.segs) + piece_items(dx, dy);
            let d = item_deltas(items);
            &&& st.positions + piece_positions(st.x, st.y, dx, dy) == seq![(0int, 0int)]
                + to_cart(path(d))
            &&& (st.x + dx, st.y + dy) == path_end(path(d))
            &&& forall|i: int| 0 <= i < items.len() ==> item_ok(#[trigger] items[i])
        }),
{
    let n = split_count(dx, dy);
    let old_items = all_items(st.segs);
    let d0 = item_deltas(old_items);
    let pi = piece_items(dx, dy);
    split_pieces_are_legal_and_exact(dx, dy);
    assert(item_deltas(pi) =~= split_pieces(dx, dy));
    assert(split_pieces(dx, dy).take(n) =~= split_pieces(dx, dy));
    lemma_path_pieces(d0, dx, dy, n);
    lemma_item_deltas_append(old_items, pi);
    let tail = Seq::new(
        n as nat,
        |k: int| (st.x + round_div(dx * (k + 1), n), st.y + round_div(dy * (k + 1), n)),
    );
    lemma_to_cart_append(path(d0), tail);
    assert(to_cart(tail) =~= piece_positions(st.x, st.y, dx, dy));
    assert(st.positions + piece_positions(st.x, st.y, dx, dy) =~= seq![(0int, 0int)] + to_cart(
        path(d0 + split_pieces(dx, dy)),
    ));
    let items = old_items + pi;
    assert forall|i: int| 0 <= i < items.len() implies item_ok(#[trigger] items[i]) by {
        if i >= old_items.len() {
            assert(items[i] == pi[i - old_items.len()]);
        }
    }
}

/// A jump step keeps the writer's state on its path.
proof fn lemma_jump_step(st: EncodeState, dx: int, dy: int)
    requires
        tracks_path(st),
        fits_i16(dx),
        fits_i16(dy),
    ensures
        ({
            let items = all_items(st.segs) + seq![(true, dx, dy)];
            let d = item_deltas(items);
            &&& st.positions.push((st.x + dx, -(st.y + dy))) == seq![(0int, 0int)] + to_cart(path(d))
            &&& (st.x + dx, st.y + dy) == path_end(path(d))
            &&& forall|i: int| 0 <= i < items.len() ==> item_ok(#[trigger] items[i])
        }),
{
    let old_items = all_items(st.segs);
    let d0 = item_deltas(old_items);
    let items = old_items + seq![(true, dx, dy)];
    assert(item_deltas(items) =~= d0.push((dx, dy)));
    lemma_path_push(d0, (dx, dy));
    assert(to_cart(path(d0).push((st.x + dx, st.y + dy))) =~= to_cart(path(d0)).push(
        (st.x + dx, -(st.y + dy)),
    ));
    assert(st.positions.push((st.x + dx, -(st.y + dy))) =~= seq![(0int, 0int)] + to_cart(
        path(d0).push((st.x + dx, st.y + dy)),
    ));
    assert forall|i: int| 0 <= i < items.len() implies item_ok(#[trigger] items[i]) by {
        if i < old_items.len() {
            assert(items[i] == old_items[i]);
        }
    }
}

proof fn lemma_encode_step(st: EncodeState, p: StitchPoint, th: Seq<Thread>)
    requires
        tracks_path(st),
        !encode_step(st, p, th).failed,
    ensures
        tracks_path(encode_step(st, p, th)),
{
    let st2 = encode_step(st, p, th);
    let tx = p.x as int;
    let ty = -(p.y as int);
    let dx = tx - st.x;
    let dy = ty - st.y;
    match p.command@ {
        CommandModel::ColorChange | CommandModel::Stop => {
            if st.segs.last().3.len() > 0 {
                let t = next_thread(th, st.thread);
                lemma_all_items_push(st.segs, (segment_color(th, t), st.x, st.y, Seq::empty()));
                assert(all_items(st.segs) + Seq::<StreamItem>::empty() =~= all_items(st.segs));
            }
        },
        CommandModel::Jump | CommandModel::Trim => {
            lemma_all_items_with_last(st.segs, seq![(true, dx, dy)]);
            lemma_jump_step(st, dx, dy);
        },
        CommandModel::Stitch => {
            lemma_all_items_with_last(st.segs, piece_items(dx, dy));
            lemma_stitch_step(st, dx, dy);
        },
        _ => {},
    }
}

/// Every state the writer reaches without failing follows its path.
pub proof fn lemma_prefix_tracks(ps: Seq<StitchPoint>, th: Seq<Thread>, k: int)
    requires
        0 <= k <= ps.len(),
        !encode_prefix(ps, th, k).failed,
    ensures
        tracks_path(encode_prefix(ps, th, k)),
    decreases k,
{
    if k == 0 {
        let st = encode_prefix(ps, th, 0);
        let segs = st.segs;
        assert(segs.len() == 1);
        assert(segs.drop_last() =~= Seq::<SegModel>::empty());
        assert(all_items(segs.drop_last()) == Seq::<StreamItem>::empty());
        assert(segs.last().3 == Seq::<StreamItem>::empty());
        assert(all_items(segs) =~= Seq::<StreamItem>::empty());
        assert(item_deltas(all_items(segs)) =~= Seq::<(int, int)>::empty());
        assert(st.positions =~= seq![(0int, 0int)] + to_cart(path(Seq::<(int, int)>::empty())));
    } else {
        let prev = encode_prefix(ps, th, k - 1);
        if prev.failed {
            assert(encode_prefix(ps, th, k) == prev);
        }
        lemma_prefix_tracks(ps, th, k - 1);
        lemma_encode_step(prev, ps[k - 1], th);
    }
}

/// The return home keeps the state on its path and ends at the origin.
pub proof fn lemma_home_tracks(st: EncodeState)
    requires
        tracks_path(st),
        !return_home(st).failed,
    ensures
        tracks_path(return_home(st)),
        return_home(st).x == 0,
        return_home(st).y == 0,
{
    if st.x != 0 || st.y != 0 {
        lemma_all_items_with_last(st.segs, seq![(true, -st.x, -st.y)]);
        lemma_jump_step(st, -st.x, -st.y);
    }
}

} // verus!

verus! {

proof fn lemma_seg_rows_len(segs: Seq<SegModel>)
    ensures
        seg_rows(segs).len() == 14 * segs.len(),
    decreases segs.len(),
{
    if segs.len() > 0 {
        lemma_seg_rows_len(segs.drop_last());
    }
}

/// Where the reader finds each part of a laid-out SHV file.
pub proof fn lemma_layout_offsets(
    sig: SignatureMode,
    name: Seq<u8>,
    preview: (u8, u8, Seq<u8>),
    segs: Seq<SegModel>,
    ext: (int, int, int, int),
)
    requires
        1 <= name.len() <= 32,
        preview.2.len() == preview.1 * ((preview.0 + 1) / 2),
        segs.len() <= 255,
    ensures
        ({
            let b = shv_layout(sig, name, preview, segs, ext);
            let s: int = 0x57 + name.len() as int + 6 + preview.2.len() as int;
            &&& b.len() >= 0x57
            &&& name_end(b) == 0x57 + name.len()
            &&& b.subrange(0x57, name_end(b)) == name
            &&& b[name_end(b)] == preview.1
            &&& b[name_end(b) + 1] == preview.0
            &&& preview_len(b) == preview.2.len()
            &&& summary_offset(b) == s
            &&& s + 19 <= b.len()
            &&& color_count(b) == segs.len()
            &&& b.subrange(s + 7, s + 9) == be16(ext.0)
            &&& b.subrange(s + 9, s + 11) == be16(ext.1)
            &&& b.subrange(s + 11, s + 13) == be16(ext.2)
            &&& b.subrange(s + 13, s + 15) == be16(ext.3)
            &&& b.subrange(s + 15, s + 19) == be32((seg_stream(segs).len() / 2) as int)
            &&& stitch_offset(b) == s + 19 + 14 * segs.len()
            &&& stitch_offset(b) <= b.len()
            &&& b.subrange(rows_offset(b), stitch_offset(b)) == seg_rows(segs)
            &&& stitch_stream(b) == seg_stream(segs)
        }),
{
    let b = shv_layout(sig, name, preview, segs, ext);
    let total = (seg_stream(segs).len() / 2) as int;
    let nb = notice_bytes(sig);
    assert(nb.len() == 86);
    let s: int = 0x57 + name.len() as int + 6 + preview.2.len() as int;
    let part1 = nb + seq![name.len() as u8];
    let part2 = part1 + name;
    let part3 = part2 + preview_header(preview.0, preview.1);
    let part4 = part3 + preview.2;
    let part5 = part4 + seq![segs.len() as u8];
    let part6 = part5 + summary_constants();
    let part7 = part6 + be16(ext.0);
    let part8 = part7 + be16(ext.1);
    let part9 = part8 + be16(ext.2);
    let part10 = part9 + be16(ext.3);
    let head = part10 + be32(total);
    let rows = seg_rows(segs);
    lemma_seg_rows_len(segs);
    assert(b == head + rows + seg_stream(segs));
    assert(part1.len() == 0x57);
    assert(b[0x56] == part1[0x56]);
    assert(b[0x56] == name.len());
    assert(name_end(b) == 0x57 + name.len());
    assert(part2.len() == 0x57 + name.len());
    assert(b.subrange(0x57, name_end(b)) =~= name) by {
        assert forall|i: int| 0 <= i < name.len() implies b[0x57 + i] == name[i] by {
            assert(b[0x57 + i] == part2[0x57 + i]);
        }
    }
    assert(b[name_end(b)] == part3[part2.len() as int]);
    assert(b[name_end(b) + 1] == part3[part2.len() as int + 1]);
    assert(part4.len() == s);
    assert(b[s] == part5[s]);
    assert(b[s] == segs.len());
    assert(part6.len() == s + 7);
    assert(b.subrange(s + 7, s + 9) =~= be16(ext.0)) by {
        assert(b[s + 7] == part7[s + 7]);
        assert(b[s + 8] == part7[s + 8]);
    }
    assert(b.subrange(s + 9, s + 11) =~= be16(ext.1)) by {
        assert(b[s + 9] == part8[s + 9]);
        assert(b[s + 10] == part8[s + 10]);
    }
    assert(b.subrange(s + 11, s + 13) =~= be16(ext.2)) by {
        assert(b[s + 11] == part9[s + 11]);
        assert(b[s + 12] == part9[s + 12]);
    }
    assert(b.subrange(s + 13, s + 15) =~= be16(ext.3)) by {
        assert(b[s + 13] == part10[s + 13]);
        assert(b[s + 14] == part10[s + 14]);
    }
    assert(head.len() == s + 19);
    assert(b.subrange(s + 15, s + 19) =~= be32(total)) by {
        assert forall|i: int| 0 <= i < 4 implies b[s + 15 + i] == be32(total)[i] by {
            assert(b[s + 15 + i] == head[s + 15 + i]);
        }
    }
    assert(b.subrange(s + 19, s + 19 + 14 * segs.len()) =~= rows) by {
        assert forall|i: int| 0 <= i < rows.len() implies b[s + 19 + i] == rows[i] by {
            assert(b[s + 19 + i] == (head + rows)[s + 19 + i]);
        }
    }
    assert(stitch_stream(b) =~= seg_stream(segs));
}

} // verus!

verus! {

proof fn lemma_nonempty_items(segs: Seq<SegModel>)
    ensures
        all_items(nonempty_segs(segs)) == all_items(segs),
        forall|k: int|
            0 <= k < nonempty_segs(segs).len() ==> (#[trigger] nonempty_segs(segs)[k]).3.len() > 0,
    decreases segs.len(),
{
    if segs.len() > 0 {
        let rest = nonempty_segs(segs.drop_last());
        lemma_nonempty_items(segs.drop_last());
        if segs.last().3.len() > 0 {
            lemma_all_items_push(rest, segs.last());
            assert forall|k: int|
                0 <= k < nonempty_segs(segs).len() implies (#[trigger] nonempty_segs(
                segs,
            )[k]).3.len() > 0 by {
                if k < rest.len() {
                    assert(nonempty_segs(segs)[k] == rest[k]);
                }
            }
        } else {
            assert(all_items(segs) =~= all_items(segs.drop_last()));
        }
    }
}

proof fn lemma_all_items_nonempty(segs: Seq<SegModel>)
    requires
        segs.len() > 0,
        segs.last().3.len() > 0,
    ensures
        all_items(segs).len() > 0,
{
}

proof fn lemma_seg_stream_items(segs: Seq<SegModel>)
    ensures
        seg_stream(segs) == items_bytes(all_items(segs)),
    decreases segs.len(),
{
    if segs.len() > 0 {
        lemma_seg_stream_items(segs.drop_last());
        lemma_items_bytes_append(all_items(segs.drop_last()), segs.last().3);
    }
}

/// The extents of `[q] + e`: those of `e`, widened to take in `q`.
proof fn lemma_extents_prepend(q: (int, int), e: Seq<(int, int)>)
    requires
        e.len() >= 1,
    ensures
        ({
            let x = seq_extents(e);
            seq_extents(seq![q] + e) == (
                max_i(q.0, x.0),
                max_i(q.1, x.1),
                min_i(q.0, x.2),
                min_i(q.1, x.3),
            )
        }),
    decreases e.len(),
{
    let s = seq![q] + e;
    assert(s.len() >= 2);
    assert(s.last() == e.last());
    if e.len() == 1 {
        assert(s.drop_last() =~= seq![q]);
        assert(seq_extents(seq![q]) == (q.0, q.1, q.0, q.1));
        assert(e[0] == e.last());
    } else {
        lemma_extents_prepend(q, e.drop_last());
        assert(s.drop_last() =~= seq![q] + e.drop_last());
        let x1 = seq_extents(e.drop_last());
        assert(seq_extents(e) == (
            max_i(x1.0, e.last().0),
            max_i(x1.1, e.last().1),
            min_i(x1.2, e.last().0),
            min_i(x1.3, e.last().1),
        ));
    }
}

/// A list that contains the origin has the same extents with the origin put in front.
proof fn lemma_extents_origin(e: Seq<(int, int)>)
    requires
        e.len() >= 1,
        e.last() == (0int, 0int),
    ensures
        seq_extents(seq![(0int, 0int)] + e) == seq_extents(e),
{
    lemma_extents_prepend((0int, 0int), e);
    crate::readback::lemma_extents_bound(e);
    assert(e[e.len() - 1] == (0int, 0int));
}

proof fn lemma_shv_name_len(name: Seq<char>)
    ensures
        1 <= shv_name(name, 32).len() <= 32,
{
}

proof fn lemma_name_char_byte(c: char)
    ensures
        (name_char(c) as u8) < 0x80,
{
    let d = name_char(c);
    assert(32 <= (d as u32) <= 126);
    let v = d as u32;
    assert((v as u8) == v) by (bit_vector)
        requires
            v <= 126,
    ;
}

/// A written SHV file's name is ASCII, so the reader gives it back as the
/// cleaned name's characters.
pub proof fn written_name_reads_back(
    ps: Seq<StitchPoint>,
    th: Seq<Thread>,
    name: Seq<char>,
    sig: SignatureMode,
    rep: ShvReadbackReport,
)
    requires
        shv_file(ps, th, name, sig) is Ok,
        rep.reads(shv_file(ps, th, name, sig)->Ok_0),
    ensures
        rep.name@ == ascii_chars(shv_name(name, 32)),
{
    let b = shv_file(ps, th, name, sig)->Ok_0;
    written_shv_reads_back(ps, th, name, sig);
    lemma_shv_name_ascii(name);
    assert(b.subrange(0x57, name_end(b)) == shv_name(name, 32));
}

proof fn lemma_shv_name_ascii(name: Seq<char>)
    ensures
        all_ascii(shv_name(name, 32)),
{
    let nm = shv_name(name, 32);
    assert forall|i: int| 0 <= i < nm.len() implies #[trigger] nm[i] < 0x80 by {
        let cleaned = crate::text::trim(name).map_values(|c: char| name_char(c));
        if cleaned.len() == 0 {
        } else {
            lemma_name_char_byte(crate::text::trim(name)[i]);
        }
    }
}

proof fn lemma_preview_len(ps: Seq<StitchPoint>, th: Seq<Thread>)
    ensures
        ({
            let p = auto_preview(ps, th);
            p.2.len() == p.1 * ((p.0 + 1) / 2)
        }),
{
    let d = auto_dims(ps);
    assert(1 <= d.0 <= 255 && 1 <= d.1 <= 255);
    let p = auto_preview(ps, th);
    assert(p.0 == d.1 && p.1 == d.0);
    assert(p.2.len() == d.0 * ((d.1 + 1) / 2)) by (nonlinear_arith)
        requires
            p.2.len() == (d.0 * ((d.1 + 1) / 2)) as nat,
            1 <= d.0 <= 255,
            1 <= d.1 <= 255,
    ;
}

} // verus!

verus! {

/// What the SHV writer writes reads back consistently: the reader accepts
/// the file, its summary counts the stream's records and gives the extents
/// of the decoded positions, and the stream ends at the origin. The reader
/// also finds the cleaned name, one color row per segment, one decoded step
/// per written item, and exactly the positions the writer recorded after
/// the origin.
#[verifier::spinoff_prover]
pub proof fn written_shv_reads_back(
    ps: Seq<StitchPoint>,
    th: Seq<Thread>,
    name: Seq<char>,
    sig: SignatureMode,
)
    requires
        shv_file(ps, th, name, sig) is Ok,
    ensures
        ({
            let b = shv_file(ps, th, name, sig)->Ok_0;
            let m = encode_design(ps, th)->Ok_0;
            &&& shv_valid(b)
            &&& b.subrange(0x57, name_end(b)) == shv_name(name, 32)
            &&& color_count(b) == m.0.len()
            &&& stream_steps(b) == all_items(m.0).map_values(|it: StreamItem| item_step(it))
            &&& event_positions(b) == m.1.drop_first()
        }),
{
    let b = shv_file(ps, th, name, sig)->Ok_0;
    let m = encode_design(ps, th)->Ok_0;
    let k = end_index(ps);
    lemma_end_from(ps, 0);
    let st = encode_prefix(ps, th, k);
    let home = return_home(st);
    lemma_prefix_tracks(ps, th, k);
    lemma_home_tracks(st);
    let segs = m.0;
    let items = all_items(home.segs);
    lemma_nonempty_items(home.segs);
    assert(all_items(segs) == items);
    lemma_seg_stream_items(segs);
    lemma_decode_items(items);
    lemma_items_bytes_len(items);
    let nm = shv_name(name, 32);
    lemma_shv_name_len(name);
    let pv = auto_preview(ps, th);
    lemma_preview_len(ps, th);
    let ext = seq_extents(m.1);
    let total = (seg_stream(segs).len() / 2) as int;
    lemma_layout_offsets(sig, nm, pv, segs, ext);
    assert(b == shv_layout(sig, nm, pv, segs, ext));
    let steps = items.map_values(|it: StreamItem| item_step(it));
    assert(stream_steps(b) == steps);
    assert(step_deltas(steps) =~= item_deltas(items));
    let d = item_deltas(items);
    let e = to_cart(path(d));
    assert(m.1 == seq![(0int, 0int)] + e);
    assert(m.1.drop_first() =~= e);
    assert(segs.last().3.len() > 0);
    lemma_all_items_nonempty(segs);
    lemma_path_len(d);
    assert(e.len() >= 1);
    assert(path(d).last() == path_end(path(d)));
    assert(e.last() == (0int, 0int));
    lemma_extents_origin(e);
    assert(event_positions(b) == e);
    assert(final_raw(b) == (0int, 0int));
    let so = summary_offset(b);
    lemma_be16_read(ext.0);
    lemma_be16_read(ext.1);
    lemma_be16_read(ext.2);
    lemma_be16_read(ext.3);
    assert(b[so + 7] == b.subrange(so + 7, so + 9)[0] && b[so + 8] == b.subrange(so + 7, so + 9)[1]);
    assert(b[so + 9] == b.subrange(so + 9, so + 11)[0] && b[so + 10] == b.subrange(so + 9, so + 11)[1]);
    assert(b[so + 11] == b.subrange(so + 11, so + 13)[0] && b[so + 12] == b.subrange(so + 11, so + 13)[1]);
    assert(b[so + 13] == b.subrange(so + 13, so + 15)[0] && b[so + 14] == b.subrange(so + 13, so + 15)[1]);
    assert(summary_ext(b) == ext);
    lemma_be32_read(total);
    assert(b[so + 15] == be32(total)[0] && b[so + 16] == be32(total)[1]) by {
        assert(b[so + 15] == b.subrange(so + 15, so + 19)[0]);
        assert(b[so + 16] == b.subrange(so + 15, so + 19)[1]);
    }
    assert(b[so + 17] == be32(total)[2] && b[so + 18] == be32(total)[3]) by {
        assert(b[so + 17] == b.subrange(so + 15, so + 19)[2]);
        assert(b[so + 18] == b.subrange(so + 15, so + 19)[3]);
    }
    assert(summary_total(b) == total);
    assert(shv_parse_error(b) is None);
    assert(shv_extents_agree(b));
}

} // verus!

verus! {

/// The points a design's needle visits, up to point `k`, with the raw
/// needle position after them: a jump or trim visits its target, not
/// stitched; a stitch visits the points its split records reach, the last
/// of them its target, stitched; other commands visit nothing.
pub open spec fn traced(ps: Seq<StitchPoint>, k: int) -> (Seq<(int, int, bool)>, int, int)
    decreases k,
{
    if k <= 0 {
        (Seq::empty(), 0, 0)
    } else {
        let t = traced(ps, k - 1);
        let p = ps[k - 1];
        let tx = p.x as int;
        let ty = -(p.y as int);
        match p.command@ {
            CommandModel::Jump | CommandModel::Trim => (t.0.push((p.x as int, p.y as int, false)), tx, ty),
            CommandModel::Stitch => (
                t.0 + piece_positions(t.1, t.2, tx - t.1, ty - t.2).map_values(|q: (int, int)| (q.0, q.1, true)),
                tx,
                ty,
            ),
            _ => t,
        }
    }
}

/// The points a design's written stream visits, as the stitch-point
/// reader gives them: the traced points before the first `End`, then the
/// jump home to the origin when the needle is elsewhere.
pub open spec fn design_path(ps: Seq<StitchPoint>) -> Seq<(int, int, bool)> {
    let t = traced(ps, end_index(ps));
    if t.1 != 0 || t.2 != 0 {
        t.0.push((0int, 0int, false))
    } else {
        t.0
    }
}

/// Positions paired with the items that reached them, marked stitched for
/// stitch items.
pub open spec fn marked(pos: Seq<(int, int)>, items: Seq<StreamItem>) -> Seq<(int, int, bool)> {
    Seq::new(items.len(), |i: int| (pos[i].0, pos[i].1, !items[i].0))
}

proof fn lemma_traced(ps: Seq<StitchPoint>, th: Seq<Thread>, k: int)
    requires
        0 <= k <= end_index(ps),
        end_index(ps) <= ps.len(),
        forall|j: int| 0 <= j < end_index(ps) ==> !(#[trigger] ps[j].command@ is End),
        !encode_prefix(ps, th, k).failed,
    ensures
        ({
            let st = encode_prefix(ps, th, k);
            let items = all_items(st.segs);
            &&& st.segs.len() >= 1
            &&& st.positions.len() == items.len() + 1
            &&& marked(st.positions.drop_first(), items) == traced(ps, k).0
            &&& st.x == traced(ps, k).1
            &&& st.y == traced(ps, k).2
        }),
    decreases k,
{
    if k > 0 {
        let prev = encode_prefix(ps, th, k - 1);
        assert(!prev.failed);
        lemma_traced(ps, th, k - 1);
        let p = ps[k - 1];
        let st = encode_prefix(ps, th, k);
        assert(st == encode_step(prev, p, th));
        let items0 = all_items(prev.segs);
        let t = traced(ps, k - 1);
        let tx = p.x as int;
        let ty = -(p.y as int);
        let dx = tx - prev.x;
        let dy = ty - prev.y;
        match p.command@ {
            CommandModel::ColorChange | CommandModel::Stop => {
                if prev.segs.last().3.len() > 0 {
                    let t2 = next_thread(th, prev.thread);
                    lemma_all_items_push(prev.segs, (segment_color(th, t2), prev.x, prev.y, Seq::<StreamItem>::empty()));
                    assert(all_items(st.segs) =~= items0);
                }
            },
            CommandModel::Jump | CommandModel::Trim => {
                lemma_all_items_with_last(prev.segs, seq![(true, dx, dy)]);
                let items = all_items(st.segs);
                assert(st.positions.drop_first() =~= prev.positions.drop_first().push((tx, -ty)));
                assert(marked(st.positions.drop_first(), items) =~= marked(prev.positions.drop_first(), items0).push(
                    (p.x as int, p.y as int, false),
                ));
            },
            CommandModel::Stitch => {
                let pi = piece_items(dx, dy);
                let pp = piece_positions(prev.x, prev.y, dx, dy);
                lemma_all_items_with_last(prev.segs, pi);
                let items = all_items(st.segs);
                assert(pi.len() == pp.len());
                assert(st.positions.drop_first() =~= prev.positions.drop_first() + pp);
                assert(marked(st.positions.drop_first(), items) =~= marked(prev.positions.drop_first(), items0)
                    + pp.map_values(|q: (int, int)| (q.0, q.1, true)));
            },
            _ => {},
        }
    } else {
        let st = encode_prefix(ps, th, 0);
        assert(st == crate::shv::initial_state(th));
        assert(st.segs.len() == 1);
        assert(st.segs.last().3.len() == 0);
        assert(st.segs.drop_last() =~= Seq::<SegModel>::empty());
        assert(all_items(Seq::<SegModel>::empty()) == Seq::<StreamItem>::empty());
        assert(all_items(st.segs) == all_items(st.segs.drop_last()) + st.segs.last().3);
        assert(all_items(st.segs) =~= Seq::<StreamItem>::empty());
        assert(marked(st.positions.drop_first(), all_items(st.segs)) =~= Seq::<(int, int, bool)>::empty());
    }
}

/// Reading the stitch points back from a written file gives the design's
/// path: each jump or trim target, each stitch target preceded by the
/// points its split records reach, all as the design has them (`+Y` up),
/// and the jump home when the last target is not the origin. Each read
/// point is marked stitched exactly when the path marks it so.
#[verifier::spinoff_prover]
pub proof fn read_points_follow_the_design(ps: Seq<StitchPoint>, th: Seq<Thread>, name: Seq<char>, sig: SignatureMode)
    requires
        shv_file(ps, th, name, sig) is Ok,
    ensures
        ({
            let b = shv_file(ps, th, name, sig)->Ok_0;
            &&& stream_steps(b).len() == design_path(ps).len()
            &&& event_positions(b).len() == design_path(ps).len()
            &&& forall|k: int|
                0 <= k < design_path(ps).len() ==> (#[trigger] event_positions(b)[k]).0 == design_path(ps)[k].0
                    && event_positions(b)[k].1 == design_path(ps)[k].1 && (stream_steps(b)[k].0 == 0)
                    == design_path(ps)[k].2
        }),
{
    written_shv_reads_back(ps, th, name, sig);
    let b = shv_file(ps, th, name, sig)->Ok_0;
    let m = encode_design(ps, th)->Ok_0;
    let e = end_index(ps);
    lemma_end_from(ps, 0);
    let st = encode_prefix(ps, th, e);
    assert(!st.failed);
    lemma_traced(ps, th, e);
    let home = return_home(st);
    let items0 = all_items(st.segs);
    let t = traced(ps, e);
    if st.x != 0 || st.y != 0 {
        lemma_all_items_with_last(st.segs, seq![(true, -st.x, -st.y)]);
        assert(home.positions.drop_first() =~= st.positions.drop_first().push((0int, 0int)));
        assert(marked(home.positions.drop_first(), all_items(home.segs)) =~= marked(st.positions.drop_first(), items0).push(
            (0int, 0int, false),
        ));
    }
    lemma_nonempty_items(home.segs);
    let items = all_items(m.0);
    assert(items == all_items(home.segs));
    assert(m.1 == home.positions);
    assert(marked(m.1.drop_first(), items) == design_path(ps));
    assert(stream_steps(b) == items.map_values(|it: StreamItem| item_step(it)));
    assert forall|k: int| 0 <= k < design_path(ps).len() implies (#[trigger] event_positions(b)[k]).0 == design_path(
        ps,
    )[k].0 && event_positions(b)[k].1 == design_path(ps)[k].1 && (stream_steps(b)[k].0 == 0)
        == design_path(ps)[k].2 by {
        assert(marked(m.1.drop_first(), items)[k] == design_path(ps)[k]);
        assert(stream_steps(b)[k] == item_step(items[k]));
    }
}

} // verus!

verus! {

/// The reader takes the preview's height from the byte right after the
/// name (at `0x57` plus the name length stored at `0x56`) and its width
/// from the byte after that.
pub proof fn report_preview_size_follows_the_name(b: Seq<u8>, rep: ShvReadbackReport)
    requires
        rep.reads(b),
    ensures
        rep.preview_height == b[0x57 + b[0x56]],
        rep.preview_width == b[0x58 + b[0x56]],
{
}

/// A written file's preview reads back at the size it was rendered: the
/// width and height of the design's automatic preview.
#[verifier::spinoff_prover]
pub proof fn written_preview_size_reads_back(
    ps: Seq<StitchPoint>,
    th: Seq<Thread>,
    name: Seq<char>,
    sig: SignatureMode,
    rep: ShvReadbackReport,
)
    requires
        shv_file(ps, th, name, sig) is Ok,
        rep.reads(shv_file(ps, th, name, sig)->Ok_0),
    ensures
        rep.preview_width == auto_preview(ps, th).0,
        rep.preview_height == auto_preview(ps, th).1,
        rep.preview_length == auto_preview(ps, th).2.len(),
{
    let m = encode_design(ps, th)->Ok_0;
    lemma_shv_name_len(name);
    lemma_preview_len(ps, th);
    lemma_layout_offsets(sig, shv_name(name, 32), auto_preview(ps, th), m.0, seq_extents(m.1));
}

} // verus!
