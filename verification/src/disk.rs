//! Designer 1 disk menus: the MHV menu file of one menu directory (design
//! slots and a thumbnail grid) and the PHV root menu file (disk title,
//! menu labels and a text bitmap).

use vstd::prelude::*;
use crate::model::{
    count_commands, max_int, min_int, selected_thread, CommandModel, Design, SignatureMode,
    StitchCommand, StitchPoint, Thread,
};
use crate::raster::{
    draw_line, lemma_put_pixels_len, line_points, nearest_among, nearest_palette_index,
    pack_4bpp, packed_4bpp, put_pixel, put_pixels, rotate_clockwise, rotated_cw, set_pixel,
    small_coord, Rgb,
};
use crate::shv::{
    ascii_printable, end_index, lemma_count_mono, lemma_end_from, next_thread,
    notice_bytes, signature_bytes, threads_sliceable,
};
use crate::stream::{extend_bytes, round_div};
use crate::text::{
    ascii_upper, char_ascii_upper, char_utf8_width, color_sliceable, parse_hex_rgb, rgb_of,
    str_chars, trim, trim_chars, utf8_width,
};

verus! {

/// The bytes a label character is stored as: printable ASCII and space as
/// themselves, other ASCII as `_`, and each UTF-8 byte of a non-ASCII
/// character as `_`.
pub open spec fn char_label_bytes(c: char) -> Seq<u8> {
    if (c as u32) < 0x80 {
        seq![if ascii_printable(c) { c as u8 } else { 95u8 }]
    } else {
        Seq::new(utf8_width(c) as nat, |i: int| 95u8)
    }
}

pub open spec fn label_bytes(t: Seq<char>) -> Seq<u8>
    decreases t.len(),
{
    if t.len() == 0 {
        Seq::empty()
    } else {
        label_bytes(t.drop_last()) + char_label_bytes(t.last())
    }
}

/// A fixed-width label field: the trimmed label's bytes, cut to `width`
/// and padded with zero bytes.
pub open spec fn encoded_label(label: Seq<char>, width: int) -> Seq<u8> {
    let lb = label_bytes(trim(label));
    Seq::new(width as nat, |i: int| if i < lb.len() { lb[i] } else { 0u8 })
}

/// Encodes a label into a `width`-byte field: trimmed, non-printable bytes
/// replaced by `_`, truncated, zero-padded.
pub fn encode_label(label: &str, width: usize) -> (r: Vec<u8>)
    ensures
        r@ == encoded_label(label@, width as int),
{
    let t = trim_chars(&str_chars(label));
    let mut lb: Vec<u8> = Vec::new();
    for i in 0..t.len()
        invariant
            lb@ == label_bytes(t@.take(i as int)),
    {
        let c = t[i];
        let ghost before = lb@;
        if (c as u32) < 0x80 {
            let b: u8 = if ('!' <= c && c <= '~') || c == ' ' {
                c as u8
            } else {
                95
            };
            lb.push(b);
            assert(lb@ =~= before + char_label_bytes(c));
        } else {
            let n = char_utf8_width(c);
            for j in 0..n
                invariant
                    lb@ == before + Seq::new(j as nat, |k: int| 95u8),
            {
                lb.push(95);
                assert(lb@ =~= before + Seq::new((j + 1) as nat, |k: int| 95u8));
            }
            assert(lb@ =~= before + char_label_bytes(c));
        }
        assert(t@.take(i + 1).drop_last() =~= t@.take(i as int));
    }
    assert(t@.take(t@.len() as int) =~= t@);
    let mut out: Vec<u8> = Vec::new();
    for k in 0..width
        invariant
            lb@ == label_bytes(trim(label@)),
            out@ == encoded_label(label@, width as int).take(k as int),
    {
        let b = if k < lb.len() {
            lb[k]
        } else {
            0
        };
        out.push(b);
        assert(out@ =~= encoded_label(label@, width as int).take(k + 1));
    }
    assert(out@ =~= encoded_label(label@, width as int));
    out
}

/// `count` label fields of `width` bytes: label `i`, or an empty field
/// where there is no label `i`.
pub open spec fn label_slots(labels: Seq<String>, width: int, count: int) -> Seq<Seq<u8>> {
    Seq::new(
        count as nat,
        |i: int| encoded_label(if i < labels.len() { labels[i]@ } else { Seq::empty() }, width),
    )
}

pub fn padded_label_slots(labels: &[String], width: usize, count: usize) -> (r: Vec<Vec<u8>>)
    ensures
        r@.len() == count,
        forall|i: int| 0 <= i < count ==> (#[trigger] r@[i])@ == label_slots(labels@, width as int, count as int)[i],
{
    let mut out: Vec<Vec<u8>> = Vec::new();
    for i in 0..count
        invariant
            out@.len() == i,
            forall|j: int| 0 <= j < i ==> (#[trigger] out@[j])@ == label_slots(labels@, width as int, count as int)[j],
    {
        let field = if i < labels.len() {
            encode_label(labels[i].as_str(), width)
        } else {
            encode_label("", width)
        };
        proof {
            if i >= labels@.len() {
                reveal_strlit("");
                assert(""@ =~= Seq::<char>::empty());
            }
        }
        out.push(field);
    }
    out
}

/// The concatenated fields of `label_slots`.
pub open spec fn slot_bytes(fields: Seq<Seq<u8>>) -> Seq<u8>
    decreases fields.len(),
{
    if fields.len() == 0 {
        Seq::empty()
    } else {
        slot_bytes(fields.drop_last()) + fields.last()
    }
}

fn extend_slots(out: &mut Vec<u8>, slots: &Vec<Vec<u8>>)
    ensures
        final(out)@ == old(out)@ + slot_bytes(slots@.map_values(|v: Vec<u8>| v@)),
{
    let ghost fields = slots@.map_values(|v: Vec<u8>| v@);
    for i in 0..slots.len()
        invariant
            fields == slots@.map_values(|v: Vec<u8>| v@),
            out@ == old(out)@ + slot_bytes(fields.take(i as int)),
    {
        extend_bytes(out, &slots[i]);
        assert(fields.take(i + 1).drop_last() =~= fields.take(i as int));
    }
    assert(fields.take(slots@.len() as int) =~= fields);
}

} // verus!

verus! {

/// The 5x7 glyph of a character (upper-cased first): one byte per row,
/// bit 4 the leftmost column.
pub open spec fn glyph_rows(c: char) -> Seq<u8> {
    let u = ascii_upper(c);
    if u == 'A' {
        seq![0x0eu8, 0x11u8, 0x11u8, 0x1fu8, 0x11u8, 0x11u8, 0x11u8]
    } else if u == 'B' {
        seq![0x1eu8, 0x11u8, 0x11u8, 0x1eu8, 0x11u8, 0x11u8, 0x1eu8]
    } else if u == 'C' {
        seq![0x0eu8, 0x11u8, 0x10u8, 0x10u8, 0x10u8, 0x11u8, 0x0eu8]
    } else if u == 'D' {
        seq![0x1eu8, 0x11u8, 0x11u8, 0x11u8, 0x11u8, 0x11u8, 0x1eu8]
    } else if u == 'E' {
        seq![0x1fu8, 0x10u8, 0x10u8, 0x1eu8, 0x10u8, 0x10u8, 0x1fu8]
    } else if u == 'F' {
        seq![0x1fu8, 0x10u8, 0x10u8, 0x1eu8, 0x10u8, 0x10u8, 0x10u8]
    } else if u == 'G' {
        seq![0x0eu8, 0x11u8, 0x10u8, 0x17u8, 0x11u8, 0x11u8, 0x0fu8]
    } else if u == 'H' {
        seq![0x11u8, 0x11u8, 0x11u8, 0x1fu8, 0x11u8, 0x11u8, 0x11u8]
    } else if u == 'I' {
        seq![0x0eu8, 0x04u8, 0x04u8, 0x04u8, 0x04u8, 0x04u8, 0x0eu8]
    } else if u == 'J' {
        seq![0x01u8, 0x01u8, 0x01u8, 0x01u8, 0x11u8, 0x11u8, 0x0eu8]
    } else if u == 'K' {
        seq![0x11u8, 0x12u8, 0x14u8, 0x18u8, 0x14u8, 0x12u8, 0x11u8]
    } else if u == 'L' {
        seq![0x10u8, 0x10u8, 0x10u8, 0x10u8, 0x10u8, 0x10u8, 0x1fu8]
    } else if u == 'M' {
        seq![0x11u8, 0x1bu8, 0x15u8, 0x15u8, 0x11u8, 0x11u8, 0x11u8]
    } else if u == 'N' {
        seq![0x11u8, 0x19u8, 0x15u8, 0x13u8, 0x11u8, 0x11u8, 0x11u8]
    } else if u == 'O' {
        seq![0x0eu8, 0x11u8, 0x11u8, 0x11u8, 0x11u8, 0x11u8, 0x0eu8]
    } else if u == 'P' {
        seq![0x1eu8, 0x11u8, 0x11u8, 0x1eu8, 0x10u8, 0x10u8, 0x10u8]
    } else if u == 'Q' {
        seq![0x0eu8, 0x11u8, 0x11u8, 0x11u8, 0x15u8, 0x12u8, 0x0du8]
    } else if u == 'R' {
        seq![0x1eu8, 0x11u8, 0x11u8, 0x1eu8, 0x14u8, 0x12u8, 0x11u8]
    } else if u == 'S' {
        seq![0x0fu8, 0x10u8, 0x10u8, 0x0eu8, 0x01u8, 0x01u8, 0x1eu8]
    } else if u == 'T' {
        seq![0x1fu8, 0x04u8, 0x04u8, 0x04u8, 0x04u8, 0x04u8, 0x04u8]
    } else if u == 'U' {
        seq![0x11u8, 0x11u8, 0x11u8, 0x11u8, 0x11u8, 0x11u8, 0x0eu8]
    } else if u == 'V' {
        seq![0x11u8, 0x11u8, 0x11u8, 0x11u8, 0x11u8, 0x0au8, 0x04u8]
    } else if u == 'W' {
        seq![0x11u8, 0x11u8, 0x11u8, 0x15u8, 0x15u8, 0x15u8, 0x0au8]
    } else if u == 'X' {
        seq![0x11u8, 0x11u8, 0x0au8, 0x04u8, 0x0au8, 0x11u8, 0x11u8]
    } else if u == 'Y' {
        seq![0x11u8, 0x11u8, 0x0au8, 0x04u8, 0x04u8, 0x04u8, 0x04u8]
    } else if u == 'Z' {
        seq![0x1fu8, 0x01u8, 0x02u8, 0x04u8, 0x08u8, 0x10u8, 0x1fu8]
    } else if u == '0' {
        seq![0x0eu8, 0x11u8, 0x13u8, 0x15u8, 0x19u8, 0x11u8, 0x0eu8]
    } else if u == '1' {
        seq![0x04u8, 0x0cu8, 0x04u8, 0x04u8, 0x04u8, 0x04u8, 0x0eu8]
    } else if u == '2' {
        seq![0x0eu8, 0x11u8, 0x01u8, 0x02u8, 0x04u8, 0x08u8, 0x1fu8]
    } else if u == '3' {
        seq![0x1eu8, 0x01u8, 0x01u8, 0x0eu8, 0x01u8, 0x01u8, 0x1eu8]
    } else if u == '4' {
        seq![0x02u8, 0x06u8, 0x0au8, 0x12u8, 0x1fu8, 0x02u8, 0x02u8]
    } else if u == '5' {
        seq![0x1fu8, 0x10u8, 0x10u8, 0x1eu8, 0x01u8, 0x01u8, 0x1eu8]
    } else if u == '6' {
        seq![0x0eu8, 0x10u8, 0x10u8, 0x1eu8, 0x11u8, 0x11u8, 0x0eu8]
    } else if u == '7' {
        seq![0x1fu8, 0x01u8, 0x02u8, 0x04u8, 0x08u8, 0x08u8, 0x08u8]
    } else if u == '8' {
        seq![0x0eu8, 0x11u8, 0x11u8, 0x0eu8, 0x11u8, 0x11u8, 0x0eu8]
    } else if u == '9' {
        seq![0x0eu8, 0x11u8, 0x11u8, 0x0fu8, 0x01u8, 0x01u8, 0x0eu8]
    } else if u == '-' {
        seq![0x00u8, 0x00u8, 0x00u8, 0x1fu8, 0x00u8, 0x00u8, 0x00u8]
    } else if u == '_' {
        seq![0x00u8, 0x00u8, 0x00u8, 0x00u8, 0x00u8, 0x00u8, 0x1fu8]
    } else if u == '.' {
        seq![0x00u8, 0x00u8, 0x00u8, 0x00u8, 0x00u8, 0x0cu8, 0x0cu8]
    } else if u == ' ' {
        seq![0u8, 0u8, 0u8, 0u8, 0u8, 0u8, 0u8]
    } else {
        seq![0x1fu8, 0x11u8, 0x02u8, 0x04u8, 0x04u8, 0x00u8, 0x04u8]
    }
}

fn glyph(ch: char) -> (r: [u8; 7])
    ensures
        r@ == glyph_rows(ch),
{
    let u = char_ascii_upper(ch);
    let g: [u8; 7] = if u == 'A' {
        [0x0eu8, 0x11u8, 0x11u8, 0x1fu8, 0x11u8, 0x11u8, 0x11u8]
    } else if u == 'B' {
        [0x1eu8, 0x11u8, 0x11u8, 0x1eu8, 0x11u8, 0x11u8, 0x1eu8]
    } else if u == 'C' {
        [0x0eu8, 0x11u8, 0x10u8, 0x10u8, 0x10u8, 0x11u8, 0x0eu8]
    } else if u == 'D' {
        [0x1eu8, 0x11u8, 0x11u8, 0x11u8, 0x11u8, 0x11u8, 0x1eu8]
    } else if u == 'E' {
        [0x1fu8, 0x10u8, 0x10u8, 0x1eu8, 0x10u8, 0x10u8, 0x1fu8]
    } else if u == 'F' {
        [0x1fu8, 0x10u8, 0x10u8, 0x1eu8, 0x10u8, 0x10u8, 0x10u8]
    } else if u == 'G' {
        [0x0eu8, 0x11u8, 0x10u8, 0x17u8, 0x11u8, 0x11u8, 0x0fu8]
    } else if u == 'H' {
        [0x11u8, 0x11u8, 0x11u8, 0x1fu8, 0x11u8, 0x11u8, 0x11u8]
    } else if u == 'I' {
        [0x0eu8, 0x04u8, 0x04u8, 0x04u8, 0x04u8, 0x04u8, 0x0eu8]
    } else if u == 'J' {
        [0x01u8, 0x01u8, 0x01u8, 0x01u8, 0x11u8, 0x11u8, 0x0eu8]
    } else if u == 'K' {
        [0x11u8, 0x12u8, 0x14u8, 0x18u8, 0x14u8, 0x12u8, 0x11u8]
    } else if u == 'L' {
        [0x10u8, 0x10u8, 0x10u8, 0x10u8, 0x10u8, 0x10u8, 0x1fu8]
    } else if u == 'M' {
        [0x11u8, 0x1bu8, 0x15u8, 0x15u8, 0x11u8, 0x11u8, 0x11u8]
    } else if u == 'N' {
        [0x11u8, 0x19u8, 0x15u8, 0x13u8, 0x11u8, 0x11u8, 0x11u8]
    } else if u == 'O' {
        [0x0eu8, 0x11u8, 0x11u8, 0x11u8, 0x11u8, 0x11u8, 0x0eu8]
    } else if u == 'P' {
        [0x1eu8, 0x11u8, 0x11u8, 0x1eu8, 0x10u8, 0x10u8, 0x10u8]
    } else if u == 'Q' {
        [0x0eu8, 0x11u8, 0x11u8, 0x11u8, 0x15u8, 0x12u8, 0x0du8]
    } else if u == 'R' {
        [0x1eu8, 0x11u8, 0x11u8, 0x1eu8, 0x14u8, 0x12u8, 0x11u8]
    } else if u == 'S' {
        [0x0fu8, 0x10u8, 0x10u8, 0x0eu8, 0x01u8, 0x01u8, 0x1eu8]
    } else if u == 'T' {
        [0x1fu8, 0x04u8, 0x04u8, 0x04u8, 0x04u8, 0x04u8, 0x04u8]
    } else if u == 'U' {
        [0x11u8, 0x11u8, 0x11u8, 0x11u8, 0x11u8, 0x11u8, 0x0eu8]
    } else if u == 'V' {
        [0x11u8, 0x11u8, 0x11u8, 0x11u8, 0x11u8, 0x0au8, 0x04u8]
    } else if u == 'W' {
        [0x11u8, 0x11u8, 0x11u8, 0x15u8, 0x15u8, 0x15u8, 0x0au8]
    } else if u == 'X' {
        [0x11u8, 0x11u8, 0x0au8, 0x04u8, 0x0au8, 0x11u8, 0x11u8]
    } else if u == 'Y' {
        [0x11u8, 0x11u8, 0x0au8, 0x04u8, 0x04u8, 0x04u8, 0x04u8]
    } else if u == 'Z' {
        [0x1fu8, 0x01u8, 0x02u8, 0x04u8, 0x08u8, 0x10u8, 0x1fu8]
    } else if u == '0' {
        [0x0eu8, 0x11u8, 0x13u8, 0x15u8, 0x19u8, 0x11u8, 0x0eu8]
    } else if u == '1' {
        [0x04u8, 0x0cu8, 0x04u8, 0x04u8, 0x04u8, 0x04u8, 0x0eu8]
    } else if u == '2' {
        [0x0eu8, 0x11u8, 0x01u8, 0x02u8, 0x04u8, 0x08u8, 0x1fu8]
    } else if u == '3' {
        [0x1eu8, 0x01u8, 0x01u8, 0x0eu8, 0x01u8, 0x01u8, 0x1eu8]
    } else if u == '4' {
        [0x02u8, 0x06u8, 0x0au8, 0x12u8, 0x1fu8, 0x02u8, 0x02u8]
    } else if u == '5' {
        [0x1fu8, 0x10u8, 0x10u8, 0x1eu8, 0x01u8, 0x01u8, 0x1eu8]
    } else if u == '6' {
        [0x0eu8, 0x10u8, 0x10u8, 0x1eu8, 0x11u8, 0x11u8, 0x0eu8]
    } else if u == '7' {
        [0x1fu8, 0x01u8, 0x02u8, 0x04u8, 0x08u8, 0x08u8, 0x08u8]
    } else if u == '8' {
        [0x0eu8, 0x11u8, 0x11u8, 0x0eu8, 0x11u8, 0x11u8, 0x0eu8]
    } else if u == '9' {
        [0x0eu8, 0x11u8, 0x11u8, 0x0fu8, 0x01u8, 0x01u8, 0x0eu8]
    } else if u == '-' {
        [0x00u8, 0x00u8, 0x00u8, 0x1fu8, 0x00u8, 0x00u8, 0x00u8]
    } else if u == '_' {
        [0x00u8, 0x00u8, 0x00u8, 0x00u8, 0x00u8, 0x00u8, 0x1fu8]
    } else if u == '.' {
        [0x00u8, 0x00u8, 0x00u8, 0x00u8, 0x00u8, 0x0cu8, 0x0cu8]
    } else if u == ' ' {
        [0u8, 0u8, 0u8, 0u8, 0u8, 0u8, 0u8]
    } else {
        [0x1fu8, 0x11u8, 0x02u8, 0x04u8, 0x04u8, 0x00u8, 0x04u8]
    };
    assert(g@ =~= glyph_rows(ch));
    g
}

/// The weight of glyph column `col` in a row byte (bit `4 - col`).
pub open spec fn col_weight(col: int) -> int {
    if col == 0 {
        16
    } else if col == 1 {
        8
    } else if col == 2 {
        4
    } else if col == 3 {
        2
    } else {
        1
    }
}

pub open spec fn glyph_bit(bits: u8, col: int) -> bool {
    (bits as int / col_weight(col)) % 2 == 1
}

/// The glyph cell `(cx, cy)` is inked.
pub open spec fn glyph_ink(c: char, cx: int, cy: int) -> bool {
    0 <= cx < 5 && 0 <= cy < 7 && glyph_bit(glyph_rows(c)[cy], cx)
}

/// Drawing character `c` with its top-left corner at `(x, y)` in value `v`;
/// the glyph's cells that fall outside the `w`-wide buffer are skipped.
pub open spec fn char_paint(px: Seq<u8>, w: int, x: int, y: int, c: char, v: u8) -> Seq<u8> {
    Seq::new(px.len(), |k: int| if glyph_ink(c, k % w - x, k / w - y) { v } else { px[k] })
}

/// The glyph cells before cell `n` (row-major, five per row).
pub open spec fn char_paint_upto(px: Seq<u8>, w: int, x: int, y: int, c: char, v: u8, n: int) -> Seq<u8> {
    Seq::new(
        px.len(),
        |k: int|
            if glyph_ink(c, k % w - x, k / w - y) && (k / w - y) * 5 + (k % w - x) < n {
                v
            } else {
                px[k]
            },
    )
}

fn col_weight_exec(col: usize) -> (r: u8)
    requires
        col < 5,
    ensures
        r as int == col_weight(col as int),
{
    if col == 0 {
        16
    } else if col == 1 {
        8
    } else if col == 2 {
        4
    } else if col == 3 {
        2
    } else {
        1
    }
}

proof fn lemma_grid_coords(px: int, py: int, w: int)
    requires
        0 <= px < w,
        0 <= py,
    ensures
        (py * w + px) % w == px,
        (py * w + px) / w == py,
{
    vstd::arithmetic::div_mod::lemma_fundamental_div_mod_converse(py * w + px, w, py, px);
}

/// Draws one 5x7 character.
fn draw_char(pixels: &mut Vec<u8>, width: usize, height: usize, x: usize, y: usize, ch: char, value: u8)
    requires
        old(pixels)@.len() == width * height,
        x + 5 <= usize::MAX,
        y + 7 <= usize::MAX,
    ensures
        final(pixels)@ == char_paint(old(pixels)@, width as int, x as int, y as int, ch, value),
{
    let g = glyph(ch);
    let ghost w = width as int;
    let ghost p0 = pixels@;
    let n = pixels.len();
    assert(pixels@ =~= char_paint_upto(p0, w, x as int, y as int, ch, value, 0));
    for row in 0..7usize
        invariant
            p0.len() == width * height,
            n == p0.len(),
            w == width as int,
            g@ == glyph_rows(ch),
            x + 5 <= usize::MAX,
            y + 7 <= usize::MAX,
            pixels@ == char_paint_upto(p0, w, x as int, y as int, ch, value, row * 5),
    {
        let bits = g[row];
        for col in 0..5usize
            invariant
                p0.len() == width * height,
                n == p0.len(),
                w == width as int,
                g@ == glyph_rows(ch),
                bits == glyph_rows(ch)[row as int],
                row < 7,
                x + 5 <= usize::MAX,
                y + 7 <= usize::MAX,
                pixels@ == char_paint_upto(p0, w, x as int, y as int, ch, value, row * 5 + col),
        {
            let wt = col_weight_exec(col);
            let px = x + col;
            let py = y + row;
            let ghost before = pixels@;
            if (bits / wt) % 2 == 1 && px < width && py < height {
                proof {
                    crate::raster::lemma_index_in_grid(px as int, py as int, w, height as int);
                    lemma_grid_coords(px as int, py as int, w);
                    assert((py as int) * w <= (py as int) * w + px as int);
                }
                let idx = py * width + px;
                pixels.set(idx, value);
                proof {
                    assert forall|k: int| 0 <= k < p0.len() implies #[trigger] pixels@[k]
                        == char_paint_upto(p0, w, x as int, y as int, ch, value, row * 5 + col + 1)[k] by {
                        if k != idx {
                            if k % w - x == col && k / w - y == row {
                                vstd::arithmetic::div_mod::lemma_fundamental_div_mod(k, w);
                                assert(k == w * (k / w) + k % w);
                                assert(k == (py as int) * w + px as int) by (nonlinear_arith)
                                    requires
                                        k == w * (k / w) + k % w,
                                        k % w == px,
                                        k / w == py,
                                ;
                            }
                        }
                    }
                    assert(pixels@ =~= char_paint_upto(p0, w, x as int, y as int, ch, value, row * 5 + col + 1));
                }
            } else {
                proof {
                    assert forall|k: int| 0 <= k < p0.len() implies #[trigger] pixels@[k]
                        == char_paint_upto(p0, w, x as int, y as int, ch, value, row * 5 + col + 1)[k] by {
                        if k % w - x == col && k / w - y == row && glyph_ink(ch, col as int, row as int) {
                            assert(w > 0) by (nonlinear_arith)
                                requires
                                    0 <= k < w * height,
                                    w >= 0,
                                    height >= 0,
                            ;
                            vstd::arithmetic::div_mod::lemma_mod_bound(k, w);
                            vstd::arithmetic::div_mod::lemma_fundamental_div_mod(k, w);
                            assert(k / w < height) by (nonlinear_arith)
                                requires
                                    k == w * (k / w) + k % w,
                                    0 <= k % w,
                                    k < w * height,
                                    w > 0,
                            ;
                        }
                    }
                    assert(pixels@ =~= char_paint_upto(p0, w, x as int, y as int, ch, value, row * 5 + col + 1));
                }
            }
        }
    }
    assert(pixels@ =~= char_paint(p0, w, x as int, y as int, ch, value));
}

} // verus!

verus! {

/// The first 20 characters (all when there are fewer).
pub open spec fn first20(s: Seq<char>) -> Seq<char> {
    if s.len() <= 20 {
        s
    } else {
        s.take(20)
    }
}

/// Drawing the characters `cs` from `(x, y)`, six pixels apart, stopping
/// after the first character whose successor would reach past the right edge.
pub open spec fn text_paint(px: Seq<u8>, w: int, x: int, y: int, cs: Seq<char>, v: u8) -> Seq<u8>
    decreases cs.len(),
{
    if cs.len() == 0 {
        px
    } else {
        let p1 = char_paint(px, w, x, y, cs[0], v);
        if x + 11 >= w {
            p1
        } else {
            text_paint(p1, w, x + 6, y, cs.drop_first(), v)
        }
    }
}

/// Draws up to 20 characters of `text`, six pixels apart.
fn draw_text(
    pixels: &mut Vec<u8>,
    width: usize,
    height: usize,
    x: usize,
    y: usize,
    text: &Vec<char>,
    value: u8,
)
    requires
        old(pixels)@.len() == width * height,
        x + 5 <= usize::MAX,
        y + 7 <= usize::MAX,
    ensures
        final(pixels)@ == text_paint(old(pixels)@, width as int, x as int, y as int, first20(text@), value),
        final(pixels)@.len() == old(pixels)@.len(),
{
    let ghost cs = first20(text@);
    let ghost w = width as int;
    let ghost target = text_paint(pixels@, w, x as int, y as int, cs, value);
    let n: usize = if text.len() < 20 {
        text.len()
    } else {
        20
    };
    let mut cursor = x;
    let mut i: usize = 0;
    assert(cs.skip(0) =~= cs);
    while i < n
        invariant_except_break
            n == cs.len(),
            n <= text@.len(),
            cs == first20(text@),
            pixels@.len() == old(pixels)@.len(),
            w == width as int,
            pixels@.len() == width * height,
            i <= n,
            cursor + 5 <= usize::MAX,
            y + 7 <= usize::MAX,
            target == text_paint(pixels@, w, cursor as int, y as int, cs.skip(i as int), value),
        ensures
            pixels@ == target,
            pixels@.len() == old(pixels)@.len(),
        decreases n - i,
    {
        let ghost rest = cs.skip(i as int);
        assert(rest[0] == text[i as int]);
        draw_char(pixels, width, height, cursor, y, text[i], value);
        if width <= cursor || width - cursor <= 11 {
            break;
        }
        assert(rest.drop_first() =~= cs.skip(i + 1));
        cursor = cursor + 6;
        i = i + 1;
    }
    assert(cs.skip(i as int).len() == 0 ==> text_paint(pixels@, w, cursor as int, y as int, cs.skip(i as int), value) == pixels@);
}

/// Drawing labels in value 7, one per 13-pixel line from `y`, while a
/// line's glyphs fit above the bottom row.
pub open spec fn labels_paint(
    px: Seq<u8>,
    w: int,
    h: int,
    labels: Seq<Seq<char>>,
    left: int,
    y: int,
) -> Seq<u8>
    decreases labels.len(),
{
    if labels.len() == 0 || y + 7 >= h {
        px
    } else {
        labels_paint(
            text_paint(px, w, left, y, first20(labels[0]), 7),
            w,
            h,
            labels.drop_first(),
            left,
            y + 13,
        )
    }
}

/// A `w` x `h` 4bpp bitmap of labels.
pub open spec fn text_bitmap(w: int, h: int, labels: Seq<Seq<char>>, left: int, top: int) -> Seq<u8> {
    packed_4bpp(labels_paint(Seq::new((w * h) as nat, |i: int| 0u8), w, h, labels, left, top), w, h)
}

pub open spec fn label_texts(labels: Seq<String>) -> Seq<Seq<char>> {
    labels.map_values(|s: String| s@)
}

/// Renders labels into a packed 4bpp bitmap.
pub fn render_text_bitmap(width: usize, height: usize, labels: &[String], left: usize, top: usize) -> (r: Vec<u8>)
    requires
        width * height <= usize::MAX,
        left + 5 <= usize::MAX,
        top + 13 * labels@.len() + 7 <= usize::MAX,
    ensures
        r@ == text_bitmap(width as int, height as int, label_texts(labels@), left as int, top as int),
{
    let ghost ls = label_texts(labels@);
    let mut pixels: Vec<u8> = vec![0u8; width * height];
    let ghost target = labels_paint(pixels@, width as int, height as int, ls, left as int, top as int);
    assert(pixels@ =~= Seq::new((width * height) as nat, |i: int| 0u8));
    assert(ls.skip(0) =~= ls);
    let mut idx: usize = 0;
    while idx < labels.len()
        invariant_except_break
            ls == label_texts(labels@),
            pixels@.len() == width * height,
            idx <= labels@.len(),
            left + 5 <= usize::MAX,
            top + 13 * labels@.len() + 7 <= usize::MAX,
            target == labels_paint(pixels@, width as int, height as int, ls.skip(idx as int), left as int, top + 13 * idx),
        ensures
            pixels@ == target,
            pixels@.len() == width * height,
        decreases labels@.len() - idx,
    {
        let y = top + idx * 13;
        if y + 7 >= height {
            break;
        }
        let text = str_chars(labels[idx].as_str());
        assert(ls.skip(idx as int)[0] == text@);
        draw_text(&mut pixels, width, height, left, y, &text, 7);
        assert(ls.skip(idx as int).drop_first() =~= ls.skip(idx + 1));
        idx = idx + 1;
    }
    pack_4bpp(&pixels, width, height)
}

} // verus!

verus! {

/// `n` copies of a label field.
pub open spec fn repeated_field(field: Seq<u8>, n: int) -> Seq<u8> {
    slot_bytes(Seq::new(n as nat, |i: int| field))
}

/// The root menu file (PHV): notice, four header bytes, sixteen 24-byte
/// disk-title fields, two bytes, four menus (two metadata bytes and sixteen
/// 12-byte label fields each; only the first menu is labelled), twenty
/// position bytes and a zero, the bitmap's height and width, and the
/// 173 x 181 bitmap with the menu label.
pub open spec fn phv_file(sig: SignatureMode, title: Seq<char>, label: Seq<char>) -> Seq<u8> {
    let empty = encoded_label(Seq::empty(), 12);
    notice_bytes(sig) + seq![0x00u8, 0x01u8, 0x00u8, 0x00u8] + repeated_field(encoded_label(title, 24), 16)
        + seq![0x5au8, 0xa0u8] + seq![0x39u8, 0x82u8] + repeated_field(encoded_label(label, 12), 16)
        + seq![0x39u8, 0x5cu8] + repeated_field(empty, 16) + seq![0x39u8, 0x36u8] + repeated_field(empty, 16)
        + seq![0x39u8, 0x10u8] + repeated_field(empty, 16) + seq![
        0x00u8, 0x00u8, 120u8, 0x00u8, 0x00u8, 0x00u8, 0x00u8, 82u8, 0x00u8, 0x00u8,
        0x00u8, 0x00u8, 44u8, 0x00u8, 0x00u8, 0x00u8, 0x00u8, 6u8, 0x00u8, 0x00u8,
        0x00u8, 181u8, 173u8,
    ] + text_bitmap(173, 181, seq![label], 12, 28)
}

/// `count` copies of one label in label fields of `width` bytes.
fn write_label_fields(out: &mut Vec<u8>, label: &str, width: usize, count: usize)
    ensures
        final(out)@ == old(out)@ + repeated_field(encoded_label(label@, width as int), count as int),
{
    let mut labels: Vec<String> = Vec::new();
    let owned = label.to_string();
    for i in 0..count
        invariant
            owned@ == label@,
            labels@.len() == i,
            forall|j: int| 0 <= j < i ==> (#[trigger] labels@[j])@ == label@,
    {
        labels.push(owned.clone());
    }
    let slots = padded_label_slots(labels.as_slice(), width, count);
    extend_slots(out, &slots);
    assert(slots@.map_values(|v: Vec<u8>| v@) =~= Seq::new(
        count as nat,
        |i: int| encoded_label(label@, width as int),
    ));
}

/// Builds the root menu file (`MENU_SEL.PHV`).
pub fn build_phv(signature: SignatureMode, disk_title: &str, menu_label: &str) -> (r: Vec<u8>)
    ensures
        r@ == phv_file(signature, disk_title@, menu_label@),
{
    let mut out: Vec<u8> = Vec::new();
    extend_bytes(&mut out, &signature_bytes(signature));
    out.push(0x00);
    out.push(0x01);
    out.push(0x00);
    out.push(0x00);
    write_label_fields(&mut out, disk_title, 24, 16);
    out.push(0x5a);
    out.push(0xa0);
    out.push(0x39);
    out.push(0x82);
    write_label_fields(&mut out, menu_label, 12, 16);
    out.push(0x39);
    out.push(0x5c);
    write_label_fields(&mut out, "", 12, 16);
    out.push(0x39);
    out.push(0x36);
    write_label_fields(&mut out, "", 12, 16);
    out.push(0x39);
    out.push(0x10);
    write_label_fields(&mut out, "", 12, 16);
    let tail: Vec<u8> = vec![
        0x00, 0x00, 120, 0x00, 0x00, 0x00, 0x00, 82, 0x00, 0x00, 0x00, 0x00, 44, 0x00, 0x00, 0x00,
        0x00, 6, 0x00, 0x00, 0x00, 181, 173,
    ];
    extend_bytes(&mut out, &tail);
    let mut labels: Vec<String> = Vec::new();
    labels.push(menu_label.to_string());
    let bitmap = render_text_bitmap(173, 181, labels.as_slice(), 12, 28);
    extend_bytes(&mut out, &bitmap);
    proof {
        reveal_strlit("");
        assert(label_texts(labels@) =~= seq![menu_label@]);
    }
    assert(out@ =~= phv_file(signature, disk_title@, menu_label@));
    out
}

} // verus!

verus! {

/// The 16 colors of the MHV menu preview.
pub open spec fn mhv_palette() -> Seq<Rgb> {
    seq![
        (245u8, 245u8, 245u8),
        (15u8, 15u8, 18u8),
        (210u8, 42u8, 42u8),
        (38u8, 88u8, 210u8),
        (40u8, 150u8, 75u8),
        (0u8, 190u8, 210u8),
        (230u8, 190u8, 20u8),
        (230u8, 0u8, 190u8),
        (120u8, 70u8, 200u8),
        (230u8, 110u8, 20u8),
        (0u8, 120u8, 130u8),
        (160u8, 35u8, 75u8),
        (95u8, 95u8, 95u8),
        (20u8, 170u8, 210u8),
        (90u8, 140u8, 20u8),
        (30u8, 70u8, 190u8),
    ]
}

/// The palette indices a thread color may take: all but the background
/// (0), the text color (1) and the grid-line color (5).
pub open spec fn mhv_thread_candidates() -> Seq<int> {
    seq![2int, 3, 4, 6, 7, 8, 9, 10, 11, 12, 13, 14, 15]
}

/// The MHV palette index of thread `idx` (or the first thread): the
/// nearest candidate color, or 15 without a thread or a parseable color.
pub open spec fn mhv_thread_value(threads: Seq<Thread>, idx: int) -> u8 {
    match selected_thread(threads, idx) {
        None => 15,
        Some(t) => match rgb_of(t.color) {
            None => 15,
            Some(rgb) => nearest_among(rgb, mhv_palette(), mhv_thread_candidates()) as u8,
        },
    }
}

fn mhv_palette_colors() -> (r: Vec<(u8, u8, u8)>)
    ensures
        r@ == mhv_palette(),
{
    let r = vec![
        (245, 245, 245),
        (15, 15, 18),
        (210, 42, 42),
        (38, 88, 210),
        (40, 150, 75),
        (0, 190, 210),
        (230, 190, 20),
        (230, 0, 190),
        (120, 70, 200),
        (230, 110, 20),
        (0, 120, 130),
        (160, 35, 75),
        (95, 95, 95),
        (20, 170, 210),
        (90, 140, 20),
        (30, 70, 190),
    ];
    assert(r@ =~= mhv_palette());
    r
}

proof fn lemma_candidates_range(rgb: Rgb, cands: Seq<int>)
    requires
        cands.len() >= 1,
        forall|k: int| 0 <= k < cands.len() ==> 0 <= #[trigger] cands[k] < 16,
    ensures
        0 <= nearest_among(rgb, mhv_palette(), cands) < 16,
    decreases cands.len(),
{
    if cands.len() > 1 {
        lemma_candidates_range(rgb, cands.drop_last());
        assert(cands.last() == cands[cands.len() - 1]);
    }
}

/// The nearest MHV thread color.
fn nearest_palette_value(rgb: (u8, u8, u8)) -> (r: u8)
    ensures
        r == nearest_among(rgb, mhv_palette(), mhv_thread_candidates()),
{
    let pal = mhv_palette_colors();
    let cands: Vec<usize> = vec![2, 3, 4, 6, 7, 8, 9, 10, 11, 12, 13, 14, 15];
    assert(cands@.map_values(|c: usize| c as int) =~= mhv_thread_candidates());
    proof {
        lemma_candidates_range(rgb, mhv_thread_candidates());
    }
    nearest_palette_index(rgb, &pal, &cands) as u8
}

/// The MHV palette value of a design's thread `index`.
fn thread_palette_value(design: &Design, index: usize) -> (r: u8)
    requires
        selected_thread(design.threads@, index as int) matches Some(t) ==> color_sliceable(t.color),
    ensures
        r == mhv_thread_value(design.threads@, index as int),
{
    let thread = if index < design.threads.len() {
        &design.threads[index]
    } else if design.threads.len() > 0 {
        &design.threads[0]
    } else {
        return 15;
    };
    let rgb = match &thread.color {
        Some(s) => parse_hex_rgb(Some(s.as_str())),
        None => None,
    };
    match rgb {
        Some(c) => nearest_palette_value(c),
        None => 15,
    }
}

} // verus!

verus! {

pub const MHV_SCREEN_WIDTH: usize = 238;

pub const MHV_SCREEN_HEIGHT: usize = 244;

pub const MHV_GRID_CELL_W: usize = 79;

pub const MHV_GRID_CELL_H: usize = 122;

pub const MHV_GRID_LINE_VALUE: u8 = 5;

pub const MHV_TEXT_VALUE: u8 = 1;

/// Width of the menu (MHV) bitmap as stored, before rotation.
pub const MHV_BITMAP_WIDTH: usize = 244;

/// Height of the menu (MHV) bitmap as stored.
pub const MHV_BITMAP_HEIGHT: usize = 238;

/// Offset of the packed bitmap in a menu (MHV) file.
pub const MHV_BITMAP_OFFSET: usize = 0x013f;

/// Width of the disk title (PHV) bitmap.
pub const PHV_BITMAP_WIDTH: usize = 173;

/// Height of the disk title (PHV) bitmap.
pub const PHV_BITMAP_HEIGHT: usize = 181;

/// Offset of the packed bitmap in a disk title (PHV) file.
pub const PHV_BITMAP_OFFSET: usize = 0x04fb;

/// The 3 x 2 menu grid on the 238 x 244 screen: one line across at
/// y = 122 and lines down at x = 79 and x = 158, in value 5.
pub open spec fn grid_paint(px: Seq<u8>) -> Seq<u8> {
    Seq::new(
        px.len(),
        |k: int| if k / 238 == 122 || k % 238 == 79 || k % 238 == 158 { 5u8 } else { px[k] },
    )
}

fn draw_mhv_grid(pixels: &mut Vec<u8>)
    requires
        old(pixels)@.len() == 238 * 244,
    ensures
        final(pixels)@ == grid_paint(old(pixels)@),
{
    let ghost p0 = pixels@;
    for x in 0..238usize
        invariant
            p0.len() == 238 * 244,
            pixels@ == Seq::new(
                p0.len(),
                |k: int| if k / 238 == 122 && k % 238 < x { 5u8 } else { p0[k] },
            ),
    {
        proof {
            lemma_grid_coords(x as int, 122, 238);
        }
        pixels.set(122 * 238 + x, 5);
        assert(pixels@ =~= Seq::new(
            p0.len(),
            |k: int| if k / 238 == 122 && k % 238 < x + 1 { 5u8 } else { p0[k] },
        ));
    }
    for y in 0..244usize
        invariant
            p0.len() == 238 * 244,
            pixels@ == Seq::new(
                p0.len(),
                |k: int|
                    if k / 238 == 122 || ((k % 238 == 79 || k % 238 == 158) && k / 238 < y) {
                        5u8
                    } else {
                        p0[k]
                    },
            ),
    {
        proof {
            lemma_grid_coords(79, y as int, 238);
            lemma_grid_coords(158, y as int, 238);
        }
        pixels.set(y * 238 + 79, 5);
        pixels.set(y * 238 + 158, 5);
        assert(pixels@ =~= Seq::new(
            p0.len(),
            |k: int|
                if k / 238 == 122 || ((k % 238 == 79 || k % 238 == 158) && k / 238 < y + 1) {
                    5u8
                } else {
                    p0[k]
                },
        ));
    }
    assert(pixels@ =~= grid_paint(p0));
}

} // verus!

verus! {

/// Running (min x, max x, min y, max y) over the stitch points, starting
/// from (i32::MAX, i32::MIN, i32::MAX, i32::MIN).
pub open spec fn stitch_bounds(ps: Seq<StitchPoint>) -> (int, int, int, int)
    decreases ps.len(),
{
    if ps.len() == 0 {
        (i32::MAX as int, i32::MIN as int, i32::MAX as int, i32::MIN as int)
    } else {
        let b = stitch_bounds(ps.drop_last());
        let p = ps.last();
        if p.command@ is Stitch {
            (min_int(b.0, p.x as int), max_int(b.1, p.x as int), min_int(b.2, p.y as int), max_int(b.3, p.y as int))
        } else {
            b
        }
    }
}

/// The box a thumbnail is fitted to: that of the stitch points, or
/// (0, 1, 0, 1) without any.
pub open spec fn thumb_box(ps: Seq<StitchPoint>) -> (int, int, int, int) {
    if count_commands(ps, 0) > 0 {
        stitch_bounds(ps)
    } else {
        (0, 1, 0, 1)
    }
}

/// The thumbnail's usable width or height less one: at most 72 pixels,
/// leaving `margin` pixels of the cell, at least one.
pub open spec fn thumb_span(cell: int, margin: int) -> int {
    let room = if cell > margin {
        cell - margin
    } else {
        0
    };
    max_int(min_int(72, room), 1) - 1
}

/// The thumbnail scale as a fraction `p / q`: the larger one that fits
/// both spans, at least 1/1000.
pub open spec fn thumb_scale(ps: Seq<StitchPoint>, cell_w: int, cell_h: int) -> (int, int) {
    let b = thumb_box(ps);
    let sx = max_int(b.1 - b.0, 1);
    let sy = max_int(b.3 - b.2, 1);
    let a = thumb_span(cell_w, 10);
    let c = thumb_span(cell_h, 28);
    let f = if a * sy <= c * sx {
        (a, sx)
    } else {
        (c, sy)
    };
    if 1000 * f.0 < f.1 {
        (1, 1000)
    } else {
        f
    }
}

/// The cell pixel of design point `(x, y)`: the scaled box is centred in
/// the cell above a 22-pixel label strip, and positions are rounded to the
/// nearest pixel, halves away from zero. The scale and offsets are exact
/// fractions, rounded once at the end; where an `f64` computation's
/// rounding error falls across a half, this picks the other pixel.
pub open spec fn thumb_pixel(ps: Seq<StitchPoint>, cell: (int, int, int, int), x: int, y: int) -> (int, int) {
    let b = thumb_box(ps);
    let sx = max_int(b.1 - b.0, 1);
    let sy = max_int(b.3 - b.2, 1);
    let f = thumb_scale(ps, cell.2, cell.3);
    let p = f.0;
    let q = f.1;
    (
        round_div(2 * q * cell.0 + q * cell.2 - sx * p + 2 * p * (x - b.0), 2 * q),
        round_div(2 * q * cell.1 + q * (cell.3 - 22) - sy * p + 2 * p * (b.3 - y), 2 * q),
    )
}

/// The thumbnail drawer's state.
pub struct ThumbState {
    pub px: Seq<u8>,
    pub prev: Option<(int, int)>,
    pub thread: int,
    pub color: u8,
}

/// What the thumbnail drawer does with one point: stitches are joined by
/// lines on the 238 x 244 screen, jumps, trims and other commands lift the
/// pen, and color changes and stops take the next thread's color.
pub open spec fn thumb_step(
    st: ThumbState,
    p: StitchPoint,
    ps: Seq<StitchPoint>,
    th: Seq<Thread>,
    cell: (int, int, int, int),
) -> ThumbState {
    match p.command@ {
        CommandModel::Stitch => {
            let pt = thumb_pixel(ps, cell, p.x as int, p.y as int);
            ThumbState {
                px: match st.prev {
                    Some(q) => put_pixels(st.px, 238, 244, line_points(q.0, q.1, pt.0, pt.1), st.color),
                    None => put_pixel(st.px, 238, 244, pt.0, pt.1, st.color),
                },
                prev: Some(pt),
                thread: st.thread,
                color: st.color,
            }
        },
        CommandModel::ColorChange | CommandModel::Stop => {
            let t = next_thread(th, st.thread);
            ThumbState { px: st.px, prev: None, thread: t, color: mhv_thread_value(th, t) }
        },
        _ => ThumbState { px: st.px, prev: None, thread: st.thread, color: st.color },
    }
}

pub open spec fn thumb_prefix(
    px0: Seq<u8>,
    ps: Seq<StitchPoint>,
    th: Seq<Thread>,
    cell: (int, int, int, int),
    k: int,
) -> ThumbState
    decreases k,
{
    if k <= 0 {
        ThumbState { px: px0, prev: None, thread: 0, color: mhv_thread_value(th, 0) }
    } else {
        thumb_step(thumb_prefix(px0, ps, th, cell, k - 1), ps[k - 1], ps, th, cell)
    }
}

/// A design's thumbnail drawn into the screen `px0` in the cell
/// `(x, y, width, height)`, up to the design's first `End`.
pub open spec fn thumb_paint(px0: Seq<u8>, ps: Seq<StitchPoint>, th: Seq<Thread>, cell: (int, int, int, int)) -> Seq<u8> {
    thumb_prefix(px0, ps, th, cell, end_index(ps)).px
}

proof fn lemma_stitch_bounds(ps: Seq<StitchPoint>)
    ensures
        ({
            let b = stitch_bounds(ps);
            &&& i32::MIN <= b.0 <= i32::MAX
            &&& i32::MIN <= b.1 <= i32::MAX
            &&& i32::MIN <= b.2 <= i32::MAX
            &&& i32::MIN <= b.3 <= i32::MAX
            &&& count_commands(ps, 0) > 0 ==> b.0 <= b.1 && b.2 <= b.3
            &&& forall|k: int|
                0 <= k < ps.len() && (#[trigger] ps[k]).command@ is Stitch ==> b.0 <= ps[k].x <= b.1
                    && b.2 <= ps[k].y <= b.3
        }),
    decreases ps.len(),
{
    if ps.len() > 0 {
        lemma_stitch_bounds(ps.drop_last());
        let b = stitch_bounds(ps);
        assert forall|k: int|
            0 <= k < ps.len() && (#[trigger] ps[k]).command@ is Stitch implies b.0 <= ps[k].x <= b.1
                && b.2 <= ps[k].y <= b.3 by {
            if k < ps.len() - 1 {
                assert(ps[k] == ps.drop_last()[k]);
            }
        }
    }
}

} // verus!

verus! {

proof fn lemma_count_pos(ps: Seq<StitchPoint>, k: int, kind: int)
    requires
        0 <= k < ps.len(),
        crate::model::in_count_group(ps[k].command@, kind),
    ensures
        count_commands(ps, kind) > 0,
    decreases ps.len(),
{
    if k < ps.len() - 1 {
        lemma_count_pos(ps.drop_last(), k, kind);
        assert(ps.drop_last()[k] == ps[k]);
    }
}

/// `round_div(n, d)` lies within one of `n / d` when `|n| <= m * d`.
proof fn lemma_round_div_bound(n: int, d: int, m: int)
    requires
        d >= 1,
        m >= 0,
        -m * d <= n <= m * d,
    ensures
        -m - 1 <= round_div(n, d) <= m + 1,
{
    if n >= 0 {
        vstd::arithmetic::div_mod::lemma_fundamental_div_mod(2 * n + d, 2 * d);
        vstd::arithmetic::div_mod::lemma_mod_bound(2 * n + d, 2 * d);
        let qq = (2 * n + d) / (2 * d);
        assert(0 <= qq <= m + 1) by (nonlinear_arith)
            requires
                2 * n + d == (2 * d) * qq + (2 * n + d) % (2 * d),
                0 <= (2 * n + d) % (2 * d) < 2 * d,
                0 <= n <= m * d,
                d >= 1,
        ;
    } else {
        vstd::arithmetic::div_mod::lemma_fundamental_div_mod(-2 * n + d, 2 * d);
        vstd::arithmetic::div_mod::lemma_mod_bound(-2 * n + d, 2 * d);
        let qq = (-2 * n + d) / (2 * d);
        assert(0 <= qq <= m + 1) by (nonlinear_arith)
            requires
                -2 * n + d == (2 * d) * qq + (-2 * n + d) % (2 * d),
                0 <= (-2 * n + d) % (2 * d) < 2 * d,
                -m * d <= n < 0,
                d >= 1,
        ;
    }
}

/// The numbers of a thumbnail mapping: the box's left and top edges, its
/// spans, the scale `p / q`, and the cell.
struct ThumbGeom {
    left: i128,
    top: i128,
    sx: i128,
    sy: i128,
    p: i128,
    q: i128,
    cx: i128,
    cy: i128,
    cw: i128,
    ch: i128,
}

impl ThumbGeom {
    spec fn matches(&self, ps: Seq<StitchPoint>, cell: (int, int, int, int)) -> bool {
        let b = thumb_box(ps);
        let f = thumb_scale(ps, cell.2, cell.3);
        &&& self.left == b.0
        &&& self.top == b.3
        &&& self.sx == max_int(b.1 - b.0, 1)
        &&& self.sy == max_int(b.3 - b.2, 1)
        &&& self.p == f.0
        &&& self.q == f.1
        &&& self.cx == cell.0
        &&& self.cy == cell.1
        &&& self.cw == cell.2
        &&& self.ch == cell.3
        &&& 0 <= cell.0 && 0 <= cell.1 && 0 <= cell.2 && 0 <= cell.3
        &&& cell.0 + cell.2 <= 0x10_0000
        &&& cell.1 + cell.3 <= 0x10_0000
        &&& 1 <= self.sx <= 0x2_0000_0000
        &&& 1 <= self.sy <= 0x2_0000_0000
        &&& 0 <= self.p <= 71
        &&& 1 <= self.q <= 0x2_0000_0000
        &&& self.p * self.sx <= 0x100_0000 * self.q
        &&& self.p * self.sy <= 0x100_0000 * self.q
        &&& count_commands(ps, 0) > 0 ==> b.1 - b.0 <= self.sx && b.3 - b.2 <= self.sy
    }
}

fn thumb_span_exec(cell: usize, margin: usize) -> (r: i128)
    requires
        cell <= 0x10_0000,
    ensures
        r == thumb_span(cell as int, margin as int),
        0 <= r <= 71,
{
    let room: i128 = if cell > margin {
        (cell - margin) as i128
    } else {
        0
    };
    let m = if room < 72 {
        room
    } else {
        72
    };
    let m = if m > 1 {
        m
    } else {
        1
    };
    m - 1
}

/// The thumbnail mapping of a design in a cell.
fn thumb_geometry(design: &Design, cell_x: usize, cell_y: usize, cell_w: usize, cell_h: usize) -> (g: ThumbGeom)
    requires
        cell_x + cell_w <= 0x10_0000,
        cell_y + cell_h <= 0x10_0000,
    ensures
        g.matches(design.points@, (cell_x as int, cell_y as int, cell_w as int, cell_h as int)),
{
    let ghost ps = design.points@;
    let mut min_x = i32::MAX;
    let mut max_x = i32::MIN;
    let mut min_y = i32::MAX;
    let mut max_y = i32::MIN;
    let mut any = false;
    for i in 0..design.points.len()
        invariant
            ps == design.points@,
            (min_x as int, max_x as int, min_y as int, max_y as int) == stitch_bounds(ps.take(i as int)),
            any == (count_commands(ps.take(i as int), 0) > 0),
    {
        let pt = &design.points[i];
        assert(ps.take(i + 1).drop_last() == ps.take(i as int));
        if pt.command.is_drawn_stitch() {
            any = true;
            if pt.x < min_x {
                min_x = pt.x;
            }
            if pt.x > max_x {
                max_x = pt.x;
            }
            if pt.y < min_y {
                min_y = pt.y;
            }
            if pt.y > max_y {
                max_y = pt.y;
            }
        }
    }
    assert(ps.take(ps.len() as int) == ps);
    proof {
        lemma_stitch_bounds(ps);
    }
    let (left, right, bottom, top): (i128, i128, i128, i128) = if any {
        (min_x as i128, max_x as i128, min_y as i128, max_y as i128)
    } else {
        (0, 1, 0, 1)
    };
    let sx: i128 = if right - left > 1 {
        right - left
    } else {
        1
    };
    let sy: i128 = if top - bottom > 1 {
        top - bottom
    } else {
        1
    };
    let a = thumb_span_exec(cell_w, 10);
    let c = thumb_span_exec(cell_h, 28);
    assert(0 <= a * sy <= 71 * 0x2_0000_0000) by (nonlinear_arith)
        requires
            0 <= a <= 71,
            1 <= sy <= 0x2_0000_0000,
    ;
    assert(0 <= c * sx <= 71 * 0x2_0000_0000) by (nonlinear_arith)
        requires
            0 <= c <= 71,
            1 <= sx <= 0x2_0000_0000,
    ;
    let (p0, q0) = if a * sy <= c * sx {
        (a, sx)
    } else {
        (c, sy)
    };
    let (p, q) = if 1000 * p0 < q0 {
        (1i128, 1000i128)
    } else {
        (p0, q0)
    };
    proof {
        if 1000 * p0 < q0 {
        } else if a * sy <= c * sx {
            assert(p * sx <= 0x100_0000 * q) by (nonlinear_arith)
                requires
                    p == a,
                    q == sx,
                    0 <= a <= 71,
                    sx >= 1,
            ;
            assert(p * sy <= 0x100_0000 * q) by (nonlinear_arith)
                requires
                    p == a,
                    q == sx,
                    a * sy <= c * sx,
                    0 <= c <= 71,
                    sx >= 1,
            ;
        } else {
            assert(p * sx <= 0x100_0000 * q) by (nonlinear_arith)
                requires
                    p == c,
                    q == sy,
                    a * sy > c * sx,
                    0 <= a <= 71,
                    sy >= 1,
            ;
            assert(p * sy <= 0x100_0000 * q) by (nonlinear_arith)
                requires
                    p == c,
                    q == sy,
                    0 <= c <= 71,
                    sy >= 1,
            ;
        }
    }
    ThumbGeom {
        left,
        top,
        sx,
        sy,
        p,
        q,
        cx: cell_x as i128,
        cy: cell_y as i128,
        cw: cell_w as i128,
        ch: cell_h as i128,
    }
}

/// The screen pixel of a stitch point.
fn thumb_point(g: &ThumbGeom, x: i32, y: i32, Ghost(ps): Ghost<Seq<StitchPoint>>, Ghost(cell): Ghost<(int, int, int, int)>) -> (r: (i32, i32))
    requires
        g.matches(ps, cell),
        count_commands(ps, 0) > 0,
        thumb_box(ps).0 <= x <= thumb_box(ps).1,
        thumb_box(ps).2 <= y <= thumb_box(ps).3,
    ensures
        (r.0 as int, r.1 as int) == thumb_pixel(ps, cell, x as int, y as int),
        small_coord(r.0 as int),
        small_coord(r.1 as int),
{
    let dx = x as i128 - g.left;
    let dy = g.top - y as i128;
    let m: i128 = 0x10_0000 + 0x80_0000;
    assert(-(g.p * g.sx) <= 2 * g.p * dx - g.sx * g.p <= g.p * g.sx) by (nonlinear_arith)
        requires
            0 <= dx <= g.sx,
            g.p >= 0,
    ;
    assert(-(g.p * g.sy) <= 2 * g.p * dy - g.sy * g.p <= g.p * g.sy) by (nonlinear_arith)
        requires
            0 <= dy <= g.sy,
            g.p >= 0,
    ;
    assert(0 <= g.q * (2 * g.cx + g.cw) <= g.q * 0x20_0000) by (nonlinear_arith)
        requires
            g.q >= 1,
            0 <= g.cx,
            0 <= g.cw,
            g.cx + g.cw <= 0x10_0000,
    ;
    assert(-(g.q * 22) <= g.q * (2 * g.cy + g.ch - 22) <= g.q * 0x20_0000) by (nonlinear_arith)
        requires
            g.q >= 1,
            0 <= g.cy,
            0 <= g.ch,
            g.cy + g.ch <= 0x10_0000,
    ;
    assert(g.q * 0x20_0000 + 0x100_0000 * g.q <= m * (2 * g.q)) by (nonlinear_arith)
        requires
            g.q >= 1,
            m == 0x10_0000 + 0x80_0000,
    ;
    assert(g.q <= 0x2_0000_0000 && g.p * g.sx <= 0x100_0000 * 0x2_0000_0000) by (nonlinear_arith)
        requires
            g.q <= 0x2_0000_0000,
            g.p * g.sx <= 0x100_0000 * g.q,
    ;
    assert(g.p * g.sy <= 0x100_0000 * 0x2_0000_0000) by (nonlinear_arith)
        requires
            g.q <= 0x2_0000_0000,
            g.p * g.sy <= 0x100_0000 * g.q,
    ;
    assert(0 <= g.p * dx <= 71 * 0x2_0000_0000) by (nonlinear_arith)
        requires
            0 <= dx <= g.sx,
            0 <= g.p <= 71,
            g.sx <= 0x2_0000_0000,
    ;
    assert(0 <= g.p * dy <= 71 * 0x2_0000_0000) by (nonlinear_arith)
        requires
            0 <= dy <= g.sy,
            0 <= g.p <= 71,
            g.sy <= 0x2_0000_0000,
    ;
    assert(0 <= g.q * g.cx <= 0x2_0000_0000 * 0x10_0000 && 0 <= g.q * g.cw <= 0x2_0000_0000 * 0x10_0000)
        by (nonlinear_arith)
        requires
            1 <= g.q <= 0x2_0000_0000,
            0 <= g.cx <= 0x10_0000,
            0 <= g.cw <= 0x10_0000,
    ;
    assert(0 <= g.q * g.cy <= 0x2_0000_0000 * 0x10_0000 && 0 <= g.q * g.ch <= 0x2_0000_0000 * 0x10_0000)
        by (nonlinear_arith)
        requires
            1 <= g.q <= 0x2_0000_0000,
            0 <= g.cy <= 0x10_0000,
            0 <= g.ch <= 0x10_0000,
    ;
    assert(0 <= g.sx * g.p <= 0x100_0000 * 0x2_0000_0000 && 0 <= g.sy * g.p <= 0x100_0000 * 0x2_0000_0000)
        by (nonlinear_arith)
        requires
            g.p * g.sx <= 0x100_0000 * 0x2_0000_0000,
            g.p * g.sy <= 0x100_0000 * 0x2_0000_0000,
            g.p >= 0,
            g.sx >= 1,
            g.sy >= 1,
    ;
    assert(0 <= 2 * g.q * g.cx <= 0x4_0000_0000 * 0x10_0000 && 0 <= 2 * g.q * g.cy <= 0x4_0000_0000
        * 0x10_0000) by (nonlinear_arith)
        requires
            1 <= g.q <= 0x2_0000_0000,
            0 <= g.cx <= 0x10_0000,
            0 <= g.cy <= 0x10_0000,
    ;
    assert(0 <= 2 * g.p * dx <= 142 * 0x2_0000_0000 && 0 <= 2 * g.p * dy <= 142 * 0x2_0000_0000)
        by (nonlinear_arith)
        requires
            0 <= dx <= g.sx,
            0 <= dy <= g.sy,
            0 <= g.p <= 71,
            g.sx <= 0x2_0000_0000,
            g.sy <= 0x2_0000_0000,
    ;
    let nx = 2 * g.q * g.cx + g.q * g.cw - g.sx * g.p + 2 * g.p * dx;
    assert(-22 * 0x2_0000_0000 <= g.q * (g.ch - 22) <= 0x2_0000_0000 * 0x10_0000) by (nonlinear_arith)
        requires
            1 <= g.q <= 0x2_0000_0000,
            0 <= g.ch <= 0x10_0000,
    ;
    let ny = 2 * g.q * g.cy + g.q * (g.ch - 22) - g.sy * g.p + 2 * g.p * dy;
    assert(nx == g.q * (2 * g.cx + g.cw) + (2 * g.p * dx - g.sx * g.p)) by (nonlinear_arith)
        requires
            nx == 2 * g.q * g.cx + g.q * g.cw - g.sx * g.p + 2 * g.p * dx,
    ;
    assert(ny == g.q * (2 * g.cy + g.ch - 22) + (2 * g.p * dy - g.sy * g.p)) by (nonlinear_arith)
        requires
            ny == 2 * g.q * g.cy + g.q * (g.ch - 22) - g.sy * g.p + 2 * g.p * dy,
    ;
    proof {
        lemma_round_div_bound(nx as int, 2 * g.q, m as int);
        lemma_round_div_bound(ny as int, 2 * g.q, m as int);
    }
    let px = crate::preview::round_div_i128(nx, 2 * g.q);
    let py = crate::preview::round_div_i128(ny, 2 * g.q);
    (px as i32, py as i32)
}

} // verus!

verus! {

proof fn lemma_put_pixel_len(px: Seq<u8>, x: int, y: int, v: u8)
    requires
        px.len() == 238 * 244,
    ensures
        put_pixel(px, 238, 244, x, y, v).len() == px.len(),
{
    if 0 <= x < 238 && 0 <= y < 244 {
        crate::raster::lemma_index_in_grid(x, y, 238, 244);
    }
}

/// Draws a design's thumbnail into its cell of the 238 x 244 menu screen.
fn draw_menu_design_thumbnail(
    dest: &mut Vec<u8>,
    design: &Design,
    cell_x: usize,
    cell_y: usize,
    cell_w: usize,
    cell_h: usize,
)
    requires
        old(dest)@.len() == 238 * 244,
        threads_sliceable(design.threads@, design.points@),
        cell_x + cell_w <= 0x10_0000,
        cell_y + cell_h <= 0x10_0000,
    ensures
        final(dest)@ == thumb_paint(
            old(dest)@,
            design.points@,
            design.threads@,
            (cell_x as int, cell_y as int, cell_w as int, cell_h as int),
        ),
        final(dest)@.len() == 238 * 244,
{
    let ghost ps = design.points@;
    let ghost th = design.threads@;
    let ghost cell = (cell_x as int, cell_y as int, cell_w as int, cell_h as int);
    let ghost p0 = dest@;
    let g = thumb_geometry(design, cell_x, cell_y, cell_w, cell_h);
    proof {
        lemma_end_from(ps, 0);
        lemma_stitch_bounds(ps);
        assert(count_commands(ps.take(0), 3) == 0) by {
            assert(ps.take(0).len() == 0);
        }
    }
    let mut prev: Option<(i32, i32)> = None;
    let mut thread_index: usize = 0;
    let mut color = thread_palette_value(design, 0);
    let n = design.points.len();
    let mut i: usize = 0;
    while i < n && !design.points[i].command.is_end_command()
        invariant
            ps == design.points@,
            th == design.threads@,
            n == ps.len(),
            g.matches(ps, cell),
            threads_sliceable(th, ps),
            0 <= i <= end_index(ps),
            end_index(ps) <= n,
            forall|j: int| 0 <= j < end_index(ps) ==> !(#[trigger] ps[j].command@ is End),
            end_index(ps) < n ==> ps[end_index(ps)].command@ is End,
            ({
                let b = stitch_bounds(ps);
                forall|k: int|
                    0 <= k < ps.len() && (#[trigger] ps[k]).command@ is Stitch ==> b.0 <= ps[k].x <= b.1
                        && b.2 <= ps[k].y <= b.3
            }),
            dest@ == thumb_prefix(p0, ps, th, cell, i as int).px,
            dest@.len() == 238 * 244,
            match prev {
                Some(q) => thumb_prefix(p0, ps, th, cell, i as int).prev == Some((q.0 as int, q.1 as int))
                    && small_coord(q.0 as int) && small_coord(q.1 as int),
                None => thumb_prefix(p0, ps, th, cell, i as int).prev is None,
            },
            thread_index == thumb_prefix(p0, ps, th, cell, i as int).thread,
            color == thumb_prefix(p0, ps, th, cell, i as int).color,
            thread_index <= count_commands(ps.take(i as int), 3),
            th.len() > 0 ==> thread_index < th.len(),
            th.len() == 0 ==> thread_index == 0,
        decreases n - i,
    {
        let p = &design.points[i];
        proof {
            assert(ps.take(i + 1).drop_last() == ps.take(i as int));
            lemma_count_mono(ps, i + 1, end_index(ps));
        }
        match &p.command {
            StitchCommand::Stitch => {
                proof {
                    lemma_count_pos(ps, i as int, 0);
                    assert(ps[i as int].command@ is Stitch);
                }
                let pt = thumb_point(&g, p.x, p.y, Ghost(ps), Ghost(cell));
                match prev {
                    Some(q) => {
                        proof {
                            lemma_put_pixels_len(dest@, 238, 244, line_points(q.0 as int, q.1 as int, pt.0 as int, pt.1 as int), color);
                        }
                        draw_line(dest, 238, 244, q.0, q.1, pt.0, pt.1, color);
                    },
                    None => {
                        proof {
                            lemma_put_pixel_len(dest@, pt.0 as int, pt.1 as int, color);
                        }
                        set_pixel(dest, 238, 244, pt.0, pt.1, color);
                    },
                }
                prev = Some(pt);
            },
            StitchCommand::ColorChange | StitchCommand::Stop => {
                let last_thread: usize = if design.threads.len() >= 1 {
                    design.threads.len() - 1
                } else {
                    0
                };
                thread_index = if thread_index + 1 <= last_thread {
                    thread_index + 1
                } else {
                    last_thread
                };
                proof {
                    if thread_index < th.len() {
                        assert(color_sliceable(th[thread_index as int].color));
                    }
                    if th.len() > 0 {
                        assert(color_sliceable(th[0].color));
                    }
                }
                color = thread_palette_value(design, thread_index);
                prev = None;
            },
            _ => {
                prev = None;
            },
        }
        i = i + 1;
    }
    proof {
        assert(i == end_index(ps));
    }
}

} // verus!

verus! {

/// `std::path::PathBuf`, carried through the library as an opaque value.
#[verifier::external_type_specification]
#[verifier::external_body]
pub struct ExPathBuf(std::path::PathBuf);

/// A design placed in a menu slot.
#[derive(Debug)]
pub struct DiskDesignInput {
    pub slot: u8,
    pub source: std::path::PathBuf,
    pub label: String,
    pub design: Design,
}

/// A design file written to a disk.
#[derive(Debug)]
pub struct DiskWrittenDesign {
    pub slot: u8,
    pub source: std::path::PathBuf,
    pub output: std::path::PathBuf,
    pub label: String,
    pub records: u32,
    pub colors: u8,
}

/// What a disk export wrote.
#[derive(Debug)]
pub struct DiskExportReport {
    pub root: std::path::PathBuf,
    pub designs: Vec<DiskWrittenDesign>,
    pub written_files: Vec<std::path::PathBuf>,
    pub warnings: Vec<String>,
}

pub open spec fn digit_char(d: int) -> char {
    (48 + d) as char
}

/// A byte in decimal.
pub open spec fn decimal_text(v: u8) -> Seq<char> {
    if v < 10 {
        seq![digit_char(v as int)]
    } else if v < 100 {
        seq![digit_char((v / 10) as int), digit_char((v % 10) as int)]
    } else {
        seq![
            digit_char((v / 100) as int),
            digit_char(((v / 10) % 10) as int),
            digit_char((v % 10) as int),
        ]
    }
}

/// The caption of a menu cell: the slot number, a space and the label.
pub open spec fn slot_text(slot: u8, label: Seq<char>) -> Seq<char> {
    decimal_text(slot) + seq![' '] + label
}

fn digit_exec(d: u8) -> (c: char)
    requires
        d < 10,
    ensures
        c == digit_char(d as int),
{
    (48 + d) as char
}

fn slot_caption(slot: u8, label: &str) -> (r: Vec<char>)
    ensures
        r@ == slot_text(slot, label@),
{
    let mut out: Vec<char> = Vec::new();
    if slot < 10 {
        out.push(digit_exec(slot));
    } else if slot < 100 {
        out.push(digit_exec(slot / 10));
        out.push(digit_exec(slot % 10));
    } else {
        out.push(digit_exec(slot / 100));
        out.push(digit_exec((slot / 10) % 10));
        out.push(digit_exec(slot % 10));
    }
    out.push(' ');
    let chars = str_chars(label);
    let ghost head = out@;
    for i in 0..chars.len()
        invariant
            out@ == head + chars@.take(i as int),
    {
        out.push(chars[i]);
        assert(chars@.take(i + 1) =~= chars@.take(i as int).push(chars@[i as int]));
    }
    assert(chars@.take(chars@.len() as int) =~= chars@);
    assert(out@ =~= slot_text(slot, label@));
    out
}

/// The top-left corner of menu cell `k` (three columns, two rows).
pub open spec fn mhv_cell(k: int) -> (int, int) {
    ((k % 3) * 79, (k / 3) * 122)
}

/// The menu screen after the grid and the first `k` cells: each cell gets
/// its design's thumbnail and, 14 pixels above the cell's bottom, its caption.
pub open spec fn mhv_screen_upto(designs: Seq<DiskDesignInput>, k: int) -> Seq<u8>
    decreases k,
{
    if k <= 0 {
        grid_paint(Seq::new(238 * 244, |i: int| 0u8))
    } else {
        let d = designs[k - 1];
        let c = mhv_cell(k - 1);
        text_paint(
            thumb_paint(mhv_screen_upto(designs, k - 1), d.design.points@, d.design.threads@, (c.0, c.1, 79, 122)),
            238,
            c.0 + 6,
            c.1 + 108,
            first20(slot_text(d.slot, d.label@)),
            1,
        )
    }
}

/// The 238 x 244 menu screen of up to six designs.
pub open spec fn mhv_screen(designs: Seq<DiskDesignInput>) -> Seq<u8> {
    mhv_screen_upto(designs, if designs.len() < 6 { designs.len() as int } else { 6 })
}

/// Every design the menu draws has thread colors it can parse.
pub open spec fn menu_threads_ok(designs: Seq<DiskDesignInput>) -> bool {
    forall|k: int|
        0 <= k < designs.len() && k < 6 ==> threads_sliceable(
            (#[trigger] designs[k]).design.threads@,
            designs[k].design.points@,
        )
}

/// The menu screen: a 3 x 2 grid with a thumbnail and caption per design
/// (at most six), before rotation into the MHV bitmap.
pub fn render_mhv_preview_pixels(designs: &[DiskDesignInput]) -> (r: Vec<u8>)
    requires
        menu_threads_ok(designs@),
    ensures
        r@ == mhv_screen(designs@),
        r@.len() == 238 * 244,
{
    let mut pixels: Vec<u8> = vec![0u8; 238 * 244];
    assert(pixels@ =~= Seq::new(238 * 244, |i: int| 0u8));
    draw_mhv_grid(&mut pixels);
    let count: usize = if designs.len() < 6 {
        designs.len()
    } else {
        6
    };
    for idx in 0..count
        invariant
            count <= designs@.len(),
            count <= 6,
            menu_threads_ok(designs@),
            pixels@ == mhv_screen_upto(designs@, idx as int),
            pixels@.len() == 238 * 244,
    {
        let d = &designs[idx];
        let col = idx % 3;
        let row = idx / 3;
        let cell_x = col * 79;
        let cell_y = row * 122;
        assert(threads_sliceable(designs@[idx as int].design.threads@, designs@[idx as int].design.points@));
        draw_menu_design_thumbnail(&mut pixels, &d.design, cell_x, cell_y, 79, 122);
        let caption = slot_caption(d.slot, d.label.as_str());
        draw_text(&mut pixels, 238, 244, cell_x + 6, cell_y + 108, &caption, 1);
    }
    pixels
}

/// The MHV menu file of one menu directory: notice, sixteen 12-byte menu
/// label fields, three bytes, 36 slot numbers (1, 2, ... for the designs
/// present, else 0), the bitmap's height and width, and the 244 x 238
/// bitmap: the menu screen turned a quarter clockwise.
pub open spec fn mhv_file(sig: SignatureMode, label: Seq<char>, designs: Seq<DiskDesignInput>) -> Seq<u8> {
    notice_bytes(sig) + repeated_field(encoded_label(label, 12), 16) + seq![0x77u8, 0xfbu8, 0x06u8]
        + Seq::new(36, |i: int| if i < designs.len() { (i + 1) as u8 } else { 0u8 }) + seq![238u8, 244u8]
        + packed_4bpp(rotated_cw(mhv_screen(designs), 238, 244), 244, 238)
}

/// The menu file's bitmap: the menu screen turned clockwise and packed.
pub fn render_mhv_bitmap(designs: &[DiskDesignInput]) -> (r: Vec<u8>)
    requires
        menu_threads_ok(designs@),
    ensures
        r@ == packed_4bpp(rotated_cw(mhv_screen(designs@), 238, 244), 244, 238),
{
    let pixels = render_mhv_preview_pixels(designs);
    let rotated = rotate_clockwise(&pixels, 238, 244);
    pack_4bpp(&rotated, 244, 238)
}

/// Builds a menu file (`MENU_01.MHV`).
pub fn build_mhv(signature: SignatureMode, menu_label: &str, designs: &[DiskDesignInput]) -> (r: Vec<u8>)
    requires
        menu_threads_ok(designs@),
    ensures
        r@ == mhv_file(signature, menu_label@, designs@),
{
    let mut out: Vec<u8> = Vec::new();
    extend_bytes(&mut out, &signature_bytes(signature));
    write_label_fields(&mut out, menu_label, 12, 16);
    out.push(0x77);
    out.push(0xfb);
    out.push(0x06);
    let ghost head = out@;
    for idx in 0..36usize
        invariant
            out@ == head + Seq::new(
                36,
                |i: int| if i < designs@.len() { (i + 1) as u8 } else { 0u8 },
            ).take(idx as int),
    {
        let b: u8 = if idx < designs.len() {
            (idx + 1) as u8
        } else {
            0
        };
        out.push(b);
        assert(out@ =~= head + Seq::new(
            36,
            |i: int| if i < designs@.len() { (i + 1) as u8 } else { 0u8 },
        ).take(idx + 1));
    }
    out.push(238);
    out.push(244);
    let bitmap = render_mhv_bitmap(designs);
    extend_bytes(&mut out, &bitmap);
    assert(out@ =~= mhv_file(signature, menu_label@, designs@));
    out
}

} // verus!

verus! {

/// Why a folder cannot become a single-menu disk.
#[derive(Debug, Clone, Copy, PartialEq, Eq, Structural)]
pub enum DiskExportError {
    /// The folder holds no JSON design files.
    NoJsonFiles,
    /// The folder holds more JSON design files than one menu has slots.
    TooManyJsonFiles(usize),
}

/// The number of design slots in one menu.
pub const MAX_MENU_DESIGNS: usize = 6;

/// A menu takes one to six designs.
pub fn check_design_count(count: usize) -> (r: Result<(), DiskExportError>)
    ensures
        count == 0 ==> r == Err::<(), DiskExportError>(DiskExportError::NoJsonFiles),
        count > 6 ==> r == Err::<(), DiskExportError>(DiskExportError::TooManyJsonFiles(count)),
        1 <= count <= 6 ==> r is Ok,
{
    if count == 0 {
        Err(DiskExportError::NoJsonFiles)
    } else if count > MAX_MENU_DESIGNS {
        Err(DiskExportError::TooManyJsonFiles(count))
    } else {
        Ok(())
    }
}

/// The label a design shows in the menu: its trimmed name, or `DESIGN`
/// when the name is blank.
pub open spec fn menu_label(name: Seq<char>) -> Seq<char> {
    if trim(name).len() == 0 {
        "DESIGN"@
    } else {
        trim(name)
    }
}

pub fn menu_label_for_design(design: &Design) -> (r: String)
    ensures
        r@ == menu_label(design.name@),
{
    let t = trim_chars(&str_chars(design.name.as_str()));
    if t.len() == 0 {
        String::from_str("DESIGN")
    } else {
        crate::text::string_from_chars(&t)
    }
}

/// The slot input a loaded design becomes at position `k` of the sorted files.
pub open spec fn slot_input(d: DiskDesignInput, k: int, source: std::path::PathBuf, design: Design) -> bool {
    &&& d.slot == k + 1
    &&& d.source == source
    &&& d.label@ == menu_label(design.name@)
    &&& d.design == design
}

/// The designs of a menu, in the order of their files: slot numbers from
/// 1 and the menu label of each design.
pub fn assign_menu_slots(loaded: Vec<(std::path::PathBuf, Design)>) -> (r: Vec<DiskDesignInput>)
    requires
        loaded@.len() <= 6,
    ensures
        r@.len() == loaded@.len(),
        forall|k: int|
            0 <= k < loaded@.len() ==> slot_input(#[trigger] r@[k], k, loaded@[k].0, loaded@[k].1),
{
    let ghost input = loaded@;
    let mut out: Vec<DiskDesignInput> = Vec::new();
    let mut slot: u8 = 1;
    for item in it: loaded.into_iter()
        invariant
            it.seq() == input,
            input.len() <= 6,
            out@.len() == it.index(),
            slot == it.index() + 1,
            forall|k: int| 0 <= k < out@.len() ==> slot_input(#[trigger] out@[k], k, input[k].0, input[k].1),
    {
        let (source, design) = item;
        let label = menu_label_for_design(&design);
        let ghost before = out@;
        out.push(DiskDesignInput { slot, source, label, design });
        assert(forall|k: int| 0 <= k < before.len() ==> out@[k] == before[k]);
        slot = slot + 1;
    }
    out
}

} // verus!

verus! {

proof fn lemma_slot_bytes_len(fields: Seq<Seq<u8>>, w: int)
    requires
        forall|i: int| 0 <= i < fields.len() ==> (#[trigger] fields[i]).len() == w,
    ensures
        slot_bytes(fields).len() == fields.len() * w,
    decreases fields.len(),
{
    if fields.len() > 0 {
        lemma_slot_bytes_len(fields.drop_last(), w);
        assert(fields.last() == fields[fields.len() - 1]);
        assert((fields.len() - 1) * w + w == fields.len() * w) by (nonlinear_arith);
    }
}

proof fn lemma_repeated_field_len(field: Seq<u8>, n: int)
    requires
        0 <= n,
    ensures
        repeated_field(field, n).len() == n * field.len(),
{
    lemma_slot_bytes_len(Seq::new(n as nat, |i: int| field), field.len() as int);
}

proof fn lemma_notice_len(sig: SignatureMode)
    ensures
        notice_bytes(sig).len() == 86,
{
}

/// The documented layout of a menu file, whatever its designs: the
/// 86-byte notice, sixteen 12-byte menu labels, the marker `77 fb 06` at
/// 0x116, the slot numbers 1..n at 0x119 (zeros after), the bitmap's
/// height 238 and width 244 at 0x13d and 0x13e, and from 0x13f the 238
/// rows of 122 bytes.
pub proof fn menu_file_matches_documented_offsets(sig: SignatureMode, label: Seq<char>, designs: Seq<DiskDesignInput>)
    ensures
        mhv_file(sig, label, designs).len() == 0x13f + 238 * 122,
        mhv_file(sig, label, designs).subrange(0x116, 0x119) == seq![0x77u8, 0xfbu8, 0x06u8],
        forall|i: int|
            0 <= i < 36 ==> #[trigger] mhv_file(sig, label, designs)[0x119 + i] == (if i < designs.len() {
                (i + 1) as u8
            } else {
                0u8
            }),
        mhv_file(sig, label, designs)[0x13d] == 238,
        mhv_file(sig, label, designs)[0x13e] == 244,
{
    lemma_notice_len(sig);
    lemma_repeated_field_len(encoded_label(label, 12), 16);
    let f = mhv_file(sig, label, designs);
    let head = notice_bytes(sig) + repeated_field(encoded_label(label, 12), 16);
    assert(head.len() == 0x116);
    let slots = Seq::new(36, |i: int| if i < designs.len() { (i + 1) as u8 } else { 0u8 });
    let bitmap = packed_4bpp(rotated_cw(mhv_screen(designs), 238, 244), 244, 238);
    assert(bitmap.len() == 238 * 122);
    assert(f == head + seq![0x77u8, 0xfbu8, 0x06u8] + slots + seq![238u8, 244u8] + bitmap);
    assert(f.subrange(0x116, 0x119) =~= seq![0x77u8, 0xfbu8, 0x06u8]);
    assert forall|i: int| 0 <= i < 36 implies #[trigger] f[0x119 + i] == slots[i] by {}
}

/// The documented layout of the root menu file, whatever its texts: the
/// bitmap's height 181 and width 173 at 0x4f9 and 0x4fa, and from 0x4fb
/// the 181 rows of 87 bytes.
pub proof fn root_menu_file_matches_documented_offsets(sig: SignatureMode, title: Seq<char>, label: Seq<char>)
    ensures
        phv_file(sig, title, label).len() == 0x4fb + 181 * 87,
        phv_file(sig, title, label)[0x4f9] == 181,
        phv_file(sig, title, label)[0x4fa] == 173,
{
    lemma_notice_len(sig);
    let empty = encoded_label(Seq::empty(), 12);
    lemma_repeated_field_len(encoded_label(title, 24), 16);
    lemma_repeated_field_len(encoded_label(label, 12), 16);
    lemma_repeated_field_len(empty, 16);
    let bitmap = text_bitmap(173, 181, seq![label], 12, 28);
    assert(bitmap.len() == 181 * 87);
}

} // verus!

verus! {

proof fn lemma_screen_upto_prefix(designs: Seq<DiskDesignInput>, n: int, k: int)
    requires
        0 <= k <= n <= designs.len(),
    ensures
        mhv_screen_upto(designs, k) == mhv_screen_upto(designs.take(n), k),
    decreases k,
{
    if k > 0 {
        lemma_screen_upto_prefix(designs, n, k - 1);
        assert(designs.take(n)[k - 1] == designs[k - 1]);
    }
}

/// A menu draws its first six designs only: the menu screen of more than
/// six designs is that of the first six.
pub proof fn menu_draws_first_six(designs: Seq<DiskDesignInput>)
    requires
        designs.len() > 6,
    ensures
        mhv_screen(designs) == mhv_screen(designs.take(6)),
{
    lemma_screen_upto_prefix(designs, 6, 6);
}

} // verus!

verus! {

/// A menu thumbnail draws in the color of the thread the design is on:
/// after `k` points the drawer is on thread `min(color changes so far,
/// last thread)` and draws with that thread's MHV palette value, so each
/// color change or stop switches the color to the next thread's.
pub proof fn thumbnail_draws_in_current_thread_color(
    px0: Seq<u8>,
    ps: Seq<StitchPoint>,
    th: Seq<Thread>,
    cell: (int, int, int, int),
    k: int,
)
    requires
        0 <= k <= ps.len(),
    ensures
        thumb_prefix(px0, ps, th, cell, k).thread == crate::preview::thread_after(ps, th, k),
        thumb_prefix(px0, ps, th, cell, k).color == mhv_thread_value(
            th,
            crate::preview::thread_after(ps, th, k),
        ),
    decreases k,
{
    if k > 0 {
        thumbnail_draws_in_current_thread_color(px0, ps, th, cell, k - 1);
        assert(ps.take(k).drop_last() == ps.take(k - 1));
        assert(ps.take(k).last() == ps[k - 1]);
    } else {
        assert(ps.take(0).len() == 0);
    }
}

proof fn lemma_repeated_field_at(field: Seq<u8>, n: int)
    requires
        0 <= n,
        field.len() == 12,
    ensures
        repeated_field(field, n).len() == 12 * n,
        forall|i: int, j: int|
            0 <= i < n && 0 <= j < 12 ==> #[trigger] repeated_field(field, n)[12 * i + j] == field[j],
    decreases n,
{
    lemma_repeated_field_len(field, n);
    if n > 0 {
        lemma_repeated_field_at(field, n - 1);
        let fs = Seq::new(n as nat, |i: int| field);
        assert(fs.drop_last() =~= Seq::new((n - 1) as nat, |i: int| field));
        assert(repeated_field(field, n) == repeated_field(field, n - 1) + field);
        assert forall|i: int, j: int| 0 <= i < n && 0 <= j < 12 implies #[trigger] repeated_field(
            field,
            n,
        )[12 * i + j] == field[j] by {
            if i < n - 1 {
                assert(12 * i + j < 12 * (n - 1));
                assert(repeated_field(field, n - 1)[12 * i + j] == field[j]);
            }
        }
    }
}

/// The root menu file labels its first menu only: the two bytes `39 82`
/// at 476, then from 478 sixteen 12-byte fields that each hold the
/// encoded menu label; the other three menus (`39 5c` at 670, `39 36` at
/// 864, `39 10` at 1058) have all their label bytes zero.
pub proof fn root_menu_labels_only_the_first_menu(sig: SignatureMode, title: Seq<char>, label: Seq<char>)
    ensures
        ({
            let f = phv_file(sig, title, label);
            &&& f[476] == 0x39 && f[477] == 0x82
            &&& forall|i: int, j: int|
                0 <= i < 16 && 0 <= j < 12 ==> #[trigger] f[478 + 12 * i + j] == encoded_label(label, 12)[j]
            &&& f[670] == 0x39 && f[671] == 0x5c
            &&& f[864] == 0x39 && f[865] == 0x36
            &&& f[1058] == 0x39 && f[1059] == 0x10
            &&& forall|k: int| 672 <= k < 864 ==> #[trigger] f[k] == 0
            &&& forall|k: int| 866 <= k < 1058 ==> #[trigger] f[k] == 0
            &&& forall|k: int| 1060 <= k < 1252 ==> #[trigger] f[k] == 0
        }),
{
    let empty = encoded_label(Seq::empty(), 12);
    let lab = encoded_label(label, 12);
    lemma_notice_len(sig);
    lemma_repeated_field_len(encoded_label(title, 24), 16);
    lemma_repeated_field_at(lab, 16);
    lemma_repeated_field_at(empty, 16);
    assert(trim(Seq::<char>::empty()) =~= Seq::<char>::empty());
    assert forall|j: int| 0 <= j < 12 implies #[trigger] empty[j] == 0 by {}
    let e = repeated_field(empty, 16);
    assert forall|k: int| 0 <= k < 192 implies #[trigger] e[k] == 0 by {
        let i = k / 12;
        let j = k % 12;
        assert(k == 12 * i + j);
        assert(e[12 * i + j] == empty[j]);
    }
    let f = phv_file(sig, title, label);
    let p0 = notice_bytes(sig) + seq![0x00u8, 0x01u8, 0x00u8, 0x00u8] + repeated_field(encoded_label(title, 24), 16)
        + seq![0x5au8, 0xa0u8];
    assert(p0.len() == 476);
    let r1 = repeated_field(lab, 16);
    let tail = seq![
        0x00u8, 0x00u8, 120u8, 0x00u8, 0x00u8, 0x00u8, 0x00u8, 82u8, 0x00u8, 0x00u8,
        0x00u8, 0x00u8, 44u8, 0x00u8, 0x00u8, 0x00u8, 0x00u8, 6u8, 0x00u8, 0x00u8,
        0x00u8, 181u8, 173u8,
    ] + text_bitmap(173, 181, seq![label], 12, 28);
    assert(f == p0 + seq![0x39u8, 0x82u8] + r1 + seq![0x39u8, 0x5cu8] + e + seq![0x39u8, 0x36u8] + e
        + seq![0x39u8, 0x10u8] + e + tail);
    assert forall|i: int, j: int| 0 <= i < 16 && 0 <= j < 12 implies #[trigger] f[478 + 12 * i + j]
        == lab[j] by {
        assert(r1[12 * i + j] == lab[j]);
    }
}

proof fn lemma_thumb_len(
    px0: Seq<u8>,
    ps: Seq<StitchPoint>,
    th: Seq<Thread>,
    cell: (int, int, int, int),
    k: int,
)
    requires
        px0.len() == 238 * 244,
    ensures
        thumb_prefix(px0, ps, th, cell, k).px.len() == 238 * 244,
    decreases k,
{
    if k > 0 {
        lemma_thumb_len(px0, ps, th, cell, k - 1);
        let st = thumb_prefix(px0, ps, th, cell, k - 1);
        let p = ps[k - 1];
        let pt = thumb_pixel(ps, cell, p.x as int, p.y as int);
        if 0 <= pt.0 < 238 && 0 <= pt.1 < 244 {
            crate::raster::lemma_index_in_grid(pt.0, pt.1, 238, 244);
        }
        if let Some(q) = st.prev {
            lemma_put_pixels_len(st.px, 238, 244, line_points(q.0, q.1, pt.0, pt.1), st.color);
        }
    }
}

/// Each stitch of a menu thumbnail is drawn in its thread's color: the
/// line from the run's previous pixel (or the stitch's own pixel when it
/// starts a run) takes the MHV value of the thread the design is on.
pub proof fn thumbnail_stitches_take_their_thread_color(
    px0: Seq<u8>,
    ps: Seq<StitchPoint>,
    th: Seq<Thread>,
    cell: (int, int, int, int),
    k: int,
)
    requires
        0 <= k < ps.len(),
        px0.len() == 238 * 244,
        ps[k].command@ is Stitch,
    ensures
        ({
            let before = thumb_prefix(px0, ps, th, cell, k);
            let after = thumb_prefix(px0, ps, th, cell, k + 1);
            let c = mhv_thread_value(th, crate::preview::thread_after(ps, th, k));
            let pt = thumb_pixel(ps, cell, ps[k].x as int, ps[k].y as int);
            &&& before.prev is None && 0 <= pt.0 < 238 && 0 <= pt.1 < 244 ==> after.px[pt.1 * 238 + pt.0]
                == c
            &&& before.prev is Some ==> {
                let q = before.prev->0;
                let line = line_points(q.0, q.1, pt.0, pt.1);
                forall|m: int|
                    0 <= m < line.len() && 0 <= (#[trigger] line[m]).0 < 238 && 0 <= line[m].1 < 244
                        ==> after.px[line[m].1 * 238 + line[m].0] == c
            }
        }),
{
    let before = thumb_prefix(px0, ps, th, cell, k);
    thumbnail_draws_in_current_thread_color(px0, ps, th, cell, k);
    lemma_thumb_len(px0, ps, th, cell, k);
    let pt = thumb_pixel(ps, cell, ps[k].x as int, ps[k].y as int);
    if 0 <= pt.0 < 238 && 0 <= pt.1 < 244 {
        crate::raster::lemma_index_in_grid(pt.0, pt.1, 238, 244);
    }
    if let Some(q) = before.prev {
        crate::raster::put_pixels_paints_its_points(
            before.px,
            238,
            244,
            line_points(q.0, q.1, pt.0, pt.1),
            before.color,
        );
    }
}

/// A menu file labels its menu in all sixteen 12-byte fields after the
/// notice: from byte 86, each field holds the encoded menu label.
pub proof fn menu_file_holds_the_label_in_each_field(
    sig: SignatureMode,
    label: Seq<char>,
    designs: Seq<DiskDesignInput>,
)
    ensures
        forall|i: int, j: int|
            0 <= i < 16 && 0 <= j < 12 ==> #[trigger] mhv_file(sig, label, designs)[86 + 12 * i + j]
                == encoded_label(label, 12)[j],
{
    lemma_notice_len(sig);
    menu_file_matches_documented_offsets(sig, label, designs);
    let lab = encoded_label(label, 12);
    lemma_repeated_field_at(lab, 16);
    let f = mhv_file(sig, label, designs);
    let nb = notice_bytes(sig);
    let r = repeated_field(lab, 16);
    let rest = seq![0x77u8, 0xfbu8, 0x06u8] + Seq::new(
        36,
        |i: int| if i < designs.len() { (i + 1) as u8 } else { 0u8 },
    ) + seq![238u8, 244u8] + packed_4bpp(rotated_cw(mhv_screen(designs), 238, 244), 244, 238);
    assert(f =~= nb + r + rest);
    assert forall|i: int, j: int| 0 <= i < 16 && 0 <= j < 12 implies #[trigger] f[86 + 12 * i + j]
        == lab[j] by {
        assert(r[12 * i + j] == lab[j]);
        assert((nb + r)[86 + 12 * i + j] == r[12 * i + j]);
    }
}

} // verus!
