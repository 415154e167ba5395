//! FAT12 1.44 MB floppy images as FlashFloppy's Gotek slots hold them:
//! the boot sector, the two FAT copies, the root directory and data
//! clusters of one sector each.

use vstd::prelude::*;

verus! {

pub const FLOPPY_SIZE: usize = 1_474_560;

pub const BYTES_PER_SECTOR: usize = 512;

pub const SECTORS_PER_FAT: usize = 9;

pub const ROOT_DIR_SECTORS: usize = 14;

pub const FIRST_ROOT_SECTOR: usize = 19;

pub const FIRST_DATA_SECTOR: usize = 33;

pub const DATA_CLUSTER_COUNT: usize = 2847;

/// The byte offset of a data cluster (clusters are numbered from 2).
pub open spec fn cluster_start(cluster: int) -> int {
    (33 + (cluster - 2)) * 512
}

pub fn cluster_offset(cluster: u16) -> (r: usize)
    requires
        2 <= cluster,
    ensures
        r == cluster_start(cluster as int),
{
    (FIRST_DATA_SECTOR + (cluster as usize - 2)) * BYTES_PER_SECTOR
}

/// A 16-bit value as two little-endian bytes.
pub open spec fn le16(v: int) -> Seq<u8> {
    seq![(v % 256) as u8, (v / 256) as u8]
}

/// A 32-bit value as four little-endian bytes.
pub open spec fn le32(v: int) -> Seq<u8> {
    seq![(v % 256) as u8, ((v / 256) % 256) as u8, ((v / 0x1_0000) % 256) as u8, (v / 0x100_0000) as u8]
}

/// `img` with `bytes` written from `off`.
pub open spec fn put_bytes(img: Seq<u8>, off: int, bytes: Seq<u8>) -> Seq<u8> {
    Seq::new(
        img.len(),
        |k: int| if off <= k < off + bytes.len() { bytes[k - off] } else { img[k] },
    )
}

/// Writes `bytes` into `out` from `off`.
pub fn write_bytes(out: &mut Vec<u8>, off: usize, bytes: &[u8])
    requires
        off + bytes@.len() <= old(out)@.len(),
    ensures
        final(out)@ == put_bytes(old(out)@, off as int, bytes@),
{
    let ghost o = out@;
    let n = out.len();
    for i in 0..bytes.len()
        invariant
            n == o.len(),
            off + bytes@.len() <= o.len(),
            out@ == put_bytes(o, off as int, bytes@.take(i as int)),
    {
        out.set(off + i, bytes[i]);
        assert(out@ =~= put_bytes(o, off as int, bytes@.take(i + 1)));
    }
    assert(bytes@.take(bytes@.len() as int) =~= bytes@);
}

/// Writes a 16-bit value little-endian.
pub fn write_u16(out: &mut Vec<u8>, off: usize, value: u16)
    requires
        off + 2 <= old(out)@.len(),
    ensures
        final(out)@ == put_bytes(old(out)@, off as int, le16(value as int)),
{
    let ghost o = out@;
    let n = out.len();
    out.set(off, (value % 256) as u8);
    out.set(off + 1, (value / 256) as u8);
    assert(out@ =~= put_bytes(o, off as int, le16(value as int)));
}

/// Writes a 32-bit value little-endian.
pub fn write_u32(out: &mut Vec<u8>, off: usize, value: u32)
    requires
        off + 4 <= old(out)@.len(),
    ensures
        final(out)@ == put_bytes(old(out)@, off as int, le32(value as int)),
{
    let ghost o = out@;
    let n = out.len();
    out.set(off, (value % 256) as u8);
    out.set(off + 1, ((value / 256) % 256) as u8);
    out.set(off + 2, ((value / 0x1_0000) % 256) as u8);
    out.set(off + 3, (value / 0x100_0000) as u8);
    assert(out@ =~= put_bytes(o, off as int, le32(value as int)));
}

} // verus!

verus! {

/// The byte offset of FAT entry `n` in the first FAT.
pub open spec fn fat_offset(n: int) -> int {
    512 + (3 * n) / 2
}

/// FAT entry `n`: twelve bits, little-endian, packed two entries to three bytes.
pub open spec fn fat_entry(img: Seq<u8>, n: int) -> int {
    let off = fat_offset(n);
    if n % 2 == 0 {
        img[off] + (img[off + 1] % 16) * 256
    } else {
        img[off] / 16 + img[off + 1] * 16
    }
}

/// Setting FAT entry `n` to the low twelve bits of `v`.
pub open spec fn set_fat_entry(img: Seq<u8>, n: int, v: int) -> Seq<u8> {
    let off = fat_offset(n);
    let w = v % 4096;
    if n % 2 == 0 {
        img.update(off, (w % 256) as u8).update(off + 1, ((img[off + 1] / 16) * 16 + w / 256) as u8)
    } else {
        img.update(off, (img[off] % 16 + (w % 16) * 16) as u8).update(off + 1, (w / 16) as u8)
    }
}

/// A FAT entry number within the first FAT (nine sectors hold 3072 entries).
pub open spec fn fat_index_ok(n: int) -> bool {
    0 <= n < 3072
}

/// Setting an entry gives it the new value and leaves every other entry,
/// and every byte outside its own two, as it was.
pub proof fn lemma_set_fat_entry(img: Seq<u8>, n: int, v: int)
    requires
        img.len() == FLOPPY_SIZE,
        fat_index_ok(n),
        0 <= v,
    ensures
        set_fat_entry(img, n, v).len() == img.len(),
        fat_entry(set_fat_entry(img, n, v), n) == v % 4096,
        forall|m: int| fat_index_ok(m) && m != n ==> #[trigger] fat_entry(set_fat_entry(img, n, v), m) == fat_entry(img, m),
        forall|k: int| 0 <= k < img.len() && k != fat_offset(n) && k != fat_offset(n) + 1 ==> #[trigger] set_fat_entry(img, n, v)[k] == img[k],
{
    let s = set_fat_entry(img, n, v);
    assert forall|m: int| fat_index_ok(m) && m != n implies #[trigger] fat_entry(s, m) == fat_entry(img, m) by {
        let om = fat_offset(m);
        let on = fat_offset(n);
        if m == n + 1 || m == n - 1 {
        } else {
            assert(om + 1 < on || om > on + 1);
        }
    }
}

} // verus!

verus! {

/// Division rounding toward zero, as Rust's `/` on signed integers.
pub open spec fn tdiv(a: int, b: int) -> int {
    if a >= 0 {
        a / b
    } else {
        -((-a) / b)
    }
}

/// The civil (year, month, day) of a day count since 1970-01-01, by
/// Howard Hinnant's `civil_from_days`.
pub open spec fn civil_from_days(days: int) -> (int, int, int) {
    let z = days + 719_468;
    let era = tdiv(if z >= 0 { z } else { z - 146_096 }, 146_097);
    let doe = z - era * 146_097;
    let yoe = tdiv(doe - tdiv(doe, 1460) + tdiv(doe, 36_524) - tdiv(doe, 146_096), 365);
    let y = yoe + era * 400;
    let doy = doe - (365 * yoe + tdiv(yoe, 4) - tdiv(yoe, 100));
    let mp = tdiv(5 * doy + 2, 153);
    let d = doy - tdiv(153 * mp + 2, 5) + 1;
    let m = mp + if mp < 10 { 3int } else { -9int };
    (y + if m <= 2 { 1int } else { 0int }, m, d)
}

/// The date of a day count since 1970-01-01, as `(year as i32, month as
/// u32, day as u32)`.
pub fn ymd_from_unix_days(days_since_epoch: u64) -> (r: (i32, u32, u32))
    requires
        days_since_epoch < 0x4000_0000_0000_0000,
    ensures
        ({
            let c = civil_from_days(days_since_epoch as int);
            r == (c.0 as i32, c.1 as u32, c.2 as u32)
        }),
{
    let z = days_since_epoch as i64 + 719_468;
    let era = if z >= 0 {
        z
    } else {
        z - 146_096
    } / 146_097;
    proof {
        vstd::arithmetic::div_mod::lemma_fundamental_div_mod(z as int, 146_097);
        vstd::arithmetic::div_mod::lemma_mod_bound(z as int, 146_097);
        vstd::arithmetic::div_mod::lemma_div_is_ordered(0, z as int, 146_097);
        vstd::arithmetic::div_mod::lemma_div_is_ordered(z as int, 0x4000_0000_000B_0000int, 146_097);
    }
    let doe = z - era * 146_097;
    let yoe = (doe - doe / 1460 + doe / 36_524 - doe / 146_096) / 365;
    let y = yoe + era * 400;
    let doy = doe - (365 * yoe + yoe / 4 - yoe / 100);
    let mp = (5 * doy + 2) / 153;
    let day = doy - (153 * mp + 2) / 5 + 1;
    let month = mp + if mp < 10 {
        3
    } else {
        -9
    };
    let year = y + if month <= 2 {
        1
    } else {
        0
    };
    (year as i32, month as u32, day as u32)
}

/// A FAT directory-entry time and date.
#[derive(Debug, Clone, Copy, PartialEq, Eq, Structural)]
pub struct FatTimestamp {
    pub time: u16,
    pub date: u16,
}

pub open spec fn clamp_i(v: int, lo: int, hi: int) -> int {
    if v < lo {
        lo
    } else if v > hi {
        hi
    } else {
        v
    }
}

/// The FAT time and date of a moment given in seconds since 1970: two-second
/// resolution, years kept within 1980..=2107.
pub open spec fn timestamp_of(seconds: int) -> FatTimestamp {
    let days = seconds / 86_400;
    let ds = seconds % 86_400;
    let c = civil_from_days(days);
    let year = clamp_i((c.0 as i32) as int, 1980, 2107);
    let month = clamp_i((c.1 as u32) as int, 1, 12);
    let day = clamp_i((c.2 as u32) as int, 1, 31);
    let hour = ds / 3600;
    let minute = (ds % 3600) / 60;
    let second = (ds % 60) / 2;
    FatTimestamp {
        time: (hour * 2048 + minute * 32 + second) as u16,
        date: ((year - 1980) * 512 + month * 32 + day) as u16,
    }
}

impl FatTimestamp {
    pub fn from_unix_seconds(seconds: u64) -> (r: FatTimestamp)
        ensures
            r == timestamp_of(seconds as int),
    {
        let days = seconds / 86_400;
        let day_seconds = seconds % 86_400;
        let (year, month, day) = ymd_from_unix_days(days);
        let year: u16 = if year < 1980 {
            1980
        } else if year > 2107 {
            2107
        } else {
            year as u16
        };
        let month: u16 = if month < 1 {
            1
        } else if month > 12 {
            12
        } else {
            month as u16
        };
        let day: u16 = if day < 1 {
            1
        } else if day > 31 {
            31
        } else {
            day as u16
        };
        let hour = (day_seconds / 3600) as u16;
        let minute = ((day_seconds % 3600) / 60) as u16;
        let second = ((day_seconds % 60) / 2) as u16;
        FatTimestamp {
            time: hour * 2048 + minute * 32 + second,
            date: (year - 1980) * 512 + month * 32 + day,
        }
    }
}

} // verus!

verus! {

/// Why a FAT12 image could not be built.
#[derive(Debug, Clone, Copy, PartialEq, Eq, Structural)]
pub enum FatError {
    /// The data clusters are used up.
    Full,
    /// A name is not an 8.3 name: an empty stem, a stem over 8 bytes or an
    /// extension over 3 bytes.
    NotEightThree,
    /// A name holds a byte that 8.3 names do not allow.
    UnsupportedChar,
    /// A file or directory names a parent directory that was not created.
    ParentMissing,
    /// The directory has no free entry.
    DirectoryFull,
    /// A path has no components.
    EmptyImagePath,
}

pub open spec fn ascii_alnum(c: char) -> bool {
    ('0' <= c && c <= '9') || ('A' <= c && c <= 'Z') || ('a' <= c && c <= 'z')
}

/// A character an 8.3 name may hold.
pub open spec fn fat_name_char(c: char) -> bool {
    ascii_alnum(c) || c == '$' || c == '%' || c == '\'' || c == '-' || c == '_' || c == '@' || c
        == '~' || c == '`' || c == '!' || c == '(' || c == ')' || c == '{' || c == '}' || c == '^'
        || c == '#' || c == '&'
}

/// The index of the last `.`, if any.
pub open spec fn last_dot(s: Seq<char>) -> Option<int>
    decreases s.len(),
{
    if s.len() == 0 {
        None
    } else if s.last() == '.' {
        Some(s.len() - 1)
    } else {
        last_dot(s.drop_last())
    }
}

/// A name split at its last `.` into stem and extension.
pub open spec fn split_ext(s: Seq<char>) -> (Seq<char>, Seq<char>) {
    match last_dot(s) {
        Some(i) => (s.take(i), s.skip(i + 1)),
        None => (s, Seq::empty()),
    }
}

pub open spec fn all_fat_chars(s: Seq<char>) -> bool {
    forall|i: int| 0 <= i < s.len() ==> fat_name_char(#[trigger] s[i])
}

/// The upper-cased ASCII byte of a character.
pub open spec fn upper_byte(c: char) -> u8 {
    crate::text::ascii_upper(c) as u8
}

/// The 11 bytes of a FAT 8.3 name: stem and extension upper-cased, each
/// padded with spaces.
pub open spec fn short_name(name: Seq<char>) -> Result<Seq<u8>, FatError> {
    let t = crate::text::trim(name);
    let stem = split_ext(t).0;
    let ext = split_ext(t).1;
    if stem.len() == 0 || crate::text::utf8_len(stem) > 8 || crate::text::utf8_len(ext) > 3 {
        Err(FatError::NotEightThree)
    } else if !all_fat_chars(stem) || !all_fat_chars(ext) {
        Err(FatError::UnsupportedChar)
    } else {
        Ok(
            Seq::new(
                11,
                |i: int|
                    if i < stem.len() {
                        upper_byte(stem[i])
                    } else if 8 <= i < 8 + ext.len() {
                        upper_byte(ext[i - 8])
                    } else {
                        32u8
                    },
            ),
        )
    }
}

/// A character a volume label may hold.
pub open spec fn label_char(c: char) -> bool {
    ascii_alnum(c) || c == ' ' || c == '_' || c == '-'
}

/// The 11 bytes of a volume label: the trimmed label upper-cased and
/// padded with spaces, if it is 1 to 11 bytes of letters, digits, spaces,
/// `_` and `-`.
pub open spec fn volume_label(label: Seq<char>) -> Option<Seq<u8>> {
    let t = crate::text::trim(label);
    if t.len() == 0 || crate::text::utf8_len(t) > 11 {
        None
    } else if exists|i: int| 0 <= i < t.len() && !label_char(#[trigger] t[i]) {
        None
    } else {
        Some(Seq::new(11, |i: int| if i < t.len() { upper_byte(t[i]) } else { 32u8 }))
    }
}

fn fat_name_char_exec(c: char) -> (r: bool)
    ensures
        r == fat_name_char(c),
{
    ('0' <= c && c <= '9') || ('A' <= c && c <= 'Z') || ('a' <= c && c <= 'z') || c == '$' || c
        == '%' || c == '\'' || c == '-' || c == '_' || c == '@' || c == '~' || c == '`' || c == '!'
        || c == '(' || c == ')' || c == '{' || c == '}' || c == '^' || c == '#' || c == '&'
}

/// The byte an 8.3 name stores for a character, or why it has none.
pub fn fat_name_byte(c: char) -> (r: Result<u8, FatError>)
    ensures
        fat_name_char(c) ==> r == Ok::<u8, FatError>(upper_byte(c)),
        !fat_name_char(c) ==> r == Err::<u8, FatError>(FatError::UnsupportedChar),
{
    if fat_name_char_exec(c) {
        let u = crate::text::char_ascii_upper(c);
        Ok(u as u8)
    } else {
        Err(FatError::UnsupportedChar)
    }
}

proof fn lemma_last_dot(s: Seq<char>)
    ensures
        last_dot(s) matches Some(i) ==> 0 <= i < s.len() && s[i] == '.',
    decreases s.len(),
{
    if s.len() > 0 && s.last() != '.' {
        lemma_last_dot(s.drop_last());
    }
}

fn last_dot_exec(s: &Vec<char>) -> (r: Option<usize>)
    ensures
        match last_dot(s@) {
            Some(i) => r == Some(i as usize),
            None => r is None,
        },
{
    let mut k = s.len();
    assert(s@.take(s@.len() as int) =~= s@);
    while k > 0
        invariant
            k <= s@.len(),
            last_dot(s@) == last_dot(s@.take(k as int)),
        decreases k,
    {
        assert(s@.take(k as int).drop_last() =~= s@.take(k - 1));
        if s[k - 1] == '.' {
            return Some(k - 1);
        }
        k = k - 1;
    }
    None
}

fn copy_chars(s: &Vec<char>, start: usize, end: usize) -> (r: Vec<char>)
    requires
        start <= end <= s@.len(),
    ensures
        r@ == s@.subrange(start as int, end as int),
{
    let mut out: Vec<char> = Vec::new();
    for i in start..end
        invariant
            start <= end <= s@.len(),
            out@ == s@.subrange(start as int, i as int),
    {
        out.push(s[i]);
        assert(s@.subrange(start as int, i + 1) =~= s@.subrange(start as int, i as int).push(s@[i as int]));
    }
    out
}

/// The 11-byte FAT name of a file or directory name.
pub fn short_name_11(name: &str) -> (r: Result<Vec<u8>, FatError>)
    ensures
        match short_name(name@) {
            Ok(b) => r matches Ok(v) && v@ == b,
            Err(e) => r == Err::<Vec<u8>, FatError>(e),
        },
{
    short_name_of(&crate::text::str_chars(name))
}

fn short_name_of(chars: &Vec<char>) -> (r: Result<Vec<u8>, FatError>)
    ensures
        match short_name(chars@) {
            Ok(b) => r matches Ok(v) && v@ == b,
            Err(e) => r == Err::<Vec<u8>, FatError>(e),
        },
{
    let ghost name = chars@;
    let t = crate::text::trim_chars(chars);
    proof {
        lemma_last_dot(t@);
    }
    let tn = t.len();
    let (stem, ext) = match last_dot_exec(&t) {
        Some(i) => (copy_chars(&t, 0, i), copy_chars(&t, i + 1, tn)),
        None => (copy_chars(&t, 0, t.len()), Vec::new()),
    };
    assert(stem@ =~= split_ext(t@).0);
    assert(ext@ =~= split_ext(t@).1);
    if stem.len() == 0 || crate::text::chars_utf8_len(&stem) > 8 || crate::text::chars_utf8_len(&ext) > 3 {
        return Err(FatError::NotEightThree);
    }
    proof {
        crate::text::lemma_utf8_len_bounds(stem@);
        crate::text::lemma_utf8_len_bounds(ext@);
    }
    let mut out: Vec<u8> = vec![32u8; 11];
    for i in 0..stem.len()
        invariant
            name == chars@,
            t@ == crate::text::trim(name),
            stem@ == split_ext(t@).0,
            ext@ == split_ext(t@).1,
            stem@.len() > 0,
            crate::text::utf8_len(stem@) <= 8,
            crate::text::utf8_len(ext@) <= 3,
            stem@.len() <= 8,
            out@.len() == 11,
            forall|k: int| 0 <= k < i ==> fat_name_char(#[trigger] stem@[k]),
            forall|k: int| 0 <= k < i ==> out@[k] == upper_byte(#[trigger] stem@[k]),
            forall|k: int| i <= k < 11 ==> out@[k] == 32u8,
    {
        proof {
            crate::text::lemma_utf8_len_bounds(stem@);
        }
        match fat_name_byte(stem[i]) {
            Ok(b) => {
                out.set(i, b);
            },
            Err(e) => {
                assert(!all_fat_chars(stem@)) by {
                    assert(!fat_name_char(stem@[i as int]));
                }
                return Err(e);
            },
        }
    }
    for i in 0..ext.len()
        invariant
            name == chars@,
            t@ == crate::text::trim(name),
            stem@ == split_ext(t@).0,
            ext@ == split_ext(t@).1,
            stem@.len() > 0,
            crate::text::utf8_len(stem@) <= 8,
            crate::text::utf8_len(ext@) <= 3,
            stem@.len() <= 8,
            ext@.len() <= 3,
            out@.len() == 11,
            all_fat_chars(stem@),
            forall|k: int| 0 <= k < i ==> fat_name_char(#[trigger] ext@[k]),
            forall|k: int| 0 <= k < stem@.len() ==> out@[k] == upper_byte(#[trigger] stem@[k]),
            forall|k: int| stem@.len() <= k < 8 ==> out@[k] == 32u8,
            forall|k: int| 0 <= k < i ==> out@[8 + k] == upper_byte(#[trigger] ext@[k]),
            forall|k: int| 8 + i <= k < 11 ==> out@[k] == 32u8,
    {
        proof {
            crate::text::lemma_utf8_len_bounds(ext@);
        }
        match fat_name_byte(ext[i]) {
            Ok(b) => {
                out.set(8 + i, b);
            },
            Err(e) => {
                assert(!all_fat_chars(ext@)) by {
                    assert(!fat_name_char(ext@[i as int]));
                }
                return Err(e);
            },
        }
    }
    assert(out@ =~= short_name(name)->Ok_0);
    Ok(out)
}

fn label_char_exec(c: char) -> (r: bool)
    ensures
        r == label_char(c),
{
    ('0' <= c && c <= '9') || ('A' <= c && c <= 'Z') || ('a' <= c && c <= 'z') || c == ' ' || c
        == '_' || c == '-'
}

/// The 11-byte volume label of a label, if it can be one.
pub fn volume_label_11(label: &str) -> (r: Option<Vec<u8>>)
    ensures
        match volume_label(label@) {
            Some(b) => r matches Some(v) && v@ == b,
            None => r is None,
        },
{
    let t = crate::text::trim_chars(&crate::text::str_chars(label));
    if t.len() == 0 || crate::text::chars_utf8_len(&t) > 11 {
        return None;
    }
    proof {
        crate::text::lemma_utf8_len_bounds(t@);
    }
    let mut out: Vec<u8> = vec![32u8; 11];
    for i in 0..t.len()
        invariant
            t@ == crate::text::trim(label@),
            t@.len() > 0,
            crate::text::utf8_len(t@) <= 11,
            t@.len() <= 11,
            out@.len() == 11,
            forall|k: int| 0 <= k < i ==> label_char(#[trigger] t@[k]),
            forall|k: int| 0 <= k < i ==> out@[k] == upper_byte(#[trigger] t@[k]),
            forall|k: int| i <= k < 11 ==> out@[k] == 32u8,
    {
        let c = t[i];
        if !label_char_exec(c) {
            assert(!label_char(t@[i as int]));
            return None;
        }
        let u = crate::text::char_ascii_upper(c);
        out.set(i, u as u8);
    }
    assert(out@ =~= volume_label(label@)->Some_0);
    Some(out)
}

} // verus!

verus! {

/// A directory entry with its time and date fields set: created, written
/// (time and date) and accessed (date).
pub open spec fn with_timestamp(e: Seq<u8>, ts: FatTimestamp) -> Seq<u8> {
    put_bytes(
        put_bytes(
            put_bytes(
                put_bytes(put_bytes(e, 14, le16(ts.time as int)), 16, le16(ts.date as int)),
                18,
                le16(ts.date as int),
            ),
            22,
            le16(ts.time as int),
        ),
        24,
        le16(ts.date as int),
    )
}

/// A 32-byte directory entry: name, attributes, timestamps, first cluster and size.
pub open spec fn dir_entry(name11: Seq<u8>, attr: u8, ts: FatTimestamp, cluster: int, size: int) -> Seq<u8> {
    let base = Seq::new(32, |i: int| if i < 11 { name11[i] } else if i == 11 { attr } else { 0u8 });
    put_bytes(put_bytes(with_timestamp(base, ts), 26, le16(cluster)), 28, le32(size))
}

pub open spec fn dot_name() -> Seq<u8> {
    seq![46u8, 32, 32, 32, 32, 32, 32, 32, 32, 32, 32]
}

pub open spec fn dotdot_name() -> Seq<u8> {
    seq![46u8, 46, 32, 32, 32, 32, 32, 32, 32, 32, 32]
}

impl FatTimestamp {
    /// Writes the time and date fields of a directory entry.
    pub fn write_to_dir_entry(self, entry: &mut Vec<u8>)
        requires
            old(entry)@.len() == 32,
        ensures
            final(entry)@ == with_timestamp(old(entry)@, self),
    {
        write_u16(entry, 14, self.time);
        write_u16(entry, 16, self.date);
        write_u16(entry, 18, self.date);
        write_u16(entry, 22, self.time);
        write_u16(entry, 24, self.date);
    }
}

fn make_dir_entry(name11: &Vec<u8>, attr: u8, ts: FatTimestamp, cluster: u16, size: u32) -> (r: Vec<u8>)
    requires
        name11@.len() == 11,
    ensures
        r@ == dir_entry(name11@, attr, ts, cluster as int, size as int),
        r@.len() == 32,
{
    let mut e: Vec<u8> = vec![0u8; 32];
    for i in 0..11usize
        invariant
            name11@.len() == 11,
            e@.len() == 32,
            forall|k: int| 0 <= k < i ==> e@[k] == name11@[k],
            forall|k: int| i <= k < 32 ==> e@[k] == 0u8,
    {
        e.set(i, name11[i]);
    }
    e.set(11, attr);
    assert(e@ =~= Seq::new(32, |i: int| if i < 11 { name11@[i] } else if i == 11 { attr } else { 0u8 }));
    ts.write_to_dir_entry(&mut e);
    write_u16(&mut e, 26, cluster);
    write_u32(&mut e, 28, size);
    e
}

/// The builder's state: the image, the next free cluster, and the
/// directories created so far with their clusters.
pub struct FatModel {
    pub image: Seq<u8>,
    pub next: int,
    pub dirs: Seq<(Seq<char>, int)>,
}

/// The cluster of the first directory named `path`.
pub open spec fn dir_lookup(dirs: Seq<(Seq<char>, int)>, path: Seq<char>) -> Option<int>
    decreases dirs.len(),
{
    if dirs.len() == 0 {
        None
    } else if dirs[0].0 == path {
        Some(dirs[0].1)
    } else {
        dir_lookup(dirs.drop_first(), path)
    }
}

/// An entry slot is free: never used (0x00) or deleted (0xe5).
pub open spec fn entry_free(img: Seq<u8>, off: int) -> bool {
    img[off] == 0x00 || img[off] == 0xe5
}

/// The first free slot among `count` 32-byte slots from `start`, from slot `k` on.
pub open spec fn first_free_from(img: Seq<u8>, start: int, count: int, k: int) -> Option<int>
    decreases count - k,
{
    if k >= count {
        None
    } else if entry_free(img, start + 32 * k) {
        Some(start + 32 * k)
    } else {
        first_free_from(img, start, count, k + 1)
    }
}

/// The slots of a directory: the 224 root entries, or the 16 entries of a
/// created directory's cluster.
pub open spec fn dir_slots(dirs: Seq<(Seq<char>, int)>, parent: Option<Seq<char>>) -> Option<(int, int)> {
    match parent {
        None => Some((9728int, 224int)),
        Some(p) => match dir_lookup(dirs, p) {
            Some(c) => Some((cluster_start(c), 16)),
            None => None,
        },
    }
}

/// Writing an entry into the first free slot of a directory.
pub open spec fn write_entry(
    img: Seq<u8>,
    dirs: Seq<(Seq<char>, int)>,
    parent: Option<Seq<char>>,
    entry: Seq<u8>,
) -> Result<Seq<u8>, FatError> {
    match dir_slots(dirs, parent) {
        None => Err(FatError::ParentMissing),
        Some(r) => match first_free_from(img, r.0, r.1, 0) {
            None => Err(FatError::DirectoryFull),
            Some(off) => Ok(put_bytes(img, off, entry)),
        },
    }
}

/// The FAT after chaining clusters `first..first + j`: each entry points
/// at the next, the chain's last entry is the end mark 0xfff.
pub open spec fn chain_upto(img: Seq<u8>, first: int, count: int, j: int) -> Seq<u8>
    decreases j,
{
    if j <= 0 {
        img
    } else {
        set_fat_entry(
            chain_upto(img, first, count, j - 1),
            first + j - 1,
            if j == count { 0xfff } else { first + j },
        )
    }
}

/// Allocating `count` clusters from `m.next`: the chained image and the
/// first cluster, or `Full` past the last data cluster.
pub open spec fn alloc_spec(m: FatModel, count: int) -> Result<(FatModel, int), FatError> {
    if m.next + count - 1 >= 2849 {
        Err(FatError::Full)
    } else {
        Ok(
            (
                FatModel { image: chain_upto(m.image, m.next, count, count), next: m.next + count, dirs: m.dirs },
                m.next,
            ),
        )
    }
}

/// A path split at its last `/` into parent and name.
pub open spec fn split_path(path: Seq<char>) -> (Option<Seq<char>>, Seq<char>) {
    match last_slash(path) {
        Some(i) => (Some(path.take(i)), path.skip(i + 1)),
        None => (None, path),
    }
}

pub open spec fn last_slash(s: Seq<char>) -> Option<int>
    decreases s.len(),
{
    if s.len() == 0 {
        None
    } else if s.last() == '/' {
        Some(s.len() - 1)
    } else {
        last_slash(s.drop_last())
    }
}

/// A fresh directory cluster: zeroed, then `.` and `..` entries.
pub open spec fn init_dir(img: Seq<u8>, cluster: int, parent_cluster: int, ts: FatTimestamp) -> Seq<u8> {
    let off = cluster_start(cluster);
    let z = put_bytes(img, off, Seq::new(512, |i: int| 0u8));
    put_bytes(
        put_bytes(z, off, dir_entry(dot_name(), 0x10, ts, cluster, 0)),
        off + 32,
        dir_entry(dotdot_name(), 0x10, ts, parent_cluster, 0),
    )
}

/// Adding the directory `path` (a no-op when it exists).
#[verifier::opaque]
pub open spec fn add_dir_spec(m: FatModel, path: Seq<char>, ts: FatTimestamp) -> Result<FatModel, FatError> {
    let parent = split_path(path).0;
    let name = split_path(path).1;
    if dir_lookup(m.dirs, path) is Some {
        Ok(m)
    } else {
        match alloc_spec(m, 1) {
            Err(e) => Err(e),
            Ok(a) => {
                let c = a.1;
                let pc = match parent {
                    Some(p) => match dir_lookup(m.dirs, p) {
                        Some(x) => x,
                        None => 0,
                    },
                    None => 0,
                };
                let img = init_dir(a.0.image, c, pc, ts);
                let dirs = m.dirs.push((path, c));
                match short_name(name) {
                    Err(e) => Err(e),
                    Ok(sn) => match write_entry(img, dirs, parent, dir_entry(sn, 0x10, ts, c, 0)) {
                        Err(e) => Err(e),
                        Ok(img2) => Ok(FatModel { image: img2, next: a.0.next, dirs }),
                    },
                }
            },
        }
    }
}

/// The clusters a file of `len` bytes takes: one per started sector, at least one.
pub open spec fn clusters_for(len: int) -> int {
    if len == 0 {
        1
    } else {
        (len + 511) / 512
    }
}

/// Adding the file `path` holding `data`.
#[verifier::opaque]
pub open spec fn add_file_spec(m: FatModel, path: Seq<char>, data: Seq<u8>, ts: FatTimestamp) -> Result<FatModel, FatError> {
    let parent = split_path(path).0;
    let name = split_path(path).1;
    match alloc_spec(m, clusters_for(data.len() as int)) {
        Err(e) => Err(e),
        Ok(a) => {
            let first = a.1;
            let img = put_bytes(a.0.image, cluster_start(first), data);
            match short_name(name) {
                Err(e) => Err(e),
                Ok(sn) => match write_entry(img, m.dirs, parent, dir_entry(sn, 0x20, ts, first, data.len() as int)) {
                    Err(e) => Err(e),
                    Ok(img2) => Ok(FatModel { image: img2, next: a.0.next, dirs: m.dirs }),
                },
            }
        },
    }
}

/// Adding a volume-label entry to the root directory.
pub open spec fn add_label_spec(m: FatModel, label11: Seq<u8>, ts: FatTimestamp) -> Result<FatModel, FatError> {
    match write_entry(m.image, m.dirs, None, dir_entry(label11, 0x08, ts, 0, 0)) {
        Err(e) => Err(e),
        Ok(img) => Ok(FatModel { image: img, next: m.next, dirs: m.dirs }),
    }
}

/// The second FAT made a copy of the first.
pub open spec fn finish_spec(img: Seq<u8>) -> Seq<u8> {
    put_bytes(img, 5120, img.subrange(512, 5120))
}

} // verus!

verus! {

/// Builds a FAT12 image in memory.
pub struct FatBuilder {
    image: Vec<u8>,
    next_cluster: u16,
    dirs: Vec<(Vec<char>, u16)>,
}

pub open spec fn dirs_view(dirs: Seq<(Vec<char>, u16)>) -> Seq<(Seq<char>, int)> {
    dirs.map_values(|d: (Vec<char>, u16)| (d.0@, d.1 as int))
}

impl FatBuilder {
    pub closed spec fn model(&self) -> FatModel {
        FatModel { image: self.image@, next: self.next_cluster as int, dirs: dirs_view(self.dirs@) }
    }

    /// The image has floppy size, the next cluster is a data cluster or one
    /// past the last, and every directory's cluster was allocated before it.
    pub closed spec fn wf(&self) -> bool {
        &&& self.image@.len() == FLOPPY_SIZE
        &&& 2 <= self.next_cluster <= 2849
        &&& forall|k: int| 0 <= k < self.dirs@.len() ==> 2 <= (#[trigger] self.dirs@[k]).1 < self.next_cluster
    }

    pub open spec fn model_wf(m: FatModel) -> bool {
        &&& m.image.len() == FLOPPY_SIZE
        &&& 2 <= m.next <= 2849
        &&& forall|k: int| 0 <= k < m.dirs.len() ==> 2 <= (#[trigger] m.dirs[k]).1 < m.next
    }

    fn set_fat(&mut self, cluster: u16, value: u16)
        requires
            old(self).image@.len() == FLOPPY_SIZE,
            cluster < 3072,
        ensures
            final(self).image@ == set_fat_entry(old(self).image@, cluster as int, value as int),
            final(self).next_cluster == old(self).next_cluster,
            final(self).dirs == old(self).dirs,
    {
        let offset = BYTES_PER_SECTOR + (cluster as usize * 3) / 2;
        let v = value % 4096;
        if cluster % 2 == 0 {
            let hi = self.image[offset + 1];
            self.image.set(offset, (v % 256) as u8);
            self.image.set(offset + 1, ((hi / 16) * 16 + (v / 256) as u8));
        } else {
            let lo = self.image[offset];
            self.image.set(offset, lo % 16 + ((v % 16) * 16) as u8);
            self.image.set(offset + 1, (v / 16) as u8);
        }
    }
}

} // verus!

verus! {

fn last_slash_exec(s: &Vec<char>) -> (r: Option<usize>)
    ensures
        match last_slash(s@) {
            Some(i) => r == Some(i as usize) && 0 <= i < s@.len(),
            None => r is None,
        },
{
    let mut k = s.len();
    assert(s@.take(s@.len() as int) =~= s@);
    while k > 0
        invariant
            k <= s@.len(),
            last_slash(s@) == last_slash(s@.take(k as int)),
        decreases k,
    {
        assert(s@.take(k as int).drop_last() =~= s@.take(k - 1));
        if s[k - 1] == '/' {
            return Some(k - 1);
        }
        k = k - 1;
    }
    None
}

/// Splits an image path at its last `/` into parent and name.
pub fn split_image_path(path: &Vec<char>) -> (r: (Option<Vec<char>>, Vec<char>))
    ensures
        match split_path(path@).0 {
            Some(p) => r.0 matches Some(v) && v@ == p,
            None => r.0 is None,
        },
        r.1@ == split_path(path@).1,
{
    let n = path.len();
    match last_slash_exec(path) {
        Some(i) => {
            let parent = copy_chars(path, 0, i);
            let name = copy_chars(path, i + 1, n);
            assert(parent@ =~= path@.take(i as int));
            assert(name@ =~= path@.skip(i + 1));
            (Some(parent), name)
        },
        None => {
            let name = copy_chars(path, 0, path.len());
            assert(name@ =~= path@);
            (None, name)
        },
    }
}

impl FatBuilder {
    /// A builder on an image whose first two FAT entries hold the media byte.
    pub fn new(image: Vec<u8>) -> (r: FatBuilder)
        requires
            image@.len() == FLOPPY_SIZE,
        ensures
            r.wf(),
            r.model() == (FatModel {
                image: set_fat_entry(set_fat_entry(image@, 0, 0xff0), 1, 0xfff),
                next: 2,
                dirs: Seq::empty(),
            }),
    {
        let mut this = FatBuilder { image, next_cluster: 2, dirs: Vec::new() };
        this.set_fat(0, 0xff0);
        proof {
            lemma_set_fat_entry(image@, 0, 0xff0);
        }
        this.set_fat(1, 0xfff);
        assert(dirs_view(this.dirs@) =~= Seq::<(Seq<char>, int)>::empty());
        this
    }

    fn alloc_chain(&mut self, count: usize) -> (r: Result<u16, FatError>)
        requires
            old(self).wf(),
            count >= 1,
        ensures
            final(self).wf(),
            match alloc_spec(old(self).model(), count as int) {
                Err(e) => r == Err::<u16, FatError>(e) && final(self).model() == old(self).model(),
                Ok(a) => r == Ok::<u16, FatError>(a.1 as u16) && final(self).model() == a.0,
            },
    {
        let first = self.next_cluster;
        if count > 2849 - first as usize {
            return Err(FatError::Full);
        }
        let last = first + count as u16 - 1;
        let ghost img0 = self.image@;
        let mut c = first;
        while c <= last
            invariant
                self.image@.len() == FLOPPY_SIZE,
                2 <= first <= c <= last + 1,
                last == first + count - 1,
                last < 2849,
                self.next_cluster == first,
                self.dirs == old(self).dirs,
                img0 == old(self).image@,
                self.image@ == chain_upto(img0, first as int, count as int, c - first),
            decreases last + 1 - c,
        {
            let value: u16 = if c == last {
                0xfff
            } else {
                c + 1
            };
            proof {
                lemma_set_fat_entry(self.image@, c as int, value as int);
            }
            self.set_fat(c, value);
            c = c + 1;
        }
        self.next_cluster = last + 1;
        proof {
            assert(dirs_view(self.dirs@) == dirs_view(old(self).dirs@));
        }
        Ok(first)
    }

    fn zero_cluster(&mut self, cluster: u16)
        requires
            old(self).image@.len() == FLOPPY_SIZE,
            2 <= cluster < 2849,
        ensures
            final(self).image@ == put_bytes(old(self).image@, cluster_start(cluster as int), Seq::new(512, |i: int| 0u8)),
            final(self).next_cluster == old(self).next_cluster,
            final(self).dirs == old(self).dirs,
    {
        let zeros: Vec<u8> = vec![0u8; 512];
        assert(zeros@ =~= Seq::new(512, |i: int| 0u8));
        let off = cluster_offset(cluster);
        write_bytes(&mut self.image, off, zeros.as_slice());
    }

    fn init_dir_cluster(&mut self, cluster: u16, parent_cluster: u16, timestamp: FatTimestamp)
        requires
            old(self).image@.len() == FLOPPY_SIZE,
            2 <= cluster < 2849,
        ensures
            final(self).image@ == put_bytes(
                put_bytes(old(self).image@, cluster_start(cluster as int), dir_entry(dot_name(), 0x10, timestamp, cluster as int, 0)),
                cluster_start(cluster as int) + 32,
                dir_entry(dotdot_name(), 0x10, timestamp, parent_cluster as int, 0),
            ),
            final(self).next_cluster == old(self).next_cluster,
            final(self).dirs == old(self).dirs,
    {
        let offset = cluster_offset(cluster);
        let dot_n: Vec<u8> = vec![46u8, 32, 32, 32, 32, 32, 32, 32, 32, 32, 32];
        let dotdot_n: Vec<u8> = vec![46u8, 46, 32, 32, 32, 32, 32, 32, 32, 32, 32];
        assert(dot_n@ =~= dot_name());
        assert(dotdot_n@ =~= dotdot_name());
        let dot = make_dir_entry(&dot_n, 0x10, timestamp, cluster, 0);
        write_bytes(&mut self.image, offset, dot.as_slice());
        let dotdot = make_dir_entry(&dotdot_n, 0x10, timestamp, parent_cluster, 0);
        write_bytes(&mut self.image, offset + 32, dotdot.as_slice());
    }

    fn lookup(&self, path: &Vec<char>) -> (r: Option<u16>)
        ensures
            match r {
                Some(x) => dir_lookup(dirs_view(self.dirs@), path@) == Some(x as int),
                None => dir_lookup(dirs_view(self.dirs@), path@) is None,
            },
            r matches Some(c) ==> exists|k: int| 0 <= k < self.dirs@.len() && (#[trigger] self.dirs@[k]).1 == c,
    {
        let ghost dv = dirs_view(self.dirs@);
        assert(dv.skip(0) =~= dv);
        for i in 0..self.dirs.len()
            invariant
                dv == dirs_view(self.dirs@),
                dir_lookup(dv, path@) == dir_lookup(dv.skip(i as int), path@),
        {
            assert(dv.skip(i as int)[0] == (self.dirs@[i as int].0@, self.dirs@[i as int].1 as int));
            if crate::text::chars_eq(&self.dirs[i].0, path) {
                return Some(self.dirs[i].1);
            }
            assert(dv.skip(i as int).drop_first() =~= dv.skip(i + 1));
        }
        None
    }
}

} // verus!

verus! {

impl FatBuilder {
    fn write_dir_entry(&mut self, parent: &Option<Vec<char>>, entry: &Vec<u8>) -> (r: Result<(), FatError>)
        requires
            old(self).wf(),
            entry@.len() == 32,
        ensures
            final(self).wf(),
            final(self).next_cluster == old(self).next_cluster,
            final(self).dirs == old(self).dirs,
            match write_entry(
                old(self).image@,
                dirs_view(old(self).dirs@),
                match parent {
                    Some(p) => Some(p@),
                    None => None,
                },
                entry@,
            ) {
                Ok(img) => r is Ok && final(self).image@ == img,
                Err(e) => r == Err::<(), FatError>(e) && final(self).image@ == old(self).image@,
            },
    {
        let ghost pv: Option<Seq<char>> = match parent {
            Some(p) => Some(p@),
            None => None,
        };
        let (start, count): (usize, usize) = match parent {
            None => (9728, 224),
            Some(p) => match self.lookup(p) {
                Some(c) => {
                    proof {
                        let k = choose|k: int| 0 <= k < self.dirs@.len() && (#[trigger] self.dirs@[k]).1 == c;
                        assert(2 <= self.dirs@[k].1 < self.next_cluster);
                    }
                    (cluster_offset(c), 16)
                },
                None => {
                    return Err(FatError::ParentMissing);
                },
            },
        };
        assert(dir_slots(dirs_view(self.dirs@), pv) == Some((start as int, count as int)));
        assert(pv == match parent {
            Some(p) => Some(p@),
            None => None::<Seq<char>>,
        });
        assert(start + 32 * count <= FLOPPY_SIZE);
        let ghost img = self.image@;
        let mut k: usize = 0;
        while k < count
            invariant
                self.image@ == img,
                img == old(self).image@,
                self.next_cluster == old(self).next_cluster,
                self.dirs == old(self).dirs,
                old(self).wf(),
                entry@.len() == 32,
                dir_slots(dirs_view(old(self).dirs@), pv) == Some((start as int, count as int)),
                pv == match parent {
                    Some(p) => Some(p@),
                    None => None::<Seq<char>>,
                },
                img.len() == FLOPPY_SIZE,
                start + 32 * count <= FLOPPY_SIZE,
                k <= count,
                first_free_from(img, start as int, count as int, 0) == first_free_from(img, start as int, count as int, k as int),
            decreases count - k,
        {
            let off = start + 32 * k;
            if self.image[off] == 0x00 || self.image[off] == 0xe5 {
                assert(first_free_from(img, start as int, count as int, k as int) == Some(off as int));
                write_bytes(&mut self.image, off, entry.as_slice());
                assert(write_entry(img, dirs_view(old(self).dirs@), pv, entry@) == Ok::<Seq<u8>, FatError>(
                    put_bytes(img, off as int, entry@),
                ));
                return Ok(());
            }
            k = k + 1;
        }
        Err(FatError::DirectoryFull)
    }

    /// Adds a directory (nothing when it exists): one cluster with `.` and
    /// `..` entries, and its entry in the parent directory.
    fn add_dir(&mut self, path: &Vec<char>, timestamp: FatTimestamp) -> (r: Result<(), FatError>)
        requires
            old(self).wf(),
        ensures
            final(self).wf(),
            match add_dir_spec(old(self).model(), path@, timestamp) {
                Ok(m) => r is Ok && final(self).model() == m,
                Err(e) => r == Err::<(), FatError>(e),
            },
    {
        reveal(add_dir_spec);
        let ghost m0 = self.model();
        let (parent, name) = split_image_path(path);
        if self.lookup(path).is_some() {
            return Ok(());
        }
        let cluster = match self.alloc_chain(1) {
            Ok(c) => c,
            Err(e) => return Err(e),
        };
        let ghost img1 = self.image@;
        self.zero_cluster(cluster);
        let parent_cluster = match &parent {
            Some(p) => match self.lookup(p) {
                Some(c) => c,
                None => 0,
            },
            None => 0,
        };
        self.init_dir_cluster(cluster, parent_cluster, timestamp);
        let owned = copy_chars(path, 0, path.len());
        assert(owned@ =~= path@);
        self.dirs.push((owned, cluster));
        proof {
            assert(dirs_view(self.dirs@) =~= m0.dirs.push((path@, cluster as int)));
            assert(self.image@ == init_dir(img1, cluster as int, parent_cluster as int, timestamp));
        }
        let sn = match short_name_of(&name) {
            Ok(v) => v,
            Err(e) => return Err(e),
        };
        let entry = make_dir_entry(&sn, 0x10, timestamp, cluster, 0);
        self.write_dir_entry(&parent, &entry)
    }

    /// Adds a file: its data in a chain of fresh clusters, and its entry in
    /// the parent directory.
    fn add_file(&mut self, path: &Vec<char>, data: &[u8], timestamp: FatTimestamp) -> (r: Result<(), FatError>)
        requires
            old(self).wf(),
        ensures
            final(self).wf(),
            match add_file_spec(old(self).model(), path@, data@, timestamp) {
                Ok(m) => r is Ok && final(self).model() == m,
                Err(e) => r == Err::<(), FatError>(e),
            },
    {
        reveal(add_file_spec);
        let ghost m0 = self.model();
        let (parent, name) = split_image_path(path);
        let len = data.len();
        let needed: usize = if len == 0 {
            1
        } else {
            len / 512 + if len % 512 == 0 {
                0
            } else {
                1
            }
        };
        assert(needed == clusters_for(len as int)) by {
            if len > 0 {
                vstd::arithmetic::div_mod::lemma_fundamental_div_mod(len as int, 512);
                vstd::arithmetic::div_mod::lemma_fundamental_div_mod(len + 511, 512);
            }
        }
        let first = match self.alloc_chain(needed) {
            Ok(c) => c,
            Err(e) => return Err(e),
        };
        assert(len <= 512 * needed) by {
            vstd::arithmetic::div_mod::lemma_fundamental_div_mod(len as int, 512);
        }
        let off = cluster_offset(first);
        assert(off + len <= FLOPPY_SIZE);
        write_bytes(&mut self.image, off, data);
        let sn = match short_name_of(&name) {
            Ok(v) => v,
            Err(e) => return Err(e),
        };
        let entry = make_dir_entry(&sn, 0x20, timestamp, first, len as u32);
        self.write_dir_entry(&parent, &entry)
    }

    /// Adds the volume-label entry to the root directory.
    fn add_volume_label(&mut self, label11: &Vec<u8>, timestamp: FatTimestamp) -> (r: Result<(), FatError>)
        requires
            old(self).wf(),
            label11@.len() == 11,
        ensures
            final(self).wf(),
            match add_label_spec(old(self).model(), label11@, timestamp) {
                Ok(m) => r is Ok && final(self).model() == m,
                Err(e) => r == Err::<(), FatError>(e),
            },
    {
        let entry = make_dir_entry(label11, 0x08, timestamp, 0, 0);
        self.write_dir_entry(&None, &entry)
    }

    /// The image, with the second FAT a copy of the first.
    fn finish(self) -> (r: Vec<u8>)
        requires
            self.wf(),
        ensures
            r@ == finish_spec(self.model().image),
    {
        let mut image = self.image;
        let ghost img0 = image@;
        for i in 0..4608usize
            invariant
                img0.len() == FLOPPY_SIZE,
                image@ == put_bytes(img0, 5120, img0.subrange(512, 5120).take(i as int)),
        {
            let b = image[512 + i];
            assert(b == img0[512 + i]);
            image.set(5120 + i, b);
            assert(image@ =~= put_bytes(img0, 5120, img0.subrange(512, 5120).take(i + 1)));
        }
        assert(img0.subrange(512, 5120).take(4608) =~= img0.subrange(512, 5120));
        image
    }
}

} // verus!

verus! {

pub open spec fn ascii_seq(s: Seq<char>) -> Seq<u8> {
    s.map_values(|c: char| c as u8)
}

/// The 512-byte boot sector: jump, OEM name, the 1.44 MB BIOS parameter
/// block, the serial number, the volume label (`NO NAME` without one),
/// the file-system type, a small boot stub, one partition entry and the
/// 0x55 0xaa signature.
pub open spec fn boot_sector(label: Option<Seq<u8>>, serial: u32) -> Seq<u8> {
    let z = Seq::new(512, |i: int| 0u8);
    let b1 = put_bytes(z, 0, seq![0xebu8, 0x3c, 0x90]);
    let b2 = put_bytes(b1, 3, seq![77u8, 84, 79, 79, 52, 48, 52, 57]);
    let b3 = put_bytes(b2, 11, le16(512));
    let b4 = put_bytes(b3, 13, seq![1u8]);
    let b5 = put_bytes(b4, 14, le16(1));
    let b6 = put_bytes(b5, 16, seq![2u8]);
    let b7 = put_bytes(b6, 17, le16(224));
    let b8 = put_bytes(b7, 19, le16(2880));
    let b9 = put_bytes(b8, 21, seq![0xf0u8]);
    let b10 = put_bytes(b9, 22, le16(9));
    let b11 = put_bytes(b10, 24, le16(18));
    let b12 = put_bytes(b11, 26, le16(2));
    let b13 = put_bytes(b12, 38, seq![0x29u8]);
    let b14 = put_bytes(b13, 39, le32(serial as int));
    let b15 = put_bytes(
        b14,
        43,
        match label {
            Some(l) => l,
            None => seq![78u8, 79, 32, 78, 65, 77, 69, 32, 32, 32, 32],
        },
    );
    let b16 = put_bytes(b15, 54, seq![70u8, 65, 84, 49, 50, 32, 32, 32]);
    let b17 = put_bytes(b16, 62, boot_code());
    let b18 = put_bytes(b17, 446, seq![0x80u8, 0x00, 0x01, 0x00, 0x01, 0x01, 0x12, 0x4f, 0x00, 0x00, 0x00, 0x00, 0x40, 0x0b, 0x00, 0x00]);
    put_bytes(b18, 510, seq![0x55u8, 0xaa])
}

pub open spec fn boot_code() -> Seq<u8> {
    seq![
        0xfau8, 0x31, 0xc0, 0x8e, 0xd8, 0x8e, 0xc0, 0xfc, 0xb9, 0x00, 0x01, 0xbe, 0x00, 0x7c, 0xbf,
        0x00, 0x80, 0xf3, 0xa5, 0xea, 0x56, 0x00, 0x00, 0x08, 0xb8, 0x01, 0x02, 0xbb, 0x00, 0x7c,
        0xba, 0x80, 0x00, 0xb9, 0x01, 0x00, 0xcd, 0x13, 0x72, 0x05, 0xea, 0x00, 0x7c, 0x00, 0x00,
        0xcd, 0x19, 0x00,
    ]
}

/// The label field of a volume label, if the label can be one.
pub open spec fn label_of(label: Option<Seq<char>>) -> Option<Seq<u8>> {
    match label {
        Some(l) => volume_label(l),
        None => None,
    }
}

/// Writes the boot sector into the first 512 bytes of an image.
pub fn write_boot_sector(image: &mut Vec<u8>, label: Option<&str>, serial: u32)
    requires
        old(image)@.len() == FLOPPY_SIZE,
    ensures
        final(image)@ == put_bytes(
            old(image)@,
            0,
            boot_sector(
                label_of(
                    match label {
                        Some(l) => Some(l@),
                        None => None,
                    },
                ),
                serial,
            ),
        ),
{
    let ghost l = label_of(
        match label {
            Some(l) => Some(l@),
            None => None,
        },
    );
    let volume: Vec<u8> = match label {
        Some(s) => match volume_label_11(s) {
            Some(v) => v,
            None => vec![78u8, 79, 32, 78, 65, 77, 69, 32, 32, 32, 32],
        },
        None => vec![78u8, 79, 32, 78, 65, 77, 69, 32, 32, 32, 32],
    };
    assert(volume@ =~= match l {
        Some(v) => v,
        None => seq![78u8, 79, 32, 78, 65, 77, 69, 32, 32, 32, 32],
    });
    let mut boot: Vec<u8> = vec![0u8; 512];
    assert(boot@ =~= Seq::new(512, |i: int| 0u8));
    write_bytes(&mut boot, 0, [0xebu8, 0x3c, 0x90].as_slice());
    write_bytes(&mut boot, 3, [77u8, 84, 79, 79, 52, 48, 52, 57].as_slice());
    write_u16(&mut boot, 11, 512);
    boot.set(13, 1);
    write_u16(&mut boot, 14, 1);
    boot.set(16, 2);
    write_u16(&mut boot, 17, 224);
    write_u16(&mut boot, 19, 2880);
    boot.set(21, 0xf0);
    write_u16(&mut boot, 22, 9);
    write_u16(&mut boot, 24, 18);
    write_u16(&mut boot, 26, 2);
    boot.set(38, 0x29);
    write_u32(&mut boot, 39, serial);
    write_bytes(&mut boot, 43, volume.as_slice());
    write_bytes(&mut boot, 54, [70u8, 65, 84, 49, 50, 32, 32, 32].as_slice());
    let code: Vec<u8> = vec![
        0xfau8, 0x31, 0xc0, 0x8e, 0xd8, 0x8e, 0xc0, 0xfc, 0xb9, 0x00, 0x01, 0xbe, 0x00, 0x7c, 0xbf,
        0x00, 0x80, 0xf3, 0xa5, 0xea, 0x56, 0x00, 0x00, 0x08, 0xb8, 0x01, 0x02, 0xbb, 0x00, 0x7c,
        0xba, 0x80, 0x00, 0xb9, 0x01, 0x00, 0xcd, 0x13, 0x72, 0x05, 0xea, 0x00, 0x7c, 0x00, 0x00,
        0xcd, 0x19, 0x00,
    ];
    assert(code@ =~= boot_code());
    write_bytes(&mut boot, 62, code.as_slice());
    write_bytes(&mut boot, 446, [0x80u8, 0x00, 0x01, 0x00, 0x01, 0x01, 0x12, 0x4f, 0x00, 0x00, 0x00, 0x00, 0x40, 0x0b, 0x00, 0x00].as_slice());
    write_bytes(&mut boot, 510, [0x55u8, 0xaa].as_slice());
    assert(boot@ =~= boot_sector(l, serial));
    write_bytes(image, 0, boot.as_slice());
}

} // verus!

verus! {

/// A file or directory to place in an image, by its `/`-separated 8.3 path.
pub struct ImageEntry {
    pub image_path: String,
    pub is_dir: bool,
    pub timestamp: FatTimestamp,
    /// A file's contents (empty for a directory).
    pub data: Vec<u8>,
}

/// Adding the entries in order.
pub open spec fn add_entries_spec(m: FatModel, entries: Seq<ImageEntry>) -> Result<FatModel, FatError>
    decreases entries.len(),
{
    if entries.len() == 0 {
        Ok(m)
    } else {
        let e = entries[0];
        let step = if e.is_dir {
            add_dir_spec(m, e.image_path@, e.timestamp)
        } else {
            add_file_spec(m, e.image_path@, e.data@, e.timestamp)
        };
        match step {
            Err(err) => Err(err),
            Ok(m2) => add_entries_spec(m2, entries.drop_first()),
        }
    }
}

/// The builder's state before the entries: boot sector, media entries,
/// and the volume label's root entry when the label can be one.
pub open spec fn image_start(label: Option<Seq<char>>, now: FatTimestamp, serial: u32) -> Result<FatModel, FatError> {
    let vl = label_of(label);
    let img0 = put_bytes(Seq::new(FLOPPY_SIZE as nat, |i: int| 0u8), 0, boot_sector(vl, serial));
    let m0 = FatModel {
        image: set_fat_entry(set_fat_entry(img0, 0, 0xff0), 1, 0xfff),
        next: 2,
        dirs: Seq::empty(),
    };
    match vl {
        Some(l) => add_label_spec(m0, l, now),
        None => Ok(m0),
    }
}

/// The FAT12 image holding `entries`, labelled `label`, the label entry
/// stamped `now` and the boot sector carrying `serial`.
pub open spec fn fat_image(
    entries: Seq<ImageEntry>,
    label: Option<Seq<char>>,
    now: FatTimestamp,
    serial: u32,
) -> Result<Seq<u8>, FatError> {
    match image_start(label, now, serial) {
        Err(e) => Err(e),
        Ok(m) => match add_entries_spec(m, entries) {
            Err(e) => Err(e),
            Ok(m2) => Ok(finish_spec(m2.image)),
        },
    }
}

pub open spec fn opt_chars(label: Option<&str>) -> Option<Seq<char>> {
    match label {
        Some(l) => Some(l@),
        None => None,
    }
}

/// Builds a FAT12 image of `entries`, with the label entry stamped `now`
/// and the boot sector's serial number `serial`.
pub fn build_fat12_image_at(
    entries: &[ImageEntry],
    label: Option<&str>,
    now: FatTimestamp,
    serial: u32,
) -> (r: Result<Vec<u8>, FatError>)
    ensures
        match fat_image(entries@, opt_chars(label), now, serial) {
            Ok(b) => r matches Ok(v) && v@ == b,
            Err(e) => r == Err::<Vec<u8>, FatError>(e),
        },
{
    let mut image: Vec<u8> = vec![0u8; FLOPPY_SIZE];
    assert(image@ =~= Seq::new(FLOPPY_SIZE as nat, |i: int| 0u8));
    write_boot_sector(&mut image, label, serial);
    let mut builder = FatBuilder::new(image);
    let vl = match label {
        Some(l) => volume_label_11(l),
        None => None,
    };
    match vl {
        Some(v) => {
            match builder.add_volume_label(&v, now) {
                Ok(()) => {},
                Err(e) => return Err(e),
            }
        },
        None => {},
    }
    let ghost m_start = builder.model();
    assert(image_start(opt_chars(label), now, serial) == Ok::<FatModel, FatError>(m_start));
    assert(entries@.skip(0) =~= entries@);
    for i in 0..entries.len()
        invariant
            builder.wf(),
            image_start(opt_chars(label), now, serial) == Ok::<FatModel, FatError>(m_start),
            add_entries_spec(m_start, entries@) == add_entries_spec(builder.model(), entries@.skip(i as int)),
    {
        let e = &entries[i];
        let path = crate::text::str_chars(e.image_path.as_str());
        let ghost rest = entries@.skip(i as int);
        assert(rest[0] == entries@[i as int]);
        assert(rest.drop_first() =~= entries@.skip(i + 1));
        let ghost before = builder.model();
        assert(path@ == e.image_path@);
        let step = if e.is_dir {
            builder.add_dir(&path, e.timestamp)
        } else {
            builder.add_file(&path, e.data.as_slice(), e.timestamp)
        };
        match step {
            Ok(()) => {},
            Err(err) => {
                assert(add_entries_spec(before, rest) == Err::<FatModel, FatError>(err));
                return Err(err);
            },
        }
    }
    Ok(builder.finish())
}

} // verus!

verus! {

/// A 1.44 MB FAT12 floppy image: its size, the boot signature, 512-byte
/// sectors, 2880 sectors, and `FAT12   ` as the file-system type.
pub open spec fn valid_fat12_1440(d: Seq<u8>) -> bool {
    &&& d.len() == FLOPPY_SIZE
    &&& d[510] == 0x55
    &&& d[511] == 0xaa
    &&& d[11] + d[12] * 256 == 512
    &&& d[19] + d[20] * 256 == 2880
    &&& d.subrange(54, 62) == seq![70u8, 65, 84, 49, 50, 32, 32, 32]
}

/// Whether data is a 1.44 MB FAT12 floppy image.
pub fn is_valid_fat12_1440(data: &[u8]) -> (r: bool)
    ensures
        r == valid_fat12_1440(data@),
{
    if data.len() != FLOPPY_SIZE {
        return false;
    }
    let fs = [70u8, 65, 84, 49, 50, 32, 32, 32];
    let mut same = true;
    for i in 0..8usize
        invariant
            data@.len() == FLOPPY_SIZE,
            fs@ == seq![70u8, 65, 84, 49, 50, 32, 32, 32],
            same == (forall|j: int| 0 <= j < i ==> data@[54 + j] == fs@[j]),
    {
        if data[54 + i] != fs[i] {
            same = false;
        }
    }
    assert(same == (data@.subrange(54, 62) =~= seq![70u8, 65, 84, 49, 50, 32, 32, 32]));
    data[510] == 0x55 && data[511] == 0xaa && data[11] as u16 + data[12] as u16 * 256 == 512
        && data[19] as u16 + data[20] as u16 * 256 == 2880 && same
}

/// The root directory scan after `k` entries: whether it met the end mark
/// (a zero first byte), the last volume label seen, and the names of the
/// entries that are neither labels nor long-name parts (deleted entries
/// skipped). Names are the raw 11 bytes.
pub open spec fn root_state(d: Seq<u8>, k: int) -> (bool, Option<Seq<u8>>, Seq<Seq<u8>>)
    decreases k,
{
    if k <= 0 {
        (false, None, Seq::empty())
    } else {
        let s = root_state(d, k - 1);
        let off = 9728 + 32 * (k - 1);
        if s.0 {
            s
        } else if d[off] == 0x00 {
            (true, s.1, s.2)
        } else if d[off] == 0xe5 {
            s
        } else {
            let name = d.subrange(off, off + 11);
            let attr = d[off + 11];
            if (attr / 8) % 2 == 1 {
                (false, Some(name), s.2)
            } else if attr % 16 != 15 {
                (false, s.1, s.2.push(name))
            } else {
                s
            }
        }
    }
}

/// A raw 8.3 name as text: stem and extension decoded leniently, trailing
/// spaces dropped, joined by `.` when there is an extension.
pub open spec fn decode_name(raw: Seq<u8>) -> Seq<char> {
    let stem = crate::text::trim_end(crate::readback::utf8_lossy(raw.subrange(0, 8)));
    let ext = crate::text::trim_end(crate::readback::utf8_lossy(raw.subrange(8, 11)));
    if ext.len() == 0 {
        stem
    } else {
        stem + seq!['.'] + ext
    }
}

/// `decode_name` of a name whose bytes are ASCII, each byte read as its character.
pub open spec fn decode_ascii_name(raw: Seq<u8>) -> Seq<char> {
    let stem = crate::text::trim_end(crate::readback::ascii_chars(raw.subrange(0, 8)));
    let ext = crate::text::trim_end(crate::readback::ascii_chars(raw.subrange(8, 11)));
    if ext.len() == 0 {
        stem
    } else {
        stem + seq!['.'] + ext
    }
}

/// The text of an 11-byte directory-entry name.
pub fn decode_short_name(raw: &[u8]) -> (r: String)
    requires
        raw@.len() >= 11,
    ensures
        r@ == decode_name(raw@),
        crate::readback::all_ascii(raw@.subrange(0, 11)) ==> r@ == decode_ascii_name(raw@),
{
    proof {
        if crate::readback::all_ascii(raw@.subrange(0, 11)) {
            assert(crate::readback::all_ascii(raw@.subrange(0, 8))) by {
                assert forall|i: int| 0 <= i < 8 implies #[trigger] raw@.subrange(0, 8)[i] < 0x80 by {
                    assert(raw@.subrange(0, 8)[i] == raw@.subrange(0, 11)[i]);
                }
            }
            assert(crate::readback::all_ascii(raw@.subrange(8, 11))) by {
                assert forall|i: int| 0 <= i < 3 implies #[trigger] raw@.subrange(8, 11)[i] < 0x80 by {
                    assert(raw@.subrange(8, 11)[i] == raw@.subrange(0, 11)[i + 8]);
                }
            }
        }
    }
    let stem_bytes = copy_range_u8(raw, 0, 8);
    let ext_bytes = copy_range_u8(raw, 8, 11);
    let stem_s = crate::readback::string_from_utf8_lossy(stem_bytes.as_slice());
    let ext_s = crate::readback::string_from_utf8_lossy(ext_bytes.as_slice());
    let stem = crate::text::trim_end_chars(&crate::text::str_chars(stem_s.as_str()));
    let ext = crate::text::trim_end_chars(&crate::text::str_chars(ext_s.as_str()));
    if ext.len() == 0 {
        return crate::text::string_from_chars(&stem);
    }
    let mut all = stem;
    let ghost st = all@;
    all.push('.');
    for i in 0..ext.len()
        invariant
            all@ == st + seq!['.'] + ext@.take(i as int),
    {
        all.push(ext[i]);
        assert(ext@.take(i + 1) =~= ext@.take(i as int).push(ext@[i as int]));
        assert(all@ =~= st + seq!['.'] + ext@.take(i + 1));
    }
    assert(ext@.take(ext@.len() as int) =~= ext@);
    crate::text::string_from_chars(&all)
}

fn copy_range_u8(src: &[u8], start: usize, end: usize) -> (r: Vec<u8>)
    requires
        start <= end <= src@.len(),
    ensures
        r@ == src@.subrange(start as int, end as int),
{
    let mut out: Vec<u8> = Vec::new();
    for i in start..end
        invariant
            start <= end <= src@.len(),
            out@ == src@.subrange(start as int, i as int),
    {
        out.push(src[i]);
        assert(src@.subrange(start as int, i + 1) =~= src@.subrange(start as int, i as int).push(src@[i as int]));
    }
    out
}

/// A name read from a directory entry: its decoded text, which for ASCII
/// bytes is the bytes' characters.
pub open spec fn read_name(s: Seq<char>, raw: Seq<u8>) -> bool {
    &&& s == decode_name(raw)
    &&& crate::readback::all_ascii(raw.subrange(0, 11)) ==> s == decode_ascii_name(raw)
}

/// The volume label and the file and directory names of the root directory.
pub fn read_root_entries(data: &[u8]) -> (r: (Option<String>, Vec<String>))
    requires
        data@.len() >= 16896,
    ensures
        match root_state(data@, 224).1 {
            Some(raw) => r.0 matches Some(s) && read_name(s@, raw),
            None => r.0 is None,
        },
        r.1@.len() == root_state(data@, 224).2.len(),
        forall|k: int| 0 <= k < r.1@.len() ==> read_name((#[trigger] r.1@[k])@, root_state(data@, 224).2[k]),
{
    let mut label: Option<String> = None;
    let mut files: Vec<String> = Vec::new();
    let mut k: usize = 0;
    let mut stopped = false;
    while k < 224
        invariant
            data@.len() >= 16896,
            k <= 224,
            stopped == root_state(data@, k as int).0,
            match root_state(data@, k as int).1 {
                Some(raw) => label matches Some(s) && read_name(s@, raw),
                None => label is None,
            },
            files@.len() == root_state(data@, k as int).2.len(),
            forall|j: int| 0 <= j < files@.len() ==> read_name((#[trigger] files@[j])@, root_state(data@, k as int).2[j]),
        decreases 224 - k,
    {
        let off = 9728 + 32 * k;
        if !stopped {
            if data[off] == 0x00 {
                stopped = true;
            } else if data[off] != 0xe5 {
                let attr = data[off + 11];
                if (attr / 8) % 2 == 1 {
                    label = Some(decode_short_name(copy_range_u8(data, off, off + 11).as_slice()));
                } else if attr % 16 != 15 {
                    files.push(decode_short_name(copy_range_u8(data, off, off + 11).as_slice()));
                }
            }
        }
        k = k + 1;
    }
    (label, files)
}

} // verus!

verus! {

/// `std::time::SystemTime`, a clock reading, opaque to the library.
#[verifier::external_type_specification]
#[verifier::external_body]
pub struct ExSystemTime(std::time::SystemTime);

/// `SystemTime::now`: the clock's reading. Nothing is stated of it.
#[verifier::external_body]
fn system_time_now() -> std::time::SystemTime {
    std::time::SystemTime::now()
}

/// `SystemTime::duration_since(UNIX_EPOCH)`, `None` for a moment before
/// 1970. Nothing is stated of the duration: it comes from the clock.
#[verifier::external_body]
fn since_unix_epoch(t: &std::time::SystemTime) -> Option<std::time::Duration> {
    t.duration_since(std::time::UNIX_EPOCH).ok()
}

/// `Duration::as_secs`: the whole seconds of a duration. Nothing is stated
/// of the value, as the duration is opaque here.
#[verifier::external_body]
fn duration_secs(d: &std::time::Duration) -> u64 {
    d.as_secs()
}

/// `Duration::subsec_nanos`: the nanoseconds past the whole seconds, which
/// std documents to be less than one billion.
#[verifier::external_body]
fn duration_subsec_nanos(d: &std::time::Duration) -> (r: u32)
    ensures
        r < 1_000_000_000,
{
    d.subsec_nanos()
}

/// The seconds a missing modification time stands for: 1980-01-01.
pub const FAT_EPOCH_SECONDS: u64 = 315_532_800;

impl FatTimestamp {
    /// The timestamp of a moment, or of 1980-01-01 without one (or before 1970).
    pub fn from_system_time(time: Option<std::time::SystemTime>) -> (r: FatTimestamp)
        ensures
            exists|s: u64| r == timestamp_of(s as int) && (time is None ==> s == FAT_EPOCH_SECONDS),
    {
        let seconds = match &time {
            Some(t) => match since_unix_epoch(t) {
                Some(d) => duration_secs(&d),
                None => FAT_EPOCH_SECONDS,
            },
            None => FAT_EPOCH_SECONDS,
        };
        FatTimestamp::from_unix_seconds(seconds)
    }

    /// The timestamp of the present moment.
    pub fn now() -> (r: FatTimestamp)
        ensures
            exists|s: u64| r == timestamp_of(s as int),
    {
        FatTimestamp::from_system_time(Some(system_time_now()))
    }
}

/// A volume serial number from the clock's seconds and nanoseconds.
pub open spec fn serial_of(seconds: u32, nanos: u32) -> u32 {
    ((seconds << 16u32) | (seconds >> 16u32)) ^ nanos
}

/// A volume serial number from the present moment.
pub fn volume_serial() -> (r: u32)
    ensures
        exists|s: u32, n: u32| r == serial_of(s, n),
{
    let (seconds, nanos): (u32, u32) = match since_unix_epoch(&system_time_now()) {
        Some(d) => (duration_secs(&d) as u32, duration_subsec_nanos(&d)),
        None => (0, 0),
    };
    let r = ((seconds << 16u32) | (seconds >> 16u32)) ^ nanos;
    assert(r == serial_of(seconds, nanos));
    r
}

/// Builds a FAT12 image of `entries` labelled `label`, stamping the label
/// entry with the present time and the boot sector with a clock-derived serial.
pub fn build_fat12_image(entries: &[ImageEntry], label: Option<&str>) -> (r: Result<Vec<u8>, FatError>)
    ensures
        exists|now: FatTimestamp, serial: u32|
            match #[trigger] fat_image(entries@, opt_chars(label), now, serial) {
                Ok(b) => r matches Ok(v) && v@ == b,
                Err(e) => r == Err::<Vec<u8>, FatError>(e),
            },
{
    let serial = volume_serial();
    let now = FatTimestamp::now();
    build_fat12_image_at(entries, label, now, serial)
}

} // verus!

verus! {

/// The builder's model is well formed: floppy-sized, the next cluster a
/// data cluster or one past the last, directories on allocated clusters.
pub open spec fn model_ok(m: FatModel) -> bool {
    &&& m.image.len() == FLOPPY_SIZE
    &&& 2 <= m.next <= 2849
    &&& forall|k: int| 0 <= k < m.dirs.len() ==> 2 <= (#[trigger] m.dirs[k]).1 < m.next
}

/// Two images of the same size with the same boot sector.
pub open spec fn low_same(a: Seq<u8>, b: Seq<u8>) -> bool {
    &&& a.len() == b.len()
    &&& forall|i: int| 0 <= i < 512 ==> #[trigger] a[i] == b[i]
}

proof fn lemma_low_same_trans(a: Seq<u8>, b: Seq<u8>, c: Seq<u8>)
    requires
        low_same(a, b),
        low_same(b, c),
    ensures
        low_same(a, c),
{
}

proof fn lemma_put_bytes_low(img: Seq<u8>, off: int, b: Seq<u8>)
    requires
        off >= 512,
        img.len() >= 512,
    ensures
        low_same(img, put_bytes(img, off, b)),
{
}

proof fn lemma_set_fat_low(img: Seq<u8>, n: int, v: int)
    requires
        img.len() == FLOPPY_SIZE,
        fat_index_ok(n),
        0 <= v,
    ensures
        low_same(img, set_fat_entry(img, n, v)),
{
    lemma_set_fat_entry(img, n, v);
    assert forall|i: int| 0 <= i < 512 implies #[trigger] img[i] == set_fat_entry(img, n, v)[i] by {
        assert(i != fat_offset(n) && i != fat_offset(n) + 1);
    }
}

proof fn lemma_chain_low(img: Seq<u8>, first: int, count: int, j: int)
    requires
        img.len() == FLOPPY_SIZE,
        2 <= first,
        first + count - 1 < 2849,
        0 <= j <= count,
    ensures
        low_same(img, chain_upto(img, first, count, j)),
    decreases j,
{
    if j > 0 {
        lemma_chain_low(img, first, count, j - 1);
        let prev = chain_upto(img, first, count, j - 1);
        lemma_set_fat_low(prev, first + j - 1, if j == count { 0xfff } else { first + j });
    }
}

proof fn lemma_dir_lookup_in(dirs: Seq<(Seq<char>, int)>, p: Seq<char>)
    ensures
        dir_lookup(dirs, p) matches Some(c) ==> exists|k: int| 0 <= k < dirs.len() && (#[trigger] dirs[k]).1 == c,
    decreases dirs.len(),
{
    if dirs.len() > 0 && dirs[0].0 != p {
        lemma_dir_lookup_in(dirs.drop_first(), p);
        if dir_lookup(dirs, p) is Some {
            let c = dir_lookup(dirs, p)->Some_0;
            let k = choose|k: int| 0 <= k < dirs.drop_first().len() && (#[trigger] dirs.drop_first()[k]).1 == c;
            assert(dirs[k + 1] == dirs.drop_first()[k]);
        }
    } else if dirs.len() > 0 {
        assert(dirs[0].1 == dir_lookup(dirs, p)->Some_0);
    }
}

proof fn lemma_first_free_bounds(img: Seq<u8>, start: int, count: int, k: int)
    requires
        0 <= k,
    ensures
        first_free_from(img, start, count, k) matches Some(off) ==> start + 32 * k <= off && off + 32 <= start + 32 * count,
    decreases count - k,
{
    if k < count && !entry_free(img, start + 32 * k) {
        lemma_first_free_bounds(img, start, count, k + 1);
    }
}

proof fn lemma_write_entry_low(img: Seq<u8>, dirs: Seq<(Seq<char>, int)>, parent: Option<Seq<char>>, entry: Seq<u8>)
    requires
        img.len() == FLOPPY_SIZE,
        forall|k: int| 0 <= k < dirs.len() ==> 2 <= (#[trigger] dirs[k]).1,
    ensures
        write_entry(img, dirs, parent, entry) matches Ok(img2) ==> low_same(img, img2),
{
    match dir_slots(dirs, parent) {
        None => {},
        Some(r) => {
            if parent is Some {
                lemma_dir_lookup_in(dirs, parent->Some_0);
            }
            lemma_first_free_bounds(img, r.0, r.1, 0);
            match first_free_from(img, r.0, r.1, 0) {
                None => {},
                Some(off) => {
                    lemma_put_bytes_low(img, off, entry);
                },
            }
        },
    }
}

proof fn lemma_add_dir_low(m: FatModel, path: Seq<char>, ts: FatTimestamp)
    requires
        model_ok(m),
    ensures
        add_dir_spec(m, path, ts) matches Ok(m2) ==> model_ok(m2) && low_same(m.image, m2.image),
{
    reveal(add_dir_spec);
    if dir_lookup(m.dirs, path) is None && m.next < 2849 {
        let c = m.next;
        let img1 = chain_upto(m.image, c, 1, 1);
        lemma_chain_low(m.image, c, 1, 1);
        let parent = split_path(path).0;
        let pc = match parent {
            Some(p) => match dir_lookup(m.dirs, p) {
                Some(x) => x,
                None => 0,
            },
            None => 0,
        };
        let off = cluster_start(c);
        let z = put_bytes(img1, off, Seq::new(512, |i: int| 0u8));
        lemma_put_bytes_low(img1, off, Seq::new(512, |i: int| 0u8));
        let z1 = put_bytes(z, off, dir_entry(dot_name(), 0x10, ts, c, 0));
        lemma_put_bytes_low(z, off, dir_entry(dot_name(), 0x10, ts, c, 0));
        let img = init_dir(img1, c, pc, ts);
        lemma_put_bytes_low(z1, off + 32, dir_entry(dotdot_name(), 0x10, ts, pc, 0));
        let dirs = m.dirs.push((path, c));
        assert forall|k: int| 0 <= k < dirs.len() implies 2 <= (#[trigger] dirs[k]).1 < c + 1 by {
            if k < m.dirs.len() {
                assert(dirs[k] == m.dirs[k]);
            }
        }
        match short_name(split_path(path).1) {
            Err(_) => {},
            Ok(sn) => {
                lemma_write_entry_low(img, dirs, parent, dir_entry(sn, 0x10, ts, c, 0));
            },
        }
    }
}

proof fn lemma_add_file_low(m: FatModel, path: Seq<char>, data: Seq<u8>, ts: FatTimestamp)
    requires
        model_ok(m),
    ensures
        add_file_spec(m, path, data, ts) matches Ok(m2) ==> model_ok(m2) && low_same(m.image, m2.image),
{
    reveal(add_file_spec);
    let count = clusters_for(data.len() as int);
    if m.next + count - 1 < 2849 {
        let first = m.next;
        assert(count >= 1) by {
            if data.len() > 0 {
                vstd::arithmetic::div_mod::lemma_div_is_ordered(512, data.len() as int + 511, 512);
            }
        }
        let img1 = chain_upto(m.image, first, count, count);
        lemma_chain_low(m.image, first, count, count);
        let img = put_bytes(img1, cluster_start(first), data);
        lemma_put_bytes_low(img1, cluster_start(first), data);
        match short_name(split_path(path).1) {
            Err(_) => {},
            Ok(sn) => {
                lemma_write_entry_low(img, m.dirs, split_path(path).0, dir_entry(sn, 0x20, ts, first, data.len() as int));
            },
        }
    }
}

proof fn lemma_add_entries_low(m: FatModel, entries: Seq<ImageEntry>)
    requires
        model_ok(m),
    ensures
        add_entries_spec(m, entries) matches Ok(m2) ==> model_ok(m2) && low_same(m.image, m2.image),
    decreases entries.len(),
{
    if entries.len() > 0 {
        let e = entries[0];
        let step = if e.is_dir {
            add_dir_spec(m, e.image_path@, e.timestamp)
        } else {
            add_file_spec(m, e.image_path@, e.data@, e.timestamp)
        };
        if e.is_dir {
            lemma_add_dir_low(m, e.image_path@, e.timestamp);
        } else {
            lemma_add_file_low(m, e.image_path@, e.data@, e.timestamp);
        }
        match step {
            Err(_) => {},
            Ok(m2) => {
                lemma_add_entries_low(m2, entries.drop_first());
                if add_entries_spec(m2, entries.drop_first()) is Ok {
                    lemma_low_same_trans(m.image, m2.image, add_entries_spec(m2, entries.drop_first())->Ok_0.image);
                }
            },
        }
    }
}

proof fn lemma_start_valid(label: Option<Seq<char>>, now: FatTimestamp, serial: u32)
    ensures
        image_start(label, now, serial) matches Ok(m) ==> model_ok(m) && valid_fat12_1440(m.image),
{
    let vl = label_of(label);
    let img0 = put_bytes(Seq::new(FLOPPY_SIZE as nat, |i: int| 0u8), 0, boot_sector(vl, serial));
    let boot = boot_sector(vl, serial);
    assert(boot.len() == 512);
    assert(img0[510] == 0x55 && img0[511] == 0xaa);
    assert(img0[11] + img0[12] * 256 == 512);
    assert(img0[19] + img0[20] * 256 == 2880);
    assert(img0.subrange(54, 62) =~= seq![70u8, 65, 84, 49, 50, 32, 32, 32]);
    assert(valid_fat12_1440(img0));
    let i1 = set_fat_entry(img0, 0, 0xff0);
    lemma_set_fat_low(img0, 0, 0xff0);
    let i2 = set_fat_entry(i1, 1, 0xfff);
    lemma_set_fat_low(i1, 1, 0xfff);
    assert(i2.subrange(54, 62) =~= img0.subrange(54, 62));
    let m0 = FatModel { image: i2, next: 2, dirs: Seq::empty() };
    assert(valid_fat12_1440(i2));
    match vl {
        Some(l) => {
            lemma_write_entry_low(i2, m0.dirs, None, dir_entry(l, 0x08, now, 0, 0));
            if add_label_spec(m0, l, now) is Ok {
                let m1 = add_label_spec(m0, l, now)->Ok_0;
                assert(m1.image.subrange(54, 62) =~= i2.subrange(54, 62));
            }
        },
        None => {},
    }
}

/// What the image builder makes is a valid 1.44 MB FAT12 floppy image,
/// and its second FAT is a copy of the first.
pub proof fn built_image_is_valid_fat12(
    entries: Seq<ImageEntry>,
    label: Option<Seq<char>>,
    now: FatTimestamp,
    serial: u32,
)
    requires
        fat_image(entries, label, now, serial) is Ok,
    ensures
        valid_fat12_1440(fat_image(entries, label, now, serial)->Ok_0),
        fat_image(entries, label, now, serial)->Ok_0.subrange(5120, 9728)
            == fat_image(entries, label, now, serial)->Ok_0.subrange(512, 5120),
{
    lemma_start_valid(label, now, serial);
    let m = image_start(label, now, serial)->Ok_0;
    lemma_add_entries_low(m, entries);
    let m2 = add_entries_spec(m, entries)->Ok_0;
    let b = finish_spec(m2.image);
    lemma_put_bytes_low(m2.image, 5120, m2.image.subrange(512, 5120));
    assert(m2.image.subrange(54, 62) =~= m.image.subrange(54, 62));
    assert(b.subrange(54, 62) =~= m2.image.subrange(54, 62));
    assert(b.subrange(5120, 9728) =~= m2.image.subrange(512, 5120));
    assert(b.subrange(512, 5120) =~= m2.image.subrange(512, 5120));
}

} // verus!

verus! {

/// Root slot 0 holds the volume label `l` (an entry in use, attribute
/// 0x08), and every later root slot is free or has the label bit clear.
pub open spec fn root_keeps_label(img: Seq<u8>, l: Seq<u8>) -> bool {
    &&& img.len() == FLOPPY_SIZE
    &&& img.subrange(9728, 9739) == l
    &&& img[9739int] == 0x08
    &&& img[9728] != 0x00
    &&& img[9728] != 0xe5
    &&& forall|s: int|
        1 <= s < 224 ==> (#[trigger] img[9728 + 32 * s] == 0x00 || img[9728 + 32 * s] == 0xe5 || (img[9728
            + 32 * s + 11] / 8) % 2 == 0)
}

/// Writing outside the root directory keeps it.
proof fn lemma_outside_root(img: Seq<u8>, l: Seq<u8>, off: int, b: Seq<u8>)
    requires
        root_keeps_label(img, l),
        off + b.len() <= 9728 || off >= 16896,
    ensures
        root_keeps_label(put_bytes(img, off, b), l),
{
    let p = put_bytes(img, off, b);
    assert(p.subrange(9728, 9739) =~= img.subrange(9728, 9739));
    assert forall|s: int| 1 <= s < 224 implies (#[trigger] p[9728 + 32 * s] == 0x00 || p[9728 + 32 * s] == 0xe5
        || (p[9728 + 32 * s + 11] / 8) % 2 == 0) by {
        assert(p[9728 + 32 * s] == img[9728 + 32 * s]);
        assert(p[9728 + 32 * s + 11] == img[9728 + 32 * s + 11]);
    }
}

proof fn lemma_fat_keeps_root(img: Seq<u8>, l: Seq<u8>, n: int, v: int)
    requires
        root_keeps_label(img, l),
        0 <= n < 2849,
        0 <= v,
    ensures
        root_keeps_label(set_fat_entry(img, n, v), l),
{
    lemma_set_fat_entry(img, n, v);
    let p = set_fat_entry(img, n, v);
    assert(p.subrange(9728, 9739) =~= img.subrange(9728, 9739));
    assert forall|s: int| 1 <= s < 224 implies (#[trigger] p[9728 + 32 * s] == 0x00 || p[9728 + 32 * s] == 0xe5
        || (p[9728 + 32 * s + 11] / 8) % 2 == 0) by {
        assert(p[9728 + 32 * s] == img[9728 + 32 * s]);
        assert(p[9728 + 32 * s + 11] == img[9728 + 32 * s + 11]);
    }
}

proof fn lemma_chain_keeps_root(img: Seq<u8>, l: Seq<u8>, first: int, count: int, j: int)
    requires
        root_keeps_label(img, l),
        2 <= first,
        first + count - 1 < 2849,
        0 <= j <= count,
    ensures
        root_keeps_label(chain_upto(img, first, count, j), l),
    decreases j,
{
    if j > 0 {
        lemma_chain_keeps_root(img, l, first, count, j - 1);
        lemma_fat_keeps_root(chain_upto(img, first, count, j - 1), l, first + j - 1, if j == count { 0xfff } else { first + j });
    }
}

/// The first free slot of the root is past slot 0 when slot 0 is in use.
proof fn lemma_first_free_skip(img: Seq<u8>, start: int, count: int, k: int)
    requires
        0 <= k,
        !entry_free(img, start),
    ensures
        first_free_from(img, start, count, k) matches Some(off) ==> off >= start + 32 && (off - start) % 32 == 0,
    decreases count - k,
{
    if k < count && !entry_free(img, start + 32 * k) {
        lemma_first_free_skip(img, start, count, k + 1);
    }
    if k < count && entry_free(img, start + 32 * k) {
        assert(k != 0);
        assert((32 * k) % 32 == 0) by (nonlinear_arith);
    }
}

proof fn lemma_entry_keeps_root(
    img: Seq<u8>,
    l: Seq<u8>,
    dirs: Seq<(Seq<char>, int)>,
    parent: Option<Seq<char>>,
    entry: Seq<u8>,
)
    requires
        root_keeps_label(img, l),
        forall|k: int| 0 <= k < dirs.len() ==> 2 <= (#[trigger] dirs[k]).1 < 2849,
        entry.len() == 32,
        (entry[11] / 8) % 2 == 0,
    ensures
        write_entry(img, dirs, parent, entry) matches Ok(img2) ==> root_keeps_label(img2, l),
{
    match dir_slots(dirs, parent) {
        None => {},
        Some(r) => {
            lemma_first_free_bounds(img, r.0, r.1, 0);
            match parent {
                Some(pp) => {
                    lemma_dir_lookup_in(dirs, pp);
                    match first_free_from(img, r.0, r.1, 0) {
                        None => {},
                        Some(off) => {
                            lemma_outside_root(img, l, off, entry);
                        },
                    }
                },
                None => {
                    assert(!entry_free(img, 9728));
                    lemma_first_free_skip(img, 9728, 224, 0);
                    match first_free_from(img, r.0, r.1, 0) {
                        None => {},
                        Some(off) => {
                            let p = put_bytes(img, off, entry);
                            let so = (off - 9728) / 32;
                            assert(off == 9728 + 32 * so);
                            assert(1 <= so < 224);
                            assert(p.subrange(9728, 9739) =~= img.subrange(9728, 9739));
                            assert forall|s: int| 1 <= s < 224 implies (#[trigger] p[9728 + 32 * s] == 0x00 || p[9728
                                + 32 * s] == 0xe5 || (p[9728 + 32 * s + 11] / 8) % 2 == 0) by {
                                if s == so {
                                    assert(p[9728 + 32 * s + 11] == entry[11]);
                                } else if s < so {
                                    assert(p[9728 + 32 * s] == img[9728 + 32 * s]);
                                    assert(p[9728 + 32 * s + 11] == img[9728 + 32 * s + 11]);
                                } else {
                                    assert(p[9728 + 32 * s] == img[9728 + 32 * s]);
                                    assert(p[9728 + 32 * s + 11] == img[9728 + 32 * s + 11]);
                                }
                            }
                        },
                    }
                },
            }
        },
    }
}

} // verus!

verus! {

proof fn lemma_dir_entry_attr(name11: Seq<u8>, attr: u8, ts: FatTimestamp, cluster: int, size: int)
    requires
        name11.len() == 11,
    ensures
        dir_entry(name11, attr, ts, cluster, size).len() == 32,
        dir_entry(name11, attr, ts, cluster, size)[11] == attr,
        dir_entry(name11, attr, ts, cluster, size).subrange(0, 11) == name11,
{
    assert(dir_entry(name11, attr, ts, cluster, size).subrange(0, 11) =~= name11);
}

proof fn lemma_add_dir_keeps_root(m: FatModel, l: Seq<u8>, path: Seq<char>, ts: FatTimestamp)
    requires
        model_ok(m),
        root_keeps_label(m.image, l),
    ensures
        add_dir_spec(m, path, ts) matches Ok(m2) ==> root_keeps_label(m2.image, l),
{
    reveal(add_dir_spec);
    if dir_lookup(m.dirs, path) is None && m.next < 2849 {
        let c = m.next;
        let img1 = chain_upto(m.image, c, 1, 1);
        lemma_chain_keeps_root(m.image, l, c, 1, 1);
        let parent = split_path(path).0;
        let pc = match parent {
            Some(p) => match dir_lookup(m.dirs, p) {
                Some(x) => x,
                None => 0,
            },
            None => 0,
        };
        let off = cluster_start(c);
        let z = put_bytes(img1, off, Seq::new(512, |i: int| 0u8));
        lemma_outside_root(img1, l, off, Seq::new(512, |i: int| 0u8));
        let z1 = put_bytes(z, off, dir_entry(dot_name(), 0x10, ts, c, 0));
        lemma_dir_entry_attr(dot_name(), 0x10, ts, c, 0);
        lemma_outside_root(z, l, off, dir_entry(dot_name(), 0x10, ts, c, 0));
        lemma_dir_entry_attr(dotdot_name(), 0x10, ts, pc, 0);
        lemma_outside_root(z1, l, off + 32, dir_entry(dotdot_name(), 0x10, ts, pc, 0));
        let img = init_dir(img1, c, pc, ts);
        let dirs = m.dirs.push((path, c));
        assert forall|k: int| 0 <= k < dirs.len() implies 2 <= (#[trigger] dirs[k]).1 < 2849 by {
            if k < m.dirs.len() {
                assert(dirs[k] == m.dirs[k]);
            }
        }
        match short_name(split_path(path).1) {
            Err(_) => {},
            Ok(sn) => {
                lemma_dir_entry_attr(sn, 0x10, ts, c, 0);
                lemma_entry_keeps_root(img, l, dirs, parent, dir_entry(sn, 0x10, ts, c, 0));
            },
        }
    }
}

proof fn lemma_add_file_keeps_root(m: FatModel, l: Seq<u8>, path: Seq<char>, data: Seq<u8>, ts: FatTimestamp)
    requires
        model_ok(m),
        root_keeps_label(m.image, l),
    ensures
        add_file_spec(m, path, data, ts) matches Ok(m2) ==> root_keeps_label(m2.image, l),
{
    reveal(add_file_spec);
    let count = clusters_for(data.len() as int);
    if m.next + count - 1 < 2849 {
        let first = m.next;
        assert(count >= 1) by {
            if data.len() > 0 {
                vstd::arithmetic::div_mod::lemma_div_is_ordered(512, data.len() as int + 511, 512);
            }
        }
        let img1 = chain_upto(m.image, first, count, count);
        lemma_chain_keeps_root(m.image, l, first, count, count);
        let img = put_bytes(img1, cluster_start(first), data);
        lemma_outside_root(img1, l, cluster_start(first), data);
        assert forall|k: int| 0 <= k < m.dirs.len() implies 2 <= (#[trigger] m.dirs[k]).1 < 2849 by {}
        match short_name(split_path(path).1) {
            Err(_) => {},
            Ok(sn) => {
                lemma_dir_entry_attr(sn, 0x20, ts, first, data.len() as int);
                lemma_entry_keeps_root(img, l, m.dirs, split_path(path).0, dir_entry(sn, 0x20, ts, first, data.len() as int));
            },
        }
    }
}

proof fn lemma_entries_keep_root(m: FatModel, l: Seq<u8>, entries: Seq<ImageEntry>)
    requires
        model_ok(m),
        root_keeps_label(m.image, l),
    ensures
        add_entries_spec(m, entries) matches Ok(m2) ==> root_keeps_label(m2.image, l),
    decreases entries.len(),
{
    if entries.len() > 0 {
        let e = entries[0];
        let step = if e.is_dir {
            add_dir_spec(m, e.image_path@, e.timestamp)
        } else {
            add_file_spec(m, e.image_path@, e.data@, e.timestamp)
        };
        if e.is_dir {
            lemma_add_dir_low(m, e.image_path@, e.timestamp);
            lemma_add_dir_keeps_root(m, l, e.image_path@, e.timestamp);
        } else {
            lemma_add_file_low(m, e.image_path@, e.data@, e.timestamp);
            lemma_add_file_keeps_root(m, l, e.image_path@, e.data@, e.timestamp);
        }
        match step {
            Err(_) => {},
            Ok(m2) => {
                lemma_entries_keep_root(m2, l, entries.drop_first());
            },
        }
    }
}

proof fn lemma_label_bytes(label: Seq<char>)
    requires
        volume_label(label) is Some,
    ensures
        volume_label(label)->Some_0.len() == 11,
        volume_label(label)->Some_0[0] != 0x00,
        volume_label(label)->Some_0[0] != 0xe5,
{
    let t = crate::text::trim(label);
    let v = volume_label(label)->Some_0;
    assert(label_char(t[0]));
    assert(v[0] == upper_byte(t[0]));
}

proof fn lemma_start_keeps_label(label: Seq<char>, now: FatTimestamp, serial: u32)
    requires
        volume_label(label) is Some,
        image_start(Some(label), now, serial) is Ok,
    ensures
        model_ok(image_start(Some(label), now, serial)->Ok_0),
        root_keeps_label(image_start(Some(label), now, serial)->Ok_0.image, volume_label(label)->Some_0),
{
    lemma_start_valid(Some(label), now, serial);
    let l = volume_label(label)->Some_0;
    lemma_label_bytes(label);
    let img0 = put_bytes(Seq::new(FLOPPY_SIZE as nat, |i: int| 0u8), 0, boot_sector(Some(l), serial));
    let i1 = set_fat_entry(img0, 0, 0xff0);
    let i2 = set_fat_entry(i1, 1, 0xfff);
    lemma_set_fat_entry(img0, 0, 0xff0);
    lemma_set_fat_entry(i1, 1, 0xfff);
    assert forall|k: int| 9728 <= k < 16896 implies #[trigger] i2[k] == 0u8 by {
        assert(i2[k] == i1[k]);
        assert(i1[k] == img0[k]);
    }
    assert(entry_free(i2, 9728));
    assert(first_free_from(i2, 9728, 224, 0) == Some(9728int));
    let e = dir_entry(l, 0x08, now, 0, 0);
    lemma_dir_entry_attr(l, 0x08, now, 0, 0);
    let img = put_bytes(i2, 9728, e);
    assert(img.subrange(9728, 9739) =~= e.subrange(0, 11));
    assert(img[9739int] == e[11]);
    assert(img[9728] == e[0]);
    assert(e[0] == l[0]) by {
        assert(e.subrange(0, 11)[0] == e[0]);
    }
    assert forall|s: int| 1 <= s < 224 implies (#[trigger] img[9728 + 32 * s] == 0x00 || img[9728 + 32 * s] == 0xe5
        || (img[9728 + 32 * s + 11] / 8) % 2 == 0) by {
        assert(img[9728 + 32 * s] == i2[9728 + 32 * s]);
    }
}

proof fn lemma_scan_finds_label(d: Seq<u8>, l: Seq<u8>, k: int)
    requires
        root_keeps_label(d, l),
        1 <= k <= 224,
    ensures
        root_state(d, k).1 == Some(l),
    decreases k,
{
    if k == 1 {
        assert(root_state(d, 0) == (false, None::<Seq<u8>>, Seq::<Seq<u8>>::empty()));
        assert(d.subrange(9728, 9739) == l);
        assert(d[9739int] == 0x08);
    } else {
        lemma_scan_finds_label(d, l, k - 1);
        let s = k - 1;
        assert(d[9728 + 32 * s] == 0x00 || d[9728 + 32 * s] == 0xe5 || (d[9728 + 32 * s + 11] / 8) % 2 == 0);
    }
}

/// The volume label an image is built with is the label its root
/// directory gives back.
pub proof fn built_image_keeps_label(
    entries: Seq<ImageEntry>,
    label: Seq<char>,
    now: FatTimestamp,
    serial: u32,
)
    requires
        fat_image(entries, Some(label), now, serial) is Ok,
        volume_label(label) is Some,
    ensures
        root_state(fat_image(entries, Some(label), now, serial)->Ok_0, 224).1 == volume_label(label),
{
    let l = volume_label(label)->Some_0;
    lemma_start_keeps_label(label, now, serial);
    let m = image_start(Some(label), now, serial)->Ok_0;
    lemma_entries_keep_root(m, l, entries);
    lemma_add_entries_low(m, entries);
    let m2 = add_entries_spec(m, entries)->Ok_0;
    lemma_outside_root(m2.image, l, 5120, m2.image.subrange(512, 5120));
    let b = finish_spec(m2.image);
    lemma_scan_finds_label(b, l, 224);
}

} // verus!

verus! {

/// The path components kept in an image path: all but empty ones and `.`.
pub open spec fn kept_components(cs: Seq<Seq<char>>) -> Seq<Seq<char>>
    decreases cs.len(),
{
    if cs.len() == 0 {
        Seq::empty()
    } else {
        let rest = kept_components(cs.drop_last());
        let c = cs.last();
        if c.len() == 0 || c == seq!['.'] {
            rest
        } else {
            rest.push(c)
        }
    }
}

/// The first component that is no 8.3 name, and why.
pub open spec fn first_name_error(k: Seq<Seq<char>>) -> Option<FatError>
    decreases k.len(),
{
    if k.len() == 0 {
        None
    } else {
        match short_name(k[0]) {
            Err(e) => Some(e),
            Ok(_) => first_name_error(k.drop_first()),
        }
    }
}

/// Components joined by `/`.
pub open spec fn join_slash(k: Seq<Seq<char>>) -> Seq<char>
    decreases k.len(),
{
    if k.len() == 0 {
        Seq::empty()
    } else if k.len() == 1 {
        k[0]
    } else {
        join_slash(k.drop_last()) + seq!['/'] + k.last()
    }
}

/// The image path of a file's relative path components.
pub open spec fn image_path_of(cs: Seq<Seq<char>>) -> Result<Seq<char>, FatError> {
    let k = kept_components(cs);
    match first_name_error(k) {
        Some(e) => Err(e),
        None => if k.len() == 0 {
            Err(FatError::EmptyImagePath)
        } else {
            Ok(join_slash(k))
        },
    }
}

proof fn lemma_first_error_push(k: Seq<Seq<char>>, c: Seq<char>)
    requires
        first_name_error(k) is None,
    ensures
        first_name_error(k.push(c)) == match short_name(c) {
            Err(e) => Some(e),
            Ok(_) => None::<FatError>,
        },
    decreases k.len(),
{
    if k.len() == 0 {
        assert(k.push(c).drop_first() =~= Seq::<Seq<char>>::empty());
    } else {
        assert(k.push(c).drop_first() =~= k.drop_first().push(c));
        lemma_first_error_push(k.drop_first(), c);
    }
}

proof fn lemma_kept_append(a: Seq<Seq<char>>, b: Seq<Seq<char>>)
    ensures
        kept_components(a + b) == kept_components(a) + kept_components(b),
    decreases b.len(),
{
    if b.len() == 0 {
        assert(a + b =~= a);
        assert(kept_components(a) + kept_components(b) =~= kept_components(a));
    } else {
        lemma_kept_append(a, b.drop_last());
        assert((a + b).drop_last() =~= a + b.drop_last());
        assert((a + b).last() == b.last());
        let c = b.last();
        if !(c.len() == 0 || c == seq!['.']) {
            assert(kept_components(a) + kept_components(b.drop_last()).push(c) =~= (kept_components(a)
                + kept_components(b.drop_last())).push(c));
        }
    }
}

proof fn lemma_first_error_prefix(x: Seq<Seq<char>>, y: Seq<Seq<char>>)
    requires
        first_name_error(x) is Some,
    ensures
        first_name_error(x + y) == first_name_error(x),
    decreases x.len(),
{
    assert((x + y)[0] == x[0]);
    if short_name(x[0]) is Ok {
        assert((x + y).drop_first() =~= x.drop_first() + y);
        lemma_first_error_prefix(x.drop_first(), y);
    }
}

/// The `/`-separated image path of relative path components, each an 8.3 name.
pub fn path_to_image_path(components: &[String]) -> (r: Result<String, FatError>)
    ensures
        match image_path_of(components@.map_values(|s: String| s@)) {
            Ok(p) => r matches Ok(s) && s@ == p,
            Err(e) => r == Err::<String, FatError>(e),
        },
{
    let ghost cs = components@.map_values(|s: String| s@);
    let mut joined: Vec<char> = Vec::new();
    let mut count: usize = 0;
    assert(cs.take(0) =~= Seq::<Seq<char>>::empty());
    for i in 0..components.len()
        invariant
            cs == components@.map_values(|s: String| s@),
            first_name_error(kept_components(cs.take(i as int))) is None,
            count == kept_components(cs.take(i as int)).len(),
            joined@ == join_slash(kept_components(cs.take(i as int))),
            count <= i,
    {
        let c = crate::text::str_chars(components[i].as_str());
        proof {
            assert(cs.take(i + 1).drop_last() =~= cs.take(i as int));
            assert(cs.take(i + 1).last() == c@);
        }
        let dot = c.len() == 1 && c[0] == '.';
        proof {
            if dot {
                assert(c@ =~= seq!['.']);
            }
            if c@ == seq!['.'] {
                assert(c@.len() == 1 && c@[0] == '.');
            }
        }
        if !(c.len() == 0 || dot) {
        match short_name_of(&c) {
            Err(e) => {
                proof {
                    lemma_first_error_push(kept_components(cs.take(i as int)), c@);
                    let k1 = kept_components(cs.take(i + 1));
                    assert(cs.take(i + 1) + cs.skip(i + 1) =~= cs);
                    lemma_kept_append(cs.take(i + 1), cs.skip(i + 1));
                    lemma_first_error_prefix(k1, kept_components(cs.skip(i + 1)));
                }
                return Err(e);
            },
            Ok(_) => {},
        }
        proof {
            lemma_first_error_push(kept_components(cs.take(i as int)), c@);
        }
        let ghost k0 = kept_components(cs.take(i as int));
        if count > 0 {
            joined.push('/');
        }
        let ghost before = joined@;
        for j in 0..c.len()
            invariant
                joined@ == before + c@.take(j as int),
        {
            joined.push(c[j]);
            assert(c@.take(j + 1) =~= c@.take(j as int).push(c@[j as int]));
        }
        assert(c@.take(c@.len() as int) =~= c@);
        proof {
            let k1 = k0.push(c@);
            assert(k1.drop_last() =~= k0);
            if count == 0 {
                assert(joined@ =~= c@);
            } else {
                assert(joined@ =~= join_slash(k0) + seq!['/'] + c@);
            }
        }
        count = count + 1;
        }
    }
    assert(cs.take(components@.len() as int) =~= cs);
    if count == 0 {
        return Err(FatError::EmptyImagePath);
    }
    Ok(crate::text::string_from_chars(&joined))
}

} // verus!

verus! {

proof fn lemma_trim_end_spaces(s: Seq<char>, n: nat)
    requires
        s.len() == 0 || !crate::text::is_ws(s.last()),
    ensures
        crate::text::trim_end(s + Seq::new(n, |i: int| ' ')) == s,
    decreases n,
{
    let padded = s + Seq::new(n, |i: int| ' ');
    if n == 0 {
        assert(padded =~= s);
        if s.len() > 0 {
            assert(crate::text::trim_end(s) == s);
        }
    } else {
        assert(padded.last() == ' ');
        assert(padded.drop_last() =~= s + Seq::new((n - 1) as nat, |i: int| ' '));
        lemma_trim_end_spaces(s, (n - 1) as nat);
    }
}

/// The characters of the upper-cased bytes of 8.3 characters, then spaces.
proof fn lemma_field_text(part: Seq<char>, raw: Seq<u8>, width: int)
    requires
        part.len() <= width,
        raw.len() == width,
        all_fat_chars(part),
        forall|i: int| 0 <= i < width ==> #[trigger] raw[i] == (if i < part.len() { upper_byte(part[i]) } else { 32u8 }),
    ensures
        crate::readback::all_ascii(raw),
        crate::text::trim_end(crate::readback::ascii_chars(raw)) == crate::text::upper(part),
{
    let up = crate::text::upper(part);
    assert forall|i: int| 0 <= i < width implies #[trigger] raw[i] < 0x80 by {
        if i < part.len() {
            assert(fat_name_char(part[i]));
        }
    }
    let text = crate::readback::ascii_chars(raw);
    let spaces = Seq::new((width - part.len()) as nat, |i: int| ' ');
    assert forall|i: int| 0 <= i < width implies #[trigger] text[i] == (up + spaces)[i] by {
        if i < part.len() {
            let c = part[i];
            assert(fat_name_char(c));
            assert((crate::text::ascii_upper(c) as u32) < 0x80);
            assert(((crate::text::ascii_upper(c) as u8) as char) == crate::text::ascii_upper(c));
        }
    }
    assert(text =~= up + spaces);
    if part.len() > 0 {
        let c = part.last();
        assert(fat_name_char(c));
        assert(up.last() == crate::text::ascii_upper(c));
    }
    lemma_trim_end_spaces(up, (width - part.len()) as nat);
}

/// Reading back a written 8.3 name: the directory entry that `short_name_11`
/// writes for a name decodes to the trimmed name in upper case (names
/// ending in a bare `.` lose that dot, as the entry has no room for it).
pub proof fn short_name_reads_back(name: Seq<char>)
    requires
        short_name(name) is Ok,
        last_dot(crate::text::trim(name)) is Some ==> split_ext(crate::text::trim(name)).1.len() > 0,
    ensures
        crate::readback::all_ascii(short_name(name)->Ok_0),
        decode_ascii_name(short_name(name)->Ok_0) == crate::text::upper(crate::text::trim(name)),
{
    let t = crate::text::trim(name);
    let stem = split_ext(t).0;
    let ext = split_ext(t).1;
    let b = short_name(name)->Ok_0;
    crate::text::lemma_utf8_len_bounds(stem);
    crate::text::lemma_utf8_len_bounds(ext);
    lemma_field_text(stem, b.subrange(0, 8), 8);
    lemma_field_text(ext, b.subrange(8, 11), 3);
    assert forall|i: int| 0 <= i < 11 implies #[trigger] b[i] < 0x80 by {
        if i < 8 {
            assert(b[i] == b.subrange(0, 8)[i]);
        } else {
            assert(b[i] == b.subrange(8, 11)[i - 8]);
        }
    }
    lemma_last_dot_split(t);
    match last_dot(t) {
        Some(d) => {
            assert(t =~= stem + seq!['.'] + ext);
            assert(crate::text::upper(t) =~= crate::text::upper(stem) + seq!['.'] + crate::text::upper(ext));
        },
        None => {
            assert(stem == t);
        },
    }
}

proof fn lemma_last_dot_split(s: Seq<char>)
    ensures
        last_dot(s) matches Some(d) ==> 0 <= d < s.len() && s[d] == '.',
    decreases s.len(),
{
    if s.len() > 0 && s.last() != '.' {
        lemma_last_dot_split(s.drop_last());
    }
}

} // verus!

verus! {

/// Two images agree on the first `k` slots of the root directory.
pub open spec fn same_root_slots(a: Seq<u8>, b: Seq<u8>, k: int) -> bool {
    &&& a.len() == FLOPPY_SIZE
    &&& b.len() == FLOPPY_SIZE
    &&& forall|i: int| 9728 <= i < 9728 + 32 * k ==> #[trigger] a[i] == b[i]
}

/// The root directory's first `n` slots are in use, the others never used.
pub open spec fn root_used(img: Seq<u8>, n: int) -> bool {
    &&& img.len() == FLOPPY_SIZE
    &&& 0 <= n <= 224
    &&& forall|s: int| 0 <= s < n ==> !entry_free(img, #[trigger] (9728 + 32 * s))
    &&& forall|s: int| n <= s < 224 ==> img[#[trigger] (9728 + 32 * s)] == 0x00
}

proof fn lemma_root_state_same(a: Seq<u8>, b: Seq<u8>, k: int)
    requires
        0 <= k <= 224,
        same_root_slots(a, b, k),
    ensures
        root_state(a, k) == root_state(b, k),
    decreases k,
{
    if k > 0 {
        lemma_root_state_same(a, b, k - 1);
        let off = 9728 + 32 * (k - 1);
        assert(a.subrange(off, off + 11) =~= b.subrange(off, off + 11));
        assert(a[off] == b[off]);
        assert(a[off + 11] == b[off + 11]);
    }
}

/// The scan goes on past the slots in use.
proof fn lemma_root_state_running(img: Seq<u8>, n: int, k: int)
    requires
        root_used(img, n),
        0 <= k <= n,
    ensures
        !root_state(img, k).0,
    decreases k,
{
    if k > 0 {
        lemma_root_state_running(img, n, k - 1);
        assert(!entry_free(img, 9728 + 32 * (k - 1)));
    }
}

/// The scan stops at the first slot never used.
proof fn lemma_root_state_rest(img: Seq<u8>, n: int, k: int)
    requires
        root_used(img, n),
        n <= k <= 224,
    ensures
        root_state(img, k).1 == root_state(img, n).1,
        root_state(img, k).2 == root_state(img, n).2,
        k > n ==> root_state(img, k).0,
    decreases k,
{
    if k > n {
        lemma_root_state_rest(img, n, k - 1);
        assert(img[9728 + 32 * (k - 1)] == 0x00);
    }
}

/// Writing only outside the root directory keeps it.
proof fn lemma_put_outside_root(img: Seq<u8>, off: int, b: Seq<u8>, n: int)
    requires
        root_used(img, n),
        off + b.len() <= 9728 || off >= 16896,
    ensures
        root_used(put_bytes(img, off, b), n),
        same_root_slots(img, put_bytes(img, off, b), 224),
{
    let p = put_bytes(img, off, b);
    assert forall|s: int| 0 <= s < 224 implies #[trigger] p[9728 + 32 * s] == img[9728 + 32 * s] by {}
}

proof fn lemma_fat_outside_root(img: Seq<u8>, k: int, v: int, n: int)
    requires
        root_used(img, n),
        0 <= k < 2849,
        0 <= v,
    ensures
        root_used(set_fat_entry(img, k, v), n),
        same_root_slots(img, set_fat_entry(img, k, v), 224),
{
    lemma_set_fat_entry(img, k, v);
    let p = set_fat_entry(img, k, v);
    assert forall|i: int| 9728 <= i < 9728 + 32 * 224 implies #[trigger] img[i] == p[i] by {
        assert(i != fat_offset(k) && i != fat_offset(k) + 1);
    }
    assert forall|s: int| 0 <= s < 224 implies #[trigger] p[9728 + 32 * s] == img[9728 + 32 * s] by {
        assert(img[9728 + 32 * s] == p[9728 + 32 * s]);
    }
}

proof fn lemma_chain_outside_root(img: Seq<u8>, first: int, count: int, j: int, n: int)
    requires
        root_used(img, n),
        2 <= first,
        first + count - 1 < 2849,
        0 <= j <= count,
    ensures
        root_used(chain_upto(img, first, count, j), n),
        same_root_slots(img, chain_upto(img, first, count, j), 224),
    decreases j,
{
    if j > 0 {
        lemma_chain_outside_root(img, first, count, j - 1, n);
        let prev = chain_upto(img, first, count, j - 1);
        lemma_fat_outside_root(prev, first + j - 1, if j == count { 0xfff } else { first + j }, n);
    }
}

} // verus!

verus! {

/// The first free root slot is the first one never used.
proof fn lemma_root_first_free(img: Seq<u8>, n: int, k: int)
    requires
        root_used(img, n),
        0 <= k <= n,
    ensures
        n < 224 ==> first_free_from(img, 9728, 224, k) == Some(9728 + 32 * n),
        n == 224 ==> first_free_from(img, 9728, 224, k) is None,
    decreases 224 - k,
{
    if k < n {
        assert(!entry_free(img, 9728 + 32 * k));
        lemma_root_first_free(img, n, k + 1);
    } else if k < 224 {
        assert(img[9728 + 32 * k] == 0x00);
    }
}

/// Writing an entry in use into the first free root slot.
proof fn lemma_root_append(img: Seq<u8>, n: int, e: Seq<u8>)
    requires
        root_used(img, n),
        n < 224,
        e.len() == 32,
        e[0] != 0x00,
        e[0] != 0xe5,
    ensures
        root_used(put_bytes(img, 9728 + 32 * n, e), n + 1),
        root_state(put_bytes(img, 9728 + 32 * n, e), n + 1).2 == (if (e[11] / 8) % 2 == 1 || e[11] % 16 == 15 {
            root_state(img, n).2
        } else {
            root_state(img, n).2.push(e.subrange(0, 11))
        }),
{
    let off = 9728 + 32 * n;
    let p = put_bytes(img, off, e);
    assert forall|s: int| 0 <= s < n + 1 implies !entry_free(p, #[trigger] (9728 + 32 * s)) by {
        if s < n {
            assert(p[9728 + 32 * s] == img[9728 + 32 * s]);
            assert(!entry_free(img, 9728 + 32 * s));
        } else {
            assert(p[off] == e[0]);
        }
    }
    assert forall|s: int| n + 1 <= s < 224 implies p[#[trigger] (9728 + 32 * s)] == 0x00 by {
        assert(p[9728 + 32 * s] == img[9728 + 32 * s]);
    }
    assert(same_root_slots(img, p, n));
    lemma_root_state_same(img, p, n);
    lemma_root_state_running(img, n, n);
    assert(p.subrange(off, off + 11) =~= e.subrange(0, 11));
    assert(p[off] == e[0]);
    assert(p[off + 11] == e[11]);
}

/// The first byte of an 8.3 name: an upper-cased name character, so
/// neither the never-used nor the deleted mark.
proof fn lemma_short_name_first_byte(name: Seq<char>)
    requires
        short_name(name) is Ok,
    ensures
        short_name(name)->Ok_0.len() == 11,
        short_name(name)->Ok_0[0] != 0x00,
        short_name(name)->Ok_0[0] != 0xe5,
{
    let t = crate::text::trim(name);
    let stem = split_ext(t).0;
    assert(fat_name_char(stem[0]));
}

/// The directories made so far, by path.
pub open spec fn dir_paths(dirs: Seq<(Seq<char>, int)>) -> Seq<Seq<char>> {
    dirs.map_values(|d: (Seq<char>, int)| d.0)
}

proof fn lemma_dir_lookup_paths(dirs: Seq<(Seq<char>, int)>, p: Seq<char>)
    ensures
        dir_lookup(dirs, p) is Some <==> dir_paths(dirs).contains(p),
    decreases dirs.len(),
{
    if dirs.len() > 0 {
        lemma_dir_lookup_paths(dirs.drop_first(), p);
        assert(dir_paths(dirs.drop_first()) =~= dir_paths(dirs).drop_first());
        if dir_paths(dirs).contains(p) && dirs[0].0 != p {
            let k = choose|k: int| 0 <= k < dir_paths(dirs).len() && dir_paths(dirs)[k] == p;
            assert(k != 0);
            assert(dir_paths(dirs.drop_first())[k - 1] == p);
        }
        if dirs[0].0 == p {
            assert(dir_paths(dirs)[0] == p);
        }
    } else {
        assert(dir_paths(dirs).len() == 0);
    }
}

} // verus!

verus! {

/// Where an entry lands: in the first free root slot, or outside the root.
proof fn lemma_write_entry_root(
    img: Seq<u8>,
    dirs: Seq<(Seq<char>, int)>,
    parent: Option<Seq<char>>,
    e: Seq<u8>,
    n: int,
)
    requires
        root_used(img, n),
        forall|k: int| 0 <= k < dirs.len() ==> 2 <= (#[trigger] dirs[k]).1 < 2849,
        e.len() == 32,
    ensures
        write_entry(img, dirs, parent, e) matches Ok(img2) ==> (parent is None ==> n < 224 && img2 == put_bytes(
            img,
            9728 + 32 * n,
            e,
        )) && (parent is Some ==> root_used(img2, n) && same_root_slots(img, img2, 224)),
{
    match dir_slots(dirs, parent) {
        None => {},
        Some(r) => {
            match parent {
                None => {
                    lemma_root_first_free(img, n, 0);
                },
                Some(pp) => {
                    lemma_first_free_bounds(img, r.0, r.1, 0);
                    lemma_dir_lookup_in(dirs, pp);
                    match first_free_from(img, r.0, r.1, 0) {
                        None => {},
                        Some(off) => {
                            lemma_put_outside_root(img, off, e, n);
                        },
                    }
                },
            }
        },
    }
}

/// The short names of the root-level entries, in the order they are
/// added; a directory already made adds nothing.
pub open spec fn root_entry_names(entries: Seq<ImageEntry>, made: Seq<Seq<char>>) -> Seq<Seq<u8>>
    decreases entries.len(),
{
    if entries.len() == 0 {
        Seq::empty()
    } else {
        let e = entries[0];
        let p = e.image_path@;
        if e.is_dir && made.contains(p) {
            root_entry_names(entries.drop_first(), made)
        } else {
            let made2 = if e.is_dir {
                made.push(p)
            } else {
                made
            };
            let rest = root_entry_names(entries.drop_first(), made2);
            if split_path(p).0 is None {
                seq![short_name(split_path(p).1)->Ok_0] + rest
            } else {
                rest
            }
        }
    }
}

/// The texts of the root-level entries' names, as a reader shows them:
/// trimmed and upper-cased, in the order of `root_entry_names`.
pub open spec fn root_entry_texts(entries: Seq<ImageEntry>, made: Seq<Seq<char>>) -> Seq<Seq<char>>
    decreases entries.len(),
{
    if entries.len() == 0 {
        Seq::empty()
    } else {
        let e = entries[0];
        let p = e.image_path@;
        if e.is_dir && made.contains(p) {
            root_entry_texts(entries.drop_first(), made)
        } else {
            let made2 = if e.is_dir {
                made.push(p)
            } else {
                made
            };
            let rest = root_entry_texts(entries.drop_first(), made2);
            if split_path(p).0 is None {
                seq![crate::text::upper(crate::text::trim(split_path(p).1))] + rest
            } else {
                rest
            }
        }
    }
}

/// A name that does not end in a bare `.` (which an 8.3 entry drops).
pub open spec fn no_bare_dot(name: Seq<char>) -> bool {
    last_dot(crate::text::trim(name)) is Some ==> split_ext(crate::text::trim(name)).1.len() > 0
}

proof fn lemma_add_dir_root(m: FatModel, path: Seq<char>, ts: FatTimestamp, n: int)
    requires
        model_ok(m),
        root_used(m.image, n),
    ensures
        add_dir_spec(m, path, ts) matches Ok(m2) ==> if dir_paths(m.dirs).contains(path) {
            m2 == m
        } else {
            &&& dir_paths(m2.dirs) == dir_paths(m.dirs).push(path)
            &&& short_name(split_path(path).1) is Ok
            &&& split_path(path).0 is None ==> n < 224 && root_used(m2.image, n + 1) && root_state(m2.image, n + 1).2
                == root_state(m.image, n).2.push(short_name(split_path(path).1)->Ok_0)
            &&& split_path(path).0 is Some ==> root_used(m2.image, n) && root_state(m2.image, n) == root_state(m.image, n)
        },
{
    reveal(add_dir_spec);
    lemma_dir_lookup_paths(m.dirs, path);
    if dir_lookup(m.dirs, path) is None && m.next < 2849 {
        let c = m.next;
        let img1 = chain_upto(m.image, c, 1, 1);
        lemma_chain_outside_root(m.image, c, 1, 1, n);
        let parent = split_path(path).0;
        let pc = match parent {
            Some(p) => match dir_lookup(m.dirs, p) {
                Some(x) => x,
                None => 0,
            },
            None => 0,
        };
        let off = cluster_start(c);
        let z = put_bytes(img1, off, Seq::new(512, |i: int| 0u8));
        lemma_put_outside_root(img1, off, Seq::new(512, |i: int| 0u8), n);
        let z1 = put_bytes(z, off, dir_entry(dot_name(), 0x10, ts, c, 0));
        lemma_dir_entry_attr(dot_name(), 0x10, ts, c, 0);
        lemma_put_outside_root(z, off, dir_entry(dot_name(), 0x10, ts, c, 0), n);
        lemma_dir_entry_attr(dotdot_name(), 0x10, ts, pc, 0);
        lemma_put_outside_root(z1, off + 32, dir_entry(dotdot_name(), 0x10, ts, pc, 0), n);
        let img = init_dir(img1, c, pc, ts);
        assert(same_root_slots(m.image, img, 224));
        let dirs = m.dirs.push((path, c));
        assert forall|k: int| 0 <= k < dirs.len() implies 2 <= (#[trigger] dirs[k]).1 < 2849 by {
            if k < m.dirs.len() {
                assert(dirs[k] == m.dirs[k]);
            }
        }
        assert(dir_paths(dirs) =~= dir_paths(m.dirs).push(path));
        match short_name(split_path(path).1) {
            Err(_) => {},
            Ok(sn) => {
                let e = dir_entry(sn, 0x10, ts, c, 0);
                lemma_short_name_first_byte(split_path(path).1);
                lemma_dir_entry_attr(sn, 0x10, ts, c, 0);
                assert(e[0] == e.subrange(0, 11)[0]);
                lemma_write_entry_root(img, dirs, parent, e, n);
                lemma_root_state_same(m.image, img, n);
                if write_entry(img, dirs, parent, e) is Ok {
                    let img2 = write_entry(img, dirs, parent, e)->Ok_0;
                    if parent is None {
                        lemma_root_append(img, n, e);
                    } else {
                        lemma_root_state_same(img, img2, n);
                    }
                }
            },
        }
    }
}

proof fn lemma_add_file_root(m: FatModel, path: Seq<char>, data: Seq<u8>, ts: FatTimestamp, n: int)
    requires
        model_ok(m),
        root_used(m.image, n),
    ensures
        add_file_spec(m, path, data, ts) matches Ok(m2) ==> {
            &&& m2.dirs == m.dirs
            &&& short_name(split_path(path).1) is Ok
            &&& split_path(path).0 is None ==> n < 224 && root_used(m2.image, n + 1) && root_state(m2.image, n + 1).2
                == root_state(m.image, n).2.push(short_name(split_path(path).1)->Ok_0)
            &&& split_path(path).0 is Some ==> root_used(m2.image, n) && root_state(m2.image, n) == root_state(m.image, n)
        },
{
    reveal(add_file_spec);
    let count = clusters_for(data.len() as int);
    if m.next + count - 1 < 2849 {
        let first = m.next;
        assert(count >= 1) by {
            if data.len() > 0 {
                vstd::arithmetic::div_mod::lemma_div_is_ordered(512, data.len() as int + 511, 512);
            }
        }
        let img1 = chain_upto(m.image, first, count, count);
        lemma_chain_outside_root(m.image, first, count, count, n);
        let img = put_bytes(img1, cluster_start(first), data);
        lemma_put_outside_root(img1, cluster_start(first), data, n);
        assert(same_root_slots(m.image, img, 224));
        assert forall|k: int| 0 <= k < m.dirs.len() implies 2 <= (#[trigger] m.dirs[k]).1 < 2849 by {}
        let parent = split_path(path).0;
        match short_name(split_path(path).1) {
            Err(_) => {},
            Ok(sn) => {
                let e = dir_entry(sn, 0x20, ts, first, data.len() as int);
                lemma_short_name_first_byte(split_path(path).1);
                lemma_dir_entry_attr(sn, 0x20, ts, first, data.len() as int);
                assert(e[0] == e.subrange(0, 11)[0]);
                lemma_write_entry_root(img, m.dirs, parent, e, n);
                lemma_root_state_same(m.image, img, n);
                if write_entry(img, m.dirs, parent, e) is Ok {
                    let img2 = write_entry(img, m.dirs, parent, e)->Ok_0;
                    if parent is None {
                        lemma_root_append(img, n, e);
                    } else {
                        lemma_root_state_same(img, img2, n);
                    }
                }
            },
        }
    }
}

} // verus!

verus! {

proof fn lemma_entries_list_root(m: FatModel, entries: Seq<ImageEntry>, n: int)
    requires
        model_ok(m),
        root_used(m.image, n),
    ensures
        add_entries_spec(m, entries) matches Ok(m2) ==> ({
            let names = root_entry_names(entries, dir_paths(m.dirs));
            &&& n + names.len() <= 224
            &&& root_used(m2.image, n + names.len())
            &&& root_state(m2.image, n + names.len()).2 == root_state(m.image, n).2 + names
            &&& names.len() == root_entry_texts(entries, dir_paths(m.dirs)).len()
            &&& (forall|i: int| 0 <= i < entries.len() ==> no_bare_dot(split_path((#[trigger] entries[i]).image_path@).1))
                ==> forall|k: int| 0 <= k < names.len() ==> crate::readback::all_ascii(#[trigger] names[k])
                && decode_ascii_name(names[k]) == root_entry_texts(entries, dir_paths(m.dirs))[k]
        }),
    decreases entries.len(),
{
    if entries.len() == 0 {
        assert(root_state(m.image, n).2 + Seq::<Seq<u8>>::empty() =~= root_state(m.image, n).2);
    } else {
        let e = entries[0];
        let p = e.image_path@;
        let made = dir_paths(m.dirs);
        let step = if e.is_dir {
            add_dir_spec(m, p, e.timestamp)
        } else {
            add_file_spec(m, p, e.data@, e.timestamp)
        };
        if e.is_dir {
            lemma_add_dir_low(m, p, e.timestamp);
            lemma_add_dir_root(m, p, e.timestamp, n);
        } else {
            lemma_add_file_low(m, p, e.data@, e.timestamp);
            lemma_add_file_root(m, p, e.data@, e.timestamp, n);
        }
        match step {
            Err(_) => {},
            Ok(m1) => {
                let rest = entries.drop_first();
                assert forall|i: int| 0 <= i < rest.len() implies (no_bare_dot(split_path((#[trigger] rest[i]).image_path@).1)
                    <== (forall|j: int| 0 <= j < entries.len() ==> no_bare_dot(split_path((#[trigger] entries[j]).image_path@).1))) by {
                    assert(rest[i] == entries[i + 1]);
                }
                if e.is_dir && made.contains(p) {
                    lemma_entries_list_root(m1, rest, n);
                } else {
                    let n1 = if split_path(p).0 is None { n + 1 } else { n };
                    lemma_entries_list_root(m1, rest, n1);
                    if add_entries_spec(m1, rest) is Ok {
                        let made2 = if e.is_dir { made.push(p) } else { made };
                        assert(dir_paths(m1.dirs) == made2);
                        let later = root_entry_names(rest, made2);
                        let later_texts = root_entry_texts(rest, made2);
                        if split_path(p).0 is None {
                            let sn = short_name(split_path(p).1)->Ok_0;
                            let tx = crate::text::upper(crate::text::trim(split_path(p).1));
                            assert(root_entry_names(entries, made) == seq![sn] + later);
                            assert(root_entry_texts(entries, made) == seq![tx] + later_texts);
                            assert(root_state(m.image, n).2.push(sn) + later =~= root_state(m.image, n).2 + (seq![sn]
                                + later));
                            if forall|j: int| 0 <= j < entries.len() ==> no_bare_dot(split_path((#[trigger] entries[j]).image_path@).1) {
                                assert(no_bare_dot(split_path(entries[0].image_path@).1));
                                short_name_reads_back(split_path(p).1);
                                let all = seq![sn] + later;
                                assert forall|k: int| 0 <= k < all.len() implies crate::readback::all_ascii(#[trigger] all[k])
                                    && decode_ascii_name(all[k]) == (seq![tx] + later_texts)[k] by {
                                    if k > 0 {
                                        assert(all[k] == later[k - 1]);
                                        assert((seq![tx] + later_texts)[k] == later_texts[k - 1]);
                                    }
                                }
                            }
                        } else {
                            assert(root_entry_names(entries, made) == later);
                            assert(root_entry_texts(entries, made) == later_texts);
                        }
                    }
                }
            },
        }
    }
}

/// The root directory that an image's builder starts from: the volume
/// label's entry in slot 0 when there is one, the other slots never used.
proof fn lemma_start_root(label: Option<Seq<char>>, now: FatTimestamp, serial: u32)
    requires
        image_start(label, now, serial) is Ok,
    ensures
        ({
            let m = image_start(label, now, serial)->Ok_0;
            let n: int = if label_of(label) is Some { 1 } else { 0 };
            &&& m.dirs.len() == 0
            &&& root_used(m.image, n)
            &&& root_state(m.image, n).2.len() == 0
        }),
{
    let vl = label_of(label);
    let img0 = put_bytes(Seq::new(FLOPPY_SIZE as nat, |i: int| 0u8), 0, boot_sector(vl, serial));
    let i1 = set_fat_entry(img0, 0, 0xff0);
    let i2 = set_fat_entry(i1, 1, 0xfff);
    lemma_set_fat_entry(img0, 0, 0xff0);
    lemma_set_fat_entry(i1, 1, 0xfff);
    assert forall|k: int| 9728 <= k < 16896 implies #[trigger] i2[k] == 0u8 by {
        assert(i2[k] == i1[k]);
        assert(i1[k] == img0[k]);
    }
    assert forall|s: int| 0 <= s < 224 implies i2[#[trigger] (9728 + 32 * s)] == 0x00 by {}
    assert(root_used(i2, 0));
    match vl {
        Some(l) => {
            lemma_label_bytes(label->Some_0);
            let e = dir_entry(l, 0x08, now, 0, 0);
            lemma_dir_entry_attr(l, 0x08, now, 0, 0);
            assert(e[0] == e.subrange(0, 11)[0]);
            lemma_write_entry_root(i2, Seq::empty(), None, e, 0);
            lemma_root_append(i2, 0, e);
        },
        None => {},
    }
}

/// What a read gives back of a written image: the root directory of an
/// image built from `entries` lists exactly the short names of the
/// root-level files and directories, in the order they were added (the
/// volume label aside, and a repeated directory once); and when no name
/// ends in a bare `.`, each listed name reads back as the entry's name,
/// trimmed and upper-cased.
pub proof fn built_image_lists_root_entries(
    entries: Seq<ImageEntry>,
    label: Option<Seq<char>>,
    now: FatTimestamp,
    serial: u32,
)
    requires
        fat_image(entries, label, now, serial) is Ok,
    ensures
        root_state(fat_image(entries, label, now, serial)->Ok_0, 224).2 == root_entry_names(entries, Seq::empty()),
        root_entry_names(entries, Seq::empty()).len() == root_entry_texts(entries, Seq::empty()).len(),
        (forall|i: int| 0 <= i < entries.len() ==> no_bare_dot(split_path((#[trigger] entries[i]).image_path@).1))
            ==> forall|k: int| 0 <= k < root_entry_names(entries, Seq::empty()).len() ==> crate::readback::all_ascii(
            #[trigger] root_entry_names(entries, Seq::empty())[k],
        ) && decode_ascii_name(root_entry_names(entries, Seq::empty())[k]) == root_entry_texts(entries, Seq::empty())[k],
{
    lemma_start_valid(label, now, serial);
    lemma_start_root(label, now, serial);
    let m = image_start(label, now, serial)->Ok_0;
    let n: int = if label_of(label) is Some { 1 } else { 0 };
    assert(dir_paths(m.dirs) =~= Seq::<Seq<char>>::empty());
    lemma_entries_list_root(m, entries, n);
    let m2 = add_entries_spec(m, entries)->Ok_0;
    let names = root_entry_names(entries, Seq::empty());
    let n2 = n + names.len();
    lemma_put_outside_root(m2.image, 5120, m2.image.subrange(512, 5120), n2);
    let b = finish_spec(m2.image);
    lemma_root_state_same(m2.image, b, n2);
    lemma_root_state_rest(b, n2, 224);
    assert(root_state(m.image, n).2 + names =~= names);
}

} // verus!
