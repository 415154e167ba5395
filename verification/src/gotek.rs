//! Gotek slot banks: a USB image holding 1000 floppy slots, each a 1.44 MB
//! image followed by 96 KiB of padding, and the workspace rules that decide
//! what each slot directory packs into.

use vstd::prelude::*;
use sha2::Digest;
use crate::fat::FLOPPY_SIZE;

verus! {

pub const SLOT_COUNT: u16 = 1000;

pub const SLOT_PADDING: usize = 98_304;

pub const SLOT_STRIDE: usize = 1_572_864;

/// Why a Gotek operation cannot go ahead.
#[derive(Debug, Clone, Copy, PartialEq, Eq, Structural)]
pub enum GotekError {
    /// The slot number is 1000 or more.
    SlotOutOfRange(u16),
    /// An image is not 1,474,560 bytes.
    WrongImageSize(usize),
    /// A slot directory holds more than one visible `.img` file.
    MultipleImages(u16),
    /// A slot directory holds a visible `.img` file and other files.
    AmbiguousSlot(u16),
    /// A regular-file device is smaller than one slot.
    DeviceTooSmall(u64),
    /// A regular-file device ends before the slot.
    SlotBeyondDevice(u16),
    /// Slot 0 of the device is not a FAT12 floppy image.
    NotInitialized,
    /// A raw write was asked for without confirming the device.
    WriteNotConfirmed,
}

/// The byte offset of a slot in the bank.
pub fn slot_offset(slot: u16) -> (r: u64)
    ensures
        r == slot * 1_572_864,
{
    slot as u64 * 1_572_864
}

/// Slots run from 0 to 999.
pub fn validate_slot(slot: u16) -> (r: Result<(), GotekError>)
    ensures
        slot < 1000 <==> r is Ok,
        slot >= 1000 ==> r == Err::<(), GotekError>(GotekError::SlotOutOfRange(slot)),
{
    if slot >= SLOT_COUNT {
        return Err(GotekError::SlotOutOfRange(slot));
    }
    Ok(())
}

/// An image to write must be exactly one floppy.
pub fn check_image_size(len: usize) -> (r: Result<(), GotekError>)
    ensures
        len == FLOPPY_SIZE <==> r is Ok,
        len != FLOPPY_SIZE ==> r == Err::<(), GotekError>(GotekError::WrongImageSize(len)),
{
    if len != FLOPPY_SIZE {
        return Err(GotekError::WrongImageSize(len));
    }
    Ok(())
}

/// A slot directory is named by three ASCII digits.
pub open spec fn slot_name(b: Seq<u8>) -> bool {
    b.len() == 3 && forall|i: int| 0 <= i < 3 ==> 48 <= #[trigger] b[i] <= 57
}

pub fn is_slot_name(name: &str) -> (r: bool)
    ensures
        r == slot_name(vstd::utf8::encode_utf8(name@)),
{
    let b = name.as_bytes();
    if b.len() != 3 {
        return false;
    }
    let mut all = true;
    for i in 0..3usize
        invariant
            b@.len() == 3,
            all == (forall|j: int| 0 <= j < i ==> 48 <= #[trigger] b@[j] <= 57),
    {
        if !(48 <= b[i] && b[i] <= 57) {
            all = false;
        }
    }
    all
}

/// Names the workspace keeps for itself: hidden names (leading `.`), among
/// them the managed image and hash files.
pub open spec fn managed_or_hidden(base: Seq<char>) -> bool {
    (base.len() > 0 && base[0] == '.') || base == ".floppy.img"@ || base == ".floppy.hash"@
        || base == ".floppy.written.hash"@
}

pub fn is_managed_or_hidden(base: &str) -> (r: bool)
    ensures
        r == managed_or_hidden(base@),
{
    let chars = crate::text::str_chars(base);
    let hidden = chars.len() > 0 && chars[0] == '.';
    proof {
        reveal_strlit(".floppy.img");
        reveal_strlit(".floppy.hash");
        reveal_strlit(".floppy.written.hash");
        if base@ == ".floppy.img"@ || base@ == ".floppy.hash"@ || base@ == ".floppy.written.hash"@ {
            assert(base@[0] == '.');
        }
    }
    hidden
}

/// Whether a slot is among the selected ones (all slots when none is selected).
pub fn slot_selected(selected: &[u16], slot: u16) -> (r: bool)
    ensures
        r == (selected@.len() == 0 || selected@.contains(slot)),
{
    if selected.len() == 0 {
        return true;
    }
    for i in 0..selected.len()
        invariant
            forall|j: int| 0 <= j < i ==> selected@[j] != slot,
    {
        if selected[i] == slot {
            return true;
        }
    }
    false
}

} // verus!

verus! {

/// What the SHA-256 digest of some bytes is.
pub uninterp spec fn sha256_digest(data: Seq<u8>) -> Seq<u8>;

/// `sha2::Sha256::digest`: the SHA-256 digest of the bytes. The result is
/// named; the one fact stated beside the name is its size, the 32 bytes of
/// `Sha256`'s output.
#[verifier::external_body]
fn sha256_digest_bytes(data: &[u8]) -> (r: Vec<u8>)
    ensures
        r@ == sha256_digest(data@),
        r@.len() == 32,
{
    sha2::Sha256::digest(data).to_vec()
}

/// Bytes as lowercase hex, two digits each, no separators.
pub open spec fn hex_lower(bytes: Seq<u8>) -> Seq<char>
    decreases bytes.len(),
{
    if bytes.len() == 0 {
        Seq::empty()
    } else {
        hex_lower(bytes.drop_last()) + crate::readback::byte_hex(bytes.last())
    }
}

/// The SHA-256 digest of some bytes, in lowercase hex.
pub fn sha256_bytes(data: &[u8]) -> (r: String)
    ensures
        r@ == hex_lower(sha256_digest(data@)),
        r@.len() == 64,
{
    let digest = sha256_digest_bytes(data);
    let mut chars: Vec<char> = Vec::new();
    for i in 0..digest.len()
        invariant
            digest@.len() == 32,
            chars@ == hex_lower(digest@.take(i as int)),
            chars@.len() == 2 * i,
    {
        let v = digest[i];
        chars.push(crate::readback::hex_digit_char(v / 16));
        chars.push(crate::readback::hex_digit_char(v % 16));
        assert(digest@.take(i + 1).drop_last() =~= digest@.take(i as int));
        assert(chars@ =~= hex_lower(digest@.take(i + 1)));
    }
    assert(digest@.take(32) =~= digest@);
    crate::text::string_from_chars(&chars)
}

/// What a slot's change-detection hash covers: the label file's digest
/// (when there is one), then each file's slot-relative path and digest,
/// each on a line of its own.
pub open spec fn hash_material(label_sha: Option<Seq<char>>, files: Seq<(Seq<char>, Seq<char>)>) -> Seq<u8>
    decreases files.len(),
{
    if files.len() == 0 {
        match label_sha {
            Some(h) => vstd::utf8::encode_utf8(".label"@) + seq![10u8] + vstd::utf8::encode_utf8(h) + seq![10u8],
            None => Seq::empty(),
        }
    } else {
        let f = files.last();
        hash_material(label_sha, files.drop_last()) + vstd::utf8::encode_utf8(f.0) + seq![10u8]
            + vstd::utf8::encode_utf8(f.1) + seq![10u8]
    }
}

pub open spec fn pair_texts(files: Seq<(String, String)>) -> Seq<(Seq<char>, Seq<char>)> {
    files.map_values(|f: (String, String)| (f.0@, f.1@))
}

/// The bytes a slot's hash is taken of.
pub fn slot_hash_material(label_sha: Option<&str>, files: &[(String, String)]) -> (r: Vec<u8>)
    ensures
        r@ == hash_material(
            match label_sha {
                Some(h) => Some(h@),
                None => None,
            },
            pair_texts(files@),
        ),
{
    let ghost lh: Option<Seq<char>> = match label_sha {
        Some(h) => Some(h@),
        None => None,
    };
    let mut out: Vec<u8> = Vec::new();
    match label_sha {
        Some(h) => {
            out.extend_from_slice(".label".as_bytes());
            out.push(10);
            out.extend_from_slice(h.as_bytes());
            out.push(10);
        },
        None => {},
    }
    assert(pair_texts(files@).take(0) =~= Seq::<(Seq<char>, Seq<char>)>::empty());
    assert(out@ =~= hash_material(lh, pair_texts(files@).take(0)));
    for i in 0..files.len()
        invariant
            out@ == hash_material(lh, pair_texts(files@).take(i as int)),
    {
        let (path, sha) = &files[i];
        out.extend_from_slice(path.as_str().as_bytes());
        out.push(10);
        out.extend_from_slice(sha.as_str().as_bytes());
        out.push(10);
        assert(pair_texts(files@).take(i + 1).drop_last() =~= pair_texts(files@).take(i as int));
        assert(out@ =~= hash_material(lh, pair_texts(files@).take(i + 1)));
    }
    assert(pair_texts(files@).take(files@.len() as int) =~= pair_texts(files@));
    out
}

} // verus!

verus! {

pub open spec fn lower_byte(b: u8) -> u8 {
    if 65 <= b <= 90 {
        (b + 32) as u8
    } else {
        b
    }
}

/// Glob matching on bytes: `*` matches any run, `?` one byte, other bytes
/// themselves, ASCII letters without regard to case.
pub open spec fn glob(p: Seq<u8>, v: Seq<u8>) -> bool
    decreases p.len() + v.len(),
{
    if p.len() == 0 {
        v.len() == 0
    } else if p[0] == 42 {
        glob(p.drop_first(), v) || (v.len() > 0 && glob(p, v.drop_first()))
    } else if p[0] == 63 {
        v.len() > 0 && glob(p.drop_first(), v.drop_first())
    } else {
        v.len() > 0 && lower_byte(p[0]) == lower_byte(v[0]) && glob(p.drop_first(), v.drop_first())
    }
}

fn lower_byte_exec(b: u8) -> (r: u8)
    ensures
        r == lower_byte(b),
{
    if 65 <= b && b <= 90 {
        b + 32
    } else {
        b
    }
}

fn glob_at(p: &[u8], v: &[u8], i: usize, j: usize) -> (r: bool)
    requires
        i <= p@.len(),
        j <= v@.len(),
    ensures
        r == glob(p@.skip(i as int), v@.skip(j as int)),
    decreases p@.len() - i + v@.len() - j,
{
    let ghost ps = p@.skip(i as int);
    let ghost vs = v@.skip(j as int);
    if i == p.len() {
        return j == v.len();
    }
    assert(ps[0] == p@[i as int]);
    assert(ps.drop_first() =~= p@.skip(i + 1));
    if j < v.len() {
        assert(vs[0] == v@[j as int]);
        assert(vs.drop_first() =~= v@.skip(j + 1));
    }
    if p[i] == 42 {
        glob_at(p, v, i + 1, j) || (j < v.len() && glob_at(p, v, i, j + 1))
    } else if p[i] == 63 {
        j < v.len() && glob_at(p, v, i + 1, j + 1)
    } else {
        j < v.len() && lower_byte_exec(p[i]) == lower_byte_exec(v[j]) && glob_at(p, v, i + 1, j + 1)
    }
}

/// Whether a value matches a glob pattern.
pub fn glob_match(pattern: &str, value: &str) -> (r: bool)
    ensures
        r == glob(vstd::utf8::encode_utf8(pattern@), vstd::utf8::encode_utf8(value@)),
{
    let p = pattern.as_bytes();
    let v = value.as_bytes();
    assert(p@.skip(0) =~= p@);
    assert(v@.skip(0) =~= v@);
    glob_at(p, v, 0, 0)
}

/// The lines of a text (split at `\n`; the last line may be empty).
pub open spec fn split_lines(s: Seq<char>) -> Seq<Seq<char>>
    decreases s.len(),
{
    if s.len() == 0 {
        seq![Seq::empty()]
    } else {
        let rest = split_lines(s.drop_last());
        if s.last() == '\n' {
            rest.push(Seq::empty())
        } else {
            rest.update(rest.len() - 1, rest.last().push(s.last()))
        }
    }
}

/// A pattern line: not empty after trimming, and not a `#` comment.
pub open spec fn pattern_line(t: Seq<char>) -> bool {
    t.len() > 0 && t[0] != '#'
}

/// The trimmed pattern lines of `lines`, in order.
pub open spec fn patterns_of(lines: Seq<Seq<char>>) -> Seq<Seq<char>>
    decreases lines.len(),
{
    if lines.len() == 0 {
        Seq::empty()
    } else {
        let rest = patterns_of(lines.drop_last());
        let t = crate::text::trim(lines.last());
        if pattern_line(t) {
            rest.push(t)
        } else {
            rest
        }
    }
}

/// Glob patterns that exclude workspace files from packing.
pub struct IgnoreRules {
    pub patterns: Vec<String>,
}

proof fn lemma_split_lines_nonempty(s: Seq<char>)
    ensures
        split_lines(s).len() >= 1,
    decreases s.len(),
{
    if s.len() > 0 {
        lemma_split_lines_nonempty(s.drop_last());
    }
}

impl IgnoreRules {
    /// The rules of a `.gotekignore` text: one glob per line, blank lines
    /// and `#` comments skipped.
    pub fn parse(contents: &str) -> (r: IgnoreRules)
        ensures
            r.patterns@.map_values(|p: String| p@) == patterns_of(split_lines(contents@)),
    {
        let chars = crate::text::str_chars(contents);
        let mut patterns: Vec<String> = Vec::new();
        let mut line: Vec<char> = Vec::new();
        assert(split_lines(chars@.take(0)) =~= seq![Seq::<char>::empty()]);
        for i in 0..chars.len()
            invariant
                split_lines(chars@.take(i as int)) == patterns_done(chars@.take(i as int)).push(line@),
                patterns@.map_values(|p: String| p@) == patterns_of(patterns_done(chars@.take(i as int))),
        {
            let c = chars[i];
            proof {
                lemma_split_lines_nonempty(chars@.take(i as int));
                assert(chars@.take(i + 1).drop_last() =~= chars@.take(i as int));
                assert(chars@.take(i + 1).last() == c);
            }
            if c == '\n' {
                let t = crate::text::trim_chars(&line);
                if t.len() > 0 && t[0] != '#' {
                    let ghost before = patterns@.map_values(|p: String| p@);
                    patterns.push(crate::text::string_from_chars(&t));
                    assert(patterns@.map_values(|p: String| p@) =~= before.push(t@));
                }
                proof {
                    let done = patterns_done(chars@.take(i as int));
                    assert(patterns_done(chars@.take(i + 1)) =~= done.push(line@));
                    assert(done.push(line@).drop_last() =~= done);
                }
                line = Vec::new();
                assert(split_lines(chars@.take(i + 1)) =~= patterns_done(chars@.take(i + 1)).push(line@));
            } else {
                line.push(c);
                proof {
                    assert(patterns_done(chars@.take(i + 1)) =~= patterns_done(chars@.take(i as int)));
                }
                assert(split_lines(chars@.take(i + 1)) =~= patterns_done(chars@.take(i + 1)).push(line@));
            }
        }
        let t = crate::text::trim_chars(&line);
        if t.len() > 0 && t[0] != '#' {
            let ghost before = patterns@.map_values(|p: String| p@);
            patterns.push(crate::text::string_from_chars(&t));
            assert(patterns@.map_values(|p: String| p@) =~= before.push(t@));
        }
        proof {
            assert(chars@.take(chars@.len() as int) =~= chars@);
            let all = split_lines(chars@);
            assert(all.drop_last() =~= patterns_done(chars@));
        }
        IgnoreRules { patterns }
    }

    /// An entry is ignored when a pattern matches its base name or its
    /// slot-relative path.
    pub fn matches(&self, base: &str, rel: &str) -> (r: bool)
        ensures
            r == exists|k: int|
                0 <= k < self.patterns@.len() && (glob(
                    vstd::utf8::encode_utf8(#[trigger] self.patterns@[k]@),
                    vstd::utf8::encode_utf8(base@),
                ) || glob(vstd::utf8::encode_utf8(self.patterns@[k]@), vstd::utf8::encode_utf8(rel@))),
    {
        for k in 0..self.patterns.len()
            invariant
                forall|j: int|
                    0 <= j < k ==> !(glob(
                        vstd::utf8::encode_utf8(#[trigger] self.patterns@[j]@),
                        vstd::utf8::encode_utf8(base@),
                    ) || glob(vstd::utf8::encode_utf8(self.patterns@[j]@), vstd::utf8::encode_utf8(rel@))),
        {
            let p = self.patterns[k].as_str();
            if glob_match(p, base) || glob_match(p, rel) {
                return true;
            }
        }
        false
    }
}

/// The lines of a text that are finished (followed by a `\n`).
pub open spec fn patterns_done(s: Seq<char>) -> Seq<Seq<char>> {
    split_lines(s).drop_last()
}

} // verus!

verus! {

/// What packing does with a slot directory.
#[derive(Debug, Clone, Copy, PartialEq, Eq, Structural)]
pub enum PackAction {
    /// A hand-placed image whose hash is recorded already.
    UnchangedManualImage,
    /// A hand-placed image: its hash is recorded.
    ManualImageSelected,
    /// Nothing to pack.
    Empty,
    /// The managed image is up to date.
    Unchanged,
    /// The files are packed into the managed image.
    Packed,
}

impl PackAction {
    /// The status word of a pack report.
    pub fn status(&self) -> (r: &'static str)
        ensures
            *self == PackAction::UnchangedManualImage ==> r@ == "unchanged-manual-image"@,
            *self == PackAction::ManualImageSelected ==> r@ == "manual-image-selected"@,
            *self == PackAction::Empty ==> r@ == "empty"@,
            *self == PackAction::Unchanged ==> r@ == "unchanged"@,
            *self == PackAction::Packed ==> r@ == "packed"@,
    {
        match self {
            PackAction::UnchangedManualImage => "unchanged-manual-image",
            PackAction::ManualImageSelected => "manual-image-selected",
            PackAction::Empty => "empty",
            PackAction::Unchanged => "unchanged",
            PackAction::Packed => "packed",
        }
    }
}

/// What packing does with a slot directory, from what it holds: visible
/// `.img` files, other (not ignored) entries, files to pack, and whether
/// the slot's content hash equals the recorded one.
pub open spec fn pack_plan(
    slot: u16,
    visible_images: int,
    has_other_entries: bool,
    has_packable_files: bool,
    hash_unchanged: bool,
) -> Result<PackAction, GotekError> {
    if visible_images > 1 {
        Err(GotekError::MultipleImages(slot))
    } else if visible_images == 1 {
        if has_other_entries {
            Err(GotekError::AmbiguousSlot(slot))
        } else if hash_unchanged {
            Ok(PackAction::UnchangedManualImage)
        } else {
            Ok(PackAction::ManualImageSelected)
        }
    } else if !has_packable_files {
        Ok(PackAction::Empty)
    } else if hash_unchanged {
        Ok(PackAction::Unchanged)
    } else {
        Ok(PackAction::Packed)
    }
}

pub fn pack_decision(
    slot: u16,
    visible_images: usize,
    has_other_entries: bool,
    has_packable_files: bool,
    hash_unchanged: bool,
) -> (r: Result<PackAction, GotekError>)
    ensures
        r == pack_plan(slot, visible_images as int, has_other_entries, has_packable_files, hash_unchanged),
{
    if visible_images > 1 {
        return Err(GotekError::MultipleImages(slot));
    }
    if visible_images == 1 {
        if has_other_entries {
            return Err(GotekError::AmbiguousSlot(slot));
        }
        if hash_unchanged {
            return Ok(PackAction::UnchangedManualImage);
        }
        return Ok(PackAction::ManualImageSelected);
    }
    if !has_packable_files {
        return Ok(PackAction::Empty);
    }
    if hash_unchanged {
        return Ok(PackAction::Unchanged);
    }
    Ok(PackAction::Packed)
}

/// Which image a slot directory offers for writing.
#[derive(Debug, Clone, Copy, PartialEq, Eq, Structural)]
pub enum SlotImage {
    /// Its one visible `.img` file.
    Visible,
    /// The managed image that packing wrote.
    Managed,
    /// None.
    Missing,
}

pub open spec fn slot_image_plan(
    slot: u16,
    visible_images: int,
    has_other_entries: bool,
    managed_exists: bool,
) -> Result<SlotImage, GotekError> {
    if visible_images > 1 {
        Err(GotekError::MultipleImages(slot))
    } else if visible_images == 1 {
        if has_other_entries {
            Err(GotekError::AmbiguousSlot(slot))
        } else {
            Ok(SlotImage::Visible)
        }
    } else if managed_exists {
        Ok(SlotImage::Managed)
    } else {
        Ok(SlotImage::Missing)
    }
}

pub fn slot_image_decision(
    slot: u16,
    visible_images: usize,
    has_other_entries: bool,
    managed_exists: bool,
) -> (r: Result<SlotImage, GotekError>)
    ensures
        r == slot_image_plan(slot, visible_images as int, has_other_entries, managed_exists),
{
    if visible_images > 1 {
        return Err(GotekError::MultipleImages(slot));
    }
    if visible_images == 1 {
        if has_other_entries {
            return Err(GotekError::AmbiguousSlot(slot));
        }
        return Ok(SlotImage::Visible);
    }
    if managed_exists {
        Ok(SlotImage::Managed)
    } else {
        Ok(SlotImage::Missing)
    }
}

/// A device's size as reported (`None` for zero, as block devices report),
/// or `DeviceTooSmall` for a regular file smaller than one slot.
pub fn device_size_check(is_regular_file: bool, len: u64) -> (r: Result<Option<u64>, GotekError>)
    ensures
        is_regular_file && len < FLOPPY_SIZE ==> r == Err::<Option<u64>, GotekError>(GotekError::DeviceTooSmall(len)),
        !(is_regular_file && len < FLOPPY_SIZE) ==> r == Ok::<Option<u64>, GotekError>(if len > 0 { Some(len) } else { None }),
{
    let size = if len > 0 {
        Some(len)
    } else {
        None
    };
    let shown: u64 = match size {
        Some(s) => s,
        None => 0,
    };
    if is_regular_file && shown < FLOPPY_SIZE as u64 {
        return Err(GotekError::DeviceTooSmall(shown));
    }
    Ok(size)
}

/// The number of whole floppies a device of known size holds.
pub fn slot_count_of(size: Option<u64>) -> (r: Option<u64>)
    ensures
        match size {
            Some(s) => r == Some(s / 1_474_560),
            None => r is None,
        },
{
    match size {
        Some(s) => Some(s / 1_474_560),
        None => None,
    }
}

/// A regular-file device must reach past the end of the slot's floppy.
pub fn check_slot_fits(is_regular_file: bool, size: Option<u64>, slot: u16) -> (r: Result<(), GotekError>)
    ensures
        r is Ok <==> !(is_regular_file && (match size {
            Some(s) => s as int,
            None => 0int,
        }) < (slot + 1) * 1_474_560),
        r is Err ==> r == Err::<(), GotekError>(GotekError::SlotBeyondDevice(slot)),
{
    let required = (slot as u64 + 1) * 1_474_560;
    let shown: u64 = match size {
        Some(s) => s,
        None => 0,
    };
    if is_regular_file && shown < required {
        return Err(GotekError::SlotBeyondDevice(slot));
    }
    Ok(())
}

/// Raw writes to a device go ahead only when the device was confirmed.
pub fn require_write_confirmation(confirm: bool) -> (r: Result<(), GotekError>)
    ensures
        r is Ok <==> confirm,
        !confirm ==> r == Err::<(), GotekError>(GotekError::WriteNotConfirmed),
{
    if confirm {
        Ok(())
    } else {
        Err(GotekError::WriteNotConfirmed)
    }
}

/// Slot 0 of a device must be a floppy image before slots are written.
pub fn require_initialized(slot0_valid: bool) -> (r: Result<(), GotekError>)
    ensures
        r is Ok <==> slot0_valid,
        !slot0_valid ==> r == Err::<(), GotekError>(GotekError::NotInitialized),
{
    if slot0_valid {
        Ok(())
    } else {
        Err(GotekError::NotInitialized)
    }
}

} // verus!

verus! {

/// Where the Gotek workspace lives.
#[derive(Debug)]
pub struct GotekOptions {
    pub root: std::path::PathBuf,
}

/// What packing the workspace did.
#[derive(Debug)]
pub struct PackReport {
    pub root: std::path::PathBuf,
    pub slots: Vec<PackSlotReport>,
}

/// What packing one slot directory did.
#[derive(Debug)]
pub struct PackSlotReport {
    pub slot: u16,
    pub status: String,
    pub image: Option<std::path::PathBuf>,
    pub hash: Option<String>,
}

/// A slot read from or written to a device.
#[derive(Debug)]
pub struct SlotIoReport {
    pub slot: u16,
    pub image: std::path::PathBuf,
    pub offset: u64,
    pub bytes: usize,
    pub sha256: String,
    pub status: String,
}

/// The comparison of the workspace's slot images with a device.
#[derive(Debug)]
pub struct VerifyReport {
    pub slots: Vec<VerifySlotReport>,
    pub ok: bool,
}

/// The comparison of one slot image with the device's copy.
#[derive(Debug)]
pub struct VerifySlotReport {
    pub slot: u16,
    pub image: std::path::PathBuf,
    pub local_sha256: String,
    pub device_sha256: String,
    pub ok: bool,
}

/// What a floppy image holds.
#[derive(Debug)]
pub struct ImageInspection {
    pub path: std::path::PathBuf,
    pub valid_fat12_1440: bool,
    pub label: Option<String>,
    pub files: Vec<String>,
}

/// What was found of a device meant to hold a slot bank.
#[derive(Debug)]
pub struct GotekDeviceCheck {
    pub device: std::path::PathBuf,
    pub size_bytes: Option<u64>,
    pub slot_count: Option<u64>,
    pub is_regular_file: bool,
    pub slot0_valid_fat12_1440: bool,
}

/// A block device that looks like a Gotek slot bank.
#[derive(Debug)]
pub struct GotekDeviceCandidate {
    pub path: std::path::PathBuf,
    pub label: String,
    pub check: GotekDeviceCheck,
}

/// A slot image to compare with the device: its slot, its path, the digest
/// of the local file and the bytes read from the device's slot.
#[derive(Debug)]
pub struct SlotReading {
    pub slot: u16,
    pub image: std::path::PathBuf,
    pub local_sha256: String,
    pub device_data: Vec<u8>,
}

/// The report on one reading: the device bytes' digest and whether it
/// equals the local one.
pub open spec fn verify_slot_spec(r: VerifySlotReport, reading: SlotReading) -> bool {
    &&& r.slot == reading.slot
    &&& r.image == reading.image
    &&& r.local_sha256@ == reading.local_sha256@
    &&& r.device_sha256@ == hex_lower(sha256_digest(reading.device_data@))
    &&& r.ok == (reading.local_sha256@ == hex_lower(sha256_digest(reading.device_data@)))
}

/// Compares one slot image with the device's copy.
pub fn verify_slot_reading(reading: SlotReading) -> (r: VerifySlotReport)
    ensures
        verify_slot_spec(r, reading),
{
    let device_sha256 = sha256_bytes(reading.device_data.as_slice());
    let ok = crate::text::str_eq(reading.local_sha256.as_str(), device_sha256.as_str());
    VerifySlotReport {
        slot: reading.slot,
        image: reading.image,
        local_sha256: reading.local_sha256,
        device_sha256,
        ok,
    }
}

/// The report on the workspace's slots, read from the device in order:
/// one entry per reading, and `ok` when every slot matches. The readings
/// come in ascending slot order (the slot directories' three-digit names
/// sorted), and so do the entries.
pub fn verify_workspace_slots(readings: Vec<SlotReading>) -> (r: VerifyReport)
    requires
        forall|i: int, j: int|
            0 <= i < j < readings@.len() ==> (#[trigger] readings@[i]).slot < (#[trigger] readings@[j]).slot,
    ensures
        r.slots@.len() == readings@.len(),
        forall|i: int, j: int|
            0 <= i < j < r.slots@.len() ==> (#[trigger] r.slots@[i]).slot < (#[trigger] r.slots@[j]).slot,
        forall|k: int| 0 <= k < readings@.len() ==> verify_slot_spec(#[trigger] r.slots@[k], readings@[k]),
        r.ok == (forall|k: int| 0 <= k < r.slots@.len() ==> (#[trigger] r.slots@[k]).ok),
{
    let ghost input = readings@;
    let mut slots: Vec<VerifySlotReport> = Vec::new();
    let mut ok = true;
    for reading in it: readings.into_iter()
        invariant
            it.seq() == input,
            slots@.len() == it.index(),
            forall|k: int| 0 <= k < slots@.len() ==> verify_slot_spec(#[trigger] slots@[k], input[k]),
            ok == (forall|k: int| 0 <= k < slots@.len() ==> (#[trigger] slots@[k]).ok),
    {
        let report = verify_slot_reading(reading);
        let report_ok = report.ok;
        if !report_ok {
            ok = false;
        }
        let ghost before = slots@;
        slots.push(report);
        assert(slots@[before.len() as int].ok == report_ok);
        assert(forall|k: int| 0 <= k < before.len() ==> slots@[k] == before[k]);
    }
    VerifyReport { slots, ok }
}

/// The check of a device: a regular file must hold one slot at least, and
/// slot 0 must be a FAT12 floppy; the size is `None` where the device
/// reports zero, as block devices do.
pub fn gotek_device_check(
    device: std::path::PathBuf,
    is_regular_file: bool,
    len: u64,
    slot0: &[u8],
) -> (r: Result<GotekDeviceCheck, GotekError>)
    ensures
        is_regular_file && len < FLOPPY_SIZE ==> r == Err::<GotekDeviceCheck, GotekError>(
            GotekError::DeviceTooSmall(len),
        ),
        !(is_regular_file && len < FLOPPY_SIZE) && !crate::fat::valid_fat12_1440(slot0@) ==> r
            == Err::<GotekDeviceCheck, GotekError>(GotekError::NotInitialized),
        !(is_regular_file && len < FLOPPY_SIZE) && crate::fat::valid_fat12_1440(slot0@) ==> (r matches Ok(c)
            && c.device == device && c.size_bytes == (if len > 0 { Some(len) } else { None::<u64> })
            && c.slot_count == (if len > 0 { Some(len / 1_474_560) } else { None::<u64> })
            && c.is_regular_file == is_regular_file && c.slot0_valid_fat12_1440),
{
    let size_bytes = match device_size_check(is_regular_file, len) {
        Ok(s) => s,
        Err(e) => return Err(e),
    };
    let valid = crate::fat::is_valid_fat12_1440(slot0);
    match require_initialized(valid) {
        Ok(()) => {},
        Err(e) => return Err(e),
    }
    Ok(GotekDeviceCheck {
        device,
        size_bytes,
        slot_count: slot_count_of(size_bytes),
        is_regular_file,
        slot0_valid_fat12_1440: valid,
    })
}

/// A device check, further requiring that a regular-file device reaches
/// past the end of the slot.
pub fn check_gotek_device_for_slot(check: GotekDeviceCheck, slot: u16) -> (r: Result<GotekDeviceCheck, GotekError>)
    ensures
        ({
            let shown: int = match check.size_bytes {
                Some(s) => s as int,
                None => 0,
            };
            if check.is_regular_file && shown < (slot + 1) * 1_474_560 {
                r == Err::<GotekDeviceCheck, GotekError>(GotekError::SlotBeyondDevice(slot))
            } else {
                r == Ok::<GotekDeviceCheck, GotekError>(check)
            }
        }),
{
    match check_slot_fits(check.is_regular_file, check.size_bytes, slot) {
        Ok(()) => Ok(check),
        Err(e) => Err(e),
    }
}

} // verus!

verus! {

/// A name ending in `.img`, compared without regard to ASCII case.
pub open spec fn img_name(base: Seq<char>) -> bool {
    let l = crate::text::lower(base);
    l.len() >= 4 && l.skip(l.len() - 4) == ".img"@
}

pub fn is_img_name(base: &str) -> (r: bool)
    ensures
        r == img_name(base@),
{
    let l = crate::text::lower_chars(&crate::text::str_chars(base));
    let suffix = crate::text::str_chars(".img");
    proof {
        reveal_strlit(".img");
    }
    crate::text::chars_end_with(&l, &suffix)
}

/// An entry of a slot directory that is a hand-placed image: a file,
/// not hidden, named `*.img`, not ignored.
pub open spec fn visible_image(base: Seq<char>, is_file: bool, ignored: bool) -> bool {
    is_file && !(base.len() > 0 && base[0] == '.') && img_name(base) && !ignored
}

pub fn is_visible_image(base: &str, is_file: bool, ignored: bool) -> (r: bool)
    ensures
        r == visible_image(base@, is_file, ignored),
{
    let chars = crate::text::str_chars(base);
    let hidden = chars.len() > 0 && chars[0] == '.';
    is_file && !hidden && is_img_name(base) && !ignored
}

/// A file that packing puts in the managed image: not hidden or managed,
/// not the `.label` file, not an image, not ignored.
pub open spec fn packable_file(base: Seq<char>, is_file: bool, ignored: bool) -> bool {
    is_file && !managed_or_hidden(base) && base != ".label"@ && !img_name(base) && !ignored
}

pub fn is_packable_file(base: &str, is_file: bool, ignored: bool) -> (r: bool)
    ensures
        r == packable_file(base@, is_file, ignored),
{
    is_file && !is_managed_or_hidden(base) && !crate::text::str_eq(base, ".label") && !is_img_name(base)
        && !ignored
}

/// A top-level entry that packing copies into the image.
pub open spec fn packable_root(base: Seq<char>, ignored: bool) -> bool {
    !managed_or_hidden(base) && base != ".label"@ && !img_name(base) && !ignored
}

pub fn is_packable_root(base: &str, ignored: bool) -> (r: bool)
    ensures
        r == packable_root(base@, ignored),
{
    !is_managed_or_hidden(base) && !crate::text::str_eq(base, ".label") && !is_img_name(base) && !ignored
}

/// An entry that makes a hand-placed image ambiguous: anything not hidden,
/// managed, the label or ignored, except image files.
pub open spec fn other_entry(base: Seq<char>, is_file: bool, ignored: bool) -> bool {
    !managed_or_hidden(base) && base != ".label"@ && !ignored && !(is_file && img_name(base))
}

pub fn is_other_entry(base: &str, is_file: bool, ignored: bool) -> (r: bool)
    ensures
        r == other_entry(base@, is_file, ignored),
{
    !is_managed_or_hidden(base) && !crate::text::str_eq(base, ".label") && !ignored && !(is_file
        && is_img_name(base))
}

/// The workspace's own bookkeeping files, which a slot's hash leaves out.
pub open spec fn managed_file(base: Seq<char>) -> bool {
    base == ".floppy.img"@ || base == ".floppy.hash"@ || base == ".floppy.written.hash"@
}

pub fn is_managed_file(base: &str) -> (r: bool)
    ensures
        r == managed_file(base@),
{
    crate::text::str_eq(base, ".floppy.img") || crate::text::str_eq(base, ".floppy.hash")
        || crate::text::str_eq(base, ".floppy.written.hash")
}

/// A recorded hash file's text: trimmed, and `None` when nothing is left.
pub fn trimmed_text(contents: &str) -> (r: Option<String>)
    ensures
        crate::text::trim(contents@).len() == 0 ==> r is None,
        crate::text::trim(contents@).len() > 0 ==> (r matches Some(s) && s@ == crate::text::trim(contents@)),
{
    let t = crate::text::trim_chars(&crate::text::str_chars(contents));
    if t.len() == 0 {
        None
    } else {
        Some(crate::text::string_from_chars(&t))
    }
}

/// Whether a recorded hash equals the current one.
pub fn hash_recorded(previous: &Option<String>, current: &str) -> (r: bool)
    ensures
        r == (previous matches Some(p) && p@ == current@),
{
    match previous {
        Some(p) => crate::text::str_eq(p.as_str(), current),
        None => false,
    }
}

} // verus!

verus! {

/// What was read of one block device: its name under `/sys/block`, its
/// device path, the device check (`None` where it failed) and the texts of
/// its `removable` and `device/model` files where they could be read.
#[derive(Debug)]
pub struct BlockDeviceProbe {
    pub name: String,
    pub path: std::path::PathBuf,
    pub check: Option<GotekDeviceCheck>,
    pub removable: Option<String>,
    pub model: Option<String>,
}

/// Loop and RAM disks are never slot banks.
pub open spec fn candidate_name(name: Seq<char>) -> bool {
    !(name.len() >= 4 && name.take(4) == "loop"@) && !(name.len() >= 3 && name.take(3) == "ram"@)
}

pub open spec fn probe_removable(p: BlockDeviceProbe) -> bool {
    p.removable matches Some(t) && crate::text::trim(t@) == "1"@
}

pub open spec fn probe_model(p: BlockDeviceProbe) -> Option<Seq<char>> {
    match p.model {
        Some(t) => if crate::text::trim(t@).len() > 0 {
            Some(crate::text::trim(t@))
        } else {
            None
        },
        None => None,
    }
}

/// How a candidate is shown: its path, its model or whether it is
/// removable, and its size in slots.
pub open spec fn candidate_label(
    name: Seq<char>,
    removable: bool,
    model: Option<Seq<char>>,
    slot_count: Option<u64>,
) -> Seq<char> {
    let path = "/dev/"@ + name;
    let size = match slot_count {
        Some(s) => crate::text::dec_digits(s as nat) + " slot(s)"@,
        None => "raw block device"@,
    };
    match model {
        Some(m) => path + " - "@ + m + " ("@ + size + ")"@,
        None => if removable {
            path + " - removable ("@ + size + ")"@
        } else {
            path + " ("@ + size + ")"@
        },
    }
}

pub open spec fn kept_probe(p: BlockDeviceProbe) -> bool {
    candidate_name(p.name@) && p.check is Some
}

/// The probes that become candidates, in order.
pub open spec fn kept_probes(ps: Seq<BlockDeviceProbe>) -> Seq<BlockDeviceProbe>
    decreases ps.len(),
{
    if ps.len() == 0 {
        Seq::empty()
    } else if kept_probe(ps.last()) {
        kept_probes(ps.drop_last()).push(ps.last())
    } else {
        kept_probes(ps.drop_last())
    }
}

/// The candidate a kept probe gives.
pub open spec fn candidate_of(c: GotekDeviceCandidate, p: BlockDeviceProbe) -> bool {
    &&& c.path == p.path
    &&& Some(c.check) == p.check
    &&& c.label@ == candidate_label(
        p.name@,
        probe_removable(p),
        probe_model(p),
        p.check.unwrap().slot_count,
    )
}

pub fn is_candidate_name(name: &str) -> (r: bool)
    ensures
        r == candidate_name(name@),
{
    let chars = crate::text::str_chars(name);
    let lp = crate::text::str_chars("loop");
    let rm = crate::text::str_chars("ram");
    proof {
        reveal_strlit("loop");
        reveal_strlit("ram");
    }
    !crate::text::chars_start_with(&chars, &lp) && !crate::text::chars_start_with(&chars, &rm)
}

/// The label of a candidate device.
pub fn device_candidate_label(
    name: &str,
    removable: bool,
    model: &Option<String>,
    slot_count: Option<u64>,
) -> (r: String)
    ensures
        r@ == candidate_label(
            name@,
            removable,
            match model {
                Some(m) => Some(m@),
                None => None,
            },
            slot_count,
        ),
{
    let mut size: Vec<char> = Vec::new();
    match slot_count {
        Some(s) => {
            crate::text::push_decimal(&mut size, s);
            crate::text::push_str(&mut size, " slot(s)");
        },
        None => crate::text::push_str(&mut size, "raw block device"),
    }
    let mut out: Vec<char> = Vec::new();
    crate::text::push_str(&mut out, "/dev/");
    crate::text::push_str(&mut out, name);
    match model {
        Some(m) => {
            crate::text::push_str(&mut out, " - ");
            crate::text::push_str(&mut out, m.as_str());
            crate::text::push_str(&mut out, " (");
        },
        None => {
            if removable {
                crate::text::push_str(&mut out, " - removable (");
            } else {
                crate::text::push_str(&mut out, " (");
            }
        },
    }
    let ghost pre = out@;
    for i in 0..size.len()
        invariant
            out@ == pre + size@.take(i as int),
    {
        out.push(size[i]);
        assert(size@.take(i + 1) =~= size@.take(i as int).push(size@[i as int]));
    }
    assert(size@.take(size@.len() as int) =~= size@);
    crate::text::push_str(&mut out, ")");
    let ghost sz = match slot_count {
        Some(s) => crate::text::dec_digits(s as nat) + " slot(s)"@,
        None => "raw block device"@,
    };
    assert(size@ =~= sz);
    let ghost path = "/dev/"@ + name@;
    proof {
        match model {
            Some(m) => {
                assert(out@ =~= path + " - "@ + m@ + " ("@ + sz + ")"@);
            },
            None => {
                if removable {
                    assert(out@ =~= path + " - removable ("@ + sz + ")"@);
                } else {
                    assert(out@ =~= path + " ("@ + sz + ")"@);
                }
            },
        }
    }
    crate::text::string_from_chars(&out)
}


fn probe_removable_exec(removable: &Option<String>) -> (r: bool)
    ensures
        r == (removable matches Some(t) && crate::text::trim(t@) == "1"@),
{
    match removable {
        Some(t) => {
            let tr = crate::text::trim_chars(&crate::text::str_chars(t.as_str()));
            let one = crate::text::str_chars("1");
            crate::text::chars_eq(&tr, &one)
        },
        None => false,
    }
}

fn probe_model_exec(model: &Option<String>) -> (r: Option<String>)
    ensures
        match r {
            Some(s) => model matches Some(t) && crate::text::trim(t@).len() > 0 && s@ == crate::text::trim(t@),
            None => !(model matches Some(t) && crate::text::trim(t@).len() > 0),
        },
{
    match model {
        Some(t) => trimmed_text(t.as_str()),
        None => None,
    }
}

/// The probes come by name, each name once, in ascending order.
pub open spec fn probes_ascending(ps: Seq<BlockDeviceProbe>) -> bool {
    forall|i: int, j: int|
        0 <= i < j < ps.len() ==> crate::order::text_less(
            (#[trigger] ps[i]).name@,
            (#[trigger] ps[j]).name@,
        )
}

/// Leaving probes out keeps the others in their order, and each kept
/// probe is one of the probes.
pub proof fn lemma_kept_probes_ascending(ps: Seq<BlockDeviceProbe>)
    requires
        probes_ascending(ps),
    ensures
        probes_ascending(kept_probes(ps)),
        forall|k: int|
            0 <= k < kept_probes(ps).len() ==> exists|j: int|
                0 <= j < ps.len() && #[trigger] kept_probes(ps)[k] == ps[j],
    decreases ps.len(),
{
    if ps.len() > 0 {
        let dl = ps.drop_last();
        assert forall|i: int, j: int| 0 <= i < j < dl.len() implies crate::order::text_less(
            (#[trigger] dl[i]).name@,
            (#[trigger] dl[j]).name@,
        ) by {
            assert(dl[i] == ps[i] && dl[j] == ps[j]);
        }
        lemma_kept_probes_ascending(dl);
        let kd = kept_probes(dl);
        assert forall|k: int| 0 <= k < kd.len() implies exists|j: int|
            0 <= j < ps.len() && #[trigger] kd[k] == ps[j] by {
            let j = choose|j: int| 0 <= j < dl.len() && kd[k] == dl[j];
            assert(kd[k] == ps[j]);
        }
        if kept_probe(ps.last()) {
            let kp = kept_probes(ps);
            assert(kp == kd.push(ps.last()));
            assert forall|i: int, j: int| 0 <= i < j < kp.len() implies crate::order::text_less(
                (#[trigger] kp[i]).name@,
                (#[trigger] kp[j]).name@,
            ) by {
                if j == kd.len() {
                    let m = choose|m: int| 0 <= m < dl.len() && kd[i] == dl[m];
                    assert(kp[i] == ps[m]);
                    assert(kp[j] == ps[ps.len() - 1]);
                } else {
                    assert(kp[i] == kd[i] && kp[j] == kd[j]);
                }
            }
            assert forall|k: int| 0 <= k < kp.len() implies exists|j: int|
                0 <= j < ps.len() && #[trigger] kp[k] == ps[j] by {
                if k == kd.len() {
                    assert(kp[k] == ps[ps.len() - 1]);
                } else {
                    assert(kp[k] == kd[k]);
                }
            }
        }
    }
}

/// The Gotek candidates among the probed block devices, in the order
/// given, which is by device name: loop and RAM disks and devices whose
/// check failed are left out. A candidate's path is its device's under
/// `/dev`, so the candidates come in ascending order of path.
pub fn list_gotek_device_candidates(probes: Vec<BlockDeviceProbe>) -> (r: Vec<GotekDeviceCandidate>)
    requires
        probes_ascending(probes@),
    ensures
        r@.len() == kept_probes(probes@).len(),
        forall|k: int| 0 <= k < r@.len() ==> candidate_of(#[trigger] r@[k], kept_probes(probes@)[k]),
        probes_ascending(kept_probes(probes@)),
{
    proof {
        lemma_kept_probes_ascending(probes@);
    }
    let ghost input = probes@;
    let mut out: Vec<GotekDeviceCandidate> = Vec::new();
    for probe in it: probes.into_iter()
        invariant
            it.seq() == input,
            out@.len() == kept_probes(input.take(it.index() as int)).len(),
            forall|k: int| 0 <= k < out@.len() ==> candidate_of(#[trigger] out@[k], kept_probes(input.take(it.index() as int))[k]),
    {
        let ghost i = it.index();
        let ghost p = probe;
        assert(input.take(i + 1).drop_last() =~= input.take(i as int));
        assert(input.take(i + 1).last() == p);
        let keep_name = is_candidate_name(probe.name.as_str());
        let removable = probe_removable_exec(&probe.removable);
        let model = probe_model_exec(&probe.model);
        match probe.check {
            Some(check) => {
                if keep_name {
                    let label = device_candidate_label(probe.name.as_str(), removable, &model, check.slot_count);
                    let ghost before = out@;
                    out.push(GotekDeviceCandidate { path: probe.path, label, check });
                    assert(forall|k: int| 0 <= k < before.len() ==> out@[k] == before[k]);
                }
            },
            None => {},
        }
    }
    proof {
        assert(input.take(input.len() as int) =~= input);
    }
    out
}

/// The status word of each pack action.
pub open spec fn pack_status(a: PackAction) -> Seq<char> {
    match a {
        PackAction::UnchangedManualImage => "unchanged-manual-image"@,
        PackAction::ManualImageSelected => "manual-image-selected"@,
        PackAction::Empty => "empty"@,
        PackAction::Unchanged => "unchanged"@,
        PackAction::Packed => "packed"@,
    }
}

/// The report on a packed slot: its status word, and the image and the
/// content hash, which an empty slot has neither of.
pub fn pack_slot_report(
    slot: u16,
    action: PackAction,
    image: std::path::PathBuf,
    hash: String,
) -> (r: PackSlotReport)
    ensures
        r.slot == slot,
        r.status@ == pack_status(action),
        action == PackAction::Empty ==> r.image is None && r.hash is None,
        action != PackAction::Empty ==> r.image == Some(image) && (r.hash matches Some(h) && h@ == hash@),
{
    let status = String::from_str(action.status());
    if action == PackAction::Empty {
        PackSlotReport { slot, status, image: None, hash: None }
    } else {
        PackSlotReport { slot, status, image: Some(image), hash: Some(hash) }
    }
}

/// The report on a slot read or written: its offset, the data's size and
/// digest, and the given status word.
pub fn slot_io_report(slot: u16, image: std::path::PathBuf, data: &[u8], status: &str) -> (r: SlotIoReport)
    ensures
        r.slot == slot,
        r.image == image,
        r.offset == slot * 1_572_864,
        r.bytes == data@.len(),
        r.sha256@ == hex_lower(sha256_digest(data@)),
        r.status@ == status@,
{
    SlotIoReport {
        slot,
        image,
        offset: slot_offset(slot),
        bytes: data.len(),
        sha256: sha256_bytes(data),
        status: String::from_str(status),
    }
}

/// The comparison of a local slot image with the bytes read from the
/// device: the slot must exist and the image be one floppy.
pub fn verify_slot_data(
    slot: u16,
    image: std::path::PathBuf,
    local: &[u8],
    device_data: &[u8],
) -> (r: Result<VerifySlotReport, GotekError>)
    ensures
        slot >= 1000 ==> r == Err::<VerifySlotReport, GotekError>(GotekError::SlotOutOfRange(slot)),
        slot < 1000 && local@.len() != FLOPPY_SIZE ==> r == Err::<VerifySlotReport, GotekError>(
            GotekError::WrongImageSize(local@.len() as usize),
        ),
        slot < 1000 && local@.len() == FLOPPY_SIZE ==> (r matches Ok(rep) && rep.slot == slot && rep.image
            == image && rep.local_sha256@ == hex_lower(sha256_digest(local@)) && rep.device_sha256@
            == hex_lower(sha256_digest(device_data@)) && rep.ok == (sha256_digest(local@) == sha256_digest(
            device_data@))),
        slot < 1000 && local@.len() == FLOPPY_SIZE && local@ == device_data@ ==> (r matches Ok(rep) && rep.ok
            && rep.local_sha256@ == rep.device_sha256@),
{
    match validate_slot(slot) {
        Ok(()) => {},
        Err(e) => return Err(e),
    }
    match check_image_size(local.len()) {
        Ok(()) => {},
        Err(e) => return Err(e),
    }
    let local_sha256 = sha256_bytes(local);
    let device_sha256 = sha256_bytes(device_data);
    let ok = crate::text::str_eq(local_sha256.as_str(), device_sha256.as_str());
    proof {
        lemma_hex_lower_len(sha256_digest(local@));
        lemma_hex_lower_len(sha256_digest(device_data@));
        lemma_hex_lower_injective(sha256_digest(local@), sha256_digest(device_data@));
    }
    Ok(VerifySlotReport { slot, image, local_sha256, device_sha256, ok })
}

/// Two byte strings of one length have equal hex texts only if they are equal.
pub proof fn lemma_hex_lower_injective(a: Seq<u8>, b: Seq<u8>)
    requires
        a.len() == b.len(),
    ensures
        hex_lower(a) == hex_lower(b) <==> a == b,
    decreases a.len(),
{
    if a.len() > 0 {
        lemma_hex_lower_injective(a.drop_last(), b.drop_last());
        lemma_hex_lower_len(a.drop_last());
        lemma_hex_lower_len(b.drop_last());
        let ha = hex_lower(a);
        let hb = hex_lower(b);
        if ha == hb {
            let n = hex_lower(a.drop_last()).len();
            assert(ha.take(n as int) =~= hex_lower(a.drop_last()));
            assert(hb.take(n as int) =~= hex_lower(b.drop_last()));
            assert(ha.skip(n as int) =~= crate::readback::byte_hex(a.last()));
            assert(hb.skip(n as int) =~= crate::readback::byte_hex(b.last()));
            lemma_byte_hex_injective(a.last(), b.last());
            assert(a =~= a.drop_last().push(a.last()));
            assert(b =~= b.drop_last().push(b.last()));
        }
    } else {
        assert(a =~= b);
    }
}

pub proof fn lemma_hex_lower_len(a: Seq<u8>)
    ensures
        hex_lower(a).len() == 2 * a.len(),
    decreases a.len(),
{
    if a.len() > 0 {
        lemma_hex_lower_len(a.drop_last());
    }
}

/// What an image's bytes show: whether they are a FAT12 floppy and, if so,
/// the label and root names.
pub fn inspect_image_data(path: std::path::PathBuf, data: &[u8]) -> (r: ImageInspection)
    ensures
        r.path == path,
        r.valid_fat12_1440 == crate::fat::valid_fat12_1440(data@),
        !crate::fat::valid_fat12_1440(data@) ==> r.label is None && r.files@.len() == 0,
        crate::fat::valid_fat12_1440(data@) ==> ({
            let st = crate::fat::root_state(data@, 224);
            &&& (match st.1 {
                Some(raw) => r.label matches Some(s) && crate::fat::read_name(s@, raw),
                None => r.label is None,
            })
            &&& r.files@.len() == st.2.len()
            &&& forall|k: int| 0 <= k < r.files@.len() ==> crate::fat::read_name((#[trigger] r.files@[k])@, st.2[k])
        }),
{
    let valid = crate::fat::is_valid_fat12_1440(data);
    if valid {
        let (label, files) = crate::fat::read_root_entries(data);
        ImageInspection { path, valid_fat12_1440: true, label, files }
    } else {
        ImageInspection { path, valid_fat12_1440: false, label: None, files: Vec::new() }
    }
}

proof fn lemma_hex_char_injective(a: int, b: int)
    requires
        0 <= a < 16,
        0 <= b < 16,
        crate::readback::hex_char(a) == crate::readback::hex_char(b),
    ensures
        a == b,
{
    let ca = crate::readback::hex_char(a);
    let cb = crate::readback::hex_char(b);
    assert(ca as int == if a < 10 { 48 + a } else { 87 + a });
    assert(cb as int == if b < 10 { 48 + b } else { 87 + b });
}

proof fn lemma_byte_hex_injective(x: u8, y: u8)
    requires
        crate::readback::byte_hex(x) == crate::readback::byte_hex(y),
    ensures
        x == y,
{
    let hx = crate::readback::byte_hex(x);
    let hy = crate::readback::byte_hex(y);
    assert(hx[0] == hy[0] && hx[1] == hy[1]);
    lemma_hex_char_injective((x / 16) as int, (y / 16) as int);
    lemma_hex_char_injective((x % 16) as int, (y % 16) as int);
}
} // verus!

verus! {

/// The top-level entries a disk image is built from, given the written
/// files' paths below the disk root by component: the distinct first
/// components, in the order they first occur, leaving out hidden names
/// (leading `.`). A path naming the root itself leaves nothing to copy,
/// since every entry lies inside it.
pub open spec fn top_entries(rels: Seq<Seq<Seq<char>>>) -> Seq<Seq<char>>
    decreases rels.len(),
{
    if rels.len() == 0 {
        Seq::empty()
    } else {
        let prev = top_entries(rels.drop_last());
        let p = rels.last();
        if p.len() == 0 || (p[0].len() > 0 && p[0][0] == '.') || prev.contains(p[0]) {
            prev
        } else {
            prev.push(p[0])
        }
    }
}

/// `x` inserted into `t` after every name that does not come after it by
/// lowercased text.
pub open spec fn insert_by_lower(t: Seq<Seq<char>>, x: Seq<char>) -> Seq<Seq<char>>
    decreases t.len(),
{
    if t.len() == 0 {
        seq![x]
    } else if crate::order::lower_before(x, t.last()) {
        insert_by_lower(t.drop_last(), x).push(t.last())
    } else {
        t.push(x)
    }
}

/// The names sorted by lowercased text, names that tie kept in their
/// order (a stable insertion sort).
pub open spec fn sort_by_lower(s: Seq<Seq<char>>) -> Seq<Seq<char>>
    decreases s.len(),
{
    if s.len() == 0 {
        s
    } else {
        insert_by_lower(sort_by_lower(s.drop_last()), s.last())
    }
}

/// No name comes strictly before an earlier one by lowercased text.
pub open spec fn ordered_by_lower(s: Seq<Seq<char>>) -> bool {
    forall|i: int, j: int|
        0 <= i < j < s.len() ==> !crate::order::lower_before(#[trigger] s[j], #[trigger] s[i])
}

proof fn lemma_insert_by_lower(t: Seq<Seq<char>>, x: Seq<char>)
    requires
        ordered_by_lower(t),
    ensures
        ordered_by_lower(insert_by_lower(t, x)),
        insert_by_lower(t, x).to_multiset() == t.to_multiset().insert(x),
        forall|k: int|
            0 <= k < insert_by_lower(t, x).len() ==> #[trigger] insert_by_lower(t, x)[k] == x
                || exists|m: int| 0 <= m < t.len() && insert_by_lower(t, x)[k] == t[m],
    decreases t.len(),
{
    broadcast use vstd::seq_lib::to_multiset_build;

    let lx = crate::text::lower(x);
    if t.len() == 0 {
        assert(t =~= Seq::<Seq<char>>::empty());
        assert(seq![x] == Seq::<Seq<char>>::empty().push(x));
    } else {
        let dl = t.drop_last();
        let last = t.last();
        let ll = crate::text::lower(last);
        assert(t == dl.push(last));
        if crate::order::lower_before(x, last) {
            assert forall|i: int, j: int| 0 <= i < j < dl.len() implies !crate::order::lower_before(
                #[trigger] dl[j],
                #[trigger] dl[i],
            ) by {
                assert(dl[i] == t[i] && dl[j] == t[j]);
            }
            lemma_insert_by_lower(dl, x);
            let ins = insert_by_lower(dl, x);
            let r = ins.push(last);
            crate::order::lemma_text_order_flip(lx, ll);
            assert forall|i: int, j: int| 0 <= i < j < r.len() implies !crate::order::lower_before(
                #[trigger] r[j],
                #[trigger] r[i],
            ) by {
                if j == ins.len() {
                    assert(r[i] == ins[i]);
                    if ins[i] != x {
                        let m = choose|m: int| 0 <= m < dl.len() && ins[i] == dl[m];
                        assert(t[m] == dl[m]);
                        assert(!crate::order::lower_before(t[t.len() - 1], t[m]));
                    }
                } else {
                    assert(r[i] == ins[i] && r[j] == ins[j]);
                }
            }
            assert forall|k: int| 0 <= k < r.len() implies #[trigger] r[k] == x || exists|m: int|
                0 <= m < t.len() && r[k] == t[m] by {
                if k == ins.len() {
                    assert(r[k] == t[t.len() - 1]);
                } else {
                    assert(r[k] == ins[k]);
                    if ins[k] != x {
                        let m = choose|m: int| 0 <= m < dl.len() && ins[k] == dl[m];
                        assert(r[k] == t[m]);
                    }
                }
            }
            assert(r.to_multiset() == ins.to_multiset().insert(last));
            assert(t.to_multiset() == dl.to_multiset().insert(last));
            assert(r.to_multiset() =~= t.to_multiset().insert(x));
        } else {
            let r = t.push(x);
            assert forall|i: int, j: int| 0 <= i < j < r.len() implies !crate::order::lower_before(
                #[trigger] r[j],
                #[trigger] r[i],
            ) by {
                if j == t.len() {
                    assert(r[i] == t[i]);
                    assert(r[j] == x);
                    let li = crate::text::lower(t[i]);
                    if i < t.len() - 1 {
                        assert(!crate::order::lower_before(t[t.len() - 1], t[i]));
                        crate::order::lemma_text_order_flip(ll, li);
                        crate::order::lemma_text_order_flip(lx, ll);
                        crate::order::lemma_text_order_not_after_trans(li, ll, lx);
                        crate::order::lemma_text_order_flip(lx, li);
                    }
                } else {
                    assert(r[i] == t[i] && r[j] == t[j]);
                }
            }
            assert forall|k: int| 0 <= k < r.len() implies #[trigger] r[k] == x || exists|m: int|
                0 <= m < t.len() && r[k] == t[m] by {
                if k < t.len() {
                    assert(r[k] == t[k]);
                }
            }
        }
    }
}

/// Sorting names by lowercased text gives them in order, and gives back
/// the same names, each as often as it came.
pub proof fn sorted_roots_are_ordered(s: Seq<Seq<char>>)
    ensures
        ordered_by_lower(sort_by_lower(s)),
        sort_by_lower(s).to_multiset() == s.to_multiset(),
    decreases s.len(),
{
    broadcast use vstd::seq_lib::to_multiset_build;

    if s.len() > 0 {
        sorted_roots_are_ordered(s.drop_last());
        lemma_insert_by_lower(sort_by_lower(s.drop_last()), s.last());
        assert(s == s.drop_last().push(s.last()));
    }
}

pub open spec fn rel_texts(rels: Seq<Vec<String>>) -> Seq<Seq<Seq<char>>> {
    rels.map_values(|r: Vec<String>| r@.map_values(|s: String| s@))
}

fn contains_text(v: &Vec<String>, s: &str) -> (r: bool)
    ensures
        r == v@.map_values(|t: String| t@).contains(s@),
{
    for i in 0..v.len()
        invariant
            forall|j: int| 0 <= j < i ==> v@[j]@ != s@,
    {
        if crate::text::str_eq(v[i].as_str(), s) {
            assert(v@.map_values(|t: String| t@)[i as int] == s@);
            return true;
        }
    }
    proof {
        let m = v@.map_values(|t: String| t@);
        if m.contains(s@) {
            let k = choose|k: int| 0 <= k < m.len() && #[trigger] m[k] == s@;
            assert(v@[k]@ == s@);
        }
    }
    false
}

/// The top-level entries to copy into a disk image: the first component
/// of each relative path, hidden (dot) names left out, each once, sorted
/// by lowercased text with names that tie kept in the order they first
/// came; nothing where a path is the root itself.
pub fn disk_image_roots(rels: &Vec<Vec<String>>) -> (r: Vec<String>)
    ensures
        (exists|k: int| 0 <= k < rels@.len() && (#[trigger] rels@[k])@.len() == 0) ==> r@.len() == 0,
        !(exists|k: int| 0 <= k < rels@.len() && (#[trigger] rels@[k])@.len() == 0) ==> r@.map_values(
            |s: String| s@,
        ) == sort_by_lower(top_entries(rel_texts(rels@))),
{
    let mut out: Vec<String> = Vec::new();
    let mut sorted: Vec<String> = Vec::new();
    for i in 0..rels.len()
        invariant
            out@.map_values(|s: String| s@) == top_entries(rel_texts(rels@).take(i as int)),
            sorted@.map_values(|s: String| s@) == sort_by_lower(out@.map_values(|s: String| s@)),
            forall|k: int| 0 <= k < i ==> (#[trigger] rels@[k])@.len() > 0,
    {
        let p = &rels[i];
        if p.len() == 0 {
            return Vec::new();
        }
        let ghost texts = rel_texts(rels@);
        assert(texts.take(i + 1).drop_last() =~= texts.take(i as int));
        assert(texts.take(i + 1).last() == texts[i as int]);
        assert(texts[i as int][0] == p@[0]@);
        let first = p[0].as_str();
        let chars = crate::text::str_chars(first);
        let hidden = chars.len() > 0 && chars[0] == '.';
        if !hidden && !contains_text(&out, first) {
            let ghost before = out@.map_values(|s: String| s@);
            out.push(String::from_str(first));
            assert(out@.map_values(|s: String| s@) =~= before.push(first@));
            assert(before.push(first@).drop_last() =~= before);
            insert_by_lower_exec(&mut sorted, first);
        }
    }
    assert(rel_texts(rels@).take(rels@.len() as int) =~= rel_texts(rels@));
    sorted
}

/// Puts `x` after every name that does not come after it by lowercased
/// text, and before the rest.
fn insert_by_lower_exec(v: &mut Vec<String>, x: &str)
    ensures
        final(v)@.map_values(|s: String| s@) == insert_by_lower(old(v)@.map_values(|s: String| s@), x@),
{
    let ghost t = old(v)@.map_values(|s: String| s@);
    let mut j: usize = v.len();
    proof {
        assert(t.take(j as int) =~= t);
        assert(t.skip(j as int) =~= Seq::<Seq<char>>::empty());
        assert(insert_by_lower(t, x@) + Seq::<Seq<char>>::empty() =~= insert_by_lower(t, x@));
    }
    while j > 0 && crate::order::lower_before_exec(x, v[j - 1].as_str())
        invariant
            v@.map_values(|s: String| s@) == t,
            j <= t.len(),
            insert_by_lower(t, x@) == insert_by_lower(t.take(j as int), x@) + t.skip(j as int),
        decreases j,
    {
        proof {
            let tj = t.take(j as int);
            assert(tj.last() == t[j - 1]);
            assert(tj.drop_last() =~= t.take(j - 1));
            assert(insert_by_lower(tj, x@) == insert_by_lower(t.take(j - 1), x@).push(t[j - 1]));
            assert(insert_by_lower(t.take(j - 1), x@).push(t[j - 1]) + t.skip(j as int)
                =~= insert_by_lower(t.take(j - 1), x@) + t.skip(j - 1));
        }
        j = j - 1;
    }
    proof {
        let tj = t.take(j as int);
        if j > 0 {
            assert(tj.last() == t[j - 1]);
            assert(insert_by_lower(tj, x@) == tj.push(x@));
        } else {
            assert(tj.len() == 0);
            assert(insert_by_lower(tj, x@) == seq![x@]);
        }
    }
    v.insert(j, String::from_str(x));
    proof {
        assert(v@.map_values(|s: String| s@) =~= t.take(j as int).push(x@) + t.skip(j as int));
    }
}

} // verus!

verus! {

/// A recorded hash reads back as itself: a hash file is written as the
/// hash and a newline, and read back trimmed; a hash text that neither
/// begins nor ends with whitespace (as lowercase hex never does) is then
/// found recorded.
pub proof fn recorded_hash_reads_back(h: Seq<char>)
    requires
        h.len() > 0,
        !crate::text::is_ws(h[0]),
        !crate::text::is_ws(h.last()),
    ensures
        crate::text::trim(h.push('\n')) == h,
        crate::text::trim(h.push('\n')).len() > 0,
{
    let w = h.push('\n');
    assert(w[0] == h[0]);
    assert(crate::text::trim_start(w) == w);
    assert(w.drop_last() =~= h);
    assert(crate::text::trim_end(w) == crate::text::trim_end(h));
    assert(crate::text::trim_end(h) == h);
}

/// A digest's hex text, written to a hash file with a newline and read
/// back trimmed, is found recorded.
pub proof fn recorded_digest_reads_back(digest: Seq<u8>)
    requires
        digest.len() > 0,
    ensures
        crate::text::trim(hex_lower(digest).push('\n')) == hex_lower(digest),
{
    lemma_hex_has_no_edge_space(digest);
    recorded_hash_reads_back(hex_lower(digest));
}

/// Hex digests never begin or end with whitespace.
proof fn lemma_hex_has_no_edge_space(bytes: Seq<u8>)
    requires
        bytes.len() > 0,
    ensures
        hex_lower(bytes).len() > 0,
        !crate::text::is_ws(hex_lower(bytes)[0]),
        !crate::text::is_ws(hex_lower(bytes).last()),
{
    lemma_hex_lower_chars(bytes);
    lemma_hex_lower_len(bytes);
}

proof fn lemma_hex_lower_chars(bytes: Seq<u8>)
    ensures
        forall|i: int| 0 <= i < hex_lower(bytes).len() ==> {
            let c = #[trigger] hex_lower(bytes)[i];
            ('0' <= c && c <= '9') || ('a' <= c && c <= 'f')
        },
    decreases bytes.len(),
{
    if bytes.len() > 0 {
        lemma_hex_lower_chars(bytes.drop_last());
        lemma_hex_lower_len(bytes.drop_last());
        let prev = hex_lower(bytes.drop_last());
        let b = bytes.last();
        let hb = crate::readback::byte_hex(b);
        assert forall|i: int| 0 <= i < hex_lower(bytes).len() implies {
            let c = #[trigger] hex_lower(bytes)[i];
            ('0' <= c && c <= '9') || ('a' <= c && c <= 'f')
        } by {
            if i >= prev.len() {
                let d: int = if i == prev.len() { (b / 16) as int } else { (b % 16) as int };
                assert(hex_lower(bytes)[i] == crate::readback::hex_char(d));
            } else {
                assert(hex_lower(bytes)[i] == prev[i]);
            }
        }
    }
}

} // verus!

verus! {

/// Packing an unchanged slot a second time: the hash the first pack
/// recorded (written with a newline, read back trimmed) is found equal to
/// the current hash, and with the hash recorded a packed slot reports
/// unchanged, a selected hand-placed image reports unchanged, an empty slot
/// stays empty and an error stays the same error.
pub proof fn repacking_reports_unchanged(
    slot: u16,
    visible_images: int,
    has_other_entries: bool,
    has_packable_files: bool,
    digest: Seq<u8>,
)
    requires
        digest.len() > 0,
    ensures
        crate::text::trim(hex_lower(digest).push('\n')) == hex_lower(digest),
        pack_plan(slot, visible_images, has_other_entries, has_packable_files, true) == match pack_plan(
            slot,
            visible_images,
            has_other_entries,
            has_packable_files,
            false,
        ) {
            Ok(PackAction::Packed) => Ok::<PackAction, GotekError>(PackAction::Unchanged),
            Ok(PackAction::ManualImageSelected) => Ok::<PackAction, GotekError>(PackAction::UnchangedManualImage),
            other => other,
        },
{
    recorded_digest_reads_back(digest);
}

} // verus!
