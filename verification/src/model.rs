//! The design model shared by all writers: threads, stitch commands and
//! points in centred Cartesian units (+X right, +Y up).

use vstd::prelude::*;
use crate::text::{
    char_is_ws, chars_eq, first_token, str_chars, string_from_chars, trim, trim_chars, upper,
    upper_chars,
};

verus! {

/// The Y-axis convention of an input file.
#[derive(Debug, Clone, Copy, PartialEq, Eq, Structural)]
pub enum InputYAxis {
    /// SVG/screen coordinates: +Y moves down.
    Down,
    /// Cartesian coordinates: +Y moves up.
    Up,
}

impl Default for InputYAxis {
    fn default() -> (r: Self)
        ensures
            r == InputYAxis::Down,
    {
        InputYAxis::Down
    }
}

/// Which 86-byte notice region starts an SHV, MHV or PHV file.
#[derive(Debug, Clone, Copy, PartialEq, Eq, Structural)]
pub enum SignatureMode {
    /// The Viking licence notice.
    Official,
    /// 86 zero bytes.
    Zero,
}

impl Default for SignatureMode {
    fn default() -> (r: Self)
        ensures
            r == SignatureMode::Official,
    {
        SignatureMode::Official
    }
}

#[derive(Debug, Clone)]
pub struct Thread {
    pub color: Option<String>,
    pub description: Option<String>,
    pub catalog_number: Option<String>,
    pub brand: Option<String>,
}

impl Default for Thread {
    fn default() -> (r: Self)
        ensures
            r.color is None,
            r.description is None,
            r.catalog_number is None,
            r.brand is None,
    {
        Thread { color: None, description: None, catalog_number: None, brand: None }
    }
}

/// One machine command of a stitch stream.
#[derive(Debug, Clone)]
pub enum StitchCommand {
    Stitch,
    Jump,
    Trim,
    ColorChange,
    Stop,
    End,
    Other(String),
}

/// The mathematical value of a [`StitchCommand`].
pub enum CommandModel {
    Stitch,
    Jump,
    Trim,
    ColorChange,
    Stop,
    End,
    Other(Seq<char>),
}

impl View for StitchCommand {
    type V = CommandModel;

    open spec fn view(&self) -> CommandModel {
        match self {
            StitchCommand::Stitch => CommandModel::Stitch,
            StitchCommand::Jump => CommandModel::Jump,
            StitchCommand::Trim => CommandModel::Trim,
            StitchCommand::ColorChange => CommandModel::ColorChange,
            StitchCommand::Stop => CommandModel::Stop,
            StitchCommand::End => CommandModel::End,
            StitchCommand::Other(s) => CommandModel::Other(s@),
        }
    }
}

impl PartialEq for StitchCommand {
    fn eq(&self, other: &Self) -> (r: bool) {
        match (self, other) {
            (StitchCommand::Stitch, StitchCommand::Stitch) => true,
            (StitchCommand::Jump, StitchCommand::Jump) => true,
            (StitchCommand::Trim, StitchCommand::Trim) => true,
            (StitchCommand::ColorChange, StitchCommand::ColorChange) => true,
            (StitchCommand::Stop, StitchCommand::Stop) => true,
            (StitchCommand::End, StitchCommand::End) => true,
            (StitchCommand::Other(a), StitchCommand::Other(b)) => a.eq(b),
            _ => false,
        }
    }
}

impl vstd::std_specs::cmp::PartialEqSpecImpl for StitchCommand {
    open spec fn obeys_eq_spec() -> bool {
        true
    }

    open spec fn eq_spec(&self, other: &Self) -> bool {
        self@ == other@
    }
}

/// The command that an Ink/Stitch command string names, after trimming
/// and upper-casing; the first whitespace-separated word decides.
pub open spec fn inkstitch_command(value: Seq<char>) -> CommandModel {
    let normalized = upper(trim(value));
    let word = first_token(normalized);
    if word == seq!['S', 'T', 'I', 'T', 'C', 'H'] {
        CommandModel::Stitch
    } else if word == seq!['J', 'U', 'M', 'P'] {
        CommandModel::Jump
    } else if word == seq!['T', 'R', 'I', 'M'] {
        CommandModel::Trim
    } else if word == seq!['C', 'O', 'L', 'O', 'R'] || word == seq![
        'C',
        'O',
        'L',
        'O',
        'R',
        '_',
        'C',
        'H',
        'A',
        'N',
        'G',
        'E',
    ] || word == seq!['C', 'O', 'L', 'O', 'R', 'C', 'H', 'A', 'N', 'G', 'E'] {
        CommandModel::ColorChange
    } else if word == seq!['S', 'T', 'O', 'P'] {
        CommandModel::Stop
    } else if word == seq!['E', 'N', 'D'] {
        CommandModel::End
    } else {
        CommandModel::Other(normalized)
    }
}

pub open spec fn is_positioning(c: CommandModel) -> bool {
    c is Stitch || c is Jump || c is Trim
}

fn first_token_chars(v: &Vec<char>) -> (r: Vec<char>)
    ensures
        r@ == first_token(v@),
{
    let mut r: Vec<char> = Vec::new();
    let mut i: usize = 0;
    assert(v@.skip(0) == v@);
    while i < v.len() && !char_is_ws(v[i])
        invariant
            i <= v.len(),
            first_token(v@) == r@ + first_token(v@.skip(i as int)),
        decreases v.len() - i,
    {
        assert(v@.skip(i as int).drop_first() == v@.skip(i + 1));
        r.push(v[i]);
        i = i + 1;
    }
    r
}

impl StitchCommand {
    pub fn from_inkstitch_str(value: &str) -> (r: Self)
        ensures
            r@ == inkstitch_command(value@),
    {
        let chars = str_chars(value);
        let normalized = upper_chars(&trim_chars(&chars));
        proof {
            assert(first_token(normalized@) == first_token(normalized@.skip(0))) by {
                assert(normalized@.skip(0) == normalized@);
            }
        }
        let word = first_token_chars(&normalized);
        if chars_eq(&word, &vec!['S', 'T', 'I', 'T', 'C', 'H']) {
            StitchCommand::Stitch
        } else if chars_eq(&word, &vec!['J', 'U', 'M', 'P']) {
            StitchCommand::Jump
        } else if chars_eq(&word, &vec!['T', 'R', 'I', 'M']) {
            StitchCommand::Trim
        } else if chars_eq(&word, &vec!['C', 'O', 'L', 'O', 'R']) || chars_eq(
            &word,
            &vec!['C', 'O', 'L', 'O', 'R', '_', 'C', 'H', 'A', 'N', 'G', 'E'],
        ) || chars_eq(&word, &vec!['C', 'O', 'L', 'O', 'R', 'C', 'H', 'A', 'N', 'G', 'E']) {
            StitchCommand::ColorChange
        } else if chars_eq(&word, &vec!['S', 'T', 'O', 'P']) {
            StitchCommand::Stop
        } else if chars_eq(&word, &vec!['E', 'N', 'D']) {
            StitchCommand::End
        } else {
            StitchCommand::Other(string_from_chars(&normalized))
        }
    }

    pub fn is_drawn_stitch(&self) -> (r: bool)
        ensures
            r == (self@ is Stitch),
    {
        matches!(self, StitchCommand::Stitch)
    }

    pub fn is_positioning_move(&self) -> (r: bool)
        ensures
            r == is_positioning(self@),
    {
        matches!(self, StitchCommand::Stitch | StitchCommand::Jump | StitchCommand::Trim)
    }

    pub(crate) fn is_end_command(&self) -> (r: bool)
        ensures
            r == (self@ is End),
    {
        matches!(self, StitchCommand::End)
    }
}

/// A normalized point in centred Cartesian 0.1 mm-ish units: +X right, +Y up.
#[derive(Debug, Clone)]
pub struct StitchPoint {
    pub x: i32,
    pub y: i32,
    pub command: StitchCommand,
}

#[derive(Debug, Clone)]
pub struct Design {
    pub name: String,
    pub threads: Vec<Thread>,
    pub points: Vec<StitchPoint>,
}

} // verus!

verus! {

pub open spec fn min_int(a: int, b: int) -> int {
    if a <= b {
        a
    } else {
        b
    }
}

pub open spec fn max_int(a: int, b: int) -> int {
    if a >= b {
        a
    } else {
        b
    }
}

/// Running (min x, max x, min y, max y) over the positioning points of
/// `ps`, starting from (i32::MAX, i32::MIN, i32::MAX, i32::MIN).
pub open spec fn running_bounds(ps: Seq<StitchPoint>) -> (int, int, int, int)
    decreases ps.len(),
{
    if ps.len() == 0 {
        (i32::MAX as int, i32::MIN as int, i32::MAX as int, i32::MIN as int)
    } else {
        let b = running_bounds(ps.drop_last());
        let p = ps.last();
        if is_positioning(p.command@) {
            (min_int(b.0, p.x as int), max_int(b.1, p.x as int), min_int(b.2, p.y as int), max_int(b.3, p.y as int))
        } else {
            b
        }
    }
}

/// The (left, right, bottom, top) that `Design::stats` reports: the running
/// bounds, or all zero when the minimum x is still `i32::MAX`.
pub open spec fn stats_bounds(ps: Seq<StitchPoint>) -> (int, int, int, int) {
    let b = running_bounds(ps);
    if b.0 == i32::MAX {
        (0, 0, 0, 0)
    } else {
        b
    }
}

/// Whether command `c` is counted in the statistics group `kind`:
/// 0 stitches, 1 jumps, 2 trims, 3 color changes and stops, 4 ends,
/// 5 positioning moves.
pub open spec fn in_count_group(c: CommandModel, kind: int) -> bool {
    if kind == 0 {
        c is Stitch
    } else if kind == 1 {
        c is Jump
    } else if kind == 2 {
        c is Trim
    } else if kind == 3 {
        c is ColorChange || c is Stop
    } else if kind == 4 {
        c is End
    } else {
        kind == 5 && is_positioning(c)
    }
}

/// The number of points of `ps` whose command is in group `kind`.
pub open spec fn count_commands(ps: Seq<StitchPoint>, kind: int) -> nat
    decreases ps.len(),
{
    if ps.len() == 0 {
        0
    } else {
        count_commands(ps.drop_last(), kind) + if in_count_group(ps.last().command@, kind) {
            1nat
        } else {
            0nat
        }
    }
}

/// The width and height of the stats box fit in `i32`.
pub open spec fn stats_fit(ps: Seq<StitchPoint>) -> bool {
    let b = stats_bounds(ps);
    b.1 - b.0 <= i32::MAX && b.3 - b.2 <= i32::MAX
}

proof fn lemma_count_le(ps: Seq<StitchPoint>, kind: int)
    ensures
        count_commands(ps, kind) <= ps.len(),
    decreases ps.len(),
{
    if ps.len() > 0 {
        lemma_count_le(ps.drop_last(), kind);
    }
}

proof fn lemma_running_bounds_shape(ps: Seq<StitchPoint>)
    ensures
        ({
            let b = running_bounds(ps);
            (b.0 == i32::MAX && b.1 == i32::MIN && b.2 == i32::MAX && b.3 == i32::MIN) || (
            b.0 <= b.1 && b.2 <= b.3)
        }),
        running_bounds(ps).0 <= i32::MAX,
    decreases ps.len(),
{
    if ps.len() > 0 {
        lemma_running_bounds_shape(ps.drop_last());
    }
}

#[derive(Debug, Clone)]
pub struct DesignStats {
    pub point_count: usize,
    pub thread_count: usize,
    pub stitches: usize,
    pub jumps: usize,
    pub trims: usize,
    pub color_changes: usize,
    pub ends: usize,
    pub left: i32,
    pub right: i32,
    pub bottom: i32,
    pub top: i32,
    pub width: i32,
    pub height: i32,
}

impl Design {
    pub fn stats(&self) -> (r: DesignStats)
        requires
            stats_fit(self.points@),
        ensures
            r.point_count == self.points@.len(),
            r.thread_count == self.threads@.len(),
            r.stitches == count_commands(self.points@, 0),
            r.jumps == count_commands(self.points@, 1),
            r.trims == count_commands(self.points@, 2),
            r.color_changes == count_commands(self.points@, 3),
            r.ends == count_commands(self.points@, 4),
            r.left == stats_bounds(self.points@).0,
            r.right == stats_bounds(self.points@).1,
            r.bottom == stats_bounds(self.points@).2,
            r.top == stats_bounds(self.points@).3,
            r.width == stats_bounds(self.points@).1 - stats_bounds(self.points@).0,
            r.height == stats_bounds(self.points@).3 - stats_bounds(self.points@).2,
    {
        let mut min_x = i32::MAX;
        let mut max_x = i32::MIN;
        let mut min_y = i32::MAX;
        let mut max_y = i32::MIN;
        let mut stitches: usize = 0;
        let mut jumps: usize = 0;
        let mut trims: usize = 0;
        let mut color_changes: usize = 0;
        let mut ends: usize = 0;
        let ghost ps = self.points@;
        for i in 0..self.points.len()
            invariant
                ps == self.points@,
                (min_x as int, max_x as int, min_y as int, max_y as int) == running_bounds(
                    ps.take(i as int),
                ),
                stitches == count_commands(ps.take(i as int), 0),
                jumps == count_commands(ps.take(i as int), 1),
                trims == count_commands(ps.take(i as int), 2),
                color_changes == count_commands(ps.take(i as int), 3),
                ends == count_commands(ps.take(i as int), 4),
        {
            let point = &self.points[i];
            assert(ps.take(i + 1).drop_last() == ps.take(i as int));
            proof {
                lemma_count_le(ps.take(i as int), 0);
                lemma_count_le(ps.take(i as int), 1);
                lemma_count_le(ps.take(i as int), 2);
                lemma_count_le(ps.take(i as int), 3);
                lemma_count_le(ps.take(i as int), 4);
            }
            if point.command.is_positioning_move() {
                if point.x < min_x {
                    min_x = point.x;
                }
                if point.x > max_x {
                    max_x = point.x;
                }
                if point.y < min_y {
                    min_y = point.y;
                }
                if point.y > max_y {
                    max_y = point.y;
                }
            }
            match &point.command {
                StitchCommand::Stitch => stitches += 1,
                StitchCommand::Jump => jumps += 1,
                StitchCommand::Trim => trims += 1,
                StitchCommand::ColorChange | StitchCommand::Stop => color_changes += 1,
                StitchCommand::End => ends += 1,
                StitchCommand::Other(_) => {},
            }
        }
        assert(ps.take(self.points.len() as int) == ps);
        proof {
            lemma_running_bounds_shape(ps);
        }
        if min_x == i32::MAX {
            min_x = 0;
            max_x = 0;
            min_y = 0;
            max_y = 0;
        }
        DesignStats {
            point_count: self.points.len(),
            thread_count: self.threads.len(),
            stitches,
            jumps,
            trims,
            color_changes,
            ends,
            left: min_x,
            right: max_x,
            bottom: min_y,
            top: max_y,
            width: max_x - min_x,
            height: max_y - min_y,
        }
    }
}

} // verus!

verus! {

/// The thread at `idx`, or else the first thread.
pub open spec fn selected_thread(threads: Seq<Thread>, idx: int) -> Option<Thread> {
    if 0 <= idx < threads.len() {
        Some(threads[idx])
    } else if threads.len() > 0 {
        Some(threads[0])
    } else {
        None
    }
}

/// Every positioning point of `ps` lies inside its running bounds.
pub proof fn lemma_running_bounds_contain(ps: Seq<StitchPoint>, k: int)
    requires
        0 <= k < ps.len(),
        is_positioning(ps[k].command@),
    ensures
        running_bounds(ps).0 <= ps[k].x <= running_bounds(ps).1,
        running_bounds(ps).2 <= ps[k].y <= running_bounds(ps).3,
    decreases ps.len(),
{
    if k < ps.len() - 1 {
        lemma_running_bounds_contain(ps.drop_last(), k);
    }
}

/// With a positioning point, the running bounds are attained by points of
/// `ps`, so they are `i32` values with `min <= max`.
pub proof fn lemma_running_bounds_positioned(ps: Seq<StitchPoint>)
    requires
        count_commands(ps, 5) > 0,
    ensures
        running_bounds(ps).0 <= running_bounds(ps).1,
        running_bounds(ps).2 <= running_bounds(ps).3,
        i32::MIN <= running_bounds(ps).0 && running_bounds(ps).1 <= i32::MAX,
        i32::MIN <= running_bounds(ps).2 && running_bounds(ps).3 <= i32::MAX,
    decreases ps.len(),
{
    if ps.len() > 0 {
        lemma_running_bounds_shape(ps);
        if count_commands(ps.drop_last(), 5) > 0 {
            lemma_running_bounds_positioned(ps.drop_last());
        } else {
            lemma_running_bounds_shape(ps.drop_last());
            lemma_no_positioning(ps.drop_last());
        }
    }
}

proof fn lemma_no_positioning(ps: Seq<StitchPoint>)
    requires
        count_commands(ps, 5) == 0,
    ensures
        running_bounds(ps) == (i32::MAX as int, i32::MIN as int, i32::MAX as int, i32::MIN as int),
    decreases ps.len(),
{
    if ps.len() > 0 {
        lemma_no_positioning(ps.drop_last());
    }
}

} // verus!

verus! {

/// The Y-axis mode a word names (trimmed, any ASCII case).
pub open spec fn y_axis_of(s: Seq<char>) -> Option<InputYAxis> {
    let t = crate::text::lower(trim(s));
    if t == seq!['d', 'o', 'w', 'n'] || t == seq!['s', 'v', 'g'] || t == seq!['s', 'c', 'r', 'e', 'e', 'n'] {
        Some(InputYAxis::Down)
    } else if t == seq!['u', 'p'] || t == seq!['c', 'a', 'r', 't', 'e', 's', 'i', 'a', 'n'] {
        Some(InputYAxis::Up)
    } else {
        None
    }
}

/// The signature mode a word names (trimmed, any ASCII case).
pub open spec fn signature_of(s: Seq<char>) -> Option<SignatureMode> {
    let t = crate::text::lower(trim(s));
    if t == seq!['o', 'f', 'f', 'i', 'c', 'i', 'a', 'l'] || t == seq!['v', 'i', 'k', 'i', 'n', 'g'] {
        Some(SignatureMode::Official)
    } else if t == seq!['z', 'e', 'r', 'o'] || t == seq!['z', 'e', 'r', 'o', 's'] || t == seq![
        'e',
        'm',
        'b',
        'i',
        'r',
        'd',
    ] {
        Some(SignatureMode::Zero)
    } else {
        None
    }
}

/// What `<str as Debug>` prints for a text: the text in double quotes,
/// with quotes, backslashes and unprintable characters escaped.
pub uninterp spec fn debug_quoted(s: Seq<char>) -> Seq<char>;

/// `format!("{s:?}")`, std's `Debug` for `str`. Its result is named: the
/// escaping rules are std's own.
#[verifier::external_body]
fn debug_quoted_text(s: &str) -> (r: String)
    ensures
        r@ == debug_quoted(s@),
{
    format!("{s:?}")
}

/// The message for an unknown mode word: `unknown <what> mode "<word>";
/// use <choices>`.
pub open spec fn unknown_mode_message(what: Seq<char>, word: Seq<char>, choices: Seq<char>) -> Seq<char> {
    "unknown "@ + what + " mode "@ + debug_quoted(word) + "; use "@ + choices
}

fn unknown_mode_text(what: &str, word: &str, choices: &str) -> (r: String)
    ensures
        r@ == unknown_mode_message(what@, word@, choices@),
{
    let mut out: Vec<char> = Vec::new();
    crate::text::push_str(&mut out, "unknown ");
    crate::text::push_str(&mut out, what);
    crate::text::push_str(&mut out, " mode ");
    let q = debug_quoted_text(word);
    crate::text::push_str(&mut out, q.as_str());
    crate::text::push_str(&mut out, "; use ");
    crate::text::push_str(&mut out, choices);
    proof {
        assert(out@ =~= unknown_mode_message(what@, word@, choices@));
    }
    string_from_chars(&out)
}

impl InputYAxis {
    /// The mode a word names: `down`, `svg` or `screen`; `up` or `cartesian`.
    pub fn parse(s: &str) -> (r: Option<InputYAxis>)
        ensures
            r == y_axis_of(s@),
    {
        let t = crate::text::lower_chars(&trim_chars(&str_chars(s)));
        if chars_eq(&t, &vec!['d', 'o', 'w', 'n']) || chars_eq(&t, &vec!['s', 'v', 'g']) || chars_eq(
            &t,
            &vec!['s', 'c', 'r', 'e', 'e', 'n'],
        ) {
            Some(InputYAxis::Down)
        } else if chars_eq(&t, &vec!['u', 'p']) || chars_eq(&t, &vec!['c', 'a', 'r', 't', 'e', 's', 'i', 'a', 'n']) {
            Some(InputYAxis::Up)
        } else {
            None
        }
    }

    /// The mode's name: `down` or `up`.
    pub fn name(&self) -> (r: &'static str)
        ensures
            *self == InputYAxis::Down ==> r@ == "down"@,
            *self == InputYAxis::Up ==> r@ == "up"@,
    {
        match self {
            InputYAxis::Down => "down",
            InputYAxis::Up => "up",
        }
    }
}

impl SignatureMode {
    /// The mode a word names: `official` or `viking`; `zero`, `zeros` or `embird`.
    pub fn parse(s: &str) -> (r: Option<SignatureMode>)
        ensures
            r == signature_of(s@),
    {
        let t = crate::text::lower_chars(&trim_chars(&str_chars(s)));
        if chars_eq(&t, &vec!['o', 'f', 'f', 'i', 'c', 'i', 'a', 'l']) || chars_eq(&t, &vec!['v', 'i', 'k', 'i', 'n', 'g']) {
            Some(SignatureMode::Official)
        } else if chars_eq(&t, &vec!['z', 'e', 'r', 'o']) || chars_eq(&t, &vec!['z', 'e', 'r', 'o', 's'])
            || chars_eq(&t, &vec!['e', 'm', 'b', 'i', 'r', 'd']) {
            Some(SignatureMode::Zero)
        } else {
            None
        }
    }

    /// The mode's name: `official` or `zero`.
    pub fn name(&self) -> (r: &'static str)
        ensures
            *self == SignatureMode::Official ==> r@ == "official"@,
            *self == SignatureMode::Zero ==> r@ == "zero"@,
    {
        match self {
            SignatureMode::Official => "official",
            SignatureMode::Zero => "zero",
        }
    }
}

impl std::str::FromStr for InputYAxis {
    type Err = String;

    fn from_str(s: &str) -> (r: Result<Self, String>)
        ensures
            match y_axis_of(s@) {
                Some(v) => r == Ok::<InputYAxis, String>(v),
                None => r matches Err(m) && m@ == unknown_mode_message(
                    "Y axis"@,
                    crate::text::lower(trim(s@)),
                    "'down' or 'up'"@,
                ),
            },
    {
        match InputYAxis::parse(s) {
            Some(v) => Ok(v),
            None => {
                let t = crate::text::lower_chars(&trim_chars(&str_chars(s)));
                Err(unknown_mode_text("Y axis", string_from_chars(&t).as_str(), "'down' or 'up'"))
            },
        }
    }
}

impl std::str::FromStr for SignatureMode {
    type Err = String;

    fn from_str(s: &str) -> (r: Result<Self, String>)
        ensures
            match signature_of(s@) {
                Some(v) => r == Ok::<SignatureMode, String>(v),
                None => r matches Err(m) && m@ == unknown_mode_message(
                    "signature"@,
                    crate::text::lower(trim(s@)),
                    "'official' or 'zero'"@,
                ),
            },
    {
        match SignatureMode::parse(s) {
            Some(v) => Ok(v),
            None => {
                let t = crate::text::lower_chars(&trim_chars(&str_chars(s)));
                Err(unknown_mode_text("signature", string_from_chars(&t).as_str(), "'official' or 'zero'"))
            },
        }
    }
}

} // verus!

verus! {

/// How a command is written: its Ink/Stitch word, or an unrecognised
/// command's own text.
pub open spec fn command_text(c: CommandModel) -> Seq<char> {
    match c {
        CommandModel::Stitch => seq!['S', 'T', 'I', 'T', 'C', 'H'],
        CommandModel::Jump => seq!['J', 'U', 'M', 'P'],
        CommandModel::Trim => seq!['T', 'R', 'I', 'M'],
        CommandModel::ColorChange => seq!['C', 'O', 'L', 'O', 'R', '_', 'C', 'H', 'A', 'N', 'G', 'E'],
        CommandModel::Stop => seq!['S', 'T', 'O', 'P'],
        CommandModel::End => seq!['E', 'N', 'D'],
        CommandModel::Other(s) => s,
    }
}

/// The words the parser recognises.
pub open spec fn command_word(w: Seq<char>) -> bool {
    ||| w == seq!['S', 'T', 'I', 'T', 'C', 'H']
    ||| w == seq!['J', 'U', 'M', 'P']
    ||| w == seq!['T', 'R', 'I', 'M']
    ||| w == seq!['C', 'O', 'L', 'O', 'R']
    ||| w == seq!['C', 'O', 'L', 'O', 'R', '_', 'C', 'H', 'A', 'N', 'G', 'E']
    ||| w == seq!['C', 'O', 'L', 'O', 'R', 'C', 'H', 'A', 'N', 'G', 'E']
    ||| w == seq!['S', 'T', 'O', 'P']
    ||| w == seq!['E', 'N', 'D']
}

impl StitchCommand {
    /// The command as text: `STITCH`, `JUMP`, `TRIM`, `COLOR_CHANGE`,
    /// `STOP`, `END`, or an unrecognised command's own text.
    pub fn text(&self) -> (r: String)
        ensures
            r@ == command_text(self@),
    {
        let chars: Vec<char> = match self {
            StitchCommand::Stitch => vec!['S', 'T', 'I', 'T', 'C', 'H'],
            StitchCommand::Jump => vec!['J', 'U', 'M', 'P'],
            StitchCommand::Trim => vec!['T', 'R', 'I', 'M'],
            StitchCommand::ColorChange => vec!['C', 'O', 'L', 'O', 'R', '_', 'C', 'H', 'A', 'N', 'G', 'E'],
            StitchCommand::Stop => vec!['S', 'T', 'O', 'P'],
            StitchCommand::End => vec!['E', 'N', 'D'],
            StitchCommand::Other(s) => str_chars(s.as_str()),
        };
        string_from_chars(&chars)
    }
}

pub open spec fn no_ws(s: Seq<char>) -> bool {
    forall|i: int| 0 <= i < s.len() ==> !crate::text::is_ws(#[trigger] s[i])
}

proof fn lemma_first_token_whole(s: Seq<char>)
    requires
        no_ws(s),
    ensures
        first_token(s) == s,
    decreases s.len(),
{
    if s.len() > 0 {
        assert(no_ws(s.drop_first())) by {
            assert forall|i: int| 0 <= i < s.drop_first().len() implies !crate::text::is_ws(#[trigger] s.drop_first()[i]) by {
                assert(s.drop_first()[i] == s[i + 1]);
            }
        }
        lemma_first_token_whole(s.drop_first());
        assert(seq![s[0]] + s.drop_first() =~= s);
    }
}

proof fn lemma_word_reads_back(w: Seq<char>)
    requires
        w.len() > 0,
        no_ws(w),
        forall|i: int| 0 <= i < w.len() ==> #[trigger] crate::text::ascii_upper(w[i]) == w[i],
    ensures
        upper(trim(w)) == w,
        first_token(upper(trim(w))) == w,
{
    assert(!crate::text::is_ws(w[0]));
    assert(!crate::text::is_ws(w.last()));
    assert(crate::text::trim_start(w) == w);
    assert(trim(w) == w);
    assert(upper(w) =~= w);
    lemma_first_token_whole(w);
}

/// Parsing a written command gives the command back: for the six named
/// commands always, and for an unrecognised command whose text is already
/// trimmed and upper-cased and does not begin with a recognised word.
pub proof fn parsing_written_command(c: CommandModel)
    requires
        c matches CommandModel::Other(s) ==> s == upper(trim(s)) && !command_word(first_token(s)),
    ensures
        inkstitch_command(command_text(c)) == c,
{
    let w = command_text(c);
    match c {
        CommandModel::Other(s) => {},
        _ => {
            assert forall|i: int| 0 <= i < w.len() implies !crate::text::is_ws(#[trigger] w[i]) && crate::text::ascii_upper(
                w[i],
            ) == w[i] by {}
            lemma_word_reads_back(w);
        },
    }
}

} // verus!
