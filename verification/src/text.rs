//! Character-level helpers shared by the format writers.

use vstd::prelude::*;

verus! {

/// `char::is_whitespace`: the Unicode `White_Space` property.
pub open spec fn is_ws(c: char) -> bool {
    ||| ('\u{9}' <= c && c <= '\u{d}')
    ||| c == ' '
    ||| c == '\u{85}'
    ||| c == '\u{a0}'
    ||| c == '\u{1680}'
    ||| ('\u{2000}' <= c && c <= '\u{200a}')
    ||| c == '\u{2028}'
    ||| c == '\u{2029}'
    ||| c == '\u{202f}'
    ||| c == '\u{205f}'
    ||| c == '\u{3000}'
}

pub fn char_is_ws(c: char) -> (r: bool)
    ensures
        r == is_ws(c),
{
    ('\u{9}' <= c && c <= '\u{d}') || c == ' ' || c == '\u{85}' || c == '\u{a0}' || c == '\u{1680}'
        || ('\u{2000}' <= c && c <= '\u{200a}') || c == '\u{2028}' || c == '\u{2029}' || c
        == '\u{202f}' || c == '\u{205f}' || c == '\u{3000}'
}

/// The characters of `s` with leading whitespace removed.
pub open spec fn trim_start(s: Seq<char>) -> Seq<char>
    decreases s.len(),
{
    if s.len() > 0 && is_ws(s[0]) {
        trim_start(s.drop_first())
    } else {
        s
    }
}

/// The characters of `s` with trailing whitespace removed.
pub open spec fn trim_end(s: Seq<char>) -> Seq<char>
    decreases s.len(),
{
    if s.len() > 0 && is_ws(s.last()) {
        trim_end(s.drop_last())
    } else {
        s
    }
}

/// `str::trim`.
pub open spec fn trim(s: Seq<char>) -> Seq<char> {
    trim_end(trim_start(s))
}

/// The characters of a string slice, in order.
pub fn str_chars(s: &str) -> (v: Vec<char>)
    ensures
        v@ == s@,
{
    let mut v: Vec<char> = Vec::new();
    for c in it: s.chars()
        invariant
            v@ == it.seq().take(it.index()),
            it.seq() == s@,
    {
        v.push(c);
    }
    v
}

} // verus!

verus! {

proof fn lemma_trim_start_skip(s: Seq<char>, i: int)
    requires
        0 <= i <= s.len(),
        forall|j: int| 0 <= j < i ==> is_ws(#[trigger] s[j]),
    ensures
        trim_start(s) == trim_start(s.skip(i)),
    decreases i,
{
    if i > 0 {
        assert(s.skip(1) == s.drop_first());
        lemma_trim_start_skip(s.drop_first(), i - 1);
        assert(s.drop_first().skip(i - 1) == s.skip(i));
    } else {
        assert(s.skip(0) == s);
    }
}

proof fn lemma_trim_end_take(s: Seq<char>, k: int)
    requires
        0 <= k <= s.len(),
        forall|j: int| k <= j < s.len() ==> is_ws(#[trigger] s[j]),
    ensures
        trim_end(s) == trim_end(s.take(k)),
    decreases s.len() - k,
{
    if k < s.len() {
        assert(s.take(s.len() - 1) == s.drop_last());
        lemma_trim_end_take(s.drop_last(), k);
        assert(s.drop_last().take(k) == s.take(k));
    } else {
        assert(s.take(k) == s);
    }
}

/// `str::trim_end` on a character vector.
pub fn trim_end_chars(v: &Vec<char>) -> (r: Vec<char>)
    ensures
        r@ == trim_end(v@),
{
    let n = v.len();
    let mut k: usize = n;
    while k > 0 && char_is_ws(v[k - 1])
        invariant
            n == v.len(),
            k <= n,
            forall|j: int| k <= j < n ==> is_ws(#[trigger] v@[j]),
        decreases k,
    {
        k = k - 1;
    }
    proof {
        lemma_trim_end_take(v@, k as int);
        if k > 0 {
            assert(v@.take(k as int).last() == v@[k - 1]);
        }
    }
    let mut r: Vec<char> = Vec::new();
    for p in 0..k
        invariant
            k <= n,
            n == v.len(),
            r@ == v@.take(p as int),
    {
        r.push(v[p]);
        assert(v@.take(p + 1) =~= v@.take(p as int).push(v@[p as int]));
    }
    r
}

/// `str::trim` on a character vector.
pub fn trim_chars(v: &Vec<char>) -> (r: Vec<char>)
    ensures
        r@ == trim(v@),
{
    let n = v.len();
    let mut i: usize = 0;
    while i < n && char_is_ws(v[i])
        invariant
            n == v.len(),
            i <= n,
            forall|j: int| 0 <= j < i ==> is_ws(#[trigger] v@[j]),
        decreases n - i,
    {
        i = i + 1;
    }
    proof {
        lemma_trim_start_skip(v@, i as int);
    }
    let ghost t = v@.skip(i as int);
    assert(trim_start(t) == t);
    let mut k: usize = n;
    while k > i && char_is_ws(v[k - 1])
        invariant
            n == v.len(),
            i <= k <= n,
            forall|j: int| k <= j < n ==> is_ws(#[trigger] v@[j]),
        decreases k,
    {
        k = k - 1;
    }
    proof {
        assert forall|j: int| k - i <= j < t.len() implies is_ws(#[trigger] t[j]) by {
            assert(t[j] == v@[j + i]);
        }
        lemma_trim_end_take(t, k - i);
        assert(t.take(k - i) == v@.subrange(i as int, k as int));
    }
    let mut r: Vec<char> = Vec::new();
    let mut p: usize = i;
    while p < k
        invariant
            n == v.len(),
            i <= p <= k <= n,
            r@ == v@.subrange(i as int, p as int),
        decreases k - p,
    {
        r.push(v[p]);
        p = p + 1;
    }
    r
}

} // verus!

verus! {

/// `char::to_ascii_uppercase`.
pub open spec fn ascii_upper(c: char) -> char {
    if 'a' <= c && c <= 'z' {
        ((c as int) - 32) as char
    } else {
        c
    }
}

pub fn char_ascii_upper(c: char) -> (r: char)
    ensures
        r == ascii_upper(c),
{
    if 'a' <= c && c <= 'z' {
        let b: u8 = c as u8;
        (b - 32) as char
    } else {
        c
    }
}

/// `str::to_ascii_uppercase` on characters.
pub open spec fn upper(s: Seq<char>) -> Seq<char> {
    s.map_values(|c: char| ascii_upper(c))
}

pub fn upper_chars(v: &Vec<char>) -> (r: Vec<char>)
    ensures
        r@ == upper(v@),
{
    let mut r: Vec<char> = Vec::new();
    for i in 0..v.len()
        invariant
            r@ == upper(v@.take(i as int)),
    {
        r.push(char_ascii_upper(v[i]));
        assert(upper(v@.take(i + 1)) == upper(v@.take(i as int)).push(ascii_upper(v@[i as int])));
    }
    assert(v@.take(v.len() as int) == v@);
    r
}

/// `char::to_ascii_lowercase`.
pub open spec fn ascii_lower(c: char) -> char {
    if 'A' <= c && c <= 'Z' {
        ((c as int) + 32) as char
    } else {
        c
    }
}

/// `str::to_ascii_lowercase` on characters.
pub open spec fn lower(s: Seq<char>) -> Seq<char> {
    s.map_values(|c: char| ascii_lower(c))
}

pub fn lower_chars(v: &Vec<char>) -> (r: Vec<char>)
    ensures
        r@ == lower(v@),
{
    let mut r: Vec<char> = Vec::new();
    for i in 0..v.len()
        invariant
            r@ == lower(v@.take(i as int)),
    {
        let c = v[i];
        let l = if 'A' <= c && c <= 'Z' {
            let b: u8 = c as u8;
            (b + 32) as char
        } else {
            c
        };
        r.push(l);
        assert(lower(v@.take(i + 1)) =~= lower(v@.take(i as int)).push(ascii_lower(v@[i as int])));
    }
    assert(v@.take(v.len() as int) =~= v@);
    r
}

/// The leading run of non-whitespace characters.
pub open spec fn first_token(s: Seq<char>) -> Seq<char>
    decreases s.len(),
{
    if s.len() == 0 || is_ws(s[0]) {
        Seq::empty()
    } else {
        seq![s[0]] + first_token(s.drop_first())
    }
}

pub fn chars_eq(a: &Vec<char>, b: &Vec<char>) -> (r: bool)
    ensures
        r == (a@ == b@),
{
    if a.len() != b.len() {
        return false;
    }
    for i in 0..a.len()
        invariant
            a.len() == b.len(),
            forall|j: int| 0 <= j < i ==> a@[j] == b@[j],
    {
        if a[i] != b[i] {
            return false;
        }
    }
    assert(a@ =~= b@);
    true
}

} // verus!

verus! {

/// Collects characters into a `String` through std's `FromIterator<char>`
/// for `String`; the contract claims the string holds exactly those
/// characters, in order.
#[verifier::external_body]
pub(crate) fn string_from_chars(v: &Vec<char>) -> (s: String)
    ensures
        s@ == v@,
{
    v.iter().collect()
}

} // verus!

verus! {

/// The number of bytes UTF-8 uses for `c`.
pub open spec fn utf8_width(c: char) -> int {
    if (c as u32) < 0x80 {
        1
    } else if (c as u32) < 0x800 {
        2
    } else if (c as u32) < 0x10000 {
        3
    } else {
        4
    }
}

/// The UTF-8 byte length of `s` (`str::len`).
pub open spec fn utf8_len(s: Seq<char>) -> int
    decreases s.len(),
{
    if s.len() == 0 {
        0
    } else {
        utf8_len(s.drop_last()) + utf8_width(s.last())
    }
}

/// The value of an ASCII hexadecimal digit.
pub open spec fn hex_digit(c: char) -> Option<int> {
    if '0' <= c && c <= '9' {
        Some(c as int - '0' as int)
    } else if 'a' <= c && c <= 'f' {
        Some(c as int - 'a' as int + 10)
    } else if 'A' <= c && c <= 'F' {
        Some(c as int - 'A' as int + 10)
    } else {
        None
    }
}

/// `u8::from_str_radix(pair, 16)` for a two-character ASCII string: an
/// optional leading `+` and then hexadecimal digits.
pub open spec fn hex_pair(c0: char, c1: char) -> Option<u8> {
    if c0 == '+' {
        match hex_digit(c1) {
            Some(d) => Some(d as u8),
            None => None,
        }
    } else {
        match (hex_digit(c0), hex_digit(c1)) {
            (Some(h), Some(l)) => Some((16 * h + l) as u8),
            _ => None,
        }
    }
}

/// What parsing a six-byte color body does.
pub enum HexOutcome {
    Rgb(u8, u8, u8),
    NoColor,
    /// Slicing the body at a byte offset that is not a char boundary.
    SlicePanic,
}

/// One of the three byte pairs of a six-byte body that starts at char
/// `i`: slicing panics unless the pair is two ASCII chars or one two-byte
/// char, and a two-byte char never parses.
pub open spec fn hex_pair_at(t: Seq<char>, i: int) -> Option<Option<u8>> {
    if i + 1 < t.len() && utf8_width(t[i]) == 1 && utf8_width(t[i + 1]) == 1 {
        Some(hex_pair(t[i], t[i + 1]))
    } else if i < t.len() && utf8_width(t[i]) == 2 {
        Some(None)
    } else {
        None
    }
}

/// Parsing `#rrggbb` the way `parse_hex_rgb` does, on the already trimmed
/// and `#`-stripped body `t` of UTF-8 length six.
pub open spec fn hex_body(t: Seq<char>) -> HexOutcome {
    match hex_pair_at(t, 0) {
        None => HexOutcome::SlicePanic,
        Some(None) => HexOutcome::NoColor,
        Some(Some(r)) => match hex_pair_at(t, 2) {
            None => HexOutcome::SlicePanic,
            Some(None) => HexOutcome::NoColor,
            Some(Some(g)) => match hex_pair_at(t, 4) {
                None => HexOutcome::SlicePanic,
                Some(None) => HexOutcome::NoColor,
                Some(Some(b)) => HexOutcome::Rgb(r, g, b),
            },
        },
    }
}

/// The body of a color string: trimmed, with one leading `#` removed.
pub open spec fn hex_body_of(s: Seq<char>) -> Seq<char> {
    let t = trim(s);
    if t.len() > 0 && t[0] == '#' {
        t.drop_first()
    } else {
        t
    }
}

/// `parse_hex_rgb` on a color string.
pub open spec fn hex_color(s: Seq<char>) -> HexOutcome {
    let t = hex_body_of(s);
    if utf8_len(t) != 6 {
        HexOutcome::NoColor
    } else {
        hex_body(t)
    }
}

/// The color string can be parsed without a slicing panic.
pub open spec fn color_sliceable(color: Option<String>) -> bool {
    match color {
        None => true,
        Some(s) => !(hex_color(s@) is SlicePanic),
    }
}

/// The RGB value of an optional color string, if it has one.
pub open spec fn rgb_of(color: Option<String>) -> Option<(u8, u8, u8)> {
    match color {
        None => None,
        Some(s) => match hex_color(s@) {
            HexOutcome::Rgb(r, g, b) => Some((r, g, b)),
            _ => None,
        },
    }
}

pub(crate) fn char_utf8_width(c: char) -> (r: u64)
    ensures
        r == utf8_width(c),
{
    let u = c as u32;
    if u < 0x80 {
        1
    } else if u < 0x800 {
        2
    } else if u < 0x10000 {
        3
    } else {
        4
    }
}

pub proof fn lemma_utf8_len_bounds(s: Seq<char>)
    ensures
        s.len() <= utf8_len(s) <= 4 * s.len(),
    decreases s.len(),
{
    if s.len() > 0 {
        lemma_utf8_len_bounds(s.drop_last());
    }
}

pub(crate) fn chars_utf8_len(v: &Vec<char>) -> (r: u128)
    ensures
        r == utf8_len(v@),
{
    let mut total: u128 = 0;
    for i in 0..v.len()
        invariant
            total == utf8_len(v@.take(i as int)),
            v.len() <= usize::MAX,
    {
        proof {
            lemma_utf8_len_bounds(v@.take(i as int));
            assert(v@.take(i + 1).drop_last() == v@.take(i as int));
        }
        total = total + char_utf8_width(v[i]) as u128;
    }
    assert(v@.take(v.len() as int) == v@);
    total
}

fn hex_digit_exec(c: char) -> (r: Option<u8>)
    ensures
        match hex_digit(c) {
            Some(d) => r == Some(d as u8),
            None => r is None,
        },
        r matches Some(d) ==> d < 16,
{
    if '0' <= c && c <= '9' {
        Some((c as u8) - 48)
    } else if 'a' <= c && c <= 'f' {
        Some((c as u8) - 87)
    } else if 'A' <= c && c <= 'F' {
        Some((c as u8) - 55)
    } else {
        None
    }
}

fn hex_pair_exec(c0: char, c1: char) -> (r: Option<u8>)
    ensures
        r == hex_pair(c0, c1),
{
    if c0 == '+' {
        hex_digit_exec(c1)
    } else {
        match (hex_digit_exec(c0), hex_digit_exec(c1)) {
            (Some(h), Some(l)) => Some(16 * h + l),
            _ => None,
        }
    }
}

/// Parses the pair of bytes that starts at char `i` of the body.
fn hex_pair_at_exec(t: &Vec<char>, i: usize) -> (r: Option<Option<u8>>)
    requires
        i < 6,
    ensures
        r == hex_pair_at(t@, i as int),
{
    if i + 1 < t.len() && char_utf8_width(t[i]) == 1 && char_utf8_width(t[i + 1]) == 1 {
        Some(hex_pair_exec(t[i], t[i + 1]))
    } else if i < t.len() && char_utf8_width(t[i]) == 2 {
        Some(None)
    } else {
        None
    }
}

/// Parses `#rrggbb` (or `rrggbb`, with surrounding whitespace) into RGB.
pub fn parse_hex_rgb(value: Option<&str>) -> (r: Option<(u8, u8, u8)>)
    requires
        value matches Some(s) ==> !(hex_color(s@) is SlicePanic),
    ensures
        r == match value {
            None => None,
            Some(s) => match hex_color(s@) {
                HexOutcome::Rgb(r, g, b) => Some((r, g, b)),
                _ => None,
            },
        },
{
    let s = match value {
        None => return None,
        Some(s) => s,
    };
    let trimmed = trim_chars(&str_chars(s));
    let mut body: Vec<char> = Vec::new();
    let start: usize = if trimmed.len() > 0 && trimmed[0] == '#' {
        1
    } else {
        0
    };
    let mut i = start;
    while i < trimmed.len()
        invariant
            start <= i <= trimmed.len(),
            body@ == trimmed@.subrange(start as int, i as int),
        decreases trimmed.len() - i,
    {
        body.push(trimmed[i]);
        i = i + 1;
    }
    assert(body@ == hex_body_of(s@)) by {
        if start == 1 {
            assert(trimmed@.drop_first() == trimmed@.subrange(1, trimmed@.len() as int));
        } else {
            assert(trimmed@ == trimmed@.subrange(0, trimmed@.len() as int));
        }
    }
    if chars_utf8_len(&body) != 6 {
        return None;
    }
    let red = match hex_pair_at_exec(&body, 0) {
        Some(Some(v)) => v,
        _ => return None,
    };
    let green = match hex_pair_at_exec(&body, 2) {
        Some(Some(v)) => v,
        _ => return None,
    };
    let blue = match hex_pair_at_exec(&body, 4) {
        Some(Some(v)) => v,
        _ => return None,
    };
    Some((red, green, blue))
}

/// Whether a color string parses without slicing inside a character.
pub fn color_is_sliceable(color: &Option<String>) -> (r: bool)
    ensures
        r == color_sliceable(*color),
{
    let s = match color {
        None => return true,
        Some(s) => s,
    };
    let trimmed = trim_chars(&str_chars(s.as_str()));
    let mut body: Vec<char> = Vec::new();
    let start: usize = if trimmed.len() > 0 && trimmed[0] == '#' {
        1
    } else {
        0
    };
    let mut i = start;
    while i < trimmed.len()
        invariant
            start <= i <= trimmed.len(),
            body@ == trimmed@.subrange(start as int, i as int),
        decreases trimmed.len() - i,
    {
        body.push(trimmed[i]);
        i = i + 1;
    }
    assert(body@ == hex_body_of(s@)) by {
        if start == 1 {
            assert(trimmed@.drop_first() == trimmed@.subrange(1, trimmed@.len() as int));
        } else {
            assert(trimmed@ == trimmed@.subrange(0, trimmed@.len() as int));
        }
    }
    if chars_utf8_len(&body) != 6 {
        return true;
    }
    match hex_pair_at_exec(&body, 0) {
        None => return false,
        Some(None) => return true,
        Some(Some(_)) => {},
    }
    match hex_pair_at_exec(&body, 2) {
        None => return false,
        Some(None) => return true,
        Some(Some(_)) => {},
    }
    match hex_pair_at_exec(&body, 4) {
        None => false,
        _ => true,
    }
}

} // verus!

verus! {

/// The decimal digit for `d` (taken below 10).
pub open spec fn digit_char(d: int) -> char {
    (48 + d) as char
}

/// An unsigned number in decimal, without leading zeros.
pub open spec fn dec_digits(n: nat) -> Seq<char>
    decreases n,
{
    if n < 10 {
        seq![digit_char(n as int)]
    } else {
        dec_digits(n / 10).push(digit_char((n % 10) as int))
    }
}

/// Appends `n` in decimal.
pub fn push_decimal(out: &mut Vec<char>, n: u64)
    ensures
        final(out)@ == old(out)@ + dec_digits(n as nat),
    decreases n,
{
    if n >= 10 {
        push_decimal(out, n / 10);
    }
    let d = (n % 10) as u8;
    out.push((48 + d) as char);
}

/// Whether two strings hold the same characters.
pub fn str_eq(a: &str, b: &str) -> (r: bool)
    ensures
        r == (a@ == b@),
{
    chars_eq(&str_chars(a), &str_chars(b))
}

/// Whether `s` begins with `prefix`.
pub fn chars_start_with(s: &Vec<char>, prefix: &Vec<char>) -> (r: bool)
    ensures
        r == (prefix@.len() <= s@.len() && s@.take(prefix@.len() as int) == prefix@),
{
    if prefix.len() > s.len() {
        return false;
    }
    for i in 0..prefix.len()
        invariant
            prefix@.len() <= s@.len(),
            forall|j: int| 0 <= j < i ==> s@[j] == prefix@[j],
    {
        if s[i] != prefix[i] {
            assert(s@.take(prefix@.len() as int)[i as int] != prefix@[i as int]);
            return false;
        }
    }
    assert(s@.take(prefix@.len() as int) =~= prefix@);
    true
}

/// Whether `s` ends with `suffix`.
pub fn chars_end_with(s: &Vec<char>, suffix: &Vec<char>) -> (r: bool)
    ensures
        r == (suffix@.len() <= s@.len() && s@.skip(s@.len() - suffix@.len()) == suffix@),
{
    if suffix.len() > s.len() {
        return false;
    }
    let off = s.len() - suffix.len();
    for i in 0..suffix.len()
        invariant
            off + suffix@.len() == s@.len(),
            s@.len() == s.len(),
            forall|j: int| 0 <= j < i ==> s@[off + j] == suffix@[j],
    {
        if s[off + i] != suffix[i] {
            assert(s@.skip(off as int)[i as int] != suffix@[i as int]);
            return false;
        }
    }
    assert(s@.skip(off as int) =~= suffix@);
    true
}

/// Appends the characters of a string.
pub fn push_str(out: &mut Vec<char>, s: &str)
    ensures
        final(out)@ == old(out)@ + s@,
{
    let chars = crate::text::str_chars(s);
    for i in 0..chars.len()
        invariant
            chars@ == s@,
            out@ == old(out)@ + chars@.take(i as int),
    {
        out.push(chars[i]);
        assert(chars@.take(i + 1) =~= chars@.take(i as int).push(chars@[i as int]));
    }
    assert(chars@.take(chars@.len() as int) =~= chars@);
}

} // verus!
