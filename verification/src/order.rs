//! The order in which design files fill a menu: by file name, without
//! regard to ASCII case, ties broken by the exact name.

use vstd::prelude::*;
use std::cmp::Ordering;

verus! {

/// Lexicographic order of character strings by code point.
pub open spec fn text_order(a: Seq<char>, b: Seq<char>) -> Ordering
    decreases a.len(),
{
    if a.len() == 0 {
        if b.len() == 0 {
            Ordering::Equal
        } else {
            Ordering::Less
        }
    } else if b.len() == 0 {
        Ordering::Greater
    } else if a[0] < b[0] {
        Ordering::Less
    } else if b[0] < a[0] {
        Ordering::Greater
    } else {
        text_order(a.drop_first(), b.drop_first())
    }
}

/// `a` comes strictly before `b` by code point.
pub open spec fn text_less(a: Seq<char>, b: Seq<char>) -> bool {
    text_order(a, b) == Ordering::Less
}

/// The order of two file names: by their ASCII-lowercased text, then by
/// the names themselves.
pub open spec fn name_order(a: Seq<char>, b: Seq<char>) -> Ordering {
    match text_order(crate::text::lower(a), crate::text::lower(b)) {
        Ordering::Equal => text_order(a, b),
        o => o,
    }
}

fn text_order_exec(a: &Vec<char>, b: &Vec<char>) -> (r: Ordering)
    ensures
        r == text_order(a@, b@),
{
    let mut i: usize = 0;
    let ghost mut ra = a@;
    let ghost mut rb = b@;
    while i < a.len() && i < b.len() && a[i] == b[i]
        invariant
            i <= a@.len(),
            i <= b@.len(),
            ra.len() + i == a@.len(),
            rb.len() + i == b@.len(),
            forall|j: int| 0 <= j < ra.len() ==> ra[j] == a@[i + j],
            forall|j: int| 0 <= j < rb.len() ==> rb[j] == b@[i + j],
            text_order(a@, b@) == text_order(ra, rb),
        decreases a@.len() - i,
    {
        proof {
            assert(ra[0] == a@[i + 0]);
            assert(rb[0] == b@[i + 0]);
            ra = ra.drop_first();
            rb = rb.drop_first();
        }
        i = i + 1;
    }
    if i == a.len() {
        if i == b.len() {
            Ordering::Equal
        } else {
            Ordering::Less
        }
    } else if i == b.len() {
        Ordering::Greater
    } else {
        assert(ra[0] == a@[i + 0]);
        assert(rb[0] == b@[i + 0]);
        if a[i] < b[i] {
            Ordering::Less
        } else {
            Ordering::Greater
        }
    }
}

/// Compares two file names as the menu orders its designs.
pub fn compare_paths_case_insensitive(a: &str, b: &str) -> (r: Ordering)
    ensures
        r == name_order(a@, b@),
{
    let ca = crate::text::str_chars(a);
    let cb = crate::text::str_chars(b);
    let la = crate::text::lower_chars(&ca);
    let lb = crate::text::lower_chars(&cb);
    match text_order_exec(&la, &lb) {
        Ordering::Equal => text_order_exec(&ca, &cb),
        o => o,
    }
}

} // verus!

verus! {

/// The order of two names by their ASCII-lowercased text alone.
pub fn compare_case_insensitive(a: &str, b: &str) -> (r: Ordering)
    ensures
        r == text_order(crate::text::lower(a@), crate::text::lower(b@)),
{
    let la = crate::text::lower_chars(&crate::text::str_chars(a));
    let lb = crate::text::lower_chars(&crate::text::str_chars(b));
    text_order_exec(&la, &lb)
}

} // verus!

verus! {

/// `a` comes strictly before `b` by their ASCII-lowercased text.
pub open spec fn lower_before(a: Seq<char>, b: Seq<char>) -> bool {
    text_less(crate::text::lower(a), crate::text::lower(b))
}

pub fn lower_before_exec(a: &str, b: &str) -> (r: bool)
    ensures
        r == lower_before(a@, b@),
{
    match compare_case_insensitive(a, b) {
        Ordering::Less => true,
        _ => false,
    }
}

} // verus!

verus! {

/// `a` comes before `b` exactly when `b` comes after `a`.
pub proof fn lemma_text_order_flip(a: Seq<char>, b: Seq<char>)
    ensures
        (text_order(a, b) == Ordering::Less) == (text_order(b, a) == Ordering::Greater),
    decreases a.len(),
{
    if a.len() > 0 && b.len() > 0 && a[0] == b[0] {
        lemma_text_order_flip(a.drop_first(), b.drop_first());
    }
}

/// "Not after" is transitive.
pub proof fn lemma_text_order_not_after_trans(a: Seq<char>, b: Seq<char>, c: Seq<char>)
    requires
        text_order(a, b) != Ordering::Greater,
        text_order(b, c) != Ordering::Greater,
    ensures
        text_order(a, c) != Ordering::Greater,
    decreases a.len(),
{
    if a.len() > 0 && b.len() > 0 && c.len() > 0 && a[0] == b[0] && b[0] == c[0] {
        lemma_text_order_not_after_trans(a.drop_first(), b.drop_first(), c.drop_first());
    }
}

} // verus!
