//! Scanning helpers over byte buffers: searching, skipping character classes
//! and reading ASCII decimal numbers.
use vstd::prelude::*;

verus! {

/// Space, tab or carriage return.
pub open spec fn is_blank(c: u8) -> bool {
    c == 0x20u8 || c == 0x09u8 || c == 0x0du8
}

pub open spec fn is_digit(c: u8) -> bool {
    0x30u8 <= c <= 0x39u8
}

/// The first index at or after `p` and before `e` that holds `c`, or `e`.
pub open spec fn find_from(b: Seq<u8>, p: int, e: int, c: u8) -> int
    decreases e - p,
{
    if p >= e {
        e
    } else if b[p] == c {
        p
    } else {
        find_from(b, p + 1, e, c)
    }
}

/// The first index at or after `p` and before `e` that is not blank, or `e`.
pub open spec fn skip_blank(b: Seq<u8>, p: int, e: int) -> int
    decreases e - p,
{
    if p >= e {
        e
    } else if !is_blank(b[p]) {
        p
    } else {
        skip_blank(b, p + 1, e)
    }
}

/// The first index at or after `p` and before `e` that is not a digit, or `e`.
pub open spec fn skip_digits(b: Seq<u8>, p: int, e: int) -> int
    decreases e - p,
{
    if p >= e {
        e
    } else if !is_digit(b[p]) {
        p
    } else {
        skip_digits(b, p + 1, e)
    }
}

/// The number written in decimal by the digits `b[p..q]`.
pub open spec fn dec_value(b: Seq<u8>, p: int, q: int) -> nat
    decreases q - p,
{
    if q <= p {
        0
    } else {
        dec_value(b, p, q - 1) * 10 + (b[q - 1] - 0x30u8) as nat
    }
}

/// Finds `c` in `b[p..e]`.
pub fn find_byte(b: &[u8], p: usize, e: usize, c: u8) -> (r: usize)
    requires
        p <= e <= b@.len(),
    ensures
        r == find_from(b@, p as int, e as int, c),
        p <= r <= e,
        r < e ==> b@[r as int] == c,
{
    let mut i = p;
    while i < e
        invariant
            p <= i <= e <= b@.len(),
            find_from(b@, p as int, e as int, c) == find_from(b@, i as int, e as int, c),
        decreases e - i,
    {
        if b[i] == c {
            return i;
        }
        i = i + 1;
    }
    i
}

/// Skips blanks in `b[p..e]`.
pub fn skip_blank_at(b: &[u8], p: usize, e: usize) -> (r: usize)
    requires
        p <= e <= b@.len(),
    ensures
        r == skip_blank(b@, p as int, e as int),
        p <= r <= e,
{
    let mut i = p;
    while i < e
        invariant
            p <= i <= e <= b@.len(),
            skip_blank(b@, p as int, e as int) == skip_blank(b@, i as int, e as int),
        decreases e - i,
    {
        let c = b[i];
        if !(c == 0x20 || c == 0x09 || c == 0x0d) {
            return i;
        }
        i = i + 1;
    }
    i
}

/// Skips digits in `b[p..e]`.
pub fn skip_digits_at(b: &[u8], p: usize, e: usize) -> (r: usize)
    requires
        p <= e <= b@.len(),
    ensures
        r == skip_digits(b@, p as int, e as int),
        p <= r <= e,
{
    let mut i = p;
    while i < e
        invariant
            p <= i <= e <= b@.len(),
            skip_digits(b@, p as int, e as int) == skip_digits(b@, i as int, e as int),
        decreases e - i,
    {
        let c = b[i];
        if !(0x30 <= c && c <= 0x39) {
            return i;
        }
        i = i + 1;
    }
    i
}

/// The value of the decimal digits `b[p..q]`, or `None` when it exceeds
/// `usize::MAX`.
pub fn parse_dec(b: &[u8], p: usize, q: usize) -> (r: Option<usize>)
    requires
        p <= q <= b@.len(),
        forall|k: int| p <= k < q ==> is_digit(#[trigger] b@[k]),
    ensures
        r == (if dec_value(b@, p as int, q as int) <= usize::MAX {
            Some(dec_value(b@, p as int, q as int) as usize)
        } else {
            None::<usize>
        }),
{
    let mut acc: usize = 0;
    let mut i = p;
    while i < q
        invariant
            p <= i <= q <= b@.len(),
            forall|k: int| p <= k < q ==> is_digit(#[trigger] b@[k]),
            acc == dec_value(b@, p as int, i as int),
        decreases q - i,
    {
        let digit = (b[i] - 0x30) as usize;
        if acc > (usize::MAX - digit) / 10 {
            proof { lemma_dec_grows(b@, p as int, i as int, q as int); }
            return None;
        }
        acc = acc * 10 + digit;
        i = i + 1;
    }
    Some(acc)
}

/// Appending digits never makes a decimal number smaller; once past
/// `usize::MAX` it stays past.
proof fn lemma_dec_grows(b: Seq<u8>, p: int, i: int, q: int)
    requires
        p <= i < q <= b.len(),
        forall|k: int| p <= k < q ==> is_digit(#[trigger] b[k]),
        dec_value(b, p, i) * 10 + (b[i] - 0x30u8) as nat > usize::MAX,
    ensures
        dec_value(b, p, q) > usize::MAX,
    decreases q - i,
{
    if q > i + 1 {
        lemma_dec_grows(b, p, i, q - 1);
        assert(is_digit(b[q - 1]));
    }
}

} // verus!
