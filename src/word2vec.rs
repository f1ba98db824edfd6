//! Decoder for the binary word2vec layout.
//!
//! A header line `N D\n` in ASCII decimal, then `N` records, each a word, a
//! single space and `D` little-endian 32-bit values, optionally followed by a
//! newline.
use vstd::prelude::*;
use crate::bytes::{copy_range, read_u32};
use crate::native::values_at;
use crate::scan::{
    dec_value, find_byte, find_from, is_digit, parse_dec, skip_blank, skip_blank_at, skip_digits,
    skip_digits_at,
};
use crate::store::{all_utf8, distinct, views, FormatError, Store, StoreModel};

verus! {

/// The two numbers of the header line and the offset just after it.
pub open spec fn w2v_header(b: Seq<u8>) -> Option<(nat, nat, int)> {
    let e = find_from(b, 0, b.len() as int, 0x0au8);
    let n_at = skip_blank(b, 0, e);
    let n_end = skip_digits(b, n_at, e);
    let d_at = skip_blank(b, n_end, e);
    let d_end = skip_digits(b, d_at, e);
    if e < b.len() && n_at < n_end && n_end < d_at && d_at < d_end && skip_blank(b, d_end, e) == e {
        Some((dec_value(b, n_at, n_end), dec_value(b, d_at, d_end), e + 1))
    } else {
        None
    }
}

/// Reads `n` records of `d` values from `p`: the words, all values in order,
/// and the offset after the last record.
pub open spec fn w2v_records(b: Seq<u8>, p: int, n: nat, d: nat) -> Option<(Seq<Seq<u8>>, Seq<u32>, int)>
    decreases n,
{
    if n == 0 {
        Some((Seq::empty(), Seq::empty(), p))
    } else {
        match w2v_records(b, p, (n - 1) as nat, d) {
            None => None,
            Some((ws, vs, q)) => {
                let s = find_from(b, q, b.len() as int, 0x20u8);
                let e = s + 1 + 4 * d;
                if e <= b.len() {
                    let next = if e < b.len() && b[e] == 0x0au8 { e + 1 } else { e };
                    Some((ws.push(b.subrange(q, s)), vs + values_at(b, s + 1, d), next))
                } else {
                    None
                }
            },
        }
    }
}

/// What decoding the word2vec bytes `b` gives.
pub open spec fn parse_word2vec(b: Seq<u8>) -> Result<StoreModel, FormatError> {
    match w2v_header(b) {
        None => Err(FormatError::BadHeader),
        Some((n, d, p)) => {
            if n > usize::MAX || d > usize::MAX {
                Err(FormatError::TooLarge)
            } else {
                match w2v_records(b, p, n, d) {
                    None => Err(FormatError::Truncated),
                    Some((ws, vs, q)) => {
                        if q < b.len() {
                            Err(FormatError::TrailingBytes)
                        } else if !all_utf8(ws) {
                            Err(FormatError::BadWord)
                        } else if !distinct(ws) {
                            Err(FormatError::DuplicateWord)
                        } else {
                            Ok(StoreModel { words: ws, dims: d, data: vs })
                        }
                    },
                }
            }
        },
    }
}

proof fn lemma_records_fail(b: Seq<u8>, p: int, n: nat, m: nat, d: nat)
    requires
        n <= m,
        w2v_records(b, p, n, d) is None,
    ensures
        w2v_records(b, p, m, d) is None,
    decreases m - n,
{
    if n < m {
        lemma_records_fail(b, p, n, (m - 1) as nat, d);
    }
}

/// Reads the `k` little-endian `u32`s at `p` and appends them to `out`.
fn push_values(b: &[u8], p: usize, k: usize, out: &mut Vec<u32>)
    requires
        p + 4 * k <= b@.len(),
    ensures
        final(out)@ == old(out)@ + values_at(b@, p as int, k as nat),
{
    let ghost start = out@;
    let blen = b.len();
    let mut j: usize = 0;
    while j < k
        invariant
            blen == b@.len(),
            p + 4 * k <= b@.len(),
            j <= k,
            out@ == start + values_at(b@, p as int, j as nat),
        decreases k - j,
    {
        let x = read_u32(b, p + 4 * j).unwrap();
        out.push(x);
        j = j + 1;
        assert(out@ =~= start + values_at(b@, p as int, j as nat));
    }
}

/// Decodes the binary word2vec layout.
pub fn decode_word2vec_binary(b: &[u8]) -> (r: Result<Store, FormatError>)
    ensures
        match r {
            Ok(s) => s.wf() && parse_word2vec(b@) == Ok::<StoreModel, FormatError>(s@),
            Err(e) => parse_word2vec(b@) == Err::<StoreModel, FormatError>(e),
        },
{
    let ghost bs = b@;
    let len = b.len();
    let e = find_byte(b, 0, len, 0x0a);
    let n_at = skip_blank_at(b, 0, e);
    let n_end = skip_digits_at(b, n_at, e);
    let d_at = skip_blank_at(b, n_end, e);
    let d_end = skip_digits_at(b, d_at, e);
    let line_end = skip_blank_at(b, d_end, e);
    if !(e < len && n_at < n_end && n_end < d_at && d_at < d_end && line_end == e) {
        return Err(FormatError::BadHeader);
    }
    proof {
        lemma_digits_run(bs, n_at as int, e as int);
        lemma_digits_run(bs, d_at as int, e as int);
    }
    let n = match parse_dec(b, n_at, n_end) {
        Some(n) => n,
        None => { return Err(FormatError::TooLarge); },
    };
    let d = match parse_dec(b, d_at, d_end) {
        Some(d) => d,
        None => { return Err(FormatError::TooLarge); },
    };
    let ghost start = (e + 1) as int;
    let mut p: usize = e + 1;
    let mut words: Vec<Vec<u8>> = Vec::new();
    let mut data: Vec<u32> = Vec::new();
    let mut i: usize = 0;
    while i < n
        invariant
            bs == b@,
            len == bs.len(),
            w2v_header(bs) == Some((n as nat, d as nat, start)),
            i <= n,
            p <= len,
            words@.len() == i,
            w2v_records(bs, start, i as nat, d as nat) == Some((views(words@), data@, p as int)),
        decreases n - i,
    {
        let s = find_byte(b, p, len, 0x20);
        if s >= len || d > (len - s - 1) / 4 {
            proof {
                assert(w2v_records(bs, start, (i + 1) as nat, d as nat) is None);
                lemma_records_fail(bs, start, (i + 1) as nat, n as nat, d as nat);
            }
            return Err(FormatError::Truncated);
        }
        let w = copy_range(b, p, s);
        push_values(b, s + 1, d, &mut data);
        let mut next = s + 1 + 4 * d;
        if next < len && b[next] == 0x0a {
            next = next + 1;
        }
        proof {
            assert(views(words@.push(w)) =~= views(words@).push(w@));
        }
        words.push(w);
        p = next;
        i = i + 1;
    }
    if p < len {
        return Err(FormatError::TrailingBytes);
    }
    proof {
        lemma_records_shape(bs, start, n as nat, d as nat);
    }
    Store::from_parts(words, d, data)
}

/// A successful record parse yields `n` words and `n * d` values.
proof fn lemma_records_shape(b: Seq<u8>, p: int, n: nat, d: nat)
    ensures
        match w2v_records(b, p, n, d) {
            Some((ws, vs, q)) => ws.len() == n && vs.len() == n * d,
            None => true,
        },
    decreases n,
{
    if n > 0 {
        lemma_records_shape(b, p, (n - 1) as nat, d);
        let m: int = n - 1;
        let dd: int = d as int;
        assert(m * dd + dd == (m + 1) * dd) by (nonlinear_arith);
        match w2v_records(b, p, (n - 1) as nat, d) {
            Some((ws, vs, q)) => {
                let sp = find_from(b, q, b.len() as int, 0x20u8);
                assert(values_at(b, sp + 1, d).len() == d);
                assert((vs + values_at(b, sp + 1, d)).len() == n * d);
            },
            None => {},
        }
    } else {
        assert(0 * d == 0);
    }
}

/// Everything that `skip_digits` passes over is a digit.
proof fn lemma_digits_run(b: Seq<u8>, p: int, e: int)
    requires
        0 <= p <= e <= b.len(),
    ensures
        p <= skip_digits(b, p, e) <= e,
        forall|k: int| p <= k < skip_digits(b, p, e) ==> is_digit(#[trigger] b[k]),
    decreases e - p,
{
    if p < e && is_digit(b[p]) {
        lemma_digits_run(b, p + 1, e);
    }
}

} // verus!
