//! The native encoding of a store.
//!
//! Layout, all integers little-endian:
//! `magic: u32`, `version: u32`, `N: u64`, `D: u64`, then `N` words each as
//! `len: u64` followed by its bytes, then `N * D` values as `u32`, row after row.
use vstd::prelude::*;
use crate::bytes::{lemma_le_round_trip, le32, le64, push_all, push_u32, push_u64, read_u32, read_u64, u32_at, u64_at};
use crate::store::{all_utf8, distinct, FormatError, Store, StoreModel};

verus! {

/// `"FFST"` read as a little-endian `u32`.
pub const NATIVE_MAGIC: u32 = 0x5453_4646;

pub const NATIVE_VERSION: u32 = 1;

/// Size of the fixed header in bytes.
pub const NATIVE_HEADER_LEN: usize = 24;

/// Length-prefixed words, one after the other.
pub open spec fn words_bytes(ws: Seq<Seq<u8>>) -> Seq<u8>
    decreases ws.len(),
{
    if ws.len() == 0 {
        Seq::empty()
    } else {
        words_bytes(ws.drop_last()) + le64(ws.last().len() as u64) + ws.last()
    }
}

/// Values as consecutive little-endian `u32`s.
pub open spec fn values_bytes(vs: Seq<u32>) -> Seq<u8>
    decreases vs.len(),
{
    if vs.len() == 0 {
        Seq::empty()
    } else {
        values_bytes(vs.drop_last()) + le32(vs.last())
    }
}

/// The native encoding of a store model.
pub open spec fn native_bytes(m: StoreModel) -> Seq<u8> {
    le32(NATIVE_MAGIC) + le32(NATIVE_VERSION) + le64(m.words.len() as u64) + le64(m.dims as u64)
        + words_bytes(m.words) + values_bytes(m.data)
}

/// Reads `n` length-prefixed words starting at `p`; gives them and the
/// offset after the last one.
pub open spec fn parse_words(b: Seq<u8>, p: int, n: nat) -> Option<(Seq<Seq<u8>>, int)>
    decreases n,
{
    if n == 0 {
        Some((Seq::empty(), p))
    } else {
        match parse_words(b, p, (n - 1) as nat) {
            None => None,
            Some((ws, q)) => {
                if q + 8 <= b.len() && q + 8 + u64_at(b, q) <= b.len() {
                    let e = q + 8 + u64_at(b, q);
                    Some((ws.push(b.subrange(q + 8, e)), e))
                } else {
                    None
                }
            },
        }
    }
}

/// The `k` little-endian `u32`s starting at `p`.
pub open spec fn values_at(b: Seq<u8>, p: int, k: nat) -> Seq<u32> {
    Seq::new(k, |i: int| u32_at(b, p + 4 * i))
}

/// What decoding the native bytes `b` gives.
pub open spec fn parse_native(b: Seq<u8>) -> Result<StoreModel, FormatError> {
    if b.len() < 24 {
        Err(FormatError::Truncated)
    } else if u32_at(b, 0) != NATIVE_MAGIC || u32_at(b, 4) != NATIVE_VERSION {
        Err(FormatError::BadHeader)
    } else if u64_at(b, 16) > usize::MAX {
        Err(FormatError::TooLarge)
    } else {
        let n = u64_at(b, 8) as nat;
        let d = u64_at(b, 16) as nat;
        match parse_words(b, 24, n) {
            None => Err(FormatError::Truncated),
            Some((ws, q)) => {
                if b.len() - q < 4 * (n * d) {
                    Err(FormatError::Truncated)
                } else if b.len() - q > 4 * (n * d) {
                    Err(FormatError::TrailingBytes)
                } else if !all_utf8(ws) {
                    Err(FormatError::BadWord)
                } else if !distinct(ws) {
                    Err(FormatError::DuplicateWord)
                } else {
                    Ok(StoreModel { words: ws, dims: d, data: values_at(b, q, n * d) })
                }
            },
        }
    }
}

/// A failed word parse stays failed when more words are asked for.
proof fn lemma_parse_words_fails(b: Seq<u8>, p: int, n: nat, m: nat)
    requires
        n <= m,
        parse_words(b, p, n) is None,
    ensures
        parse_words(b, p, m) is None,
    decreases m - n,
{
    if n < m {
        lemma_parse_words_fails(b, p, n, (m - 1) as nat);
    }
}

/// Length-prefixed words are read back as they were written, whatever
/// surrounds them.
proof fn lemma_words_round_trip(pre: Seq<u8>, ws: Seq<Seq<u8>>, post: Seq<u8>)
    requires
        forall|i: int| 0 <= i < ws.len() ==> #[trigger] ws[i].len() <= u64::MAX,
    ensures
        parse_words(pre + words_bytes(ws) + post, pre.len() as int, ws.len())
            == Some((ws, (pre.len() + words_bytes(ws).len()) as int)),
    decreases ws.len(),
{
    if ws.len() == 0 {
        assert(ws =~= Seq::<Seq<u8>>::empty());
    } else {
        let init = ws.drop_last();
        let last = ws.last();
        let lb = le64(last.len() as u64) + last;
        let b = pre + words_bytes(ws) + post;
        lemma_le_round_trip(0, last.len() as u64);
        assert(b =~= pre + words_bytes(init) + (lb + post));
        assert(forall|i: int| 0 <= i < init.len() ==> #[trigger] init[i] == ws[i]);
        lemma_words_round_trip(pre, init, lb + post);
        let q: int = (pre.len() + words_bytes(init).len()) as int;
        assert(b.subrange(q, q + 8) =~= le64(last.len() as u64));
        assert(u64_at(b, q) == last.len());
        assert(b.subrange(q + 8, q + 8 + last.len()) =~= last);
        assert(init.push(last) =~= ws);
    }
}

/// Values are read back as they were written, whatever surrounds them.
proof fn lemma_values_round_trip(pre: Seq<u8>, vs: Seq<u32>, post: Seq<u8>)
    ensures
        values_bytes(vs).len() == 4 * vs.len(),
        values_at(pre + values_bytes(vs) + post, pre.len() as int, vs.len()) == vs,
    decreases vs.len(),
{
    let b = pre + values_bytes(vs) + post;
    if vs.len() == 0 {
        assert(values_at(b, pre.len() as int, 0) =~= vs);
    } else {
        let init = vs.drop_last();
        let last = vs.last();
        lemma_le_round_trip(last, 0);
        assert(b =~= pre + values_bytes(init) + (le32(last) + post));
        lemma_values_round_trip(pre, init, le32(last) + post);
        let q: int = (pre.len() + 4 * init.len()) as int;
        assert(b.subrange(q, q + 4) =~= le32(last));
        let a = values_at(b, pre.len() as int, vs.len());
        let a0 = values_at(b, pre.len() as int, init.len());
        assert forall|i: int| 0 <= i < vs.len() implies a[i] == vs[i] by {
            if i < init.len() {
                assert(a0[i] == init[i]);
            }
        }
        assert(a =~= vs);
    }
}

/// Decoding the native encoding of a well-formed store gives that store back,
/// vocabulary order and every value bit included. Every decoder of this
/// crate yields a well-formed store, so a model read in any layout survives
/// re-encoding unchanged.
pub proof fn lemma_native_round_trip(s: &Store)
    requires
        s.wf(),
    ensures
        parse_native(native_bytes(s@)) == Ok::<StoreModel, FormatError>(s@),
{
    let m = s@;
    let n = m.words.len();
    let d = m.dims;
    let h = le32(NATIVE_MAGIC) + le32(NATIVE_VERSION) + le64(n as u64) + le64(d as u64);
    let wb = words_bytes(m.words);
    let vb = values_bytes(m.data);
    let b = native_bytes(m);
    lemma_le_round_trip(NATIVE_MAGIC, n as u64);
    lemma_le_round_trip(NATIVE_VERSION, d as u64);
    assert(b =~= h + wb + vb);
    assert(h.len() == 24);
    assert(b.subrange(0, 4) =~= le32(NATIVE_MAGIC));
    assert(b.subrange(4, 8) =~= le32(NATIVE_VERSION));
    assert(b.subrange(8, 16) =~= le64(n as u64));
    assert(b.subrange(16, 24) =~= le64(d as u64));
    assert forall|i: int| 0 <= i < m.words.len() implies #[trigger] m.words[i].len() <= u64::MAX by {
        assert(m.words[i].len() <= usize::MAX);
    }
    lemma_words_round_trip(h, m.words, vb);
    lemma_values_round_trip(h + wb, m.data, Seq::empty());
    assert(h + wb + vb + Seq::<u8>::empty() =~= b);
    assert(b.len() - (h.len() + wb.len()) == 4 * (n * d));
}

/// Serialises `s` in the native layout.
pub fn encode_native(s: &Store) -> (r: Vec<u8>)
    requires
        s.wf(),
    ensures
        r@ == native_bytes(s@),
{
    let mut out: Vec<u8> = Vec::new();
    push_u32(&mut out, NATIVE_MAGIC);
    push_u32(&mut out, NATIVE_VERSION);
    let n = s.size();
    push_u64(&mut out, n as u64);
    push_u64(&mut out, s.dims() as u64);
    let ghost head = out@;
    let ghost ws = s@.words;
    let mut i: usize = 0;
    while i < n
        invariant
            s.wf(),
            ws == s@.words,
            n == ws.len(),
            i <= n,
            out@ == head + words_bytes(ws.subrange(0, i as int)),
        decreases n - i,
    {
        let w = s.word(i);
        push_u64(&mut out, w.len() as u64);
        push_all(&mut out, w.as_slice());
        proof {
            let sub = ws.subrange(0, i + 1);
            assert(sub.drop_last() =~= ws.subrange(0, i as int));
            assert(sub.last() == ws[i as int]);
            assert(out@ =~= head + words_bytes(sub));
        }
        i = i + 1;
    }
    assert(ws.subrange(0, n as int) =~= ws);
    let ghost mid = out@;
    let data = s.data();
    let mut k: usize = 0;
    while k < data.len()
        invariant
            data@ == s@.data,
            k <= data@.len(),
            out@ == mid + values_bytes(data@.subrange(0, k as int)),
        decreases data@.len() - k,
    {
        push_u32(&mut out, data[k]);
        proof {
            let sub = data@.subrange(0, k + 1);
            assert(sub.drop_last() =~= data@.subrange(0, k as int));
            assert(out@ =~= mid + values_bytes(sub));
        }
        k = k + 1;
    }
    assert(data@.subrange(0, k as int) =~= data@);
    assert(out@ =~= native_bytes(s@));
    out
}

/// Decodes the native layout.
pub fn decode_native(b: &[u8]) -> (r: Result<Store, FormatError>)
    ensures
        match r {
            Ok(s) => s.wf() && parse_native(b@) == Ok::<StoreModel, FormatError>(s@),
            Err(e) => parse_native(b@) == Err::<StoreModel, FormatError>(e),
        },
{
    let len = b.len();
    if len < NATIVE_HEADER_LEN {
        return Err(FormatError::Truncated);
    }
    let magic = read_u32(b, 0).unwrap();
    let version = read_u32(b, 4).unwrap();
    if magic != NATIVE_MAGIC || version != NATIVE_VERSION {
        return Err(FormatError::BadHeader);
    }
    let n = read_u64(b, 8).unwrap();
    let d64 = read_u64(b, 16).unwrap();
    if d64 > usize::MAX as u64 {
        return Err(FormatError::TooLarge);
    }
    let d = d64 as usize;
    let ghost bs = b@;
    let mut words: Vec<Vec<u8>> = Vec::new();
    let mut p: usize = NATIVE_HEADER_LEN;
    let mut i: u64 = 0;
    while i < n
        invariant
            bs == b@,
            len == bs.len(),
            parse_native(bs) == parse_native(b@),
            len >= 24,
            u32_at(bs, 0) == NATIVE_MAGIC,
            u32_at(bs, 4) == NATIVE_VERSION,
            n == u64_at(bs, 8),
            d64 == u64_at(bs, 16),
            d64 <= usize::MAX,
            i <= n,
            24 <= p <= len,
            words@.len() == i,
            parse_words(bs, 24, i as nat) == Some((crate::store::views(words@), p as int)),
        decreases n - i,
    {
        let l = match read_u64(b, p) {
            Some(l) => l,
            None => {
                proof {
                    assert(parse_words(bs, 24, (i + 1) as nat) is None);
                    lemma_parse_words_fails(bs, 24, (i + 1) as nat, n as nat);
                }
                return Err(FormatError::Truncated);
            },
        };
        if l > (len - p - 8) as u64 {
            proof {
                assert(u64_at(bs, p as int) == l);
                assert(parse_words(bs, 24, (i + 1) as nat) is None);
                lemma_parse_words_fails(bs, 24, (i + 1) as nat, n as nat);
            }
            return Err(FormatError::Truncated);
        }
        let e = p + 8 + l as usize;
        let w = crate::bytes::copy_range(b, p + 8, e);
        proof {
            assert(crate::store::views(words@.push(w)) =~= crate::store::views(words@).push(w@));
        }
        words.push(w);
        p = e;
        i = i + 1;
    }
    let ghost ws = crate::store::views(words@);
    let rest = len - p;
    let nw = words.len();
    proof {
        assert(nw == n);
    }
    if d != 0 && nw > (rest / 4) / d {
        proof {
            let q = rest as int / 4;
            assert(nw * d > q) by (nonlinear_arith)
                requires
                    d > 0,
                    nw > q / d as int,
            ;
        }
        return Err(FormatError::Truncated);
    }
    proof {
        assert(nw * d <= rest as int / 4) by (nonlinear_arith)
            requires
                d == 0 || nw <= (rest as int / 4) / d as int,
        ;
    }
    let count = nw * d;
    if rest < 4 * count {
        return Err(FormatError::Truncated);
    }
    if rest > 4 * count {
        return Err(FormatError::TrailingBytes);
    }
    let mut data: Vec<u32> = Vec::new();
    let mut k: usize = 0;
    while k < count
        invariant
            bs == b@,
            len == bs.len(),
            p + 4 * count == len,
            k <= count,
            data@ == values_at(bs, p as int, k as nat),
        decreases count - k,
    {
        let x = read_u32(b, p + 4 * k).unwrap();
        data.push(x);
        k = k + 1;
        assert(data@ =~= values_at(bs, p as int, k as nat));
    }
    Store::from_parts(words, d, data)
}

} // verus!
