//! Decoder for the binary fastText model layout.
//!
//! All integers are little-endian. The layout is: magic and version (`u32`
//! each), twelve 32-bit training parameters (the first is the dimension `D`)
//! and one 64-bit one; the dictionary header `size`, `nwords`, `nlabels`
//! (`u32`), `ntokens` and `pruneidx_size` (`u64`); `size` entries, each a
//! NUL-terminated word, a 64-bit count and an entry-type byte; the pruning
//! index (`pruneidx_size` pairs of `u32`, none when that size is negative);
//! a quantisation flag byte; and the input matrix as `rows: u64`,
//! `cols: u64` and `rows * cols` 32-bit values. The store keeps the first
//! `nwords` entries and their rows; later rows belong to subword buckets.
use vstd::prelude::*;
use crate::bytes::{copy_range, read_u32, read_u64, u32_at, u64_at};
use crate::native::values_at;
use crate::scan::{find_byte, find_from};
use crate::store::{all_utf8, distinct, views, FormatError, Store, StoreModel};

verus! {

pub const FASTTEXT_MAGIC: u32 = 793712314;

pub const FASTTEXT_VERSION: u32 = 12;

/// Offset of the first dictionary entry.
pub const FASTTEXT_ENTRIES_AT: usize = 92;

/// Reads `k` dictionary entries from `p`: their words and the offset after
/// the last one.
pub open spec fn ft_entries(b: Seq<u8>, p: int, k: nat) -> Option<(Seq<Seq<u8>>, int)>
    decreases k,
{
    if k == 0 {
        Some((Seq::empty(), p))
    } else {
        match ft_entries(b, p, (k - 1) as nat) {
            None => None,
            Some((ws, q)) => {
                let z = find_from(b, q, b.len() as int, 0u8);
                if z + 10 <= b.len() {
                    Some((ws.push(b.subrange(q, z)), z + 10))
                } else {
                    None
                }
            },
        }
    }
}

/// The number of pruning pairs a 64-bit signed size declares.
pub open spec fn prune_pairs(x: u64) -> nat {
    if x >= 0x8000_0000_0000_0000u64 {
        0
    } else {
        x as nat
    }
}

/// What decoding the fastText bytes `b` gives.
pub open spec fn parse_fasttext(b: Seq<u8>) -> Result<StoreModel, FormatError> {
    if b.len() < 92 {
        Err(FormatError::Truncated)
    } else if u32_at(b, 0) != FASTTEXT_MAGIC || u32_at(b, 4) != FASTTEXT_VERSION {
        Err(FormatError::BadHeader)
    } else {
        let dim = u32_at(b, 8) as nat;
        let size = u32_at(b, 64) as nat;
        let nwords = u32_at(b, 68) as nat;
        if nwords > size {
            Err(FormatError::BadHeader)
        } else {
            match ft_entries(b, 92, size) {
                None => Err(FormatError::Truncated),
                Some((es, q)) => {
                    let r = q + 8 * prune_pairs(u64_at(b, 84));
                    if r + 17 > b.len() {
                        Err(FormatError::Truncated)
                    } else if b[r] != 0 || u64_at(b, r + 9) != dim || u64_at(b, r + 1) < nwords {
                        Err(FormatError::BadHeader)
                    } else if b.len() - (r + 17) < 4 * (u64_at(b, r + 1) * dim) {
                        Err(FormatError::Truncated)
                    } else if b.len() - (r + 17) > 4 * (u64_at(b, r + 1) * dim) {
                        Err(FormatError::TrailingBytes)
                    } else if !all_utf8(es.subrange(0, nwords as int)) {
                        Err(FormatError::BadWord)
                    } else if !distinct(es.subrange(0, nwords as int)) {
                        Err(FormatError::DuplicateWord)
                    } else {
                        Ok(StoreModel {
                            words: es.subrange(0, nwords as int),
                            dims: dim,
                            data: values_at(b, r + 17, nwords * dim),
                        })
                    }
                },
            }
        }
    }
}

proof fn lemma_entries_fail(b: Seq<u8>, p: int, k: nat, m: nat)
    requires
        k <= m,
        ft_entries(b, p, k) is None,
    ensures
        ft_entries(b, p, m) is None,
    decreases m - k,
{
    if k < m {
        lemma_entries_fail(b, p, k, (m - 1) as nat);
    }
}

/// Decodes the binary fastText layout.
pub fn decode_fasttext(b: &[u8]) -> (r: Result<Store, FormatError>)
    ensures
        match r {
            Ok(s) => s.wf() && parse_fasttext(b@) == Ok::<StoreModel, FormatError>(s@),
            Err(e) => parse_fasttext(b@) == Err::<StoreModel, FormatError>(e),
        },
{
    let ghost bs = b@;
    let len = b.len();
    if len < FASTTEXT_ENTRIES_AT {
        return Err(FormatError::Truncated);
    }
    if read_u32(b, 0).unwrap() != FASTTEXT_MAGIC || read_u32(b, 4).unwrap() != FASTTEXT_VERSION {
        return Err(FormatError::BadHeader);
    }
    let dim = read_u32(b, 8).unwrap();
    let size = read_u32(b, 64).unwrap();
    let nwords = read_u32(b, 68).unwrap();
    let prune = read_u64(b, 84).unwrap();
    if nwords > size {
        return Err(FormatError::BadHeader);
    }
    let mut words: Vec<Vec<u8>> = Vec::new();
    let mut p: usize = FASTTEXT_ENTRIES_AT;
    let mut i: u32 = 0;
    while i < size
        invariant
            bs == b@,
            len == bs.len(),
            parse_fasttext(bs) == parse_fasttext(b@),
            len >= 92,
            u32_at(bs, 0) == FASTTEXT_MAGIC,
            u32_at(bs, 4) == FASTTEXT_VERSION,
            dim == u32_at(bs, 8),
            size == u32_at(bs, 64),
            nwords == u32_at(bs, 68),
            prune == u64_at(bs, 84),
            nwords <= size,
            i <= size,
            p <= len,
            words@.len() == i,
            ft_entries(bs, 92, i as nat) == Some((views(words@), p as int)),
        decreases size - i,
    {
        let z = find_byte(b, p, len, 0);
        if z >= len || len - z < 10 {
            proof {
                assert(ft_entries(bs, 92, (i + 1) as nat) is None);
                lemma_entries_fail(bs, 92, (i + 1) as nat, size as nat);
            }
            return Err(FormatError::Truncated);
        }
        let w = copy_range(b, p, z);
        proof {
            assert(views(words@.push(w)) =~= views(words@).push(w@));
        }
        words.push(w);
        p = z + 10;
        i = i + 1;
    }
    let ghost es = views(words@);
    let pairs: u64 = if prune >= 0x8000_0000_0000_0000u64 { 0 } else { prune };
    if pairs > ((len - p) / 8) as u64 {
        return Err(FormatError::Truncated);
    }
    let r = p + 8 * (pairs as usize);
    if len - r < 17 {
        return Err(FormatError::Truncated);
    }
    let rows = read_u64(b, r + 1).unwrap();
    let cols = read_u64(b, r + 9).unwrap();
    if b[r] != 0 || cols != dim as u64 || rows < nwords as u64 {
        return Err(FormatError::BadHeader);
    }
    let rest = len - (r + 17);
    let d = dim as usize;
    if d != 0 && rows > ((rest / 4) / d) as u64 {
        proof {
            let q = rest as int / 4;
            assert(rows * d > q) by (nonlinear_arith)
                requires
                    d > 0,
                    rows > q / d as int,
            ;
        }
        return Err(FormatError::Truncated);
    }
    proof {
        assert(rows * d <= rest as int / 4) by (nonlinear_arith)
            requires
                d == 0 || rows <= (rest as int / 4) / d as int,
        ;
        assert(nwords * d <= rows * d) by (nonlinear_arith)
            requires
                nwords <= rows,
        ;
    }
    let total = rows as usize * d;
    if rest < 4 * total {
        return Err(FormatError::Truncated);
    }
    if rest > 4 * total {
        return Err(FormatError::TrailingBytes);
    }
    let n = nwords as usize;
    let mut kept: Vec<Vec<u8>> = Vec::new();
    let mut j: usize = 0;
    while j < n
        invariant
            n <= words@.len(),
            j <= n,
            views(kept@) == views(words@).subrange(0, j as int),
        decreases n - j,
    {
        let w = copy_range(words[j].as_slice(), 0, words[j].len());
        assert(w@ =~= words@[j as int]@);
        proof {
            assert(views(kept@.push(w)) =~= views(kept@).push(w@));
        }
        kept.push(w);
        j = j + 1;
        assert(views(kept@) =~= views(words@).subrange(0, j as int));
    }
    let count = n * d;
    let base = r + 17;
    let mut data: Vec<u32> = Vec::new();
    let mut k: usize = 0;
    while k < count
        invariant
            bs == b@,
            len == bs.len(),
            base + 4 * total == len,
            count <= total,
            k <= count,
            data@ == values_at(bs, base as int, k as nat),
        decreases count - k,
    {
        let x = read_u32(b, base + 4 * k).unwrap();
        data.push(x);
        k = k + 1;
        assert(data@ =~= values_at(bs, base as int, k as nat));
    }
    Store::from_parts(kept, d, data)
}

} // verus!
