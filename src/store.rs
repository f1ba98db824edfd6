//! The embedding store: an ordered vocabulary and an `N x D` matrix.
use vstd::prelude::*;
use crate::bytes::{bytes_eq, copy_range};
use vstd::utf8::valid_utf8;
use std::collections::HashMap;

verus! {

broadcast use vstd::std_specs::hash::group_hash_axioms;

/// Why bytes could not be turned into a store.
#[derive(Debug, Clone, Copy, PartialEq, Eq, Structural)]
pub enum FormatError {
    /// The header (magic, version or declared sizes) is not recognised.
    BadHeader,
    /// The input ends before the declared content does.
    Truncated,
    /// Bytes are left over after the declared content.
    TrailingBytes,
    /// A line of a text table does not have the expected number of values.
    RaggedLine,
    /// A value token is not a number.
    BadNumber,
    /// The matrix does not hold one row of `D` values per word.
    BadShape,
    /// A word is not well-formed UTF-8.
    BadWord,
    /// The same word occurs twice in the vocabulary.
    DuplicateWord,
    /// The declared sizes do not fit in memory on this machine.
    TooLarge,
}

/// Whether no byte string occurs twice in `ws`.
pub open spec fn distinct(ws: Seq<Seq<u8>>) -> bool {
    forall|i: int, j: int| 0 <= i < ws.len() && 0 <= j < ws.len() && i != j ==> ws[i] != ws[j]
}

pub const FNV_OFFSET: u64 = 0xcbf2_9ce4_8422_2325;

pub const FNV_PRIME: u64 = 0x0000_0100_0000_01b3;

/// The 64-bit FNV-1a hash of a byte string; the vocabulary index is keyed
/// by it.
pub open spec fn fnv(s: Seq<u8>) -> u64
    decreases s.len(),
{
    if s.len() == 0 {
        FNV_OFFSET
    } else {
        (fnv(s.drop_last()) ^ (s.last() as u64)).wrapping_mul(FNV_PRIME)
    }
}

/// Computes `fnv` of `b`.
pub fn hash_bytes(b: &[u8]) -> (r: u64)
    ensures
        r == fnv(b@),
{
    let mut h: u64 = FNV_OFFSET;
    let mut i: usize = 0;
    while i < b.len()
        invariant
            i <= b@.len(),
            h == fnv(b@.subrange(0, i as int)),
        decreases b@.len() - i,
    {
        proof {
            let s = b@.subrange(0, i + 1);
            assert(s.drop_last() =~= b@.subrange(0, i as int));
        }
        h = (h ^ (b[i] as u64)).wrapping_mul(FNV_PRIME);
        i = i + 1;
    }
    assert(b@.subrange(0, i as int) =~= b@);
    h
}

/// Every position listed under a key is a word index below `n` whose word
/// hashes to that key.
pub open spec fn index_sound(ix: Map<u64, Vec<usize>>, ws: Seq<Seq<u8>>, n: int) -> bool {
    forall|k: u64, j: int|
        #![trigger ix[k]@[j]]
        ix.contains_key(k) && 0 <= j < ix[k]@.len() ==> ix[k]@[j] < n && fnv(ws[ix[k]@[j] as int]) == k
}

/// Every word index below `n` is listed under its word's hash.
pub open spec fn index_complete(ix: Map<u64, Vec<usize>>, ws: Seq<Seq<u8>>, n: int) -> bool {
    forall|i: int|
        #![trigger ws[i]]
        0 <= i < n ==> ix.contains_key(fnv(ws[i])) && ix[fnv(ws[i])]@.contains(i as usize)
}

/// Whether every byte string of `ws` is well-formed UTF-8.
pub open spec fn all_utf8(ws: Seq<Seq<u8>>) -> bool {
    forall|i: int| 0 <= i < ws.len() ==> valid_utf8(#[trigger] ws[i])
}

/// Relies on `std::str::from_utf8`, which succeeds exactly on well-formed
/// UTF-8.
#[verifier::external_body]
fn is_utf8(b: &[u8]) -> (r: bool)
    ensures
        r == valid_utf8(b@),
{
    std::str::from_utf8(b).is_ok()
}

/// The mathematical content of a store.
pub struct StoreModel {
    pub words: Seq<Seq<u8>>,
    pub dims: nat,
    pub data: Seq<u32>,
}

impl StoreModel {
    /// The vocabulary is UTF-8 without duplicates and the matrix has one row
    /// of `dims` values per word.
    pub open spec fn wf(self) -> bool {
        &&& self.data.len() == self.words.len() * self.dims
        &&& all_utf8(self.words)
        &&& distinct(self.words)
    }

    /// Row `i` of the matrix.
    pub open spec fn row(self, i: int) -> Seq<u32> {
        self.data.subrange(i * self.dims, (i + 1) * self.dims)
    }

    /// What a lookup of `w` yields: the row at `w`'s index, or nothing.
    pub open spec fn lookup(self, w: Seq<u8>) -> Option<Seq<u32>> {
        if self.words.contains(w) {
            Some(self.row(self.words.index_of(w)))
        } else {
            None
        }
    }

    /// The vector a batch reports for `w`: its row, or `dims` zeros.
    pub open spec fn vector_of(self, w: Seq<u8>) -> Seq<u32> {
        match self.lookup(w) {
            Some(r) => r,
            None => Seq::new(self.dims, |k: int| 0u32),
        }
    }
}

/// A vocabulary of byte strings and a row-major matrix of `u32` bit patterns.
pub struct Store {
    words: Vec<Vec<u8>>,
    dims: usize,
    data: Vec<u32>,
    index: HashMap<u64, Vec<usize>>,
}

/// The result of a batch lookup: one vector per input word, in input order,
/// and whether each word was found.
pub struct Batch {
    pub vectors: Vec<Vec<u32>>,
    pub in_vocab: Vec<bool>,
}

/// `b` holds, for each word of `ws` in order, the vector the store gives it
/// and whether the word is in the vocabulary.
pub open spec fn is_batch_of(m: StoreModel, ws: Seq<Seq<u8>>, b: Batch) -> bool {
    &&& b.vectors@.len() == ws.len()
    &&& b.in_vocab@.len() == ws.len()
    &&& forall|j: int| 0 <= j < ws.len() ==> (#[trigger] b.vectors@[j])@ == m.vector_of(ws[j])
    &&& forall|j: int| 0 <= j < ws.len() ==> #[trigger] b.in_vocab@[j] == m.words.contains(ws[j])
}

/// The view of a list of byte vectors.
pub open spec fn views(v: Seq<Vec<u8>>) -> Seq<Seq<u8>> {
    v.map_values(|x: Vec<u8>| x@)
}

/// In a well-formed store, looking up the word at index `i` gives exactly
/// row `i`, and a byte string that is not a word gives nothing.
pub proof fn lemma_lookup_exact(m: StoreModel, i: int, w: Seq<u8>)
    requires
        m.wf(),
        0 <= i < m.words.len(),
    ensures
        m.lookup(m.words[i]) == Some(m.row(i)),
        !m.words.contains(w) ==> m.lookup(w) is None,
{
    let ws = m.words;
    assert(ws.contains(ws[i]));
    let k = ws.index_of(ws[i]);
    assert(0 <= k < ws.len() && ws[k] == ws[i]);
    assert(k == i);
}

/// Row `i` lies inside a matrix of `n` rows of `d` values.
pub proof fn lemma_row_bounds(i: int, n: int, d: int)
    requires
        0 <= i < n,
        0 <= d,
    ensures
        0 <= i * d,
        i * d + d == (i + 1) * d,
        (i + 1) * d <= n * d,
{
    assert((i + 1) * d <= n * d) by (nonlinear_arith)
        requires
            i + 1 <= n,
            0 <= d,
    ;
    assert(0 <= i * d) by (nonlinear_arith)
        requires
            0 <= i,
            0 <= d,
    ;
    assert(i * d + d == (i + 1) * d) by (nonlinear_arith);
}

impl View for Store {
    type V = StoreModel;

    closed spec fn view(&self) -> StoreModel {
        StoreModel { words: views(self.words@), dims: self.dims as nat, data: self.data@ }
    }
}

impl Store {
    /// The model is well formed and every length fits in a `usize`.
    pub open spec fn wf(&self) -> bool {
        &&& self@.wf()
        &&& self@.words.len() <= usize::MAX
        &&& self@.dims <= usize::MAX
        &&& self@.data.len() <= usize::MAX
        &&& forall|i: int| 0 <= i < self@.words.len() ==> #[trigger] self@.words[i].len() <= usize::MAX
        &&& self.index_ok()
    }

    /// The hash index lists each word index under its word's hash, and
    /// nothing else.
    pub closed spec fn index_ok(&self) -> bool {
        &&& index_sound(self.index@, self@.words, self@.words.len() as int)
        &&& index_complete(self.index@, self@.words, self@.words.len() as int)
    }

    /// Builds a store from its parts; fails when the matrix does not have
    /// `dims` values per word or when a word occurs twice.
    pub fn from_parts(words: Vec<Vec<u8>>, dims: usize, data: Vec<u32>) -> (r: Result<Store, FormatError>)
        ensures
            match r {
                Ok(s) => s.wf() && s@ == (StoreModel { words: views(words@), dims: dims as nat, data: data@ }),
                Err(e) => {
                    ||| (data@.len() != words@.len() * dims && e == FormatError::BadShape)
                    ||| (data@.len() == words@.len() * dims && !all_utf8(views(words@))
                        && e == FormatError::BadWord)
                    ||| (data@.len() == words@.len() * dims && all_utf8(views(words@))
                        && !distinct(views(words@)) && e == FormatError::DuplicateWord)
                },
            },
    {
        let n = words.len();
        let dl = data.len();
        if dims != 0 && n > usize::MAX / dims {
            proof {
                assert(n * dims > usize::MAX) by (nonlinear_arith)
                    requires
                        dims > 0,
                        n > usize::MAX / dims,
                ;
            }
            assert(dl != n * dims);
            return Err(FormatError::BadShape);
        }
        proof {
            assert(n * dims <= usize::MAX) by (nonlinear_arith)
                requires
                    dims == 0 || n <= usize::MAX / dims,
            ;
        }
        if data.len() != n * dims {
            return Err(FormatError::BadShape);
        }
        let ghost ws = views(words@);
        let mut u: usize = 0;
        while u < n
            invariant
                n == words@.len(),
                data@.len() == n * dims,
                ws == views(words@),
                u <= n,
                forall|a: int| 0 <= a < u ==> valid_utf8(#[trigger] ws[a]),
            decreases n - u,
        {
            if !is_utf8(words[u].as_slice()) {
                assert(!valid_utf8(ws[u as int]));
                assert(!all_utf8(ws));
                return Err(FormatError::BadWord);
            }
            u = u + 1;
        }
        let mut index: HashMap<u64, Vec<usize>> = HashMap::new();
        let mut i: usize = 0;
        while i < n
            invariant
                n == words@.len(),
                data@.len() == n * dims,
                ws == views(words@),
                all_utf8(ws),
                i <= n,
                forall|a: int, b: int| 0 <= a < i && 0 <= b < i && a != b ==> ws[a] != ws[b],
                forall|a: int| 0 <= a < i ==> #[trigger] ws[a].len() <= usize::MAX,
                index_sound(index@, ws, i as int),
                index_complete(index@, ws, i as int),
            decreases n - i,
        {
            let _len = words[i].len();
            let h = hash_bytes(words[i].as_slice());
            assert(h == fnv(ws[i as int]));
            let mut bucket: Vec<usize> = Vec::new();
            match index.get(&h) {
                Some(found) => {
                    let mut j: usize = 0;
                    while j < found.len()
                        invariant
                            n == words@.len(),
                            data@.len() == n * dims,
                            all_utf8(ws),
                            ws == views(words@),
                            i < n,
                            index@.contains_key(h),
                            index@[h] == *found,
                            h == fnv(ws[i as int]),
                            index_sound(index@, ws, i as int),
                            j <= found@.len(),
                            forall|m: int| 0 <= m < j ==> ws[#[trigger] found@[m] as int] != ws[i as int],
                        decreases found@.len() - j,
                    {
                        let a = found[j];
                        assert(index@[h]@[j as int] == a);
                        if bytes_eq(words[a].as_slice(), words[i].as_slice()) {
                            assert(ws[a as int] == ws[i as int]);
                            assert(!distinct(ws));
                            return Err(FormatError::DuplicateWord);
                        }
                        j = j + 1;
                    }
                    proof {
                        assert forall|a: int| 0 <= a < i implies ws[a] != ws[i as int] by {
                            if ws[a] == ws[i as int] {
                                assert(index@[fnv(ws[a])]@.contains(a as usize));
                                let m = choose|m: int| 0 <= m < found@.len() && found@[m] == a as usize;
                                assert(ws[found@[m] as int] != ws[i as int]);
                            }
                        }
                    }
                    bucket = copy_range(found.as_slice(), 0, found.len());
                },
                None => {
                    proof {
                        assert forall|a: int| 0 <= a < i implies ws[a] != ws[i as int] by {
                            if ws[a] == ws[i as int] {
                                assert(index@.contains_key(fnv(ws[a])));
                            }
                        }
                    }
                },
            }
            let ghost old_ix = index@;
            let ghost old_bucket = bucket@;
            assert(old_ix.contains_key(h) ==> old_bucket == old_ix[h]@);
            assert(!old_ix.contains_key(h) ==> old_bucket.len() == 0);
            bucket.push(i);
            index.insert(h, bucket);
            proof {
                let ix = index@;
                assert(ix == old_ix.insert(h, ix[h]));
                assert(ix[h]@ == old_bucket.push(i));
                assert forall|k: u64, j: int| ix.contains_key(k) && 0 <= j < ix[k]@.len()
                    implies ix[k]@[j] < i + 1 && fnv(ws[ix[k]@[j] as int]) == k by {
                    if k == h {
                        if j < old_bucket.len() {
                            assert(old_ix[h]@[j] == old_bucket[j]);
                        }
                    } else {
                        assert(old_ix[k]@[j] == ix[k]@[j]);
                    }
                }
                assert forall|a: int| 0 <= a < i + 1
                    implies #[trigger] ix.contains_key(fnv(ws[a])) && ix[fnv(ws[a])]@.contains(a as usize) by {
                    if a < i {
                        let k = fnv(ws[a]);
                        assert(old_ix[k]@.contains(a as usize));
                        if k == h {
                            let m = choose|m: int| 0 <= m < old_ix[k]@.len() && old_ix[k]@[m] == a as usize;
                            assert(ix[h]@[m] == a as usize);
                        }
                    } else {
                        assert(ix[h]@[old_bucket.len() as int] == i);
                        assert(fnv(ws[a]) == h);
                        assert(ix[h]@.contains(i as usize));
                    }
                }
                assert(index_complete(ix, ws, i + 1));
            }
            i = i + 1;
        }
        proof {
            assert forall|a: int, b: int| 0 <= a < ws.len() && 0 <= b < ws.len() && a != b implies ws[a] != ws[b] by {}
        }
        Ok(Store { words, dims, data, index })
    }

    /// The embedding width `D`.
    pub fn dims(&self) -> (r: usize)
        ensures
            r == self@.dims,
    {
        self.dims
    }

    /// The vocabulary size `N`.
    pub fn size(&self) -> (r: usize)
        ensures
            r == self@.words.len(),
    {
        self.words.len()
    }

    /// The word at index `i`.
    pub fn word(&self, i: usize) -> (r: &Vec<u8>)
        requires
            i < self@.words.len(),
        ensures
            r@ == self@.words[i as int],
    {
        &self.words[i]
    }

    /// The whole matrix, row after row.
    pub fn data(&self) -> (r: &Vec<u32>)
        ensures
            r@ == self@.data,
    {
        &self.data
    }

    /// The index of `w` in the vocabulary, if it is there, found through the
    /// hash index in expected constant time.
    pub fn index_of(&self, w: &[u8]) -> (r: Option<usize>)
        requires
            self.wf(),
        ensures
            match r {
                Some(i) => i < self@.words.len() && self@.words[i as int] == w@
                    && self@.words.index_of(w@) == i,
                None => !self@.words.contains(w@),
            },
    {
        let ghost ws = self@.words;
        let ghost n = ws.len() as int;
        let h = hash_bytes(w);
        match self.index.get(&h) {
            None => {
                proof {
                    if ws.contains(w@) {
                        let a = choose|a: int| 0 <= a < ws.len() && ws[a] == w@;
                        assert(self.index@.contains_key(fnv(ws[a])));
                    }
                }
                None
            },
            Some(found) => {
                let mut j: usize = 0;
                while j < found.len()
                    invariant
                        self.wf(),
                        ws == self@.words,
                        ws == views(self.words@),
                        n == ws.len(),
                        self.index_ok(),
                        self.index@.contains_key(h),
                        self.index@[h] == *found,
                        h == fnv(w@),
                        j <= found@.len(),
                        forall|m: int| 0 <= m < j ==> ws[#[trigger] found@[m] as int] != w@,
                    decreases found@.len() - j,
                {
                    let a = found[j];
                    assert(self.index@[h]@[j as int] == a);
                    if bytes_eq(self.words[a].as_slice(), w) {
                        proof {
                            assert(ws[a as int] == w@);
                            assert(ws.contains(w@));
                            let k = ws.index_of(w@);
                            assert(0 <= k < ws.len() && ws[k] == w@);
                            assert(k == a);
                        }
                        return Some(a);
                    }
                    j = j + 1;
                }
                proof {
                    if ws.contains(w@) {
                        let a = choose|a: int| 0 <= a < ws.len() && ws[a] == w@;
                        assert(self.index@[fnv(ws[a])]@.contains(a as usize));
                        let m = choose|m: int| 0 <= m < found@.len() && found@[m] == a as usize;
                        assert(ws[found@[m] as int] != w@);
                    }
                }
                None
            },
        }
    }

    /// The row of `w`, copied, or `None` when `w` is not in the vocabulary.
    /// Matching is exact: no normalisation is applied.
    pub fn lookup(&self, w: &[u8]) -> (r: Option<Vec<u32>>)
        requires
            self.wf(),
        ensures
            r matches Some(v) ==> self@.lookup(w@) == Some(v@),
            r is None ==> self@.lookup(w@) is None,
    {
        match self.index_of(w) {
            Some(i) => {
                let d = self.dims;
                let dl = self.data.len();
                proof {
                    lemma_row_bounds(i as int, self@.words.len() as int, d as int);
                    assert(self@.words.len() == self.words@.len());
                    assert(self.data@.len() == self@.words.len() * d);
                }
                Some(copy_range(self.data.as_slice(), i * d, i * d + d))
            },
            None => None,
        }
    }

    /// Looks up every word of `ws` in order: a found word gives its row, a
    /// missing one gives `D` zeros.
    pub fn batch(&self, ws: &Vec<Vec<u8>>) -> (r: Batch)
        requires
            self.wf(),
        ensures
            is_batch_of(self@, views(ws@), r),
    {
        let mut vectors: Vec<Vec<u32>> = Vec::new();
        let mut in_vocab: Vec<bool> = Vec::new();
        let mut j: usize = 0;
        while j < ws.len()
            invariant
                self.wf(),
                j <= ws@.len(),
                vectors@.len() == j,
                in_vocab@.len() == j,
                forall|k: int| 0 <= k < j ==> (#[trigger] vectors@[k])@ == self@.vector_of(ws@[k]@),
                forall|k: int| 0 <= k < j ==> #[trigger] in_vocab@[k] == self@.words.contains(ws@[k]@),
            decreases ws@.len() - j,
        {
            let ghost w = ws@[j as int]@;
            match self.lookup(ws[j].as_slice()) {
                Some(v) => {
                    vectors.push(v);
                    in_vocab.push(true);
                },
                None => {
                    let z = zeros(self.dims);
                    vectors.push(z);
                    in_vocab.push(false);
                },
            }
            assert(vectors@[j as int]@ == self@.vector_of(w));
            assert(in_vocab@[j as int] == self@.words.contains(w));
            j = j + 1;
        }
        Batch { vectors, in_vocab }
    }
}

/// A vector of `n` zeros.
pub fn zeros(n: usize) -> (r: Vec<u32>)
    ensures
        r@ == Seq::new(n as nat, |k: int| 0u32),
{
    let mut r: Vec<u32> = Vec::new();
    let mut i: usize = 0;
    while i < n
        invariant
            i <= n,
            r@ == Seq::new(i as nat, |k: int| 0u32),
        decreases n - i,
    {
        r.push(0);
        i = i + 1;
        assert(r@ =~= Seq::new(i as nat, |k: int| 0u32));
    }
    r
}

} // verus!
