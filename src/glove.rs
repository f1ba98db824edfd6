//! The plain-text layout: one word per line followed by its values, fields
//! separated by blanks.
//!
//! Reading a decimal value into a 32-bit float is left to the caller: this
//! module splits the text into words and value tokens, checks that every
//! line has the same width, and assembles the store from the values the
//! caller read.
use vstd::prelude::*;
use crate::bytes::clone_bytes;
use crate::scan::is_blank;
use crate::store::{views, FormatError, Store, StoreModel};

verus! {

/// Whether the last byte of `b` extends a field begun by the byte before.
pub open spec fn continues_field(b: Seq<u8>) -> bool {
    b.len() >= 2 && !is_blank(b[b.len() - 2]) && b[b.len() - 2] != 0x0au8
}

/// The lines of `b` (split at `\n`), each as its runs of non-blank bytes.
pub open spec fn text_rows(b: Seq<u8>) -> Seq<Seq<Seq<u8>>>
    decreases b.len(),
{
    if b.len() == 0 {
        seq![Seq::empty()]
    } else {
        let r = text_rows(b.drop_last());
        let c = b.last();
        if c == 0x0au8 {
            r.push(Seq::empty())
        } else if is_blank(c) {
            r
        } else if continues_field(b) {
            let row = r.last();
            r.update(r.len() - 1, row.update(row.len() - 1, row.last().push(c)))
        } else {
            r.update(r.len() - 1, r.last().push(seq![c]))
        }
    }
}

/// Words, width of the first non-empty line, and value tokens of `rows`,
/// skipping empty lines; a non-empty line whose width differs from the
/// first one's is an error.
pub open spec fn table_of(rows: Seq<Seq<Seq<u8>>>) -> Result<(Seq<Seq<u8>>, Option<nat>, Seq<Seq<u8>>), FormatError>
    decreases rows.len(),
{
    if rows.len() == 0 {
        Ok((Seq::empty(), None, Seq::empty()))
    } else {
        match table_of(rows.drop_last()) {
            Err(e) => Err(e),
            Ok((ws, width, vs)) => {
                let r = rows.last();
                if r.len() == 0 {
                    Ok((ws, width, vs))
                } else if width is Some && width->0 != r.len() {
                    Err(FormatError::RaggedLine)
                } else {
                    Ok((ws.push(r[0]), Some(r.len()), vs + r.drop_first()))
                }
            },
        }
    }
}

/// A text table: its words, its width `D`, and its `N * D` value tokens,
/// row after row.
pub struct TextTable {
    pub words: Vec<Vec<u8>>,
    pub dims: usize,
    pub values: Vec<Vec<u8>>,
}

/// The view of a list of lists of byte vectors.
pub open spec fn views2(v: Seq<Vec<Vec<u8>>>) -> Seq<Seq<Seq<u8>>> {
    v.map_values(|x: Vec<Vec<u8>>| views(x@))
}

/// What splitting the text `b` gives.
pub open spec fn parse_table(b: Seq<u8>) -> Result<(Seq<Seq<u8>>, nat, Seq<Seq<u8>>), FormatError> {
    match table_of(text_rows(b)) {
        Err(e) => Err(e),
        Ok((ws, width, vs)) => Ok((ws, if width is Some { (width->0 - 1) as nat } else { 0 }, vs)),
    }
}

/// Splits `b` into lines and the lines into fields.
pub fn split_rows(b: &[u8]) -> (r: Vec<Vec<Vec<u8>>>)
    ensures
        views2(r@) == text_rows(b@),
{
    let mut rows: Vec<Vec<Vec<u8>>> = Vec::new();
    let mut row: Vec<Vec<u8>> = Vec::new();
    let mut cur: Vec<u8> = Vec::new();
    let mut in_field = false;
    let mut i: usize = 0;
    proof {
        assert(b@.subrange(0, 0) =~= Seq::<u8>::empty());
        assert(views(row@) =~= Seq::<Seq<u8>>::empty());
        assert(views2(rows@) =~= Seq::<Seq<Seq<u8>>>::empty());
        assert(views2(rows@).push(views(row@)) =~= seq![Seq::<Seq<u8>>::empty()]);
    }
    while i < b.len()
        invariant
            i <= b@.len(),
            text_rows(b@.subrange(0, i as int)) == views2(rows@).push(
                if in_field { views(row@).push(cur@) } else { views(row@) },
            ),
            in_field == (i > 0 && !is_blank(b@[i - 1]) && b@[i - 1] != 0x0au8),
        decreases b@.len() - i,
    {
        let c = b[i];
        let ghost pre = b@.subrange(0, i as int);
        let ghost next = b@.subrange(0, i + 1);
        assert(next.drop_last() =~= pre);
        assert(next.last() == c);
        let ghost r = text_rows(pre);
        assert(continues_field(next) == in_field);
        if c == 0x0a {
            if in_field {
                proof { assert(views(row@.push(cur)) =~= views(row@).push(cur@)); }
                row.push(cur);
                cur = Vec::new();
            }
            proof { assert(views2(rows@.push(row)) =~= views2(rows@).push(views(row@))); }
            rows.push(row);
            row = Vec::new();
            in_field = false;
            proof {
                assert(views(row@) =~= Seq::<Seq<u8>>::empty());
                assert(text_rows(next) =~= views2(rows@).push(views(row@)));
            }
        } else if c == 0x20 || c == 0x09 || c == 0x0d {
            if in_field {
                proof { assert(views(row@.push(cur)) =~= views(row@).push(cur@)); }
                row.push(cur);
                cur = Vec::new();
            }
            in_field = false;
            proof {
                assert(text_rows(next) =~= views2(rows@).push(views(row@)));
            }
        } else if in_field {
            let ghost old_cur = cur@;
            cur.push(c);
            proof {
                let row_s = r.last();
                assert(row_s == views(row@).push(old_cur));
                assert(row_s.update(row_s.len() - 1, row_s.last().push(c)) =~= views(row@).push(cur@));
                assert(text_rows(next) =~= views2(rows@).push(views(row@).push(cur@)));
            }
        } else {
            cur = Vec::new();
            cur.push(c);
            in_field = true;
            proof {
                assert(cur@ =~= seq![c]);
                assert(text_rows(next) =~= views2(rows@).push(views(row@).push(cur@)));
            }
        }
        i = i + 1;
    }
    if in_field {
        proof { assert(views(row@.push(cur)) =~= views(row@).push(cur@)); }
        row.push(cur);
    }
    proof { assert(views2(rows@.push(row)) =~= views2(rows@).push(views(row@))); }
    rows.push(row);
    assert(b@.subrange(0, i as int) =~= b@);
    rows
}

/// Once a prefix of the rows is refused, the whole is refused alike.
proof fn lemma_table_err(rows: Seq<Seq<Seq<u8>>>, i: int, k: int)
    requires
        0 <= i <= k <= rows.len(),
        table_of(rows.subrange(0, i)) is Err,
    ensures
        table_of(rows.subrange(0, k)) == table_of(rows.subrange(0, i)),
    decreases k - i,
{
    if k > i {
        lemma_table_err(rows, i, k - 1);
        assert(rows.subrange(0, k).drop_last() =~= rows.subrange(0, k - 1));
    }
}

/// Splits the text `b` into words and value tokens; fails when a non-empty
/// line does not have as many fields as the first one.
pub fn split_text(b: &[u8]) -> (r: Result<TextTable, FormatError>)
    ensures
        match r {
            Ok(t) => t.values@.len() == t.words@.len() * t.dims && parse_table(b@) == Ok::<(Seq<Seq<u8>>, nat, Seq<Seq<u8>>), FormatError>(
                (views(t.words@), t.dims as nat, views(t.values@)),
            ),
            Err(e) => parse_table(b@) == Err::<(Seq<Seq<u8>>, nat, Seq<Seq<u8>>), FormatError>(e),
        },
{
    let rows = split_rows(b);
    let ghost all = views2(rows@);
    let mut words: Vec<Vec<u8>> = Vec::new();
    let mut values: Vec<Vec<u8>> = Vec::new();
    let mut width: Option<usize> = None;
    let mut i: usize = 0;
    proof {
        assert(all.subrange(0, 0) =~= Seq::<Seq<Seq<u8>>>::empty());
        assert(views(words@) =~= Seq::<Seq<u8>>::empty());
        assert(views(values@) =~= Seq::<Seq<u8>>::empty());
    }
    while i < rows.len()
        invariant
            all == views2(rows@),
            all == text_rows(b@),
            i <= all.len(),
            table_of(all.subrange(0, i as int)) == Ok::<(Seq<Seq<u8>>, Option<nat>, Seq<Seq<u8>>), FormatError>(
                (views(words@), match width { Some(w) => Some(w as nat), None => None }, views(values@)),
            ),
            width matches Some(w) ==> w >= 1,
            match width {
                Some(w) => values@.len() == words@.len() * (w - 1),
                None => words@.len() == 0 && values@.len() == 0,
            },
        decreases all.len() - i,
    {
        let row = &rows[i];
        let ghost sub = all.subrange(0, i + 1);
        assert(sub.drop_last() =~= all.subrange(0, i as int));
        assert(sub.last() == views(row@));
        let n = row.len();
        if n > 0 {
            match width {
                Some(w) => {
                    if w != n {
                        proof { lemma_table_err(all, i + 1, all.len() as int); }
                        assert(all.subrange(0, all.len() as int) =~= all);
                        return Err(FormatError::RaggedLine);
                    }
                },
                None => {},
            }
            let w0 = clone_bytes(&row[0]);
            proof { assert(views(words@.push(w0)) =~= views(words@).push(w0@)); }
            words.push(w0);
            let ghost before = views(values@);
            let ghost before_len = values@.len();
            let mut j: usize = 1;
            while j < n
                invariant
                    n == row@.len(),
                    1 <= j <= n,
                    views(values@) == before + views(row@).subrange(1, j as int),
                    values@.len() == before_len + (j - 1),
                    before.len() == before_len,
                decreases n - j,
            {
                let v = clone_bytes(&row[j]);
                proof {
                    assert(views(values@.push(v)) =~= views(values@).push(v@));
                    assert(views(row@).subrange(1, j + 1) =~= views(row@).subrange(1, j as int).push(v@));
                }
                values.push(v);
                j = j + 1;
            }
            assert(views(row@).subrange(1, n as int) =~= views(row@).drop_first());
            proof {
                let k = words@.len() - 1;
                assert(k * (n - 1) + (n - 1) == (k + 1) * (n - 1)) by (nonlinear_arith);
            }
            width = Some(n);
        }
        i = i + 1;
    }
    assert(all.subrange(0, i as int) =~= all);
    let dims: usize = match width {
        Some(w) => w - 1,
        None => 0,
    };
    Ok(TextTable { words, dims, values })
}

/// Whether every value token was read.
pub open spec fn all_read(parsed: Seq<Option<u32>>) -> bool {
    forall|k: int| 0 <= k < parsed.len() ==> #[trigger] parsed[k] is Some
}

/// Builds the store of a text table from the values read from its tokens,
/// `None` standing for a token that is not a number.
pub fn assemble_text(table: TextTable, parsed: &Vec<Option<u32>>) -> (r: Result<Store, FormatError>)
    requires
        parsed@.len() == table.values@.len(),
        table.values@.len() == table.words@.len() * table.dims,
    ensures
        match r {
            Ok(s) => s.wf() && all_read(parsed@) && s@ == (StoreModel {
                words: views(table.words@),
                dims: table.dims as nat,
                data: parsed@.map_values(|x: Option<u32>| x->0),
            }),
            Err(e) => {
                ||| (!all_read(parsed@) && e == FormatError::BadNumber)
                ||| (all_read(parsed@) && !crate::store::all_utf8(views(table.words@))
                    && e == FormatError::BadWord)
                ||| (all_read(parsed@) && crate::store::all_utf8(views(table.words@))
                    && !crate::store::distinct(views(table.words@)) && e == FormatError::DuplicateWord)
            },
        },
{
    let mut data: Vec<u32> = Vec::new();
    let mut k: usize = 0;
    while k < parsed.len()
        invariant
            k <= parsed@.len(),
            forall|m: int| 0 <= m < k ==> #[trigger] parsed@[m] is Some,
            data@ == parsed@.subrange(0, k as int).map_values(|x: Option<u32>| x->0),
        decreases parsed@.len() - k,
    {
        match parsed[k] {
            Some(x) => {
                data.push(x);
            },
            None => {
                return Err(FormatError::BadNumber);
            },
        }
        k = k + 1;
        assert(data@ =~= parsed@.subrange(0, k as int).map_values(|x: Option<u32>| x->0));
    }
    assert(parsed@.subrange(0, k as int) =~= parsed@);
    Store::from_parts(table.words, table.dims, data)
}

} // verus!
