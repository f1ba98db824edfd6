//! Choice of decoder from a file name.
//!
//! The choice is made from the extension alone; the content is never
//! inspected, so a misnamed file reaches the wrong decoder.
use vstd::prelude::*;
use vstd::string::StringSliceAdditionalSpecFns;

verus! {

/// The input layouts that can be decoded.
#[derive(Debug, Clone, Copy, PartialEq, Eq, Structural)]
pub enum Format {
    FastText,
    Word2VecBinary,
    Text,
}

/// The index of the last `c` in `b[..e]`, or -1.
pub open spec fn rfind(b: Seq<u8>, e: int, c: u8) -> int
    decreases e,
{
    if e <= 0 {
        -1
    } else if b[e - 1] == c {
        e - 1
    } else {
        rfind(b, e - 1, c)
    }
}

/// The extension of the last `/`-separated segment of `path`: what follows
/// its last `.`, when that dot is not the segment's first byte.
pub open spec fn extension(path: Seq<u8>) -> Option<Seq<u8>> {
    let start = rfind(path, path.len() as int, 0x2fu8) + 1;
    let dot = rfind(path, path.len() as int, 0x2eu8);
    if dot > start {
        Some(path.subrange(dot + 1, path.len() as int))
    } else {
        None
    }
}

/// `.bin` is fastText, `.vec` is binary word2vec, anything else is text.
pub open spec fn format_of(path: Seq<u8>) -> Format {
    if extension(path) == Some(seq![0x62u8, 0x69u8, 0x6eu8]) {
        Format::FastText
    } else if extension(path) == Some(seq![0x76u8, 0x65u8, 0x63u8]) {
        Format::Word2VecBinary
    } else {
        Format::Text
    }
}

fn last_index(b: &[u8], c: u8) -> (r: Option<usize>)
    ensures
        match r {
            Some(i) => i == rfind(b@, b@.len() as int, c) && i < b@.len(),
            None => rfind(b@, b@.len() as int, c) == -1,
        },
{
    let mut e = b.len();
    while e > 0
        invariant
            e <= b@.len(),
            rfind(b@, b@.len() as int, c) == rfind(b@, e as int, c),
        decreases e,
    {
        if b[e - 1] == c {
            return Some(e - 1);
        }
        e = e - 1;
    }
    None
}

/// The decoder for the file at `path`, chosen by its extension.
pub fn format_for_path(path: &str) -> (r: Format)
    ensures
        r == format_of(path.spec_bytes()),
{
    let b = path.as_bytes();
    let len = b.len();
    let start: usize = match last_index(b, 0x2f) {
        Some(i) => i + 1,
        None => 0,
    };
    let ext_start: Option<usize> = match last_index(b, 0x2e) {
        Some(dot) => if dot > start { Some(dot + 1) } else { None },
        None => None,
    };
    match ext_start {
        Some(p) => {
            let ghost ext = b@.subrange(p as int, len as int);
            if len - p == 3 {
                let (c0, c1, c2) = (b[p], b[p + 1], b[p + 2]);
                if c0 == 0x62 && c1 == 0x69 && c2 == 0x6e {
                    assert(ext =~= seq![0x62u8, 0x69u8, 0x6eu8]);
                    return Format::FastText;
                }
                if c0 == 0x76 && c1 == 0x65 && c2 == 0x63 {
                    assert(ext =~= seq![0x76u8, 0x65u8, 0x63u8]);
                    assert(ext != seq![0x62u8, 0x69u8, 0x6eu8]) by {
                        assert(ext[0] != 0x62u8);
                    }
                    return Format::Word2VecBinary;
                }
                assert(ext != seq![0x62u8, 0x69u8, 0x6eu8]) by {
                    if ext == seq![0x62u8, 0x69u8, 0x6eu8] {
                        assert(ext[0] == 0x62u8 && ext[1] == 0x69u8 && ext[2] == 0x6eu8);
                    }
                }
                assert(ext != seq![0x76u8, 0x65u8, 0x63u8]) by {
                    if ext == seq![0x76u8, 0x65u8, 0x63u8] {
                        assert(ext[0] == 0x76u8 && ext[1] == 0x65u8 && ext[2] == 0x63u8);
                    }
                }
            } else {
                assert(ext.len() != 3);
                assert(seq![0x62u8, 0x69u8, 0x6eu8].len() == 3);
                assert(seq![0x76u8, 0x65u8, 0x63u8].len() == 3);
            }
            Format::Text
        },
        None => Format::Text,
    }
}

} // verus!
