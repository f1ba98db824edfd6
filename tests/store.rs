use fifu_store::store::{hash_bytes, zeros, FormatError, Store};
use fifu_store::text::embed_text;

fn bits(v: &[f32]) -> Vec<u32> {
    v.iter().map(|x| x.to_bits()).collect()
}

fn words(ws: &[&str]) -> Vec<Vec<u8>> {
    ws.iter().map(|w| w.as_bytes().to_vec()).collect()
}

fn sample() -> Store {
    let mut data = bits(&[1.0, 1.0]);
    data.extend(bits(&[2.0, 3.0]));
    Store::from_parts(words(&["cat", "dog"]), 2, data).unwrap()
}

#[test]
fn lookup_returns_exact_row() {
    let s = sample();
    assert_eq!(s.size(), 2);
    assert_eq!(s.dims(), 2);
    assert_eq!(s.lookup(b"dog"), Some(bits(&[2.0, 3.0])));
    assert_eq!(s.lookup(b"cat"), Some(bits(&[1.0, 1.0])));
    assert_eq!(s.index_of(b"dog"), Some(1));
}

#[test]
fn lookup_is_exact_match_only() {
    let s = sample();
    assert_eq!(s.lookup(b"cow"), None);
    assert_eq!(s.lookup(b"Cat"), None);
    assert_eq!(s.lookup(b"ca"), None);
    assert_eq!(s.lookup(b""), None);
}

#[test]
fn batch_keeps_length_and_order() {
    let s = sample();
    let b = s.batch(&words(&["dog", "bird", "cat", "dog"]));
    assert_eq!(b.vectors.len(), 4);
    assert_eq!(b.vectors[0], bits(&[2.0, 3.0]));
    assert_eq!(b.vectors[1], bits(&[0.0, 0.0]));
    assert_eq!(b.vectors[2], bits(&[1.0, 1.0]));
    assert_eq!(b.vectors[3], bits(&[2.0, 3.0]));
    assert_eq!(b.in_vocab, vec![true, false, true, true]);
}

#[test]
fn oov_word_gets_zero_vector() {
    let s = Store::from_parts(words(&["cat"]), 2, bits(&[1.0, 1.0])).unwrap();
    let b = s.batch(&words(&["cat", "xyzzy"]));
    assert_eq!(b.vectors, vec![bits(&[1.0, 1.0]), bits(&[0.0, 0.0])]);
    assert_eq!(b.in_vocab, vec![true, false]);
}

#[test]
fn empty_batch_is_empty() {
    let s = sample();
    let b = s.batch(&Vec::new());
    assert!(b.vectors.is_empty());
    assert!(b.in_vocab.is_empty());
}

#[test]
fn zeros_has_requested_length() {
    assert_eq!(zeros(3), vec![0, 0, 0]);
    assert!(zeros(0).is_empty());
}

#[test]
fn from_parts_rejects_wrong_shape() {
    let r = Store::from_parts(words(&["cat", "dog"]), 2, bits(&[1.0, 1.0, 2.0]));
    assert!(matches!(r, Err(FormatError::BadShape)));
}

#[test]
fn from_parts_rejects_duplicate_word() {
    let r = Store::from_parts(words(&["cat", "cat"]), 1, bits(&[1.0, 2.0]));
    assert!(matches!(r, Err(FormatError::DuplicateWord)));
}

#[test]
fn embed_text_segments_and_looks_up() {
    let s = sample();
    let (ws, b) = embed_text(&s, "The cat, the dog!");
    assert_eq!(ws, words(&["The", "cat", "the", "dog"]));
    assert_eq!(b.vectors.len(), 4);
    assert_eq!(b.vectors[0], bits(&[0.0, 0.0]));
    assert_eq!(b.vectors[1], bits(&[1.0, 1.0]));
    assert_eq!(b.vectors[3], bits(&[2.0, 3.0]));
    assert_eq!(b.in_vocab, vec![false, true, false, true]);
}

#[test]
fn embed_text_of_empty_text_is_empty() {
    let s = sample();
    let (ws, b) = embed_text(&s, "");
    assert!(ws.is_empty());
    assert!(b.vectors.is_empty());
    let (ws2, b2) = embed_text(&s, " ,;! ");
    assert!(ws2.is_empty());
    assert!(b2.vectors.is_empty());
}

#[test]
fn from_parts_rejects_invalid_utf8_word() {
    let r = Store::from_parts(vec![vec![0x63, 0xff]], 1, bits(&[1.0]));
    assert!(matches!(r, Err(FormatError::BadWord)));
    let ok = Store::from_parts(words(&["caf\u{e9}", "\u{1F600}"]), 1, bits(&[1.0, 2.0])).unwrap();
    assert_eq!(ok.lookup("caf\u{e9}".as_bytes()), Some(bits(&[1.0])));
}

#[test]
fn hash_is_fnv1a() {
    assert_eq!(hash_bytes(b""), 0xcbf2_9ce4_8422_2325);
    assert_eq!(hash_bytes(b"a"), 0xaf63_dc4c_8601_ec8c);
    assert_eq!(hash_bytes(b"foobar"), 0x8594_4171_f739_67e8);
}

#[test]
fn large_vocabulary_lookup() {
    let n = 5000usize;
    let ws: Vec<Vec<u8>> = (0..n).map(|i| format!("w{}", i).into_bytes()).collect();
    let data: Vec<u32> = (0..n as u32).collect();
    let s = Store::from_parts(ws, 1, data).unwrap();
    for i in (0..n).step_by(97) {
        assert_eq!(s.lookup(format!("w{}", i).as_bytes()), Some(vec![i as u32]));
    }
    assert_eq!(s.lookup(b"w5000"), None);
    let mut dup: Vec<Vec<u8>> = (0..n).map(|i| format!("w{}", i).into_bytes()).collect();
    dup.push(b"w4321".to_vec());
    let r = Store::from_parts(dup, 0, Vec::new());
    assert!(matches!(r, Err(FormatError::DuplicateWord)));
}
