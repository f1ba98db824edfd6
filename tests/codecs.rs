use fifu_store::fasttext::decode_fasttext;
use fifu_store::format::{format_for_path, Format};
use fifu_store::glove::{assemble_text, split_text};
use fifu_store::native::{decode_native, encode_native};
use fifu_store::store::{FormatError, Store};
use fifu_store::word2vec::decode_word2vec_binary;

fn floats(v: &[f32]) -> Vec<u8> {
    v.iter().flat_map(|x| x.to_le_bytes()).collect()
}

fn bits(v: &[f32]) -> Vec<u32> {
    v.iter().map(|x| x.to_bits()).collect()
}

fn w2v_sample() -> Vec<u8> {
    let mut b = b"2 2\n".to_vec();
    b.extend(b"cat ");
    b.extend(floats(&[1.0, 1.0]));
    b.push(b'\n');
    b.extend(b"dog ");
    b.extend(floats(&[2.0, -3.5]));
    b.push(b'\n');
    b
}

fn fasttext_sample(quant: u8, extra: usize) -> Vec<u8> {
    let mut b = Vec::new();
    b.extend(793712314u32.to_le_bytes());
    b.extend(12u32.to_le_bytes());
    // dim, ws, epoch, min_count, neg, word_ngrams, loss, model, bucket, minn, maxn, lr_update_rate
    for x in [2u32, 5, 5, 1, 5, 1, 2, 2, 1, 3, 6, 100] {
        b.extend(x.to_le_bytes());
    }
    b.extend(0.0001f64.to_le_bytes());
    b.extend(2u32.to_le_bytes()); // size
    b.extend(2u32.to_le_bytes()); // nwords
    b.extend(0u32.to_le_bytes()); // nlabels
    b.extend(10u64.to_le_bytes()); // ntokens
    b.extend((-1i64).to_le_bytes()); // pruneidx_size
    for w in ["cat", "dog"] {
        b.extend(w.as_bytes());
        b.push(0);
        b.extend(5u64.to_le_bytes());
        b.push(0);
    }
    b.push(quant);
    b.extend(3u64.to_le_bytes()); // rows: two words and one bucket
    b.extend(2u64.to_le_bytes()); // cols
    b.extend(floats(&[1.0, 1.0, 2.0, 3.0, 9.0, 9.0]));
    b.extend(std::iter::repeat(0u8).take(extra));
    b
}

fn same_store(a: &Store, b: &Store) {
    assert_eq!(a.size(), b.size());
    assert_eq!(a.dims(), b.dims());
    for i in 0..a.size() {
        assert_eq!(a.word(i), b.word(i));
    }
    assert_eq!(a.data(), b.data());
}

#[test]
fn word2vec_decodes_records() {
    let s = decode_word2vec_binary(&w2v_sample()).unwrap();
    assert_eq!(s.size(), 2);
    assert_eq!(s.dims(), 2);
    assert_eq!(s.word(1), &b"dog".to_vec());
    assert_eq!(s.lookup(b"dog"), Some(bits(&[2.0, -3.5])));
}

#[test]
fn word2vec_malformed_header_is_refused() {
    for head in [&b"2x 2\n"[..], b"2\n", b"two two\n", b"2 2 2\n", b"2 2"] {
        let mut b = head.to_vec();
        b.extend(&w2v_sample()[4..]);
        assert!(matches!(decode_word2vec_binary(&b), Err(FormatError::BadHeader)));
    }
}

#[test]
fn word2vec_truncated_record_is_refused() {
    let b = w2v_sample();
    assert!(matches!(decode_word2vec_binary(&b[..b.len() - 3]), Err(FormatError::Truncated)));
}

#[test]
fn word2vec_trailing_bytes_are_refused() {
    let mut b = w2v_sample();
    b.extend(b"xyz");
    assert!(matches!(decode_word2vec_binary(&b), Err(FormatError::TrailingBytes)));
}

#[test]
fn word2vec_duplicate_word_is_refused() {
    let mut b = b"2 1\n".to_vec();
    b.extend(b"cat ");
    b.extend(floats(&[1.0]));
    b.extend(b"\ncat ");
    b.extend(floats(&[2.0]));
    assert!(matches!(decode_word2vec_binary(&b), Err(FormatError::DuplicateWord)));
}

#[test]
fn word2vec_huge_header_is_refused() {
    let b = b"99999999999999999999999 2\n".to_vec();
    assert!(matches!(decode_word2vec_binary(&b), Err(FormatError::TooLarge)));
}

#[test]
fn fasttext_keeps_word_rows() {
    let s = decode_fasttext(&fasttext_sample(0, 0)).unwrap();
    assert_eq!(s.size(), 2);
    assert_eq!(s.dims(), 2);
    assert_eq!(s.lookup(b"cat"), Some(bits(&[1.0, 1.0])));
    assert_eq!(s.lookup(b"dog"), Some(bits(&[2.0, 3.0])));
    assert_eq!(s.data().len(), 4);
}

#[test]
fn fasttext_bad_magic_is_refused() {
    let mut b = fasttext_sample(0, 0);
    b[0] = 0;
    assert!(matches!(decode_fasttext(&b), Err(FormatError::BadHeader)));
    let mut v = fasttext_sample(0, 0);
    v[4] = 11;
    assert!(matches!(decode_fasttext(&v), Err(FormatError::BadHeader)));
}

#[test]
fn fasttext_quantized_is_refused() {
    assert!(matches!(decode_fasttext(&fasttext_sample(1, 0)), Err(FormatError::BadHeader)));
}

#[test]
fn fasttext_matrix_size_must_match() {
    let b = fasttext_sample(0, 0);
    assert!(matches!(decode_fasttext(&b[..b.len() - 1]), Err(FormatError::Truncated)));
    assert!(matches!(decode_fasttext(&fasttext_sample(0, 4)), Err(FormatError::TrailingBytes)));
    assert!(matches!(decode_fasttext(&b[..50]), Err(FormatError::Truncated)));
}

#[test]
fn text_table_splits_lines() {
    let t = split_text(b"cat 1.0 1.0\n\n dog\t2  -3.5\r\n").unwrap();
    assert_eq!(t.words, vec![b"cat".to_vec(), b"dog".to_vec()]);
    assert_eq!(t.dims, 2);
    let toks: Vec<&[u8]> = t.values.iter().map(|v| v.as_slice()).collect();
    assert_eq!(toks, vec![&b"1.0"[..], b"1.0", b"2", b"-3.5"]);
    let parsed: Vec<Option<u32>> = t
        .values
        .iter()
        .map(|v| std::str::from_utf8(v).unwrap().parse::<f32>().ok().map(|x| x.to_bits()))
        .collect();
    let s = assemble_text(t, &parsed).unwrap();
    assert_eq!(s.lookup(b"dog"), Some(bits(&[2.0, -3.5])));
}

#[test]
fn text_ragged_line_is_refused() {
    assert!(matches!(split_text(b"cat 1 1\ndog 2\n"), Err(FormatError::RaggedLine)));
}

#[test]
fn text_bad_number_is_refused() {
    let t = split_text(b"cat 1 x\n").unwrap();
    let r = assemble_text(t, &vec![Some(1.0f32.to_bits()), None]);
    assert!(matches!(r, Err(FormatError::BadNumber)));
}

#[test]
fn text_empty_input_gives_empty_table() {
    let t = split_text(b"\n\n").unwrap();
    assert!(t.words.is_empty());
    assert_eq!(t.dims, 0);
}

#[test]
fn native_round_trip_from_word2vec() {
    let s = decode_word2vec_binary(&w2v_sample()).unwrap();
    let bytes = encode_native(&s);
    assert_eq!(&bytes[..4], b"FFST");
    let t = decode_native(&bytes).unwrap();
    same_store(&s, &t);
}

#[test]
fn native_round_trip_from_fasttext_and_text() {
    let s = decode_fasttext(&fasttext_sample(0, 0)).unwrap();
    same_store(&s, &decode_native(&encode_native(&s)).unwrap());
    let t = split_text(b"a 1 2\nb 3 4\n").unwrap();
    let parsed = vec![Some(1.0f32.to_bits()), Some(2.0f32.to_bits()), Some(3.0f32.to_bits()), Some(f32::NAN.to_bits())];
    let g = assemble_text(t, &parsed).unwrap();
    same_store(&g, &decode_native(&encode_native(&g)).unwrap());
}

#[test]
fn native_errors() {
    let s = decode_word2vec_binary(&w2v_sample()).unwrap();
    let bytes = encode_native(&s);
    assert!(matches!(decode_native(&bytes[..10]), Err(FormatError::Truncated)));
    assert!(matches!(decode_native(&bytes[..bytes.len() - 1]), Err(FormatError::Truncated)));
    let mut bad = bytes.clone();
    bad[0] = b'X';
    assert!(matches!(decode_native(&bad), Err(FormatError::BadHeader)));
    let mut long = bytes.clone();
    long.push(0);
    assert!(matches!(decode_native(&long), Err(FormatError::TrailingBytes)));
}

#[test]
fn extension_dispatch() {
    assert_eq!(format_for_path("model.bin"), Format::FastText);
    assert_eq!(format_for_path("model.vec"), Format::Word2VecBinary);
    assert_eq!(format_for_path("model.txt"), Format::Text);
    assert_eq!(format_for_path("model"), Format::Text);
    assert_eq!(format_for_path("dir/model.bin"), Format::FastText);
    assert_eq!(format_for_path("dir.bin/model"), Format::Text);
    assert_eq!(format_for_path(".bin"), Format::Text);
    assert_eq!(format_for_path("model.tar.vec"), Format::Word2VecBinary);
    assert_eq!(format_for_path("model.BIN"), Format::Text);
}

#[test]
fn word2vec_invalid_utf8_word_is_refused() {
    let mut b = b"1 1\n".to_vec();
    b.extend([0xc3, 0x28, b' ']);
    b.extend(floats(&[1.0]));
    assert!(matches!(decode_word2vec_binary(&b), Err(FormatError::BadWord)));
}
