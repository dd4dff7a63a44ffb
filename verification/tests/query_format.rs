use ypir_wasm::layout::NttLayout;
use ypir_wasm::query::{decode_query, deserialize_query, serialize_query, PubParamMatrix};

fn sample_layout() -> NttLayout {
    NttLayout { poly_len: 2, crt_count: 2 }
}

fn sample_pub_params() -> Vec<PubParamMatrix> {
    vec![
        PubParamMatrix { rows: 1, cols: 1, data: vec![9, 10, 11, 12] },
        PubParamMatrix { rows: 1, cols: 2, data: vec![1, 2, 3, 4, 5, 6, 7, u64::MAX] },
    ]
}

fn assert_same_params(a: &[PubParamMatrix], b: &[PubParamMatrix]) {
    assert_eq!(a.len(), b.len());
    for (x, y) in a.iter().zip(b.iter()) {
        assert_eq!(x.rows, y.rows);
        assert_eq!(x.cols, y.cols);
        assert_eq!(x.data, y.data);
    }
}

#[test]
fn serialize_query_exact_bytes() {
    let packed = vec![1u64, 0x0102_0304_0506_0708];
    let pps = vec![PubParamMatrix { rows: 1, cols: 3, data: vec![9, 10] }];
    let bytes = serialize_query(&packed, &pps);
    let mut expected: Vec<u8> = vec![2, 0, 0, 0];
    expected.extend_from_slice(&[1, 0, 0, 0, 0, 0, 0, 0]);
    expected.extend_from_slice(&[8, 7, 6, 5, 4, 3, 2, 1]);
    expected.extend_from_slice(&[1, 0, 0, 0]);
    expected.extend_from_slice(&[1, 0, 0, 0, 3, 0, 0, 0, 2, 0, 0, 0]);
    expected.extend_from_slice(&[9, 0, 0, 0, 0, 0, 0, 0]);
    expected.extend_from_slice(&[10, 0, 0, 0, 0, 0, 0, 0]);
    assert_eq!(bytes, expected);
}

#[test]
fn serialize_empty_query() {
    let bytes = serialize_query(&[], &[]);
    assert_eq!(bytes, vec![0, 0, 0, 0, 0, 0, 0, 0]);
    let (packed, pps) = deserialize_query(&sample_layout(), &bytes);
    assert!(packed.is_empty());
    assert!(pps.is_empty());
}

#[test]
fn query_size_matches_format() {
    let packed: Vec<u64> = (0..5).collect();
    let pps = sample_pub_params();
    let bytes = serialize_query(&packed, &pps);
    assert_eq!(bytes.len(), 4 + 8 * 5 + 4 + (12 + 8 * 4) + (12 + 8 * 8));
}

#[test]
fn deserialize_inverts_serialize() {
    let packed = vec![7u64, 0, u64::MAX, 0xdead_beef];
    let pps = sample_pub_params();
    let bytes = serialize_query(&packed, &pps);
    let (packed2, pps2) = deserialize_query(&sample_layout(), &bytes);
    assert_eq!(packed2, packed);
    assert_same_params(&pps2, &pps);
}

#[test]
fn deserialize_ignores_trailing_bytes() {
    let packed = vec![42u64];
    let pps = sample_pub_params();
    let mut bytes = serialize_query(&packed, &pps);
    bytes.extend_from_slice(&[0xff, 0xee, 0xdd]);
    let (packed2, pps2) = deserialize_query(&sample_layout(), &bytes);
    assert_eq!(packed2, packed);
    assert_same_params(&pps2, &pps);
}

#[test]
fn decode_rejects_truncated_bytes() {
    let packed = vec![1u64, 2, 3];
    let pps = sample_pub_params();
    let bytes = serialize_query(&packed, &pps);
    for cut in 0..bytes.len() {
        assert!(decode_query(&sample_layout(), &bytes[..cut]).is_none(), "cut at {}", cut);
    }
    assert!(decode_query(&sample_layout(), &bytes).is_some());
}

#[test]
fn decode_rejects_word_count_of_other_shape() {
    let packed = vec![1u64];
    let pps = vec![PubParamMatrix { rows: 2, cols: 1, data: vec![1, 2, 3, 4] }];
    let bytes = serialize_query(&packed, &pps);
    assert!(decode_query(&sample_layout(), &bytes).is_none());
    let wider = NttLayout { poly_len: 1, crt_count: 2 };
    let (p, q) = decode_query(&wider, &bytes).unwrap();
    assert_eq!(p, packed);
    assert_same_params(&q, &pps);
}

#[test]
fn decode_rejects_overflowing_shape() {
    let mut bytes: Vec<u8> = vec![0, 0, 0, 0, 1, 0, 0, 0];
    bytes.extend_from_slice(&[0xff, 0xff, 0xff, 0xff, 0xff, 0xff, 0xff, 0xff, 0, 0, 0, 0]);
    let huge = NttLayout { poly_len: usize::MAX, crt_count: 2 };
    assert!(decode_query(&huge, &bytes).is_none());
}

#[test]
fn decode_of_empty_input_is_none() {
    assert!(decode_query(&sample_layout(), &[]).is_none());
}

#[test]
fn ntt_words_counts() {
    let layout = NttLayout { poly_len: 2048, crt_count: 2 };
    assert_eq!(layout.ntt_words(1, 3), Some(12288));
    assert_eq!(layout.ntt_words(0, 3), Some(0));
    assert_eq!(layout.ntt_words(usize::MAX, 2), None);
}

#[test]
fn query_layout_depends_only_on_shape() {
    let q1 = serialize_query(&[1, 2, 3], &sample_pub_params());
    let other = vec![
        PubParamMatrix { rows: 1, cols: 1, data: vec![0xaa; 4] },
        PubParamMatrix { rows: 1, cols: 2, data: vec![0x55; 8] },
    ];
    let q2 = serialize_query(&[9, 8, 7], &other);
    assert_eq!(q1.len(), q2.len());
    assert_eq!(q1[0..4], q2[0..4]);
    let n = 3;
    assert_eq!(q1[4 + 8 * n..8 + 8 * n], q2[4 + 8 * n..8 + 8 * n]);
    let first = 8 + 8 * n;
    assert_eq!(q1[first..first + 12], q2[first..first + 12]);
    let second = first + 12 + 8 * 4;
    assert_eq!(q1[second..second + 12], q2[second..second + 12]);
    assert_ne!(q1, q2);
}
