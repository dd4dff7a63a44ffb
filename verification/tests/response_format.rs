use ypir_wasm::response::{
    ciphertext_byte_size, modulus_bits, plaintext_bytes, response_ciphertexts, serialize_response,
};

#[test]
fn serialize_response_concatenates() {
    let response = vec![vec![1u8, 2], vec![], vec![3u8, 4, 5]];
    assert_eq!(serialize_response(&response), vec![1, 2, 3, 4, 5]);
    assert!(serialize_response(&[]).is_empty());
}

#[test]
fn response_splits_into_whole_ciphertexts() {
    let bytes = [1u8, 2, 3, 4, 5];
    let cts = response_ciphertexts(&bytes, 2);
    assert_eq!(cts, vec![vec![1, 2], vec![3, 4]]);
    let cts = response_ciphertexts(&bytes, 5);
    assert_eq!(cts, vec![vec![1, 2, 3, 4, 5]]);
    let cts = response_ciphertexts(&bytes, 6);
    assert!(cts.is_empty());
}

#[test]
fn empty_response_decodes_to_nothing() {
    let cts = response_ciphertexts(&[], 14336);
    assert!(cts.is_empty());
    let decrypted: Vec<Vec<u64>> = Vec::new();
    assert!(plaintext_bytes(&decrypted).is_empty());
}

#[test]
fn framing_roundtrip() {
    let response = vec![vec![1u8, 2, 3], vec![4, 5, 6], vec![7, 8, 9]];
    let flat = serialize_response(&response);
    assert_eq!(response_ciphertexts(&flat, 3), response);
}

#[test]
fn partial_trailing_ciphertext_is_ignored() {
    let response = vec![vec![1u8, 2, 3], vec![4, 5, 6]];
    let mut flat = serialize_response(&response);
    flat.extend_from_slice(&[7, 8]);
    assert_eq!(response_ciphertexts(&flat, 3), response);
}

#[test]
fn plaintext_is_little_endian_coefficients() {
    let decrypted = vec![vec![1u64, 0x0100], vec![], vec![0x0102_0304_0506_0708]];
    let bytes = plaintext_bytes(&decrypted);
    assert_eq!(
        bytes,
        vec![
            1, 0, 0, 0, 0, 0, 0, 0, 0, 1, 0, 0, 0, 0, 0, 0, 8, 7, 6, 5, 4, 3, 2, 1
        ]
    );
    let words: Vec<u64> = bytes
        .chunks_exact(8)
        .map(|c| u64::from_le_bytes([c[0], c[1], c[2], c[3], c[4], c[5], c[6], c[7]]))
        .collect();
    assert_eq!(words, vec![1, 0x0100, 0x0102_0304_0506_0708]);
}

#[test]
fn modulus_bits_is_ceil_log2() {
    assert_eq!(modulus_bits(0), 0);
    assert_eq!(modulus_bits(1), 0);
    assert_eq!(modulus_bits(2), 1);
    assert_eq!(modulus_bits(3), 2);
    assert_eq!(modulus_bits(4), 2);
    assert_eq!(modulus_bits(5), 3);
    assert_eq!(modulus_bits(16384), 14);
    assert_eq!(modulus_bits(268369921), 28);
    assert_eq!(modulus_bits(249561089), 28);
    assert_eq!(modulus_bits(1 << 32), 32);
    assert_eq!(modulus_bits((1 << 32) + 1), 33);
    assert_eq!(modulus_bits(u64::MAX), 64);
}

#[test]
fn ciphertext_size_rounds_up_to_bytes() {
    assert_eq!(ciphertext_byte_size(268369921, 249561089, 2048), 14336);
    assert_eq!(ciphertext_byte_size(16384, 4096, 2048), (26 * 2048 + 7) / 8);
    assert_eq!(ciphertext_byte_size(8, 2, 3), 2);
    assert_eq!(ciphertext_byte_size(1, 1, 2048), 0);
}

#[test]
fn chunks_distribute_over_concat_at_boundary() {
    let a = [1u8, 2, 3, 4, 5, 6];
    let b = [7u8, 8, 9, 10];
    let ab: Vec<u8> = a.iter().chain(b.iter()).copied().collect();
    let mut expected = response_ciphertexts(&a, 3);
    expected.extend(response_ciphertexts(&b, 3));
    assert_eq!(response_ciphertexts(&ab, 3), expected);
}

#[test]
fn plaintext_distributes_over_concat() {
    let x = vec![vec![1u64, 2], vec![3u64]];
    let y = vec![vec![u64::MAX]];
    let xy: Vec<Vec<u64>> = x.iter().chain(y.iter()).cloned().collect();
    let mut expected = plaintext_bytes(&x);
    expected.extend(plaintext_bytes(&y));
    assert_eq!(plaintext_bytes(&xy), expected);
}
