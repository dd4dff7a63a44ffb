use vstd::prelude::*;
use vstd::arithmetic::power2::{pow2, lemma_pow2_unfold, lemma_pow2_pos};
use crate::le_bytes::{
    append_words_le, le_bytes_words, words_le_bytes, lemma_words_le_bytes_concat,
    lemma_words_le_bytes_len, lemma_words_le_bytes_roundtrip,
};

verus! {

broadcast use vstd::seq::Seq::group_seq_flatten;

/// The contents of a sequence of byte vectors.
pub open spec fn byte_vec_views(vs: Seq<Vec<u8>>) -> Seq<Seq<u8>> {
    vs.map_values(|v: Vec<u8>| v@)
}

/// The contents of a sequence of word vectors.
pub open spec fn word_vec_views(vs: Seq<Vec<u64>>) -> Seq<Seq<u64>> {
    vs.map_values(|v: Vec<u64>| v@)
}

/// Serializes a server response (one byte vector per ciphertext) into a
/// single flat byte vector: the ciphertexts one after another.
pub fn serialize_response(response: &[Vec<u8>]) -> (out: Vec<u8>)
    ensures
        out@ == byte_vec_views(response@).flatten(),
{
    let ghost views = byte_vec_views(response@);
    let mut out: Vec<u8> = Vec::new();
    let mut i: usize = 0;
    assert(views.take(0) =~= Seq::<Seq<u8>>::empty());
    while i < response.len()
        invariant
            i <= response.len(),
            views == byte_vec_views(response@),
            out@ == views.take(i as int).flatten(),
        decreases response.len() - i,
    {
        let ct = &response[i];
        let ghost before = out@;
        let mut j: usize = 0;
        while j < ct.len()
            invariant
                j <= ct.len(),
                out@ == before + ct@.take(j as int),
            decreases ct.len() - j,
        {
            out.push(ct[j]);
            assert(ct@.take(j + 1) =~= ct@.take(j as int).push(ct@[j as int]));
            j = j + 1;
        }
        proof {
            assert(ct@.take(ct.len() as int) =~= ct@);
            assert(views.take(i + 1) =~= views.take(i as int).push(views[i as int]));
            assert(views[i as int] == ct@);
        }
        i = i + 1;
    }
    assert(views.take(response.len() as int) =~= views);
    out
}

/// The `i`-th ciphertext of a response: bytes `[i * size, (i + 1) * size)`.
pub open spec fn ciphertext_at(bytes: Seq<u8>, size: nat, i: int) -> Seq<u8> {
    bytes.subrange(i * size, i * size + size)
}

/// The ciphertexts of a flat response, each `size` bytes long; a trailing
/// piece shorter than `size` is not a ciphertext and is dropped.
pub open spec fn response_chunks(bytes: Seq<u8>, size: nat) -> Seq<Seq<u8>> {
    Seq::new(bytes.len() / size, |i: int| ciphertext_at(bytes, size, i))
}

proof fn lemma_chunk_bound(i: int, n: int, size: int, len: int)
    requires
        0 <= i < n,
        0 <= size,
        n * size <= len,
    ensures
        i * size + size <= len,
        0 <= i * size,
{
    assert(i * size + size <= n * size) by (nonlinear_arith) requires 0 <= i < n, 0 <= size;
    assert(0 <= i * size) by (nonlinear_arith) requires 0 <= i, 0 <= size;
}

/// Splits a flat response into its ciphertexts of `ct_byte_size` bytes each,
/// dropping a trailing piece that is shorter than a ciphertext.
pub fn response_ciphertexts(response_bytes: &[u8], ct_byte_size: usize) -> (cts: Vec<Vec<u8>>)
    requires
        ct_byte_size > 0,
    ensures
        byte_vec_views(cts@) == response_chunks(response_bytes@, ct_byte_size as nat),
{
    let len = response_bytes.len();
    let ghost size = ct_byte_size as int;
    let mut cts: Vec<Vec<u8>> = Vec::new();
    let mut off: usize = 0;
    let mut i: usize = 0;
    while ct_byte_size <= len - off
        invariant
            len == response_bytes@.len(),
            off <= len,
            size == ct_byte_size,
            size > 0,
            off == i * size,
            i <= off,
            cts@.len() == i,
            forall|k: int|
                0 <= k < i ==> #[trigger] cts@[k]@ == ciphertext_at(
                    response_bytes@,
                    size as nat,
                    k,
                ),
        decreases len - off,
    {
        let mut ct: Vec<u8> = Vec::new();
        let mut j: usize = 0;
        while j < ct_byte_size
            invariant
                j <= ct_byte_size,
                off + ct_byte_size <= len,
                len == response_bytes@.len(),
                ct@ == response_bytes@.subrange(off as int, off + j),
            decreases ct_byte_size - j,
        {
            ct.push(response_bytes[off + j]);
            assert(ct@ =~= response_bytes@.subrange(off as int, off + j + 1));
            j = j + 1;
        }
        cts.push(ct);
        proof {
            assert((i + 1) * size == i * size + size) by (nonlinear_arith);
        }
        off = off + ct_byte_size;
        i = i + 1;
    }
    proof {
        let n = len as int / size;
        assert(n == i) by (nonlinear_arith)
            requires
                off == i * size,
                off <= len,
                len - off < size,
                size > 0,
                n == len as int / size,
        ;
        assert(byte_vec_views(cts@) =~= response_chunks(response_bytes@, size as nat));
    }
    cts
}

/// Assembles the plaintext of a decoded response: the little-endian
/// encodings of the decrypted coefficients, ciphertext by ciphertext.
pub fn plaintext_bytes(decrypted: &[Vec<u64>]) -> (out: Vec<u8>)
    ensures
        out@ == words_le_bytes(word_vec_views(decrypted@).flatten()),
{
    let ghost views = word_vec_views(decrypted@);
    let mut out: Vec<u8> = Vec::new();
    let mut i: usize = 0;
    assert(views.take(0) =~= Seq::<Seq<u64>>::empty());
    assert(words_le_bytes(Seq::<u64>::empty()) =~= Seq::<u8>::empty());
    while i < decrypted.len()
        invariant
            i <= decrypted.len(),
            views == word_vec_views(decrypted@),
            out@ == words_le_bytes(views.take(i as int).flatten()),
        decreases decrypted.len() - i,
    {
        append_words_le(&mut out, decrypted[i].as_slice());
        proof {
            assert(views.take(i + 1) =~= views.take(i as int).push(views[i as int]));
            lemma_words_le_bytes_concat(views.take(i as int).flatten(), views[i as int]);
        }
        i = i + 1;
    }
    assert(views.take(decrypted.len() as int) =~= views);
    out
}

/// The number of bits needed to hold the residues of modulus `q`:
/// `ceil(log2(q))`, taken as `0` for `q <= 1`.
pub open spec fn ceil_log2(q: nat) -> nat
    decreases q,
{
    if q <= 1 {
        0
    } else {
        1 + ceil_log2(((q + 1) / 2) as nat)
    }
}

/// `ceil_log2(q)` is the least `b` with `2^b >= q`.
pub proof fn lemma_ceil_log2_is_least_power(q: nat, b: nat)
    requires
        pow2(b) >= q,
        b == 0 || pow2((b - 1) as nat) < q,
    ensures
        ceil_log2(q) == b,
    decreases b,
{
    if b > 0 {
        lemma_pow2_unfold(b);
        let h = ((q + 1) / 2) as nat;
        assert(q >= 2) by {
            lemma_pow2_pos((b - 1) as nat);
        }
        assert(pow2((b - 1) as nat) >= h);
        if b >= 2 {
            lemma_pow2_unfold((b - 1) as nat);
            assert(pow2((b - 2) as nat) < h);
        }
        lemma_ceil_log2_is_least_power(h, (b - 1) as nat);
    } else {
        lemma_pow2_pos(0);
        assert(pow2(0) == 1) by {
            vstd::arithmetic::power2::lemma2_to64();
        }
    }
}

/// The number of bits needed to hold the residues of modulus `q`.
pub fn modulus_bits(q: u64) -> (bits: usize)
    ensures
        bits == ceil_log2(q as nat),
        bits <= 64,
        pow2(bits as nat) >= q,
        bits == 0 || pow2((bits - 1) as nat) < q,
{
    let mut p: u128 = 1;
    let mut b: usize = 0;
    proof {
        vstd::arithmetic::power2::lemma2_to64();
    }
    while p < q as u128
        invariant
            p == pow2(b as nat),
            b <= 64,
            b == 0 || pow2((b - 1) as nat) < q,
            p <= 2 * (q as int) || b == 0,
        decreases 64 - b,
    {
        proof {
            lemma_pow2_unfold((b + 1) as nat);
            if b == 64 {
                vstd::arithmetic::power2::lemma2_to64();
                assert(false);
            }
        }
        p = p * 2;
        b = b + 1;
    }
    proof {
        lemma_ceil_log2_is_least_power(q as nat, b as nat);
    }
    b
}

/// The byte length of one modulus-switched response ciphertext: `poly_len`
/// coefficients of `ceil_log2(q_prime_1) + ceil_log2(q_prime_2)` bits,
/// rounded up to whole bytes.
pub open spec fn spec_ciphertext_byte_size(q_prime_1: nat, q_prime_2: nat, poly_len: nat) -> nat {
    ((ceil_log2(q_prime_1) + ceil_log2(q_prime_2)) * poly_len + 7) / 8
}

/// The byte length of one modulus-switched response ciphertext.
pub fn ciphertext_byte_size(q_prime_1: u64, q_prime_2: u64, poly_len: usize) -> (size: usize)
    requires
        (ceil_log2(q_prime_1 as nat) + ceil_log2(q_prime_2 as nat)) * poly_len + 7 <= usize::MAX,
    ensures
        size == spec_ciphertext_byte_size(q_prime_1 as nat, q_prime_2 as nat, poly_len as nat),
{
    let bits_2 = modulus_bits(q_prime_2);
    let bits_1 = modulus_bits(q_prime_1);
    let total = bits_1 + bits_2;
    assert(total * poly_len + 7 <= usize::MAX);
    (total * poly_len + 7) / 8
}

/// Flattening ciphertexts of `size` bytes each puts ciphertext `i` at bytes
/// `[i * size, (i + 1) * size)`.
proof fn lemma_flatten_uniform(r: Seq<Seq<u8>>, size: nat)
    requires
        forall|i: int| 0 <= i < r.len() ==> (#[trigger] r[i]).len() == size,
    ensures
        r.flatten().len() == r.len() * size,
        forall|i: int| 0 <= i < r.len() ==> #[trigger] ciphertext_at(r.flatten(), size, i) == r[i],
    decreases r.len(),
{
    if r.len() > 0 {
        let init = r.drop_last();
        assert forall|i: int| 0 <= i < init.len() implies (#[trigger] init[i]).len() == size by {
            assert(init[i] == r[i]);
        }
        lemma_flatten_uniform(init, size);
        assert(init.push(r.last()) =~= r);
        let f = init.flatten();
        assert(r.flatten() == f + r.last());
        assert(init.len() * size + size == r.len() * size) by (nonlinear_arith)
            requires init.len() + 1 == r.len();
        assert forall|i: int| 0 <= i < r.len() implies #[trigger] ciphertext_at(
            r.flatten(),
            size,
            i,
        ) == r[i] by {
            lemma_chunk_bound(i, r.len() as int, size as int, (r.len() * size) as int);
            if i < init.len() {
                lemma_chunk_bound(i, init.len() as int, size as int, (init.len() * size) as int);
                assert(ciphertext_at(r.flatten(), size, i) =~= ciphertext_at(f, size, i));
                assert(r[i] == init[i]);
            } else {
                assert(i * size == init.len() * size);
                assert(ciphertext_at(r.flatten(), size, i) =~= r.last());
            }
        }
    }
}

/// Framing round trip: splitting the output of `serialize_response` into
/// ciphertexts of `size` bytes gives back the response, when each of its
/// ciphertexts is `size` bytes long.
pub proof fn law_response_framing_roundtrip(response: Seq<Seq<u8>>, size: nat)
    requires
        size > 0,
        forall|i: int| 0 <= i < response.len() ==> (#[trigger] response[i]).len() == size,
    ensures
        response_chunks(response.flatten(), size) == response,
{
    lemma_flatten_uniform(response, size);
    let n = response.len() as int;
    assert(n * size / (size as int) == n) by (nonlinear_arith) requires size > 0;
    assert(response_chunks(response.flatten(), size) =~= response);
}

/// Bytes after the last whole ciphertext do not change the ciphertexts a
/// response is split into.
pub proof fn law_partial_trailing_ciphertext_ignored(bytes: Seq<u8>, extra: Seq<u8>, size: nat)
    requires
        size > 0,
        bytes.len() % size == 0,
        extra.len() < size,
    ensures
        response_chunks(bytes + extra, size) == response_chunks(bytes, size),
{
    let n = bytes.len() as int / size as int;
    let s = size as int;
    assert(bytes.len() == n * s) by (nonlinear_arith)
        requires n == bytes.len() as int / s, bytes.len() as int % s == 0, s > 0;
    assert((bytes.len() + extra.len()) as int / s == n) by (nonlinear_arith)
        requires bytes.len() == n * s, 0 <= extra.len() < s, s > 0;
    assert forall|i: int| 0 <= i < n implies #[trigger] ciphertext_at(bytes + extra, size, i)
        == ciphertext_at(bytes, size, i) by {
        lemma_chunk_bound(i, n, s, bytes.len() as int);
        assert(ciphertext_at(bytes + extra, size, i) =~= ciphertext_at(bytes, size, i));
    }
    assert(response_chunks(bytes + extra, size) =~= response_chunks(bytes, size));
}

/// The plaintext of a decoded response holds eight bytes per decrypted
/// coefficient, and reading it back as little-endian `u64` words gives the
/// coefficients of all ciphertexts, in order.
pub proof fn law_plaintext_words_recoverable(decrypted: Seq<Seq<u64>>)
    ensures
        words_le_bytes(decrypted.flatten()).len() == 8 * decrypted.flatten().len(),
        le_bytes_words(words_le_bytes(decrypted.flatten()), decrypted.flatten().len())
            == decrypted.flatten(),
{
    let flat = decrypted.flatten();
    lemma_words_le_bytes_len(flat);
    lemma_words_le_bytes_roundtrip(flat, Seq::empty());
    assert(words_le_bytes(flat) + Seq::<u8>::empty() =~= words_le_bytes(flat));
}

/// Splitting a response into ciphertexts distributes over a concatenation
/// made at a ciphertext boundary: the ciphertexts of `a + b` are those of
/// `a` followed by those of `b`.
pub proof fn law_response_chunks_concat(a: Seq<u8>, b: Seq<u8>, size: nat)
    requires
        size > 0,
        a.len() % size == 0,
    ensures
        response_chunks(a + b, size) == response_chunks(a, size) + response_chunks(b, size),
{
    let s = size as int;
    let na = a.len() as int / s;
    let nb = b.len() as int / s;
    assert(a.len() == na * s) by (nonlinear_arith)
        requires na == a.len() as int / s, a.len() as int % s == 0, s > 0;
    assert(nb * s <= b.len()) by (nonlinear_arith)
        requires nb == b.len() as int / s, s > 0, b.len() >= 0;
    assert((a.len() + b.len()) as int / s == na + nb) by (nonlinear_arith)
        requires a.len() == na * s, nb == b.len() as int / s, s > 0, b.len() >= 0;
    let ab = a + b;
    let lhs = response_chunks(ab, size);
    let rhs = response_chunks(a, size) + response_chunks(b, size);
    assert(lhs.len() == rhs.len());
    assert forall|i: int| 0 <= i < lhs.len() implies #[trigger] lhs[i] == rhs[i] by {
        if i < na {
            lemma_chunk_bound(i, na, s, a.len() as int);
            assert(ciphertext_at(ab, size, i) =~= ciphertext_at(a, size, i));
        } else {
            let j = i - na;
            lemma_chunk_bound(j, nb, s, b.len() as int);
            assert(i * s == na * s + j * s) by (nonlinear_arith) requires j == i - na;
            assert(ciphertext_at(ab, size, i) =~= ciphertext_at(b, size, j));
        }
    }
    assert(lhs =~= rhs);
}

/// Assembling the plaintext distributes over concatenation: the plaintext
/// of the decrypted ciphertexts `x` followed by `y` is that of `x` followed
/// by that of `y`.
pub proof fn law_plaintext_bytes_concat(x: Seq<Seq<u64>>, y: Seq<Seq<u64>>)
    ensures
        words_le_bytes((x + y).flatten()) == words_le_bytes(x.flatten()) + words_le_bytes(
            y.flatten(),
        ),
{
    vstd::seq_lib::lemma_flatten_concat(x, y);
    lemma_words_le_bytes_concat(x.flatten(), y.flatten());
}

/// Decoding a response ciphertext by ciphertext, with a decryption `dec`
/// that depends on its ciphertext alone, distributes over a concatenation
/// made at a ciphertext boundary: the ciphertexts are decoded independently
/// and in order.
pub proof fn law_decode_distributes_over_concat(
    a: Seq<u8>,
    b: Seq<u8>,
    size: nat,
    dec: spec_fn(Seq<u8>) -> Seq<u64>,
)
    requires
        size > 0,
        a.len() % size == 0,
    ensures
        words_le_bytes(response_chunks(a + b, size).map_values(dec).flatten()) == words_le_bytes(
            response_chunks(a, size).map_values(dec).flatten(),
        ) + words_le_bytes(response_chunks(b, size).map_values(dec).flatten()),
{
    law_response_chunks_concat(a, b, size);
    let ca = response_chunks(a, size);
    let cb = response_chunks(b, size);
    assert((ca + cb).map_values(dec) =~= ca.map_values(dec) + cb.map_values(dec));
    law_plaintext_bytes_concat(ca.map_values(dec), cb.map_values(dec));
}

} // verus!
