use vstd::prelude::*;
use vstd::bytes::{
    spec_u32_from_le_bytes, spec_u32_to_le_bytes, spec_u64_from_le_bytes, spec_u64_to_le_bytes,
    lemma_auto_spec_u32_to_from_le_bytes, lemma_auto_spec_u64_to_from_le_bytes,
};

verus! {

/// The little-endian encodings of `words`, one after another.
pub open spec fn words_le_bytes(words: Seq<u64>) -> Seq<u8>
    decreases words.len(),
{
    if words.len() == 0 {
        Seq::empty()
    } else {
        words_le_bytes(words.drop_last()) + spec_u64_to_le_bytes(words.last())
    }
}

/// The first `n` little-endian `u64` words held in `bytes`.
pub open spec fn le_bytes_words(bytes: Seq<u8>, n: nat) -> Seq<u64> {
    Seq::new(n, |i: int| spec_u64_from_le_bytes(bytes.subrange(8 * i, 8 * i + 8)))
}

/// A `u32` header field: the little-endian encoding of `x`.
pub open spec fn u32_field(x: u32) -> Seq<u8> {
    spec_u32_to_le_bytes(x)
}

/// The `u32` read from the first four bytes of `bytes`.
pub open spec fn read_u32_field(bytes: Seq<u8>) -> u32 {
    spec_u32_from_le_bytes(bytes.subrange(0, 4))
}

pub proof fn lemma_u32_field(x: u32)
    ensures
        u32_field(x).len() == 4,
        read_u32_field(u32_field(x)) == x,
        forall|rest: Seq<u8>| #[trigger] read_u32_field(u32_field(x) + rest) == x,
{
    lemma_auto_spec_u32_to_from_le_bytes();
    assert(u32_field(x).subrange(0, 4) =~= u32_field(x));
    assert forall|rest: Seq<u8>| #[trigger] read_u32_field(u32_field(x) + rest) == x by {
        assert((u32_field(x) + rest).subrange(0, 4) =~= u32_field(x));
    }
}

pub proof fn lemma_read_u32_field_inverse(bytes: Seq<u8>)
    requires
        bytes.len() >= 4,
    ensures
        u32_field(read_u32_field(bytes)) == bytes.subrange(0, 4),
{
    lemma_auto_spec_u32_to_from_le_bytes();
    assert(bytes.subrange(0, 4).len() == 4);
}

pub proof fn lemma_u64_le_len(x: u64)
    ensures
        spec_u64_to_le_bytes(x).len() == 8,
        spec_u64_from_le_bytes(spec_u64_to_le_bytes(x)) == x,
{
    lemma_auto_spec_u64_to_from_le_bytes();
}

/// The encoding of a sequence of words is eight bytes per word.
pub proof fn lemma_words_le_bytes_len(words: Seq<u64>)
    ensures
        words_le_bytes(words).len() == 8 * words.len(),
    decreases words.len(),
{
    if words.len() > 0 {
        lemma_words_le_bytes_len(words.drop_last());
        lemma_u64_le_len(words.last());
    }
}

/// The `i`-th group of eight bytes encodes the `i`-th word.
pub proof fn lemma_words_le_bytes_index(words: Seq<u64>, i: int)
    requires
        0 <= i < words.len(),
    ensures
        words_le_bytes(words).subrange(8 * i, 8 * i + 8) == spec_u64_to_le_bytes(words[i]),
    decreases words.len(),
{
    let pre = words_le_bytes(words.drop_last());
    lemma_words_le_bytes_len(words.drop_last());
    lemma_u64_le_len(words.last());
    if i == words.len() - 1 {
        assert(words_le_bytes(words).subrange(8 * i, 8 * i + 8) =~= spec_u64_to_le_bytes(
            words.last(),
        ));
    } else {
        lemma_words_le_bytes_index(words.drop_last(), i);
        assert(words_le_bytes(words).subrange(8 * i, 8 * i + 8) =~= pre.subrange(8 * i, 8 * i + 8));
    }
}

/// Reading back the words of an encoding, whatever follows it, gives the words.
pub proof fn lemma_words_le_bytes_roundtrip(words: Seq<u64>, rest: Seq<u8>)
    ensures
        le_bytes_words(words_le_bytes(words) + rest, words.len()) == words,
{
    lemma_words_le_bytes_len(words);
    let b = words_le_bytes(words) + rest;
    assert forall|i: int| 0 <= i < words.len() implies #[trigger] le_bytes_words(
        b,
        words.len(),
    )[i] == words[i] by {
        lemma_words_le_bytes_index(words, i);
        lemma_u64_le_len(words[i]);
        assert(b.subrange(8 * i, 8 * i + 8) =~= words_le_bytes(words).subrange(8 * i, 8 * i + 8));
    }
    assert(le_bytes_words(b, words.len()) =~= words);
}

/// Encoding the words read from `8 * n` bytes gives those bytes back.
pub proof fn lemma_le_bytes_words_inverse(bytes: Seq<u8>, n: nat)
    requires
        bytes.len() >= 8 * n,
    ensures
        words_le_bytes(le_bytes_words(bytes, n)) == bytes.subrange(0, 8 * n as int),
    decreases n,
{
    lemma_auto_spec_u64_to_from_le_bytes();
    if n > 0 {
        let m = (n - 1) as nat;
        lemma_le_bytes_words_inverse(bytes, m);
        let ws = le_bytes_words(bytes, n);
        assert(ws.drop_last() =~= le_bytes_words(bytes, m));
        let last = bytes.subrange(8 * m as int, 8 * m as int + 8);
        assert(last.len() == 8);
        assert(spec_u64_to_le_bytes(ws.last()) == last);
        assert(bytes.subrange(0, 8 * n as int) =~= bytes.subrange(0, 8 * m as int) + last);
    } else {
        assert(bytes.subrange(0, 0) =~= Seq::<u8>::empty());
    }
}

/// Encoding a concatenation of word sequences concatenates their encodings.
pub proof fn lemma_words_le_bytes_concat(a: Seq<u64>, b: Seq<u64>)
    ensures
        words_le_bytes(a + b) == words_le_bytes(a) + words_le_bytes(b),
    decreases b.len(),
{
    if b.len() == 0 {
        assert(a + b =~= a);
        assert(words_le_bytes(a) + words_le_bytes(b) =~= words_le_bytes(a));
    } else {
        lemma_words_le_bytes_concat(a, b.drop_last());
        assert((a + b).drop_last() =~= a + b.drop_last());
        assert((a + b).last() == b.last());
        assert(words_le_bytes(a + b) =~= words_le_bytes(a) + words_le_bytes(b));
    }
}

/// Appends the little-endian encoding of each word of `words` to `out`.
pub fn append_words_le(out: &mut Vec<u8>, words: &[u64])
    ensures
        final(out)@ == old(out)@ + words_le_bytes(words@),
{
    let ghost start = out@;
    let mut i: usize = 0;
    assert(words@.subrange(0, 0) =~= Seq::<u64>::empty());
    assert(start + words_le_bytes(Seq::<u64>::empty()) =~= start);
    while i < words.len()
        invariant
            i <= words.len(),
            out@ == start + words_le_bytes(words@.subrange(0, i as int)),
        decreases words.len() - i,
    {
        let mut enc = vstd::bytes::u64_to_le_bytes(words[i]);
        out.append(&mut enc);
        proof {
            let s = words@.subrange(0, i + 1);
            assert(s.drop_last() =~= words@.subrange(0, i as int));
            assert(s.last() == words@[i as int]);
            assert(out@ =~= start + words_le_bytes(s));
        }
        i = i + 1;
    }
    assert(words@.subrange(0, words.len() as int) =~= words@);
}

/// Appends the little-endian encoding of `x` to `out`.
pub fn append_u32_le(out: &mut Vec<u8>, x: u32)
    ensures
        final(out)@ == old(out)@ + u32_field(x),
{
    let mut enc = vstd::bytes::u32_to_le_bytes(x);
    out.append(&mut enc);
}

/// The `u32` stored little-endian at `bytes[off..off + 4]`.
pub fn read_u32_le(bytes: &[u8], off: usize) -> (x: u32)
    requires
        off + 4 <= bytes@.len(),
        bytes@.len() <= usize::MAX,
    ensures
        x == read_u32_field(bytes@.subrange(off as int, bytes@.len() as int)),
{
    let s = vstd::slice::slice_subrange(bytes, off, off + 4);
    assert(s@ =~= bytes@.subrange(off as int, bytes@.len() as int).subrange(0, 4));
    vstd::bytes::u32_from_le_bytes(s)
}

/// The `n` little-endian `u64` words stored from `bytes[off]` on.
pub fn read_words_le(bytes: &[u8], off: usize, n: usize) -> (words: Vec<u64>)
    requires
        off + 8 * n <= bytes@.len(),
        bytes@.len() <= usize::MAX,
    ensures
        words@ == le_bytes_words(bytes@.subrange(off as int, bytes@.len() as int), n as nat),
{
    let ghost tail = bytes@.subrange(off as int, bytes@.len() as int);
    let mut words: Vec<u64> = Vec::new();
    let mut i: usize = 0;
    while i < n
        invariant
            i <= n,
            off + 8 * n <= bytes@.len(),
            bytes@.len() <= usize::MAX,
            tail == bytes@.subrange(off as int, bytes@.len() as int),
            words@ =~= le_bytes_words(tail, i as nat),
        decreases n - i,
    {
        let p = off + 8 * i;
        let s = vstd::slice::slice_subrange(bytes, p, p + 8);
        assert(s@ =~= tail.subrange(8 * i, 8 * i + 8));
        let w = vstd::bytes::u64_from_le_bytes(s);
        words.push(w);
        i = i + 1;
    }
    words
}

} // verus!
