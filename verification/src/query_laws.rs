use vstd::prelude::*;
use crate::layout::NttLayout;
use crate::le_bytes::{
    le_bytes_words, read_u32_field, u32_field, words_le_bytes, lemma_le_bytes_words_inverse,
    lemma_read_u32_field_inverse, lemma_u32_field, lemma_words_le_bytes_len,
    lemma_words_le_bytes_roundtrip,
};
use crate::query::{
    PubParamView, all_fit_layout, fits_layout, parse_pub_param, parse_pub_params, parse_query, pub_param_bytes,
    pub_params_bytes, query_bytes, spec_deserialize_query, lemma_parse_pub_params_len,
};

verus! {

/// Whether every field of a public parameter is written without truncation.
pub open spec fn pub_param_fits_u32(p: PubParamView) -> bool {
    &&& p.rows <= u32::MAX
    &&& p.cols <= u32::MAX
    &&& p.data.len() <= u32::MAX
}

/// Whether every count and field of a query is written without truncation.
pub open spec fn query_fits_u32(packed: Seq<u64>, ps: Seq<PubParamView>) -> bool {
    &&& packed.len() <= u32::MAX
    &&& ps.len() <= u32::MAX
    &&& forall|i: int| 0 <= i < ps.len() ==> #[trigger] pub_param_fits_u32(ps[i])
}

proof fn lemma_pub_param_bytes_len(p: PubParamView)
    ensures
        pub_param_bytes(p).len() == 12 + 8 * p.data.len(),
{
    lemma_u32_field(p.rows as u32);
    lemma_u32_field(p.cols as u32);
    lemma_u32_field(p.data.len() as u32);
    lemma_words_le_bytes_len(p.data);
}

proof fn lemma_pub_param_roundtrip(p: PubParamView, rest: Seq<u8>)
    requires
        pub_param_fits_u32(p),
    ensures
        parse_pub_param(pub_param_bytes(p) + rest) == Some((p, pub_param_bytes(p).len() as int)),
{
    lemma_pub_param_bytes_len(p);
    let r = u32_field(p.rows as u32);
    let c = u32_field(p.cols as u32);
    let n = u32_field(p.data.len() as u32);
    let w = words_le_bytes(p.data);
    let b = pub_param_bytes(p) + rest;
    lemma_u32_field(p.rows as u32);
    lemma_u32_field(p.cols as u32);
    lemma_u32_field(p.data.len() as u32);
    assert(b =~= r + (c + n + w + rest));
    assert(b.subrange(4, b.len() as int) =~= c + (n + w + rest));
    assert(b.subrange(8, b.len() as int) =~= n + (w + rest));
    assert(b.subrange(12, b.len() as int) =~= w + rest);
    lemma_words_le_bytes_roundtrip(p.data, rest);
    let q = parse_pub_param(b).unwrap().0;
    assert(q.data =~= p.data);
}

proof fn lemma_pub_params_roundtrip(ps: Seq<PubParamView>, rest: Seq<u8>)
    requires
        forall|i: int| 0 <= i < ps.len() ==> #[trigger] pub_param_fits_u32(ps[i]),
    ensures
        parse_pub_params(pub_params_bytes(ps) + rest, ps.len()) == Some(
            (ps, pub_params_bytes(ps).len() as int),
        ),
    decreases ps.len(),
{
    if ps.len() == 0 {
        assert(ps =~= Seq::<PubParamView>::empty());
    } else {
        let init = ps.drop_last();
        let last = ps.last();
        assert(pub_param_fits_u32(ps[ps.len() - 1]));
        let tail = pub_param_bytes(last) + rest;
        let b = pub_params_bytes(ps) + rest;
        assert(b =~= pub_params_bytes(init) + tail);
        assert forall|i: int| 0 <= i < init.len() implies #[trigger] pub_param_fits_u32(init[i]) by {
            assert(init[i] == ps[i]);
        }
        lemma_pub_params_roundtrip(init, tail);
        let k = pub_params_bytes(init).len() as int;
        assert(b.subrange(k, b.len() as int) =~= tail);
        lemma_pub_param_roundtrip(last, rest);
        assert(init.push(last) =~= ps);
    }
}

/// Reading back a serialized query, whatever bytes follow it, gives the
/// query and the length of its encoding, provided no count or dimension
/// needed truncating to 32 bits.
pub proof fn lemma_query_roundtrip(packed: Seq<u64>, ps: Seq<PubParamView>, rest: Seq<u8>)
    requires
        query_fits_u32(packed, ps),
    ensures
        parse_query(query_bytes(packed, ps) + rest) == Some(
            (packed, ps, query_bytes(packed, ps).len() as int),
        ),
{
    let n = packed.len();
    let h1 = u32_field(n as u32);
    let w = words_le_bytes(packed);
    let h2 = u32_field(ps.len() as u32);
    let pp = pub_params_bytes(ps);
    let b = query_bytes(packed, ps) + rest;
    lemma_u32_field(n as u32);
    lemma_u32_field(ps.len() as u32);
    lemma_words_le_bytes_len(packed);
    assert(b =~= h1 + (w + h2 + pp + rest));
    assert(read_u32_field(b) == n);
    assert(b.subrange(4, b.len() as int) =~= w + (h2 + pp + rest));
    lemma_words_le_bytes_roundtrip(packed, h2 + pp + rest);
    assert(b.subrange(4 + 8 * n as int, b.len() as int) =~= h2 + (pp + rest));
    assert(b.subrange(8 + 8 * n as int, b.len() as int) =~= pp + rest);
    lemma_pub_params_roundtrip(ps, rest);
}

/// Round trip: `deserialize_query` applied to the output of `serialize_query`
/// (with any bytes after it) returns the packed query words and public
/// parameters that were serialized, provided no count or dimension needed
/// truncating to 32 bits and every parameter's word count is that of its
/// shape under `layout`.
pub proof fn law_deserialize_inverts_serialize(
    layout: NttLayout,
    packed: Seq<u64>,
    ps: Seq<PubParamView>,
    rest: Seq<u8>,
)
    requires
        query_fits_u32(packed, ps),
        all_fit_layout(layout, ps),
    ensures
        spec_deserialize_query(layout, query_bytes(packed, ps) + rest) == Some((packed, ps)),
{
    lemma_query_roundtrip(packed, ps, rest);
}

proof fn lemma_pub_param_canonical(b: Seq<u8>)
    requires
        parse_pub_param(b) is Some,
    ensures
        pub_param_fits_u32(parse_pub_param(b).unwrap().0),
        pub_param_bytes(parse_pub_param(b).unwrap().0) == b.subrange(
            0,
            parse_pub_param(b).unwrap().1,
        ),
{
    let (p, m) = parse_pub_param(b).unwrap();
    let b4 = b.subrange(4, b.len() as int);
    let b8 = b.subrange(8, b.len() as int);
    let b12 = b.subrange(12, b.len() as int);
    lemma_read_u32_field_inverse(b);
    lemma_read_u32_field_inverse(b4);
    lemma_read_u32_field_inverse(b8);
    let n = read_u32_field(b8);
    lemma_le_bytes_words_inverse(b12, n as nat);
    assert(p.rows as u32 == read_u32_field(b));
    assert(p.cols as u32 == read_u32_field(b4));
    assert(p.data.len() as u32 == n);
    assert(b.subrange(0, m) =~= b.subrange(0, 4) + b4.subrange(0, 4) + b8.subrange(0, 4)
        + b12.subrange(0, 8 * n as int));
}

proof fn lemma_pub_params_canonical(b: Seq<u8>, count: nat)
    requires
        parse_pub_params(b, count) is Some,
    ensures
        ({
            let (ps, k) = parse_pub_params(b, count).unwrap();
            &&& forall|i: int| 0 <= i < ps.len() ==> #[trigger] pub_param_fits_u32(ps[i])
            &&& ps.len() == count
            &&& pub_params_bytes(ps) == b.subrange(0, k)
        }),
    decreases count,
{
    if count == 0 {
        assert(b.subrange(0, 0) =~= Seq::<u8>::empty());
    } else {
        let m1 = (count - 1) as nat;
        lemma_pub_params_canonical(b, m1);
        lemma_parse_pub_params_len(b, m1);
        let (ps0, k0) = parse_pub_params(b, m1).unwrap();
        let rest = b.subrange(k0, b.len() as int);
        lemma_pub_param_canonical(rest);
        let (p, m) = parse_pub_param(rest).unwrap();
        let ps = ps0.push(p);
        assert(ps.drop_last() =~= ps0);
        assert forall|i: int| 0 <= i < ps.len() implies #[trigger] pub_param_fits_u32(ps[i]) by {
            if i < ps0.len() {
                assert(ps[i] == ps0[i]);
            }
        }
        assert(b.subrange(0, k0 + m) =~= b.subrange(0, k0) + rest.subrange(0, m));
    }
}

/// The query format is canonical: whenever bytes are read as a query, the
/// query read is one whose counts and dimensions fit in 32 bits, and
/// serializing it gives back exactly the bytes that were read.
pub proof fn law_parse_query_canonical(b: Seq<u8>)
    requires
        parse_query(b) is Some,
    ensures
        ({
            let (packed, ps, k) = parse_query(b).unwrap();
            &&& query_fits_u32(packed, ps)
            &&& 0 <= k <= b.len()
            &&& query_bytes(packed, ps) == b.subrange(0, k)
        }),
{
    let (packed, ps, k) = parse_query(b).unwrap();
    let n = read_u32_field(b);
    let b4 = b.subrange(4, b.len() as int);
    let bc = b.subrange(4 + 8 * n, b.len() as int);
    let bp = b.subrange(8 + 8 * n, b.len() as int);
    let count = read_u32_field(bc);
    lemma_read_u32_field_inverse(b);
    lemma_read_u32_field_inverse(bc);
    lemma_le_bytes_words_inverse(b4, n as nat);
    lemma_pub_params_canonical(bp, count as nat);
    lemma_parse_pub_params_len(bp, count as nat);
    let kp = parse_pub_params(bp, count as nat).unwrap().1;
    assert(packed.len() as u32 == n);
    assert(ps.len() as u32 == count);
    assert(b.subrange(0, k) =~= b.subrange(0, 4) + b4.subrange(0, 8 * n as int) + bc.subrange(0, 4)
        + bp.subrange(0, kp));
}

/// Whether two public parameters have the same shape: rows, columns and
/// word count.
pub open spec fn same_shape(p: PubParamView, q: PubParamView) -> bool {
    &&& p.rows == q.rows
    &&& p.cols == q.cols
    &&& p.data.len() == q.data.len()
}

/// Whether two queries have the same shape: as many packed words, and as
/// many public parameters, pairwise of the same shape.
pub open spec fn same_query_shape(
    packed1: Seq<u64>,
    ps1: Seq<PubParamView>,
    packed2: Seq<u64>,
    ps2: Seq<PubParamView>,
) -> bool {
    &&& packed1.len() == packed2.len()
    &&& ps1.len() == ps2.len()
    &&& forall|i: int| 0 <= i < ps1.len() ==> #[trigger] same_shape(ps1[i], ps2[i])
}

/// The byte offset of the `k`-th public parameter in the encoding of a query.
pub open spec fn pub_param_offset(packed: Seq<u64>, ps: Seq<PubParamView>, k: int) -> int {
    8 + 8 * packed.len() + pub_params_bytes(ps.take(k)).len() as int
}

proof fn lemma_pub_param_header(p: PubParamView)
    ensures
        pub_param_bytes(p).len() == 12 + 8 * p.data.len(),
        pub_param_bytes(p).subrange(0, 12) == u32_field(p.rows as u32) + u32_field(p.cols as u32)
            + u32_field(p.data.len() as u32),
{
    lemma_pub_param_bytes_len(p);
    lemma_u32_field(p.rows as u32);
    lemma_u32_field(p.cols as u32);
    lemma_u32_field(p.data.len() as u32);
    let h = u32_field(p.rows as u32) + u32_field(p.cols as u32) + u32_field(p.data.len() as u32);
    assert(pub_param_bytes(p) == h + words_le_bytes(p.data));
    assert(pub_param_bytes(p).subrange(0, 12) =~= h);
}

proof fn lemma_pub_params_len_by_shape(ps1: Seq<PubParamView>, ps2: Seq<PubParamView>, j: int)
    requires
        ps1.len() == ps2.len(),
        0 <= j <= ps1.len(),
        forall|i: int| 0 <= i < ps1.len() ==> #[trigger] same_shape(ps1[i], ps2[i]),
    ensures
        pub_params_bytes(ps1.take(j)).len() == pub_params_bytes(ps2.take(j)).len(),
    decreases j,
{
    if j > 0 {
        lemma_pub_params_len_by_shape(ps1, ps2, j - 1);
        assert(ps1.take(j).drop_last() =~= ps1.take(j - 1));
        assert(ps2.take(j).drop_last() =~= ps2.take(j - 1));
        assert(same_shape(ps1[j - 1], ps2[j - 1]));
        lemma_pub_param_bytes_len(ps1[j - 1]);
        lemma_pub_param_bytes_len(ps2[j - 1]);
    }
}

proof fn lemma_pub_params_bytes_prefix(ps: Seq<PubParamView>, j: int)
    requires
        0 <= j <= ps.len(),
    ensures
        pub_params_bytes(ps.take(j)).len() <= pub_params_bytes(ps).len(),
        pub_params_bytes(ps).subrange(0, pub_params_bytes(ps.take(j)).len() as int)
            == pub_params_bytes(ps.take(j)),
    decreases ps.len(),
{
    if j == ps.len() {
        assert(ps.take(j) =~= ps);
        assert(pub_params_bytes(ps).subrange(0, pub_params_bytes(ps).len() as int)
            =~= pub_params_bytes(ps));
    } else {
        let init = ps.drop_last();
        lemma_pub_params_bytes_prefix(init, j);
        assert(init.take(j) =~= ps.take(j));
        let m = pub_params_bytes(ps.take(j)).len() as int;
        assert(pub_params_bytes(ps) == pub_params_bytes(init) + pub_param_bytes(ps.last()));
        assert(pub_params_bytes(ps).subrange(0, m) =~= pub_params_bytes(init).subrange(0, m));
    }
}

/// The twelve header bytes (rows, cols, word count) of the `k`-th public
/// parameter stand at its offset in the encoded parameters.
proof fn lemma_pub_param_header_at(ps: Seq<PubParamView>, k: int)
    requires
        0 <= k < ps.len(),
    ensures
        pub_params_bytes(ps.take(k)).len() + 12 <= pub_params_bytes(ps).len(),
        pub_params_bytes(ps).subrange(
            pub_params_bytes(ps.take(k)).len() as int,
            pub_params_bytes(ps.take(k)).len() + 12 as int,
        ) == pub_param_bytes(ps[k]).subrange(0, 12),
{
    lemma_pub_params_bytes_prefix(ps, k + 1);
    assert(ps.take(k + 1).drop_last() =~= ps.take(k));
    assert(ps.take(k + 1).last() == ps[k]);
    let o = pub_params_bytes(ps.take(k)).len() as int;
    let full = pub_params_bytes(ps);
    let pre = pub_params_bytes(ps.take(k + 1));
    assert(pre == pub_params_bytes(ps.take(k)) + pub_param_bytes(ps[k]));
    lemma_pub_param_header(ps[k]);
    assert(full.subrange(o, o + 12) =~= pre.subrange(o, o + 12));
    assert(pre.subrange(o, o + 12) =~= pub_param_bytes(ps[k]).subrange(0, 12));
}

/// The size and layout of an encoded query depend only on its shape: two
/// queries with the same counts and the same parameter shapes encode to the
/// same length, with the same count fields and, for each public parameter,
/// the same offset and the same rows, cols and word-count fields. Only the
/// words themselves differ.
pub proof fn law_query_layout_depends_only_on_shape(
    packed1: Seq<u64>,
    ps1: Seq<PubParamView>,
    packed2: Seq<u64>,
    ps2: Seq<PubParamView>,
)
    requires
        same_query_shape(packed1, ps1, packed2, ps2),
    ensures
        ({
            let b1 = query_bytes(packed1, ps1);
            let b2 = query_bytes(packed2, ps2);
            let n = packed1.len() as int;
            &&& b1.len() == b2.len()
            &&& b1.subrange(0, 4) == b2.subrange(0, 4)
            &&& b1.subrange(4 + 8 * n, 8 + 8 * n) == b2.subrange(4 + 8 * n, 8 + 8 * n)
            &&& forall|k: int|
                0 <= k < ps1.len() ==> {
                    &&& #[trigger] pub_param_offset(packed1, ps1, k) == pub_param_offset(
                        packed2,
                        ps2,
                        k,
                    )
                    &&& pub_param_offset(packed1, ps1, k) + 12 <= b1.len()
                    &&& b1.subrange(
                        pub_param_offset(packed1, ps1, k),
                        pub_param_offset(packed1, ps1, k) + 12,
                    ) == b2.subrange(
                        pub_param_offset(packed1, ps1, k),
                        pub_param_offset(packed1, ps1, k) + 12,
                    )
                }
        }),
{
    let n = packed1.len() as int;
    let b1 = query_bytes(packed1, ps1);
    let b2 = query_bytes(packed2, ps2);
    let h1 = u32_field(packed1.len() as u32);
    let h2 = u32_field(ps1.len() as u32);
    let w1 = words_le_bytes(packed1);
    let w2 = words_le_bytes(packed2);
    let pp1 = pub_params_bytes(ps1);
    let pp2 = pub_params_bytes(ps2);
    lemma_u32_field(packed1.len() as u32);
    lemma_u32_field(ps1.len() as u32);
    lemma_words_le_bytes_len(packed1);
    lemma_words_le_bytes_len(packed2);
    assert(ps1.take(ps1.len() as int) =~= ps1);
    assert(ps2.take(ps2.len() as int) =~= ps2);
    lemma_pub_params_len_by_shape(ps1, ps2, ps1.len() as int);
    assert(b1 == h1 + w1 + h2 + pp1);
    assert(b2 == h1 + w2 + h2 + pp2);
    assert(b1.subrange(0, 4) =~= h1);
    assert(b2.subrange(0, 4) =~= h1);
    assert(b1.subrange(4 + 8 * n, 8 + 8 * n) =~= h2);
    assert(b2.subrange(4 + 8 * n, 8 + 8 * n) =~= h2);
    assert forall|k: int| 0 <= k < ps1.len() implies {
        &&& #[trigger] pub_param_offset(packed1, ps1, k) == pub_param_offset(packed2, ps2, k)
        &&& pub_param_offset(packed1, ps1, k) + 12 <= b1.len()
        &&& b1.subrange(pub_param_offset(packed1, ps1, k), pub_param_offset(packed1, ps1, k) + 12)
            == b2.subrange(
            pub_param_offset(packed1, ps1, k),
            pub_param_offset(packed1, ps1, k) + 12,
        )
    } by {
        lemma_pub_params_len_by_shape(ps1, ps2, k);
        lemma_pub_param_header_at(ps1, k);
        lemma_pub_param_header_at(ps2, k);
        assert(same_shape(ps1[k], ps2[k]));
        lemma_pub_param_header(ps1[k]);
        lemma_pub_param_header(ps2[k]);
        let o = pub_params_bytes(ps1.take(k)).len() as int;
        let off = 8 + 8 * n + o;
        assert(b1.subrange(off, off + 12) =~= pp1.subrange(o, o + 12));
        assert(b2.subrange(off, off + 12) =~= pp2.subrange(o, o + 12));
    }
}

/// A decoded query holds no public parameter whose word count differs from
/// that of its shape: every parameter that `deserialize_query` accepts has
/// exactly `rows * cols * poly_len * crt_count` words, neither fewer nor more,
/// and that product fits in a `usize`.
pub proof fn law_decoded_word_counts_match_shape(layout: NttLayout, b: Seq<u8>)
    requires
        spec_deserialize_query(layout, b) is Some,
    ensures
        forall|k: int|
            0 <= k < spec_deserialize_query(layout, b).unwrap().1.len() ==> {
                let p = #[trigger] spec_deserialize_query(layout, b).unwrap().1[k];
                &&& p.data.len() == p.rows * p.cols * layout.poly_len * layout.crt_count
                &&& p.rows * p.cols * layout.poly_len * layout.crt_count <= usize::MAX
            },
{
    let ps = spec_deserialize_query(layout, b).unwrap().1;
    assert forall|k: int| 0 <= k < ps.len() implies {
        let p = #[trigger] ps[k];
        &&& p.data.len() == p.rows * p.cols * layout.poly_len * layout.crt_count
        &&& p.rows * p.cols * layout.poly_len * layout.crt_count <= usize::MAX
    } by {
        assert(fits_layout(layout, ps[k]));
    }
}

/// A record announcing a word count other than that of its shape makes the
/// whole query unreadable: if the `k`-th parameter read from `b` has a word
/// count other than `rows * cols * poly_len * crt_count`, `deserialize_query`
/// refuses `b`.
pub proof fn law_wrong_word_count_refused(layout: NttLayout, b: Seq<u8>, k: int)
    requires
        parse_query(b) is Some,
        0 <= k < parse_query(b).unwrap().1.len(),
        parse_query(b).unwrap().1[k].data.len() != parse_query(b).unwrap().1[k].rows
            * parse_query(b).unwrap().1[k].cols * layout.poly_len * layout.crt_count,
    ensures
        spec_deserialize_query(layout, b) is None,
{
    assert(!fits_layout(layout, parse_query(b).unwrap().1[k]));
}

} // verus!
