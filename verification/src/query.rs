use vstd::prelude::*;
use crate::layout::NttLayout;
use crate::le_bytes::{
    append_u32_le, append_words_le, le_bytes_words, read_u32_field, read_u32_le, read_words_le,
    u32_field, words_le_bytes, lemma_u32_field, lemma_words_le_bytes_len,
};

verus! {

/// One condensed public parameter of a query: a `rows x cols` polynomial
/// matrix in NTT form, kept as its raw `u64` words.
#[derive(Debug)]
pub struct PubParamMatrix {
    pub rows: usize,
    pub cols: usize,
    pub data: Vec<u64>,
}

/// The mathematical value of a [`PubParamMatrix`].
pub struct PubParamView {
    pub rows: usize,
    pub cols: usize,
    pub data: Seq<u64>,
}

impl View for PubParamMatrix {
    type V = PubParamView;

    open spec fn view(&self) -> PubParamView {
        PubParamView { rows: self.rows, cols: self.cols, data: self.data@ }
    }
}

/// The views of a sequence of public parameters.
pub open spec fn pub_param_views(ps: Seq<PubParamMatrix>) -> Seq<PubParamView> {
    ps.map_values(|p: PubParamMatrix| p@)
}

// ---------------------------------------------------------------------------
// The wire format, as bytes.
//
//   [u32 LE] number of packed query words N
//   [N x u64 LE] packed query words
//   [u32 LE] number of public parameters M
//   M times: [u32 LE] rows, [u32 LE] cols, [u32 LE] word count W, [W x u64 LE] words
//
// Every count, `rows` and `cols` is written truncated to 32 bits.
// ---------------------------------------------------------------------------

/// The encoding of one public parameter.
pub open spec fn pub_param_bytes(p: PubParamView) -> Seq<u8> {
    u32_field(p.rows as u32) + u32_field(p.cols as u32) + u32_field(p.data.len() as u32)
        + words_le_bytes(p.data)
}

/// The encodings of the public parameters, one after another.
pub open spec fn pub_params_bytes(ps: Seq<PubParamView>) -> Seq<u8>
    decreases ps.len(),
{
    if ps.len() == 0 {
        Seq::empty()
    } else {
        pub_params_bytes(ps.drop_last()) + pub_param_bytes(ps.last())
    }
}

/// The encoding of a query: its packed words, then its public parameters.
pub open spec fn query_bytes(packed: Seq<u64>, ps: Seq<PubParamView>) -> Seq<u8> {
    u32_field(packed.len() as u32) + words_le_bytes(packed) + u32_field(ps.len() as u32)
        + pub_params_bytes(ps)
}

/// Reads one public parameter from the front of `b`: the parameter and the
/// number of bytes it takes, or `None` when `b` is too short for it.
pub open spec fn parse_pub_param(b: Seq<u8>) -> Option<(PubParamView, int)> {
    if b.len() < 12 {
        None
    } else {
        let rows = read_u32_field(b);
        let cols = read_u32_field(b.subrange(4, b.len() as int));
        let n = read_u32_field(b.subrange(8, b.len() as int));
        if 12 + 8 * n > b.len() {
            None
        } else {
            Some(
                (
                    PubParamView {
                        rows: rows as usize,
                        cols: cols as usize,
                        data: le_bytes_words(b.subrange(12, b.len() as int), n as nat),
                    },
                    12 + 8 * n,
                ),
            )
        }
    }
}

/// Reads `count` public parameters from the front of `b`, with the number
/// of bytes they take.
pub open spec fn parse_pub_params(b: Seq<u8>, count: nat) -> Option<(Seq<PubParamView>, int)>
    decreases count,
{
    if count == 0 {
        Some((Seq::empty(), 0))
    } else {
        match parse_pub_params(b, (count - 1) as nat) {
            Some((ps, k)) => match parse_pub_param(b.subrange(k, b.len() as int)) {
                Some((p, m)) => Some((ps.push(p), k + m)),
                None => None,
            },
            None => None,
        }
    }
}

/// Reads a query from the front of `b`: its packed words, its public
/// parameters and the number of bytes it takes. Bytes after it are not read.
pub open spec fn parse_query(b: Seq<u8>) -> Option<(Seq<u64>, Seq<PubParamView>, int)> {
    if b.len() < 4 {
        None
    } else {
        let n = read_u32_field(b);
        if 8 + 8 * n > b.len() {
            None
        } else {
            let packed = le_bytes_words(b.subrange(4, b.len() as int), n as nat);
            let count = read_u32_field(b.subrange(4 + 8 * n, b.len() as int));
            match parse_pub_params(b.subrange(8 + 8 * n, b.len() as int), count as nat) {
                Some((ps, k)) => Some((packed, ps, 8 + 8 * n + k)),
                None => None,
            }
        }
    }
}

/// Whether a public parameter has the word count of its shape under `layout`.
pub open spec fn fits_layout(layout: NttLayout, p: PubParamView) -> bool {
    &&& layout.ntt_words_fit(p.rows as int, p.cols as int)
    &&& p.data.len() == layout.spec_ntt_words(p.rows as int, p.cols as int)
}

/// Whether every public parameter fits `layout`.
pub open spec fn all_fit_layout(layout: NttLayout, ps: Seq<PubParamView>) -> bool {
    forall|i: int| 0 <= i < ps.len() ==> #[trigger] fits_layout(layout, ps[i])
}

/// The query that `b` holds for `layout`, or `None` where `b` is cut short or
/// a public parameter's word count is not that of its shape.
pub open spec fn spec_deserialize_query(layout: NttLayout, b: Seq<u8>) -> Option<
    (Seq<u64>, Seq<PubParamView>),
> {
    match parse_query(b) {
        Some((packed, ps, _)) => if all_fit_layout(layout, ps) {
            Some((packed, ps))
        } else {
            None
        },
        None => None,
    }
}

/// A successful read of `count` parameters starts with a successful read of
/// the first `i` of them, which yields their prefix.
pub proof fn lemma_parse_pub_params_prefix(b: Seq<u8>, i: nat, count: nat)
    requires
        i <= count,
        parse_pub_params(b, count) is Some,
    ensures
        parse_pub_params(b, i) is Some,
        parse_pub_params(b, i).unwrap().0 == parse_pub_params(b, count).unwrap().0.take(i as int),
        parse_pub_params(b, count).unwrap().0.len() == count,
    decreases count,
{
    if count > 0 {
        let (ps, k) = parse_pub_params(b, (count - 1) as nat).unwrap();
        if i < count {
            lemma_parse_pub_params_prefix(b, i, (count - 1) as nat);
            let full = parse_pub_params(b, count).unwrap().0;
            assert(full.take(i as int) =~= ps.take(i as int));
        } else {
            lemma_parse_pub_params_prefix(b, (count - 1) as nat, (count - 1) as nat);
            assert(parse_pub_params(b, count).unwrap().0.take(i as int) =~= parse_pub_params(
                b,
                count,
            ).unwrap().0);
        }
    }
}

/// The bytes a successful read of `count` parameters takes lie within `b`.
pub proof fn lemma_parse_pub_params_len(b: Seq<u8>, count: nat)
    requires
        parse_pub_params(b, count) is Some,
    ensures
        0 <= parse_pub_params(b, count).unwrap().1 <= b.len(),
    decreases count,
{
    if count > 0 {
        lemma_parse_pub_params_len(b, (count - 1) as nat);
    }
}

/// Serializes a query (its packed words and its condensed public parameters)
/// into the length-prefixed wire format.
pub fn serialize_query(packed_query: &[u64], pub_params: &[PubParamMatrix]) -> (out: Vec<u8>)
    ensures
        out@ == query_bytes(packed_query@, pub_param_views(pub_params@)),
{
    let ghost views = pub_param_views(pub_params@);
    let mut out: Vec<u8> = Vec::new();
    append_u32_le(&mut out, packed_query.len() as u32);
    append_words_le(&mut out, packed_query);
    append_u32_le(&mut out, pub_params.len() as u32);
    let ghost header = out@;
    let mut i: usize = 0;
    assert(views.subrange(0, 0) =~= Seq::<PubParamView>::empty());
    assert(header + pub_params_bytes(Seq::<PubParamView>::empty()) =~= header);
    while i < pub_params.len()
        invariant
            i <= pub_params.len(),
            views == pub_param_views(pub_params@),
            header == u32_field(packed_query@.len() as u32) + words_le_bytes(packed_query@)
                + u32_field(pub_params@.len() as u32),
            out@ == header + pub_params_bytes(views.subrange(0, i as int)),
        decreases pub_params.len() - i,
    {
        let pp = &pub_params[i];
        let ghost before = out@;
        append_u32_le(&mut out, pp.rows as u32);
        append_u32_le(&mut out, pp.cols as u32);
        append_u32_le(&mut out, pp.data.len() as u32);
        append_words_le(&mut out, pp.data.as_slice());
        proof {
            let s = views.subrange(0, i + 1);
            assert(s.drop_last() =~= views.subrange(0, i as int));
            assert(s.last() == pp@);
            assert(out@ =~= before + pub_param_bytes(pp@));
            assert(out@ =~= header + pub_params_bytes(s));
        }
        i = i + 1;
    }
    assert(views.subrange(0, pub_params.len() as int) =~= views);
    out
}

/// Reads the public parameter stored at `bytes[off..]` and checks its word
/// count against `layout`: the parameter and the bytes it takes, or `None`
/// where the bytes are cut short or the count is not that of its shape.
fn decode_pub_param(layout: &NttLayout, bytes: &[u8], off: usize) -> (res: Option<
    (PubParamMatrix, usize),
>)
    requires
        off <= bytes@.len(),
    ensures
        ({
            let b = bytes@.subrange(off as int, bytes@.len() as int);
            match res {
                Some((p, m)) => parse_pub_param(b) == Some((p@, m as int)) && fits_layout(
                    *layout,
                    p@,
                ),
                None => !(parse_pub_param(b) is Some && fits_layout(
                    *layout,
                    parse_pub_param(b).unwrap().0,
                )),
            }
        }),
{
    let len = bytes.len();
    let ghost b = bytes@.subrange(off as int, bytes@.len() as int);
    if len - off < 12 {
        return None;
    }
    assert(b.subrange(4, b.len() as int) =~= bytes@.subrange(off + 4, bytes@.len() as int));
    assert(b.subrange(8, b.len() as int) =~= bytes@.subrange(off + 8, bytes@.len() as int));
    assert(b.subrange(12, b.len() as int) =~= bytes@.subrange(off + 12, bytes@.len() as int));
    let rows = read_u32_le(bytes, off) as usize;
    let cols = read_u32_le(bytes, off + 4) as usize;
    let n = read_u32_le(bytes, off + 8) as usize;
    let words = match layout.ntt_words(rows, cols) {
        Some(w) => w,
        None => return None,
    };
    if n != words {
        return None;
    }
    if n > (len - off - 12) / 8 {
        return None;
    }
    let data = read_words_le(bytes, off + 12, n);
    Some((PubParamMatrix { rows, cols, data }, 12 + 8 * n))
}

/// Reads a query from `bytes` and checks each public parameter's word count
/// against `layout`. Returns `None` exactly where the bytes are cut short or
/// a word count is not that of its parameter's shape; bytes after the query
/// are not read.
pub fn decode_query(layout: &NttLayout, bytes: &[u8]) -> (res: Option<(Vec<u64>, Vec<PubParamMatrix>)>)
    ensures
        match res {
            Some((packed, ps)) => spec_deserialize_query(*layout, bytes@) == Some(
                (packed@, pub_param_views(ps@)),
            ),
            None => spec_deserialize_query(*layout, bytes@) is None,
        },
        res matches Some((packed, ps)) ==> forall|k: int|
            0 <= k < ps@.len() ==> (#[trigger] ps@[k]).data@.len() == ps@[k].rows * ps@[k].cols
                * layout.poly_len * layout.crt_count,
{
    let len = bytes.len();
    if len < 8 {
        return None;
    }
    let n = read_u32_le(bytes, 0) as usize;
    assert(bytes@.subrange(0, bytes@.len() as int) =~= bytes@);
    if n > (len - 8) / 8 {
        return None;
    }
    let packed = read_words_le(bytes, 4, n);
    let count = read_u32_le(bytes, 4 + 8 * n) as usize;
    let base: usize = 8 + 8 * n;
    let ghost tail = bytes@.subrange(base as int, bytes@.len() as int);
    let mut off: usize = base;
    let mut ps: Vec<PubParamMatrix> = Vec::new();
    let mut i: usize = 0;
    assert(pub_param_views(ps@) =~= Seq::<PubParamView>::empty());
    while i < count
        invariant
            i <= count,
            len == bytes@.len(),
            n == read_u32_field(bytes@),
            8 + 8 * n <= len,
            base == 8 + 8 * n,
            count == read_u32_field(bytes@.subrange(4 + 8 * n, bytes@.len() as int)),
            packed@ == le_bytes_words(bytes@.subrange(4, bytes@.len() as int), n as nat),
            base <= off <= len,
            tail == bytes@.subrange(base as int, bytes@.len() as int),
            parse_pub_params(tail, i as nat) == Some((pub_param_views(ps@), off - base)),
            all_fit_layout(*layout, pub_param_views(ps@)),
        decreases count - i,
    {
        let ghost k = off - base;
        assert(tail.subrange(k, tail.len() as int) =~= bytes@.subrange(off as int, bytes@.len() as int));
        match decode_pub_param(layout, bytes, off) {
            Some((p, m)) => {
                let ghost old_views = pub_param_views(ps@);
                ps.push(p);
                assert(pub_param_views(ps@) =~= old_views.push(p@));
                off = off + m;
            },
            None => {
                proof {
                    if parse_pub_params(tail, count as nat) is Some {
                        lemma_parse_pub_params_prefix(tail, (i + 1) as nat, count as nat);
                        let full = parse_pub_params(tail, count as nat).unwrap().0;
                        let pre = parse_pub_params(tail, (i + 1) as nat).unwrap().0;
                        let b = tail.subrange(k, tail.len() as int);
                        assert(parse_pub_param(b) is Some);
                        assert(pre == pub_param_views(ps@).push(parse_pub_param(b).unwrap().0));
                        assert(pre[i as int] == full[i as int]);
                        assert(!fits_layout(*layout, full[i as int]));
                    }
                }
                return None;
            },
        }
        i = i + 1;
    }
    proof {
        assert forall|k: int| 0 <= k < ps@.len() implies (#[trigger] ps@[k]).data@.len()
            == ps@[k].rows * ps@[k].cols * layout.poly_len * layout.crt_count by {
            assert(pub_param_views(ps@)[k] == ps@[k]@);
            assert(fits_layout(*layout, pub_param_views(ps@)[k]));
        }
    }
    Some((packed, ps))
}

/// Deserializes query bytes (as written by [`serialize_query`]) into the
/// packed query words and the condensed public parameters, whose word counts
/// are those of their shapes under `params`.
pub fn deserialize_query(params: &NttLayout, query_bytes: &[u8]) -> (res: (
    Vec<u64>,
    Vec<PubParamMatrix>,
))
    requires
        spec_deserialize_query(*params, query_bytes@) is Some,
    ensures
        spec_deserialize_query(*params, query_bytes@) == Some(
            (res.0@, pub_param_views(res.1@)),
        ),
        forall|k: int|
            0 <= k < res.1@.len() ==> (#[trigger] res.1@[k]).data@.len() == res.1@[k].rows
                * res.1@[k].cols * params.poly_len * params.crt_count,
{
    match decode_query(params, query_bytes) {
        Some(r) => r,
        None => {
            proof {
                assert(false);
            }
            (Vec::new(), Vec::new())
        },
    }
}

} // verus!
