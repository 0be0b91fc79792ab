//! Choosing how the extent of a response body is delimited.
use vstd::prelude::*;

use crate::header::{
    Headers, eq_ci, eq_ignore_case, trimmed, trim_copy, values_named, has_field,
    parse_length, parse_length_spec,
};

verus! {

/// How the body of a response is delimited.
#[derive(Clone, Copy, Debug, PartialEq, Eq, Structural)]
pub enum Framing {
    /// Chunked transfer coding, ended by a chunk of size zero.
    Chunked,
    /// Exactly this many bytes.
    FixedLength(u64),
    /// Everything up to the end of the stream.
    ReadToClose,
}

/// `transfer-encoding`
pub open spec fn te_name() -> Seq<u8> {
    seq![0x74u8, 0x72, 0x61, 0x6e, 0x73, 0x66, 0x65, 0x72, 0x2d, 0x65, 0x6e, 0x63, 0x6f, 0x64, 0x69, 0x6e, 0x67]
}

/// `content-length`
pub open spec fn cl_name() -> Seq<u8> {
    seq![0x63u8, 0x6f, 0x6e, 0x74, 0x65, 0x6e, 0x74, 0x2d, 0x6c, 0x65, 0x6e, 0x67, 0x74, 0x68]
}

/// `chunked`
pub open spec fn chunked_name() -> Seq<u8> {
    seq![0x63u8, 0x68, 0x75, 0x6e, 0x6b, 0x65, 0x64]
}

/// Whether one of the comma-separated codings of `v` from the one that starts
/// at `seg` on, scanning from `i`, is `chunked` (ignoring case and surrounding
/// spaces and tabs).
pub open spec fn chunked_from(v: Seq<u8>, seg: nat, i: nat) -> bool
    decreases v.len() - i,
{
    if i >= v.len() {
        eq_ci(trimmed(v, seg, v.len()), chunked_name())
    } else if v[i as int] == 0x2c {
        eq_ci(trimmed(v, seg, i), chunked_name()) || chunked_from(v, i + 1, i + 1)
    } else {
        chunked_from(v, seg, i + 1)
    }
}

/// Whether the coding list `v` of a Transfer-Encoding field names `chunked`.
pub open spec fn has_chunked_coding(v: Seq<u8>) -> bool {
    chunked_from(v, 0, 0)
}

/// Whether one of the Transfer-Encoding values `vals` names `chunked`.
pub open spec fn any_chunked(vals: Seq<Seq<u8>>) -> bool {
    exists|j: int| 0 <= j < vals.len() && has_chunked_coding(#[trigger] vals[j])
}

/// The framing that a header set selects: Transfer-Encoding first (chunked if
/// it names `chunked`, else read to close), then Content-Length (which must be
/// a single valid length), else read to close. `None`: Content-Length is
/// present and unusable.
pub open spec fn framing_of(h: Seq<(Seq<u8>, Seq<u8>)>) -> Option<Framing> {
    let te = values_named(h, te_name());
    let cl = values_named(h, cl_name());
    if te.len() > 0 {
        if any_chunked(te) {
            Some(Framing::Chunked)
        } else {
            Some(Framing::ReadToClose)
        }
    } else if cl.len() > 0 {
        if cl.len() == 1 && parse_length_spec(cl[0]) is Some {
            Some(Framing::FixedLength(parse_length_spec(cl[0]).unwrap()))
        } else {
            None
        }
    } else {
        Some(Framing::ReadToClose)
    }
}

fn chunked_vec() -> (r: Vec<u8>)
    ensures
        r@ == chunked_name(),
{
    let r = vec![0x63u8, 0x68, 0x75, 0x6e, 0x6b, 0x65, 0x64];
    assert(r@ =~= chunked_name());
    r
}

fn te_vec() -> (r: Vec<u8>)
    ensures
        r@ == te_name(),
{
    let r = vec![0x74u8, 0x72, 0x61, 0x6e, 0x73, 0x66, 0x65, 0x72, 0x2d, 0x65, 0x6e, 0x63, 0x6f, 0x64, 0x69, 0x6e, 0x67];
    assert(r@ =~= te_name());
    r
}

fn cl_vec() -> (r: Vec<u8>)
    ensures
        r@ == cl_name(),
{
    let r = vec![0x63u8, 0x6f, 0x6e, 0x74, 0x65, 0x6e, 0x74, 0x2d, 0x6c, 0x65, 0x6e, 0x67, 0x74, 0x68];
    assert(r@ =~= cl_name());
    r
}

/// Whether a Transfer-Encoding value names the `chunked` coding.
pub fn names_chunked(v: &Vec<u8>) -> (r: bool)
    ensures
        r == has_chunked_coding(v@),
{
    let c = chunked_vec();
    let mut seg: usize = 0;
    let mut i: usize = 0;
    while i < v.len()
        invariant
            seg <= i <= v.len(),
            c@ == chunked_name(),
            has_chunked_coding(v@) == chunked_from(v@, seg as nat, i as nat),
        decreases v.len() - i,
    {
        if v[i] == 0x2c {
            let t = trim_copy(v, seg, i);
            if eq_ignore_case(&t, &c) {
                return true;
            }
            seg = i + 1;
        }
        i = i + 1;
    }
    let t = trim_copy(v, seg, v.len());
    eq_ignore_case(&t, &c)
}

/// Chooses the framing of a response body from its header fields; `None`
/// when Content-Length is present but is not a single valid length.
pub fn select_framing(h: &Headers) -> (r: Option<Framing>)
    ensures
        r == framing_of(h@),
{
    let te = te_vec();
    let cl = cl_vec();
    let mut te_seen = false;
    let mut chunked = false;
    let mut cl_count: usize = 0;
    let mut cl_len: Option<u64> = None;
    let mut i: usize = 0;
    while i < h.len()
        invariant
            i <= h@.len(),
            te@ == te_name(),
            cl@ == cl_name(),
            te_seen == (values_named(h@.take(i as int), te_name()).len() > 0),
            chunked == any_chunked(values_named(h@.take(i as int), te_name())),
            cl_count == if values_named(h@.take(i as int), cl_name()).len() >= 2 {
                2
            } else {
                values_named(h@.take(i as int), cl_name()).len()
            },
            cl_count > 0 ==> cl_len == parse_length_spec(
                values_named(h@.take(i as int), cl_name())[0],
            ),
        decreases h@.len() - i,
    {
        let (n, v) = h.entry(i);
        let ghost pre = h@.take(i as int);
        assert(h@.take((i + 1) as int).drop_last() =~= pre);
        let ghost tv = values_named(pre, te_name());
        if eq_ignore_case(n, &te) {
            let c = names_chunked(v);
            proof {
                let nv = values_named(h@.take((i + 1) as int), te_name());
                assert(nv == tv.push(v@));
                if chunked {
                    let j = choose|j: int| 0 <= j < tv.len() && has_chunked_coding(#[trigger] tv[j]);
                    assert(nv[j] == tv[j]);
                }
                if c {
                    assert(nv[tv.len() as int] == v@);
                }
                if any_chunked(nv) && !chunked {
                    let j = choose|j: int| 0 <= j < nv.len() && has_chunked_coding(#[trigger] nv[j]);
                    if j < tv.len() {
                        assert(nv[j] == tv[j]);
                    }
                }
            }
            chunked = chunked || c;
            te_seen = true;
        }
        if eq_ignore_case(n, &cl) {
            if cl_count == 0 {
                cl_len = parse_length(v);
            }
            if cl_count < 2 {
                cl_count = cl_count + 1;
            }
        }
        i = i + 1;
    }
    assert(h@.take(i as int) =~= h@);
    if te_seen {
        if chunked {
            Some(Framing::Chunked)
        } else {
            Some(Framing::ReadToClose)
        }
    } else if cl_count > 0 {
        if cl_count == 1 {
            match cl_len {
                Some(n) => Some(Framing::FixedLength(n)),
                None => None,
            }
        } else {
            None
        }
    } else {
        Some(Framing::ReadToClose)
    }
}

} // verus!

verus! {

/// With no Transfer-Encoding and a single valid Content-Length of `n`, the
/// body is exactly `n` bytes long.
pub proof fn lemma_content_length_selects_fixed(
    h: Seq<(Seq<u8>, Seq<u8>)>,
    v: Seq<u8>,
    n: u64,
)
    requires
        values_named(h, te_name()).len() == 0,
        values_named(h, cl_name()) == seq![v],
        parse_length_spec(v) == Some(n),
    ensures
        framing_of(h) == Some(Framing::FixedLength(n)),
{
    assert(values_named(h, cl_name())[0] == v);
}

/// A Transfer-Encoding that names `chunked` selects the chunked framing,
/// whatever other codings or Content-Length fields are present.
pub proof fn lemma_chunked_takes_precedence(h: Seq<(Seq<u8>, Seq<u8>)>)
    requires
        any_chunked(values_named(h, te_name())),
    ensures
        framing_of(h) == Some(Framing::Chunked),
{
}

/// With neither Transfer-Encoding nor Content-Length, the body runs to the
/// end of the stream.
pub proof fn lemma_no_length_reads_to_close(h: Seq<(Seq<u8>, Seq<u8>)>)
    requires
        !has_field(h, te_name()),
        !has_field(h, cl_name()),
    ensures
        framing_of(h) == Some(Framing::ReadToClose),
{
}

} // verus!
