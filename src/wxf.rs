use crate::expr::{Expr, ExprKind, Normal, Term};
use flate2::write::ZlibEncoder;
use flate2::Compression;
use integer_encoding::VarInt;
use std::io::Write;
use vstd::prelude::*;
use vstd::utf8::encode_utf8;

verus! {

/// Base-128 encoding of `n`: seven bits per byte, lowest group first, the high
/// bit set on every byte but the last.
pub open spec fn varint(n: nat) -> Seq<u8>
    decreases n,
{
    if n < 128 {
        seq![n as u8]
    } else {
        seq![(128 + n % 128) as u8] + varint(n / 128)
    }
}

/// The eight bytes of `x`, least significant first.
pub open spec fn le_bytes(x: u64) -> Seq<u8> {
    Seq::new(8, |i: int| ((x >> ((8 * i) as u64)) & 0xffu64) as u8)
}

/// A length-prefixed run of UTF-8 text after the tag byte `tag`.
pub open spec fn wxf_text(tag: u8, s: Seq<char>) -> Seq<u8> {
    seq![tag] + varint(encode_utf8(s).len()) + encode_utf8(s)
}

/// The encoding of one term, tag byte first.
pub open spec fn wxf_term(t: Term) -> Seq<u8>
    decreases t,
{
    match t {
        Term::Integer(n) => seq![76u8] + le_bytes(n as u64),
        Term::Real(bits) => seq![114u8] + le_bytes(bits),
        Term::Str(s) => wxf_text(83u8, s),
        Term::Sym(s) => wxf_text(115u8, s),
        Term::Apply(h, args) => seq![102u8] + varint(args.len()) + wxf_term(*h) + wxf_terms(args),
    }
}

/// The encodings of a sequence of terms, one after the other.
pub open spec fn wxf_terms(ts: Seq<Term>) -> Seq<u8>
    decreases ts,
{
    if ts.len() == 0 {
        seq![]
    } else {
        wxf_terms(ts.drop_last()) + wxf_term(ts.last())
    }
}

/// The header of an uncompressed stream: `8:`.
pub open spec fn plain_header() -> Seq<u8> {
    seq![56u8, 58u8]
}

/// The header of a compressed stream: `8C:`.
pub open spec fn compressed_header() -> Seq<u8> {
    seq![56u8, 67u8, 58u8]
}

/// The uncompressed stream of a term: the header, then the term's encoding.
pub open spec fn wxf_stream(t: Term) -> Seq<u8> {
    plain_header() + wxf_term(t)
}

/// What flate2's zlib encoder at level 9 turns `data` into.
pub uninterp spec fn zlib_best(data: Seq<u8>) -> Seq<u8>;

/// Whether flate2's zlib encoder at level 9 succeeds on `data`; whether it
/// fails depends on the bytes alone.
pub uninterp spec fn zlib_ok(data: Seq<u8>) -> bool;

/// Relies on integer_encoding's `VarInt::encode_var_vec` for `usize`: base-128
/// groups, lowest first, the high bit set on all bytes but the last.
#[verifier::external_body]
fn encode_varint(n: usize) -> (r: Vec<u8>)
    ensures
        r@ == varint(n as nat),
{
    n.encode_var_vec()
}

/// Relies on flate2's `ZlibEncoder` at `Compression::new(9)`, writing into a
/// `Vec`: `write_all` of `data`, then `finish`. `None` where either reports an
/// error.
#[verifier::external_body]
fn zlib_compress(data: &[u8]) -> (r: Option<Vec<u8>>)
    ensures
        r is Some <==> zlib_ok(data@),
        r matches Some(b) ==> b@ == zlib_best(data@),
{
    let mut e = ZlibEncoder::new(Vec::new(), Compression::new(9));
    match e.write_all(data) {
        Ok(_) => {},
        Err(_) => return None,
    }
    match e.finish() {
        Ok(o) => Some(o),
        Err(_) => None,
    }
}

proof fn lemma_terms_step(ts: Seq<Term>, i: int)
    requires
        0 <= i < ts.len(),
    ensures
        wxf_terms(ts.take(i + 1)) == wxf_terms(ts.take(i)) + wxf_term(ts[i]),
{
    assert(ts.take(i + 1).drop_last() =~= ts.take(i));
}

fn push_le(out: &mut Vec<u8>, x: u64)
    ensures
        final(out)@ == old(out)@ + le_bytes(x),
{
    let ghost start = out@;
    let mut k: u64 = 0;
    while k < 8
        invariant
            k <= 8,
            out@ == start + le_bytes(x).take(k as int),
        decreases 8 - k,
    {
        out.push(((x >> (8 * k)) & 0xffu64) as u8);
        k = k + 1;
        assert(out@ =~= start + le_bytes(x).take(k as int));
    }
    assert(le_bytes(x).take(8) =~= le_bytes(x));
}

fn push_text(out: &mut Vec<u8>, tag: u8, s: &str)
    ensures
        final(out)@ == old(out)@ + wxf_text(tag, s@),
{
    let bytes = s.as_bytes();
    let len = encode_varint(bytes.len());
    out.push(tag);
    out.extend_from_slice(len.as_slice());
    out.extend_from_slice(bytes);
    assert(final(out)@ =~= old(out)@ + wxf_text(tag, s@));
}

impl Expr {
    /// The uncompressed WXF stream of this expression: `8:`, then the
    /// expression's encoding.
    pub fn as_wxf(&self) -> (r: Vec<u8>)
        ensures
            r@ == wxf_stream(self@),
    {
        let mut out: Vec<u8> = Vec::new();
        out.push(56u8);
        out.push(58u8);
        self.write_internal(&mut out);
        assert(out@ =~= wxf_stream(self@));
        out
    }

    /// The compressed WXF stream of this expression: `8C:`, then the zlib
    /// compression of the expression's encoding. `None`, and no bytes at all,
    /// exactly where the compressor reports an error.
    pub fn as_wxf_compressed(&self) -> (r: Option<Vec<u8>>)
        ensures
            r is Some <==> zlib_ok(wxf_term(self@)),
            r matches Some(b) ==> b@ == compressed_header() + zlib_best(wxf_term(self@)),
    {
        let mut input: Vec<u8> = Vec::new();
        self.write_internal(&mut input);
        assert(input@ =~= wxf_term(self@));
        match zlib_compress(input.as_slice()) {
            Some(packed) => Some(frame_compressed(packed.as_slice())),
            None => None,
        }
    }

    /// Appends the encoding of this expression to `out`.
    pub fn write_internal(&self, out: &mut Vec<u8>)
        ensures
            final(out)@ == old(out)@ + wxf_term(self@),
        decreases self,
    {
        match &*self.inner {
            ExprKind::Integer(n) => {
                out.push(76u8);
                push_le(out, *n as u64);
            },
            ExprKind::Real(x) => {
                out.push(114u8);
                push_le(out, x.to_bits());
            },
            ExprKind::String(s) => {
                push_text(out, 83u8, s.as_str());
            },
            ExprKind::Symbol(s) => {
                push_text(out, 115u8, s.as_str());
            },
            ExprKind::Normal(fx) => {
                fx.write_internal(out);
            },
        }
        assert(final(out)@ =~= old(out)@ + wxf_term(self@));
    }
}

/// A compressed stream from the compressed encoding `packed`: `8C:`, then
/// `packed`.
pub fn frame_compressed(packed: &[u8]) -> (r: Vec<u8>)
    ensures
        r@ == compressed_header() + packed@,
{
    let mut out: Vec<u8> = Vec::new();
    out.push(56u8);
    out.push(67u8);
    out.push(58u8);
    out.extend_from_slice(packed);
    assert(out@ =~= compressed_header() + packed@);
    out
}

impl Normal {
    /// Appends the encoding of this normal expression to `out`: `f`, the
    /// element count, the head, then each element.
    pub fn write_internal(&self, out: &mut Vec<u8>)
        ensures
            final(out)@ == old(out)@ + wxf_term(self@),
        decreases self,
    {
        proof {
            self.lemma_view();
        }
        let ghost args = crate::expr::terms(self.contents@);
        out.push(102u8);
        let count = encode_varint(self.contents.len());
        out.extend_from_slice(count.as_slice());
        self.head.write_internal(out);
        let ghost start = out@;
        let mut i: usize = 0;
        while i < self.contents.len()
            invariant
                i <= self.contents.len(),
                args == crate::expr::terms(self.contents@),
                out@ == start + wxf_terms(args.take(i as int)),
            decreases self.contents.len() - i,
        {
            proof {
                lemma_terms_step(args, i as int);
            }
            self.contents[i].write_internal(out);
            i = i + 1;
            assert(out@ =~= start + wxf_terms(args.take(i as int)));
        }
        assert(args.take(i as int) =~= args);
        assert(final(out)@ =~= old(out)@ + wxf_term(self@));
    }
}

/// Encoding is deterministic: two trees with the same value, whether or not
/// they share storage, encode to the same bytes, so encoding one tree twice
/// gives the same stream twice.
pub proof fn encoding_is_deterministic(a: Expr, b: Expr)
    requires
        a@ == b@,
    ensures
        wxf_stream(a@) == wxf_stream(b@),
        wxf_term(a@) == wxf_term(b@),
{
}

} // verus!
