use crate::expr::{terms, Expr, Term};
use crate::number::{is_nan_bits, Number, F64};
use crate::symbol::Symbol;
use crate::wxf::{le_bytes, varint, wxf_stream, wxf_term, wxf_terms};
use vstd::prelude::*;
use vstd::slice::slice_subrange;
use vstd::utf8::{encode_utf8, encode_utf8_decode_utf8, encode_utf8_valid_utf8, valid_utf8};

verus! {

/// Whether `x` stands in `b` from position `pos` on.
pub open spec fn is_prefix_at(x: Seq<u8>, b: Seq<u8>, pos: int) -> bool {
    0 <= pos && pos + x.len() <= b.len() && b.subrange(pos, pos + x.len()) == x
}

proof fn lemma_varint_first(n: nat)
    ensures
        varint(n).len() >= 1,
        n < 128 ==> varint(n) == seq![n as u8],
        n >= 128 ==> varint(n)[0] == (128 + n % 128) as u8 && varint(n)[0] >= 128,
        n >= 128 ==> varint(n).drop_first() == varint(n / 128),
{
    if n >= 128 {
        assert((seq![(128 + n % 128) as u8] + varint(n / 128)).drop_first() =~= varint(n / 128));
    }
}

proof fn lemma_varint_len(n: nat, k: nat)
    requires
        n < pow128(k),
        k >= 1,
    ensures
        varint(n).len() <= k,
    decreases k,
{
    lemma_varint_first(n);
    if n >= 128 {
        assert(k > 1) by {
            if k == 1 {
                assert(pow128(1) == 128 * pow128(0));
            }
        }
        assert(n / 128 < pow128((k - 1) as nat)) by (nonlinear_arith)
            requires
                n < pow128(k),
                pow128(k) == 128 * pow128((k - 1) as nat),
        ;
        lemma_varint_len(n / 128, (k - 1) as nat);
    }
}

spec fn pow128(k: nat) -> nat
    decreases k,
{
    if k == 0 {
        1
    } else {
        128 * pow128((k - 1) as nat)
    }
}

/// Two varints that both stand at one position of `b` are the same number.
proof fn lemma_varint_unique(a: nat, c: nat, b: Seq<u8>, pos: int)
    requires
        is_prefix_at(varint(a), b, pos),
        is_prefix_at(varint(c), b, pos),
    ensures
        a == c,
    decreases a,
{
    lemma_varint_first(a);
    lemma_varint_first(c);
    assert(b[pos] == varint(a)[0]);
    assert(b[pos] == varint(c)[0]);
    if a >= 128 && c >= 128 {
        assert(is_prefix_at(varint(a / 128), b, pos + 1)) by {
            assert(b.subrange(pos + 1, pos + 1 + varint(a / 128).len()) =~= varint(a).drop_first());
        }
        assert(is_prefix_at(varint(c / 128), b, pos + 1)) by {
            assert(b.subrange(pos + 1, pos + 1 + varint(c / 128).len()) =~= varint(c).drop_first());
        }
        lemma_varint_unique(a / 128, c / 128, b, pos + 1);
        assert(a % 128 == c % 128);
        assert(a == 128 * (a / 128) + a % 128) by (nonlinear_arith);
        assert(c == 128 * (c / 128) + c % 128) by (nonlinear_arith);
    }
}

/// Reads a base-128 number at `pos` that takes at most `budget` bytes.
fn read_varint_within(b: &[u8], pos: usize, budget: usize) -> (r: Option<(usize, usize)>)
    requires
        pos <= b@.len(),
    ensures
        match r {
            Some((n, next)) => pos < next <= b@.len() && b@.subrange(pos as int, next as int)
                == varint(n as nat),
            None => forall|n: nat|
                n <= usize::MAX && varint(n).len() <= budget ==> !is_prefix_at(
                    #[trigger] varint(n),
                    b@,
                    pos as int,
                ),
        },
    decreases budget,
{
    if budget == 0 || pos >= b.len() {
        proof {
            assert forall|n: nat|
                n <= usize::MAX && varint(n).len() <= budget implies !is_prefix_at(
                #[trigger] varint(n),
                b@,
                pos as int,
            ) by {
                lemma_varint_first(n);
            }
        }
        return None;
    }
    let byte = b[pos];
    if byte < 128 {
        proof {
            lemma_varint_first(byte as nat);
            assert(b@.subrange(pos as int, pos + 1) =~= seq![byte]);
        }
        return Some((byte as usize, pos + 1));
    }
    let low: usize = (byte - 128) as usize;
    let rest = read_varint_within(b, pos + 1, budget - 1);
    proof {
        assert forall|n: nat| n < 128 implies !is_prefix_at(#[trigger] varint(n), b@, pos as int) by {
            lemma_varint_first(n);
            if is_prefix_at(varint(n), b@, pos as int) {
                assert(b@[pos as int] == varint(n)[0]);
            }
        }
        assert forall|n: nat|
            n >= 128 && is_prefix_at(#[trigger] varint(n), b@, pos as int) implies is_prefix_at(
            varint(n / 128),
            b@,
            pos + 1,
        ) && low == n % 128 && varint(n / 128).len() + 1 == varint(n).len() by {
            lemma_varint_first(n);
            assert(b@[pos as int] == varint(n)[0]);
            assert(b@.subrange(pos + 1, pos + 1 + varint(n / 128).len()) =~= varint(n).drop_first());
        }
    }
    match rest {
        None => {
            proof {
                assert forall|n: nat|
                    n <= usize::MAX && varint(n).len() <= budget implies !is_prefix_at(
                    #[trigger] varint(n),
                    b@,
                    pos as int,
                ) by {
                    if n >= 128 && is_prefix_at(varint(n), b@, pos as int) {
                        assert(n / 128 <= usize::MAX);
                        assert(!is_prefix_at(varint(n / 128), b@, pos + 1));
                    }
                }
            }
            None
        },
        Some((m, next)) => {
            if m == 0 || m > (usize::MAX - low) / 128 {
                proof {
                    assert forall|n: nat|
                        n <= usize::MAX && varint(n).len() <= budget implies !is_prefix_at(
                        #[trigger] varint(n),
                        b@,
                        pos as int,
                    ) by {
                        if n >= 128 && is_prefix_at(varint(n), b@, pos as int) {
                            assert(is_prefix_at(varint(m as nat), b@, pos + 1));
                            lemma_varint_unique(m as nat, n / 128, b@, pos + 1);
                            assert(n == 128 * (n / 128) + n % 128) by (nonlinear_arith);
                            assert(n / 128 >= 1);
                            assert(m <= (usize::MAX - low) / 128) by (nonlinear_arith)
                                requires
                                    n == 128 * m + low,
                                    n <= usize::MAX,
                                    low < 128,
                            ;
                        }
                    }
                }
                None
            } else {
                let n: usize = low + 128 * m;
                proof {
                    assert(128 * m <= usize::MAX - low) by (nonlinear_arith)
                        requires
                            m <= (usize::MAX - low) / 128,
                            low <= usize::MAX,
                    ;
                    assert(n as nat / 128 == m as nat && n as nat % 128 == low as nat) by (nonlinear_arith)
                        requires
                            n == low + 128 * m,
                            low < 128,
                    ;
                    lemma_varint_first(n as nat);
                    assert(b@.subrange(pos as int, next as int) =~= seq![byte] + b@.subrange(
                        pos + 1,
                        next as int,
                    ));
                    assert(varint(n as nat) =~= seq![byte] + varint(m as nat));
                }
                Some((n, next))
            }
        },
    }
}

/// Reads a base-128 number at `pos`.
fn read_varint(b: &[u8], pos: usize) -> (r: Option<(usize, usize)>)
    requires
        pos <= b@.len(),
    ensures
        match r {
            Some((n, next)) => pos < next <= b@.len() && b@.subrange(pos as int, next as int)
                == varint(n as nat),
            None => forall|n: nat|
                n <= usize::MAX ==> !is_prefix_at(#[trigger] varint(n), b@, pos as int),
        },
{
    let r = read_varint_within(b, pos, 10);
    proof {
        reveal_with_fuel(pow128, 11);
        assert forall|n: nat| n <= usize::MAX implies #[trigger] varint(n).len() <= 10 by {
            lemma_varint_len(n, 10);
        }
    }
    r
}

/// Why a byte stream is not the WXF stream of an expression.
#[derive(Clone, Copy, Debug, PartialEq, Eq)]
pub enum DecodeError {
    /// The stream does not start with `8:`.
    BadHeader,
    /// The stream ends inside an expression.
    Truncated,
    /// The byte where an expression starts is no known tag.
    UnknownTag(u8),
    /// A length or an element count is not a well-formed base-128 number.
    BadLength,
    /// The bytes of a string or a symbol are not UTF-8.
    BadText,
    /// The bit pattern of a real is a NaN.
    NotANumber,
    /// Bytes follow the expression.
    TrailingBytes,
}

/// A term that an expression can have: no real in it is a NaN.
pub open spec fn term_wf(t: Term) -> bool
    decreases t,
{
    match t {
        Term::Real(bits) => !is_nan_bits(bits),
        Term::Apply(h, args) => term_wf(*h) && terms_wf(args),
        _ => true,
    }
}

/// Every term of `ts` is well formed.
pub open spec fn terms_wf(ts: Seq<Term>) -> bool
    decreases ts,
{
    if ts.len() == 0 {
        true
    } else {
        terms_wf(ts.drop_last()) && term_wf(ts.last())
    }
}

/// Relies on `std::str::from_utf8`: the text whose UTF-8 bytes are `b`, where
/// `b` is valid UTF-8.
#[verifier::external_body]
fn utf8_text(b: &[u8]) -> (r: Option<String>)
    ensures
        r is Some <==> valid_utf8(b@),
        r matches Some(s) ==> encode_utf8(s@) == b@,
{
    match std::str::from_utf8(b) {
        Ok(s) => Some(s.to_string()),
        Err(_) => None,
    }
}

proof fn lemma_prefix_split(x: Seq<u8>, y: Seq<u8>, b: Seq<u8>, pos: int)
    requires
        is_prefix_at(x + y, b, pos),
    ensures
        is_prefix_at(x, b, pos),
        is_prefix_at(y, b, pos + x.len()),
{
    let w = b.subrange(pos, pos + (x + y).len());
    assert(w == x + y);
    assert(b.subrange(pos, pos + x.len()) =~= w.subrange(0, x.len() as int));
    assert(w.subrange(0, x.len() as int) =~= x);
    assert(b.subrange(pos + x.len(), pos + x.len() + y.len()) =~= w.subrange(
        x.len() as int,
        w.len() as int,
    ));
    assert(w.subrange(x.len() as int, w.len() as int) =~= y);
}

proof fn lemma_term_first(t: Term)
    ensures
        wxf_term(t).len() >= 1,
        wxf_term(t)[0] == match t {
            Term::Integer(_) => 76u8,
            Term::Real(_) => 114u8,
            Term::Str(_) => 83u8,
            Term::Sym(_) => 115u8,
            Term::Apply(_, _) => 102u8,
        },
{
}

proof fn lemma_terms_concat(a: Seq<Term>, c: Seq<Term>)
    ensures
        wxf_terms(a + c) == wxf_terms(a) + wxf_terms(c),
    decreases c.len(),
{
    if c.len() == 0 {
        assert(a + c =~= a);
        assert(wxf_terms(a) + wxf_terms(c) =~= wxf_terms(a));
    } else {
        assert((a + c).drop_last() =~= a + c.drop_last());
        lemma_terms_concat(a, c.drop_last());
        assert(wxf_terms(a + c) =~= wxf_terms(a) + wxf_terms(c));
    }
}

proof fn lemma_terms_single(x: Term)
    ensures
        wxf_terms(seq![x]) == wxf_term(x),
{
    assert(seq![x].drop_last() =~= Seq::<Term>::empty());
    assert(wxf_terms(Seq::<Term>::empty()) =~= Seq::<u8>::empty());
    assert(wxf_terms(seq![x]) =~= wxf_term(x));
}

proof fn lemma_terms_split(s: Seq<Term>, i: int)
    requires
        0 <= i < s.len(),
    ensures
        wxf_terms(s) == wxf_terms(s.take(i)) + wxf_term(s[i]) + wxf_terms(s.skip(i + 1)),
{
    assert(s =~= s.take(i) + seq![s[i]] + s.skip(i + 1));
    lemma_terms_concat(s.take(i) + seq![s[i]], s.skip(i + 1));
    lemma_terms_concat(s.take(i), seq![s[i]]);
    lemma_terms_single(s[i]);
}

proof fn lemma_terms_len(s: Seq<Term>)
    ensures
        wxf_terms(s).len() >= s.len(),
    decreases s.len(),
{
    if s.len() > 0 {
        lemma_terms_len(s.drop_last());
        lemma_term_first(s.last());
    }
}

proof fn lemma_terms_wf(s: Seq<Term>, i: int)
    requires
        terms_wf(s),
        0 <= i < s.len(),
    ensures
        term_wf(s[i]),
    decreases s.len(),
{
    if i < s.len() - 1 {
        lemma_terms_wf(s.drop_last(), i);
    }
}

proof fn lemma_le_unique(x: u64, y: u64)
    requires
        le_bytes(x) == le_bytes(y),
    ensures
        x == y,
{
    assert(le_bytes(x)[0] == ((x >> 0u64) & 0xffu64) as u8);
    assert(le_bytes(y)[0] == ((y >> 0u64) & 0xffu64) as u8);
    assert(le_bytes(x)[0] == le_bytes(y)[0]);
    assert(le_bytes(x)[1] == ((x >> 8u64) & 0xffu64) as u8);
    assert(le_bytes(y)[1] == ((y >> 8u64) & 0xffu64) as u8);
    assert(le_bytes(x)[1] == le_bytes(y)[1]);
    assert(le_bytes(x)[2] == ((x >> 16u64) & 0xffu64) as u8);
    assert(le_bytes(y)[2] == ((y >> 16u64) & 0xffu64) as u8);
    assert(le_bytes(x)[2] == le_bytes(y)[2]);
    assert(le_bytes(x)[3] == ((x >> 24u64) & 0xffu64) as u8);
    assert(le_bytes(y)[3] == ((y >> 24u64) & 0xffu64) as u8);
    assert(le_bytes(x)[3] == le_bytes(y)[3]);
    assert(le_bytes(x)[4] == ((x >> 32u64) & 0xffu64) as u8);
    assert(le_bytes(y)[4] == ((y >> 32u64) & 0xffu64) as u8);
    assert(le_bytes(x)[4] == le_bytes(y)[4]);
    assert(le_bytes(x)[5] == ((x >> 40u64) & 0xffu64) as u8);
    assert(le_bytes(y)[5] == ((y >> 40u64) & 0xffu64) as u8);
    assert(le_bytes(x)[5] == le_bytes(y)[5]);
    assert(le_bytes(x)[6] == ((x >> 48u64) & 0xffu64) as u8);
    assert(le_bytes(y)[6] == ((y >> 48u64) & 0xffu64) as u8);
    assert(le_bytes(x)[6] == le_bytes(y)[6]);
    assert(le_bytes(x)[7] == ((x >> 56u64) & 0xffu64) as u8);
    assert(le_bytes(y)[7] == ((y >> 56u64) & 0xffu64) as u8);
    assert(le_bytes(x)[7] == le_bytes(y)[7]);
    assert(x == y) by (bit_vector)
        requires
            ((x >> 0u64) & 0xffu64) as u8 == ((y >> 0u64) & 0xffu64) as u8,
            ((x >> 8u64) & 0xffu64) as u8 == ((y >> 8u64) & 0xffu64) as u8,
            ((x >> 16u64) & 0xffu64) as u8 == ((y >> 16u64) & 0xffu64) as u8,
            ((x >> 24u64) & 0xffu64) as u8 == ((y >> 24u64) & 0xffu64) as u8,
            ((x >> 32u64) & 0xffu64) as u8 == ((y >> 32u64) & 0xffu64) as u8,
            ((x >> 40u64) & 0xffu64) as u8 == ((y >> 40u64) & 0xffu64) as u8,
            ((x >> 48u64) & 0xffu64) as u8 == ((y >> 48u64) & 0xffu64) as u8,
            ((x >> 56u64) & 0xffu64) as u8 == ((y >> 56u64) & 0xffu64) as u8,
    ;
}

proof fn lemma_i64_bits_unique(m: i64, n: i64)
    requires
        m as u64 == n as u64,
    ensures
        m == n,
{
    assert(m == n) by (bit_vector)
        requires
            m as u64 == n as u64,
    ;
}

/// Two terms whose encodings both stand at one position of `b` are equal.
proof fn lemma_term_unique(t1: Term, t2: Term, b: Seq<u8>, pos: int)
    requires
        is_prefix_at(wxf_term(t1), b, pos),
        is_prefix_at(wxf_term(t2), b, pos),
    ensures
        t1 == t2,
    decreases t1,
{
    lemma_term_first(t1);
    lemma_term_first(t2);
    assert(b[pos] == wxf_term(t1)[0]);
    assert(b[pos] == wxf_term(t2)[0]);
    match (t1, t2) {
        (Term::Integer(m), Term::Integer(n)) => {
            lemma_prefix_split(seq![76u8], le_bytes(m as u64), b, pos);
            lemma_prefix_split(seq![76u8], le_bytes(n as u64), b, pos);
            lemma_le_unique(m as u64, n as u64);
            lemma_i64_bits_unique(m, n);
        },
        (Term::Real(x), Term::Real(y)) => {
            lemma_prefix_split(seq![114u8], le_bytes(x), b, pos);
            lemma_prefix_split(seq![114u8], le_bytes(y), b, pos);
            lemma_le_unique(x, y);
        },
        (Term::Str(s1), Term::Str(s2)) => {
            lemma_text_unique(83u8, s1, s2, b, pos);
        },
        (Term::Sym(s1), Term::Sym(s2)) => {
            lemma_text_unique(115u8, s1, s2, b, pos);
        },
        (Term::Apply(h1, a1), Term::Apply(h2, a2)) => {
            let v1 = varint(a1.len());
            let v2 = varint(a2.len());
            lemma_prefix_split(seq![102u8] + v1 + wxf_term(*h1), wxf_terms(a1), b, pos);
            lemma_prefix_split(seq![102u8] + v1, wxf_term(*h1), b, pos);
            lemma_prefix_split(seq![102u8], v1, b, pos);
            lemma_prefix_split(seq![102u8] + v2 + wxf_term(*h2), wxf_terms(a2), b, pos);
            lemma_prefix_split(seq![102u8] + v2, wxf_term(*h2), b, pos);
            lemma_prefix_split(seq![102u8], v2, b, pos);
            lemma_varint_unique(a1.len(), a2.len(), b, pos + 1);
            lemma_term_unique(*h1, *h2, b, pos + 1 + v1.len());
            lemma_terms_unique(a1, a2, b, pos + 1 + v1.len() + wxf_term(*h1).len());
        },
        _ => {},
    }
}

proof fn lemma_text_unique(tag: u8, s1: Seq<char>, s2: Seq<char>, b: Seq<u8>, pos: int)
    requires
        is_prefix_at(seq![tag] + varint(encode_utf8(s1).len()) + encode_utf8(s1), b, pos),
        is_prefix_at(seq![tag] + varint(encode_utf8(s2).len()) + encode_utf8(s2), b, pos),
    ensures
        s1 == s2,
{
    let v1 = varint(encode_utf8(s1).len());
    let v2 = varint(encode_utf8(s2).len());
    lemma_prefix_split(seq![tag] + v1, encode_utf8(s1), b, pos);
    lemma_prefix_split(seq![tag], v1, b, pos);
    lemma_prefix_split(seq![tag] + v2, encode_utf8(s2), b, pos);
    lemma_prefix_split(seq![tag], v2, b, pos);
    lemma_varint_unique(encode_utf8(s1).len(), encode_utf8(s2).len(), b, pos + 1);
    assert(encode_utf8(s1) == encode_utf8(s2));
    encode_utf8_decode_utf8(s1);
    encode_utf8_decode_utf8(s2);
}

proof fn lemma_terms_unique(a1: Seq<Term>, a2: Seq<Term>, b: Seq<u8>, pos: int)
    requires
        a1.len() == a2.len(),
        is_prefix_at(wxf_terms(a1), b, pos),
        is_prefix_at(wxf_terms(a2), b, pos),
    ensures
        a1 == a2,
    decreases a1,
{
    if a1.len() > 0 {
        lemma_terms_split(a1, 0);
        lemma_terms_split(a2, 0);
        assert(a1.take(0) =~= Seq::<Term>::empty());
        assert(a2.take(0) =~= Seq::<Term>::empty());
        assert(wxf_terms(a1) =~= wxf_term(a1[0]) + wxf_terms(a1.skip(1)));
        assert(wxf_terms(a2) =~= wxf_term(a2[0]) + wxf_terms(a2.skip(1)));
        lemma_prefix_split(wxf_term(a1[0]), wxf_terms(a1.skip(1)), b, pos);
        lemma_prefix_split(wxf_term(a2[0]), wxf_terms(a2.skip(1)), b, pos);
        lemma_term_unique(a1[0], a2[0], b, pos);
        lemma_terms_unique(a1.skip(1), a2.skip(1), b, pos + wxf_term(a1[0]).len());
        assert(a1 =~= seq![a1[0]] + a1.skip(1));
        assert(a2 =~= seq![a2[0]] + a2.skip(1));
    } else {
        assert(a1 =~= a2);
    }
}

/// The stream of a term determines the term: decoding a stream gives back
/// the one term it came from.
pub proof fn stream_determines_term(t1: Term, t2: Term)
    requires
        wxf_stream(t1) == wxf_stream(t2),
    ensures
        t1 == t2,
{
    let b = wxf_stream(t1);
    assert(b.subrange(0, b.len() as int) =~= b);
    lemma_prefix_split(seq![56u8, 58u8], wxf_term(t1), b, 0);
    lemma_prefix_split(seq![56u8, 58u8], wxf_term(t2), b, 0);
    lemma_term_unique(t1, t2, b, 2);
}

/// The number whose eight bytes, least significant first, stand at `pos`.
fn read_u64_le(b: &[u8], pos: usize) -> (r: u64)
    requires
        pos + 8 <= b@.len(),
    ensures
        le_bytes(r) == b@.subrange(pos as int, pos + 8),
{
    let b0 = b[pos] as u64;
    let b1 = b[pos + 1] as u64;
    let b2 = b[pos + 2] as u64;
    let b3 = b[pos + 3] as u64;
    let b4 = b[pos + 4] as u64;
    let b5 = b[pos + 5] as u64;
    let b6 = b[pos + 6] as u64;
    let b7 = b[pos + 7] as u64;
    let x: u64 = b0 | (b1 << 8u64) | (b2 << 16u64) | (b3 << 24u64) | (b4 << 32u64) | (b5 << 40u64)
        | (b6 << 48u64) | (b7 << 56u64);
    proof {
        assert(((x >> 0u64) & 0xffu64) == b0 && ((x >> 8u64) & 0xffu64) == b1 && ((x >> 16u64)
            & 0xffu64) == b2 && ((x >> 24u64) & 0xffu64) == b3 && ((x >> 32u64) & 0xffu64) == b4
            && ((x >> 40u64) & 0xffu64) == b5 && ((x >> 48u64) & 0xffu64) == b6 && ((x >> 56u64)
            & 0xffu64) == b7) by (bit_vector)
            requires
                x == b0 | (b1 << 8u64) | (b2 << 16u64) | (b3 << 24u64) | (b4 << 32u64) | (b5
                    << 40u64) | (b6 << 48u64) | (b7 << 56u64),
                b0 < 256,
                b1 < 256,
                b2 < 256,
                b3 < 256,
                b4 < 256,
                b5 < 256,
                b6 < 256,
                b7 < 256,
        ;
        assert(le_bytes(x)[0] == ((x >> 0u64) & 0xffu64) as u8);
        assert(le_bytes(x)[1] == ((x >> 8u64) & 0xffu64) as u8);
        assert(le_bytes(x)[2] == ((x >> 16u64) & 0xffu64) as u8);
        assert(le_bytes(x)[3] == ((x >> 24u64) & 0xffu64) as u8);
        assert(le_bytes(x)[4] == ((x >> 32u64) & 0xffu64) as u8);
        assert(le_bytes(x)[5] == ((x >> 40u64) & 0xffu64) as u8);
        assert(le_bytes(x)[6] == ((x >> 48u64) & 0xffu64) as u8);
        assert(le_bytes(x)[7] == ((x >> 56u64) & 0xffu64) as u8);
        assert(le_bytes(x) =~= b@.subrange(pos as int, pos + 8));
    }
    x
}

proof fn lemma_i64_round_trip(x: u64)
    ensures
        (x as i64) as u64 == x,
{
    assert((x as i64) as u64 == x) by (bit_vector);
}

/// Reads one expression at `pos`: the expression and the position after it,
/// or an error where no expression's encoding stands there.
fn decode_at(b: &[u8], pos: usize) -> (r: Result<(Expr, usize), DecodeError>)
    requires
        pos <= b@.len(),
    ensures
        match r {
            Ok((e, next)) => pos < next <= b@.len() && term_wf(e@) && b@.subrange(
                pos as int,
                next as int,
            ) == wxf_term(e@),
            Err(_) => forall|t: Term|
                term_wf(t) ==> !is_prefix_at(#[trigger] wxf_term(t), b@, pos as int),
        },
    decreases b@.len() - pos, 1nat,
{
    if pos >= b.len() {
        proof {
            assert forall|t: Term| term_wf(t) implies !is_prefix_at(
                #[trigger] wxf_term(t),
                b@,
                pos as int,
            ) by {
                lemma_term_first(t);
            }
        }
        return Err(DecodeError::Truncated);
    }
    let tag = b[pos];
    proof {
        assert forall|t: Term| is_prefix_at(#[trigger] wxf_term(t), b@, pos as int) implies wxf_term(
            t,
        )[0] == tag by {
            lemma_term_first(t);
            assert(b@.subrange(pos as int, pos + wxf_term(t).len())[0] == b@[pos as int]);
        }
    }
    if tag == 76u8 || tag == 114u8 {
        if b.len() - pos < 9 {
            proof {
                assert forall|t: Term| term_wf(t) implies !is_prefix_at(
                    #[trigger] wxf_term(t),
                    b@,
                    pos as int,
                ) by {
                    lemma_term_first(t);
                }
            }
            return Err(DecodeError::Truncated);
        }
        let x = read_u64_le(b, pos + 1);
        proof {
            assert(b@.subrange(pos as int, pos + 9) =~= seq![tag] + b@.subrange(pos + 1, pos + 9));
        }
        if tag == 76u8 {
            let e = Expr::integer(x as i64);
            proof {
                lemma_i64_round_trip(x);
            }
            Ok((e, pos + 9))
        } else {
            match F64::from_bits(x) {
                Some(value) => {
                    let e = Expr::number(Number::Real(value));
                    Ok((e, pos + 9))
                },
                None => {
                    proof {
                        assert forall|t: Term| term_wf(t) implies !is_prefix_at(
                            #[trigger] wxf_term(t),
                            b@,
                            pos as int,
                        ) by {
                            lemma_term_first(t);
                            if is_prefix_at(wxf_term(t), b@, pos as int) {
                                let bits = t->Real_0;
                                lemma_prefix_split(seq![114u8], le_bytes(bits), b@, pos as int);
                                lemma_le_unique(bits, x);
                            }
                        }
                    }
                    Err(DecodeError::NotANumber)
                },
            }
        }
    } else if tag == 83u8 || tag == 115u8 {
        decode_text(b, pos)
    } else if tag == 102u8 {
        decode_normal(b, pos)
    } else {
        proof {
            assert forall|t: Term| term_wf(t) implies !is_prefix_at(
                #[trigger] wxf_term(t),
                b@,
                pos as int,
            ) by {
                lemma_term_first(t);
            }
        }
        Err(DecodeError::UnknownTag(tag))
    }
}

/// Reads a string (tag `S`) or a symbol (tag `s`) at `pos`.
fn decode_text(b: &[u8], pos: usize) -> (r: Result<(Expr, usize), DecodeError>)
    requires
        pos < b@.len(),
        b@[pos as int] == 83u8 || b@[pos as int] == 115u8,
    ensures
        match r {
            Ok((e, next)) => pos < next <= b@.len() && term_wf(e@) && b@.subrange(
                pos as int,
                next as int,
            ) == wxf_term(e@),
            Err(_) => forall|t: Term|
                term_wf(t) ==> !is_prefix_at(#[trigger] wxf_term(t), b@, pos as int),
        },
{
    let n = b.len();
    let tag = b[pos];
    proof {
        assert forall|t: Term| #[trigger]
            is_prefix_at(wxf_term(t), b@, pos as int) implies (t is Str || t is Sym) && ({
            let s = if t is Str {
                t->Str_0
            } else {
                t->Sym_0
            };
            &&& wxf_term(t) == seq![tag] + varint(encode_utf8(s).len()) + encode_utf8(s)
            &&& is_prefix_at(varint(encode_utf8(s).len()), b@, pos + 1)
            &&& is_prefix_at(encode_utf8(s), b@, pos + 1 + varint(encode_utf8(s).len()).len())
        }) by {
            lemma_term_first(t);
            assert(b@.subrange(pos as int, pos + wxf_term(t).len())[0] == b@[pos as int]);
            let s = if t is Str {
                t->Str_0
            } else {
                t->Sym_0
            };
            let v = varint(encode_utf8(s).len());
            lemma_prefix_split(seq![tag] + v, encode_utf8(s), b@, pos as int);
            lemma_prefix_split(seq![tag], v, b@, pos as int);
        }
    }
    match read_varint(b, pos + 1) {
        None => {
            proof {
                assert forall|t: Term| term_wf(t) implies !is_prefix_at(
                    #[trigger] wxf_term(t),
                    b@,
                    pos as int,
                ) by {
                    if is_prefix_at(wxf_term(t), b@, pos as int) {
                        let s = if t is Str {
                            t->Str_0
                        } else {
                            t->Sym_0
                        };
                        assert(encode_utf8(s).len() <= usize::MAX);
                    }
                }
            }
            Err(DecodeError::BadLength)
        },
        Some((len, text_at)) => {
            proof {
                assert forall|t: Term| #[trigger]
                    is_prefix_at(wxf_term(t), b@, pos as int) implies encode_utf8(
                    if t is Str {
                        t->Str_0
                    } else {
                        t->Sym_0
                    },
                ).len() == len && is_prefix_at(
                    encode_utf8(
                        if t is Str {
                            t->Str_0
                        } else {
                            t->Sym_0
                        },
                    ),
                    b@,
                    text_at as int,
                ) by {
                    let s = if t is Str {
                        t->Str_0
                    } else {
                        t->Sym_0
                    };
                    assert(is_prefix_at(varint(len as nat), b@, pos + 1));
                    lemma_varint_unique(len as nat, encode_utf8(s).len(), b@, pos + 1);
                }
            }
            if len > b.len() - text_at {
                return Err(DecodeError::Truncated);
            }
            let bytes = slice_subrange(b, text_at, text_at + len);
            match utf8_text(bytes) {
                None => {
                    proof {
                        assert forall|t: Term| term_wf(t) implies !is_prefix_at(
                            #[trigger] wxf_term(t),
                            b@,
                            pos as int,
                        ) by {
                            if is_prefix_at(wxf_term(t), b@, pos as int) {
                                let s = if t is Str {
                                    t->Str_0
                                } else {
                                    t->Sym_0
                                };
                                encode_utf8_valid_utf8(s);
                                assert(bytes@ =~= encode_utf8(s));
                            }
                        }
                    }
                    Err(DecodeError::BadText)
                },
                Some(text) => {
                    let e = if tag == 83u8 {
                        Expr::string(text.as_str())
                    } else {
                        Expr::symbol(Symbol::new(text.as_str()))
                    };
                    proof {
                        assert(b@.subrange(pos as int, (text_at + len) as int) =~= seq![tag]
                            + b@.subrange(pos + 1, text_at as int) + bytes@);
                    }
                    Ok((e, text_at + len))
                },
            }
        },
    }
}

/// Reads a normal expression (tag `f`) at `pos`.
fn decode_normal(b: &[u8], pos: usize) -> (r: Result<(Expr, usize), DecodeError>)
    requires
        pos < b@.len(),
        b@[pos as int] == 102u8,
    ensures
        match r {
            Ok((e, next)) => pos < next <= b@.len() && term_wf(e@) && b@.subrange(
                pos as int,
                next as int,
            ) == wxf_term(e@),
            Err(_) => forall|t: Term|
                term_wf(t) ==> !is_prefix_at(#[trigger] wxf_term(t), b@, pos as int),
        },
    decreases b@.len() - pos, 0nat,
{
    let n = b.len();
    proof {
        assert forall|t: Term| #[trigger]
            is_prefix_at(wxf_term(t), b@, pos as int) implies t is Apply && ({
            let h = *t->Apply_0;
            let args = t->Apply_1;
            let v = varint(args.len());
            &&& is_prefix_at(v, b@, pos + 1)
            &&& is_prefix_at(wxf_term(h), b@, pos + 1 + v.len())
            &&& is_prefix_at(wxf_terms(args), b@, pos + 1 + v.len() + wxf_term(h).len())
        }) by {
            lemma_term_first(t);
            assert(b@.subrange(pos as int, pos + wxf_term(t).len())[0] == b@[pos as int]);
            let h = *t->Apply_0;
            let args = t->Apply_1;
            let v = varint(args.len());
            lemma_prefix_split(seq![102u8] + v + wxf_term(h), wxf_terms(args), b@, pos as int);
            lemma_prefix_split(seq![102u8] + v, wxf_term(h), b@, pos as int);
            lemma_prefix_split(seq![102u8], v, b@, pos as int);
        }
    }
    let (count, head_at) = match read_varint(b, pos + 1) {
        Some(x) => x,
        None => {
            proof {
                assert forall|t: Term| term_wf(t) implies !is_prefix_at(
                    #[trigger] wxf_term(t),
                    b@,
                    pos as int,
                ) by {
                    if is_prefix_at(wxf_term(t), b@, pos as int) {
                        lemma_terms_len(t->Apply_1);
                        assert(t->Apply_1.len() <= usize::MAX);
                    }
                }
            }
            return Err(DecodeError::BadLength);
        },
    };
    proof {
        assert forall|t: Term| #[trigger]
            is_prefix_at(wxf_term(t), b@, pos as int) implies t->Apply_1.len() == count && varint(
            t->Apply_1.len(),
        ).len() == head_at - pos - 1 by {
            lemma_varint_unique(count as nat, t->Apply_1.len(), b@, pos + 1);
        }
    }
    let (head, elems_at) = match decode_at(b, head_at) {
        Ok(x) => x,
        Err(e) => {
            proof {
                assert forall|t: Term| term_wf(t) implies !is_prefix_at(
                    #[trigger] wxf_term(t),
                    b@,
                    pos as int,
                ) by {
                    if is_prefix_at(wxf_term(t), b@, pos as int) {
                        assert(term_wf(*t->Apply_0));
                        assert(!is_prefix_at(wxf_term(*t->Apply_0), b@, head_at as int));
                    }
                }
            }
            return Err(e);
        },
    };
    proof {
        assert forall|t: Term| #[trigger]
            is_prefix_at(wxf_term(t), b@, pos as int) implies *t->Apply_0 == head@ by {
            assert(is_prefix_at(wxf_term(head@), b@, head_at as int));
            lemma_term_unique(*t->Apply_0, head@, b@, head_at as int);
        }
    }
    let mut elements: Vec<Expr> = Vec::new();
    let mut q = elems_at;
    let mut i: usize = 0;
    proof {
        assert(terms(elements@) =~= Seq::<Term>::empty());
        assert(b@.subrange(pos as int, q as int) =~= seq![102u8] + varint(count as nat) + wxf_term(
            head@,
        ) + wxf_terms(terms(elements@)));
    }
    while i < count
        invariant
            pos < head_at < elems_at <= q <= b@.len(),
            i <= count,
            elements@.len() == i,
            b@.subrange(pos as int, head_at as int) == seq![102u8] + varint(count as nat),
            b@.subrange(pos as int, q as int) == seq![102u8] + varint(count as nat) + wxf_term(
                head@,
            ) + wxf_terms(terms(elements@)),
            term_wf(head@),
            terms_wf(terms(elements@)),
            forall|t: Term| #[trigger]
                is_prefix_at(wxf_term(t), b@, pos as int) ==> t is Apply && t->Apply_1.len()
                    == count && *t->Apply_0 == head@ && t->Apply_1.take(i as int) == terms(
                    elements@,
                ) && is_prefix_at(
                    wxf_terms(t->Apply_1),
                    b@,
                    pos + 1 + varint(count as nat).len() + wxf_term(head@).len(),
                ),
        decreases count - i,
    {
        proof {
            assert forall|t: Term| #[trigger]
                is_prefix_at(wxf_term(t), b@, pos as int) implies is_prefix_at(
                wxf_term(t->Apply_1[i as int]),
                b@,
                q as int,
            ) by {
                let args = t->Apply_1;
                let start = pos + 1 + varint(count as nat).len() + wxf_term(head@).len();
                assert(b@.subrange(pos as int, q as int).len() == q - pos);
                assert(q == start + wxf_terms(args.take(i as int)).len());
                lemma_terms_split(args, i as int);
                lemma_prefix_split(
                    wxf_terms(args.take(i as int)) + wxf_term(args[i as int]),
                    wxf_terms(args.skip(i + 1)),
                    b@,
                    start,
                );
                lemma_prefix_split(wxf_terms(args.take(i as int)), wxf_term(args[i as int]), b@, start);
            }
        }
        match decode_at(b, q) {
            Err(e) => {
                proof {
                    assert forall|t: Term| term_wf(t) implies !is_prefix_at(
                        #[trigger] wxf_term(t),
                        b@,
                        pos as int,
                    ) by {
                        if is_prefix_at(wxf_term(t), b@, pos as int) {
                            lemma_terms_wf(t->Apply_1, i as int);
                            assert(!is_prefix_at(wxf_term(t->Apply_1[i as int]), b@, q as int));
                        }
                    }
                }
                return Err(e);
            },
            Ok((e, next)) => {
                let ghost before = terms(elements@);
                let ghost e_term = e@;
                elements.push(e);
                proof {
                    assert(terms(elements@) =~= before.push(e_term));
                    assert(before.push(e_term).drop_last() =~= before);
                    assert(b@.subrange(pos as int, next as int) =~= b@.subrange(pos as int, q as int)
                        + b@.subrange(q as int, next as int));
                    assert forall|t: Term| #[trigger]
                        is_prefix_at(wxf_term(t), b@, pos as int) implies t->Apply_1.take(i + 1)
                        == terms(elements@) by {
                        let args = t->Apply_1;
                        lemma_term_unique(args[i as int], e_term, b@, q as int);
                        assert(args.take(i + 1) =~= args.take(i as int).push(args[i as int]));
                    }
                }
                q = next;
                i = i + 1;
            },
        }
    }
    let ghost elems = terms(elements@);
    let r = Expr::normal(head, elements);
    proof {
        assert(elems.len() == count);
    }
    Ok((r, q))
}

impl Expr {
    /// Reads a WXF stream: `8:`, then the encoding of one expression and nothing
    /// after it. The result is `Ok` exactly where the bytes are the stream of an
    /// expression, and then it is that expression.
    pub fn from_wxf(b: &[u8]) -> (r: Result<Expr, DecodeError>)
        ensures
            match r {
                Ok(e) => b@ == wxf_stream(e@) && term_wf(e@),
                Err(_) => forall|t: Term| term_wf(t) ==> b@ != #[trigger] wxf_stream(t),
            },
    {
        proof {
            assert forall|t: Term| b@ == #[trigger] wxf_stream(t) implies b@.len() >= 2 && b@[0]
                == 56u8 && b@[1] == 58u8 && is_prefix_at(wxf_term(t), b@, 2) by {
                assert(b@.subrange(0, b@.len() as int) =~= b@);
                lemma_prefix_split(seq![56u8, 58u8], wxf_term(t), b@, 0);
            }
        }
        if b.len() < 2 || b[0] != 56u8 || b[1] != 58u8 {
            return Err(DecodeError::BadHeader);
        }
        match decode_at(b, 2) {
            Err(e) => Err(e),
            Ok((e, next)) => {
                if next != b.len() {
                    proof {
                        assert forall|t: Term| term_wf(t) implies b@ != #[trigger] wxf_stream(t) by {
                            if b@ == wxf_stream(t) {
                                assert(is_prefix_at(wxf_term(e@), b@, 2));
                                lemma_term_unique(t, e@, b@, 2);
                            }
                        }
                    }
                    Err(DecodeError::TrailingBytes)
                } else {
                    proof {
                        assert(b@ =~= b@.subrange(0, 2) + b@.subrange(2, next as int));
                        assert(b@.subrange(0, 2) =~= seq![56u8, 58u8]);
                    }
                    Ok(e)
                }
            },
        }
    }
}

} // verus!
