use crate::association::{Association, Record};
use crate::expr::{terms, Expr, ExprKind, Normal, Term};
use vstd::prelude::*;
use vstd::string::StringExecFns;

verus! {

/// What std's `Debug` for `str` renders: the text in double quotes, with
/// quotes, backslashes and control characters escaped.
pub uninterp spec fn debug_quoted(s: Seq<char>) -> Seq<char>;

/// The character of the decimal digit `d`.
pub open spec fn digit_char(d: nat) -> char {
    if d == 0 {
        '0'
    } else if d == 1 {
        '1'
    } else if d == 2 {
        '2'
    } else if d == 3 {
        '3'
    } else if d == 4 {
        '4'
    } else if d == 5 {
        '5'
    } else if d == 6 {
        '6'
    } else if d == 7 {
        '7'
    } else if d == 8 {
        '8'
    } else {
        '9'
    }
}

/// The decimal digits of `m`, most significant first, without leading zeros.
pub open spec fn digits(m: nat) -> Seq<char>
    decreases m,
{
    if m < 10 {
        seq![digit_char(m)]
    } else {
        digits(m / 10).push(digit_char(m % 10))
    }
}

/// The decimal text of `n`, with a leading `-` where it is negative.
pub open spec fn int_text(n: int) -> Seq<char> {
    if n < 0 {
        seq!['-'] + digits((-n) as nat)
    } else {
        digits(n as nat)
    }
}

/// Whether `f` can render every real and gives texts with the same
/// characters for the same bit pattern.
pub open spec fn real_text_fn<F: Fn(u64) -> String>(f: F) -> bool {
    &&& forall|bits: u64| #[trigger] f.requires((bits,))
    &&& forall|bits: u64, r1: String, r2: String|
        #![trigger f.ensures((bits,), r1), f.ensures((bits,), r2)]
        f.ensures((bits,), r1) && f.ensures((bits,), r2) ==> r1@ == r2@
}

/// The text that `f` gives for the real with bit pattern `bits`.
pub open spec fn real_text_of<F: Fn(u64) -> String>(f: F, bits: u64) -> Seq<char> {
    (choose|r: String| f.ensures((bits,), r))@
}

/// The canonical text of a term: `head[a, b, ...]` for a normal form, decimal
/// for an integer, what `f` gives for a real, the quoted and escaped literal
/// for a string and the qualified name for a symbol.
pub open spec fn text_of<F: Fn(u64) -> String>(t: Term, f: F) -> Seq<char>
    decreases t,
{
    match t {
        Term::Integer(n) => int_text(n as int),
        Term::Real(bits) => real_text_of(f, bits),
        Term::Str(s) => debug_quoted(s),
        Term::Sym(s) => s,
        Term::Apply(h, args) => text_of(*h, f) + seq!['['] + texts(args, f) + seq![']'],
    }
}

/// The texts of `ts`, separated by `, `.
pub open spec fn texts<F: Fn(u64) -> String>(ts: Seq<Term>, f: F) -> Seq<char>
    decreases ts,
{
    if ts.len() == 0 {
        seq![]
    } else if ts.len() == 1 {
        text_of(ts[0], f)
    } else {
        texts(ts.drop_last(), f) + seq![',', ' '] + text_of(ts.last(), f)
    }
}

/// `n` spaces.
pub open spec fn spaces(n: nat) -> Seq<char> {
    Seq::new(n, |i: int| ' ')
}

/// The text of one record: `key -> value`, or `key :> value` where delayed.
pub open spec fn record_text<F: Fn(u64) -> String>(r: Record, f: F) -> Seq<char> {
    text_of(r.0, f) + (if r.1 {
        seq![' ', ':', '>', ' ']
    } else {
        seq![' ', '-', '>', ' ']
    }) + text_of(r.2, f)
}

/// The records of `s` in order, each after `pad`, separated by `sep`.
pub open spec fn records_text<F: Fn(u64) -> String>(
    s: Seq<Record>,
    sep: Seq<char>,
    pad: Seq<char>,
    f: F,
) -> Seq<char>
    decreases s.len(),
{
    if s.len() == 0 {
        seq![]
    } else if s.len() == 1 {
        pad + record_text(s[0], f)
    } else {
        records_text(s.drop_last(), sep, pad, f) + sep + pad + record_text(s.last(), f)
    }
}

/// The text of an association: compact, `<|k -> v, k2 :> v2|>`; or, where
/// `pretty`, one record per line after `indent + 4` spaces, between a line
/// `<|` and a line `|>`.
pub open spec fn association_text<F: Fn(u64) -> String>(
    s: Seq<Record>,
    pretty: bool,
    indent: nat,
    f: F,
) -> Seq<char> {
    if pretty {
        seq!['<', '|', '\n'] + records_text(s, seq![',', '\n'], spaces(indent + 4), f) + seq![
            '\n',
            '|',
            '>',
        ]
    } else {
        seq!['<', '|'] + records_text(s, seq![',', ' '], seq![], f) + seq!['|', '>']
    }
}

/// Relies on std's `Debug` for `str`, through `format!("{:?}", s)`.
#[verifier::external_body]
pub(crate) fn quoted(s: &str) -> (r: String)
    ensures
        r@ == debug_quoted(s@),
{
    format!("{:?}", s)
}

fn digit_str(d: u64) -> (r: &'static str)
    requires
        d < 10,
    ensures
        r@ == seq![digit_char(d as nat)],
{
    proof {
        reveal_strlit("0");
        reveal_strlit("1");
        reveal_strlit("2");
        reveal_strlit("3");
        reveal_strlit("4");
        reveal_strlit("5");
        reveal_strlit("6");
        reveal_strlit("7");
        reveal_strlit("8");
        reveal_strlit("9");
    }
    if d == 0 {
        "0"
    } else if d == 1 {
        "1"
    } else if d == 2 {
        "2"
    } else if d == 3 {
        "3"
    } else if d == 4 {
        "4"
    } else if d == 5 {
        "5"
    } else if d == 6 {
        "6"
    } else if d == 7 {
        "7"
    } else if d == 8 {
        "8"
    } else {
        "9"
    }
}

fn push_digits(out: &mut String, m: u64)
    ensures
        final(out)@ == old(out)@ + digits(m as nat),
    decreases m,
{
    if m >= 10 {
        push_digits(out, m / 10);
    }
    out.append(digit_str(m % 10));
    assert(final(out)@ =~= old(out)@ + digits(m as nat));
}

pub(crate) fn push_integer(out: &mut String, n: i64)
    ensures
        final(out)@ == old(out)@ + int_text(n as int),
{
    if n < 0 {
        proof {
            reveal_strlit("-");
        }
        out.append("-");
        let m: u64 = (0i128 - n as i128) as u64;
        push_digits(out, m);
        assert(final(out)@ =~= old(out)@ + int_text(n as int));
    } else {
        push_digits(out, n as u64);
    }
}

/// Appends `indent` spaces to `base`.
pub fn indent_amount(base: &mut String, indent: usize)
    ensures
        final(base)@ == old(base)@ + spaces(indent as nat),
{
    proof {
        reveal_strlit(" ");
    }
    let ghost start = base@;
    let mut k: usize = 0;
    while k < indent
        invariant
            k <= indent,
            base@ == start + spaces(k as nat),
        decreases indent - k,
    {
        proof {
            reveal_strlit(" ");
        }
        base.append(" ");
        k = k + 1;
        assert(base@ =~= start + spaces(k as nat));
    }
}

proof fn lemma_texts_step<F: Fn(u64) -> String>(ts: Seq<Term>, i: int, f: F)
    requires
        0 <= i < ts.len(),
    ensures
        texts(ts.take(i + 1), f) == texts(ts.take(i), f) + (if i == 0 {
            seq![]
        } else {
            seq![',', ' ']
        }) + text_of(ts[i], f),
{
    assert(ts.take(i + 1).drop_last() =~= ts.take(i));
    if i == 0 {
        assert(texts(ts.take(0), f) =~= seq![]);
    }
}

fn push_real<F: Fn(u64) -> String>(out: &mut String, bits: u64, real_text: &F)
    requires
        real_text_fn(*real_text),
    ensures
        final(out)@ == old(out)@ + real_text_of(*real_text, bits),
{
    let s = real_text(bits);
    proof {
        let r2 = choose|r: String| real_text.ensures((bits,), r);
        assert(real_text.ensures((bits,), r2) && real_text.ensures((bits,), s));
    }
    out.append(s.as_str());
}

impl Expr {
    /// Appends the canonical text of this expression to `out`, each real
    /// written as `real_text` renders its bit pattern.
    pub fn write_text<F: Fn(u64) -> String>(&self, out: &mut String, real_text: &F)
        requires
            real_text_fn(*real_text),
        ensures
            final(out)@ == old(out)@ + text_of(self@, *real_text),
        decreases self,
    {
        match &*self.inner {
            ExprKind::Integer(n) => push_integer(out, *n),
            ExprKind::Real(x) => push_real(out, x.to_bits(), real_text),
            ExprKind::String(s) => {
                let q = quoted(s.as_str());
                out.append(q.as_str());
            },
            ExprKind::Symbol(s) => out.append(s.as_str()),
            ExprKind::Normal(n) => n.write_text(out, real_text),
        }
    }

    /// The canonical text of this expression, each real rendered by
    /// `real_text` from its bit pattern.
    pub fn to_text<F: Fn(u64) -> String>(&self, real_text: &F) -> (r: String)
        requires
            real_text_fn(*real_text),
        ensures
            r@ == text_of(self@, *real_text),
    {
        let mut out = String::new();
        self.write_text(&mut out, real_text);
        out
    }
}

impl Normal {
    /// Appends `head[a, b, ...]` to `out`.
    pub fn write_text<F: Fn(u64) -> String>(&self, out: &mut String, real_text: &F)
        requires
            real_text_fn(*real_text),
        ensures
            final(out)@ == old(out)@ + text_of(self@, *real_text),
        decreases self,
    {
        proof {
            self.lemma_view();
            reveal_strlit("[");
            reveal_strlit("]");
        }
        let ghost args = terms(self.contents@);
        self.head.write_text(out, real_text);
        out.append("[");
        let ghost start = out@;
        let mut i: usize = 0;
        while i < self.contents.len()
            invariant
                i <= self.contents.len(),
                args == terms(self.contents@),
                real_text_fn(*real_text),
                out@ == start + texts(args.take(i as int), *real_text),
            decreases self.contents.len() - i,
        {
            proof {
                reveal_strlit(", ");
                lemma_texts_step(args, i as int, *real_text);
            }
            if i > 0 {
                out.append(", ");
            }
            self.contents[i].write_text(out, real_text);
            i = i + 1;
            assert(out@ =~= start + texts(args.take(i as int), *real_text));
        }
        out.append("]");
        assert(args.take(i as int) =~= args);
        assert(final(out)@ =~= old(out)@ + text_of(self@, *real_text));
    }
}

proof fn lemma_records_step<F: Fn(u64) -> String>(
    s: Seq<Record>,
    sep: Seq<char>,
    pad: Seq<char>,
    i: int,
    f: F,
)
    requires
        0 <= i < s.len(),
    ensures
        records_text(s.take(i + 1), sep, pad, f) == records_text(s.take(i), sep, pad, f) + (if i
            == 0 {
            seq![]
        } else {
            sep
        }) + pad + record_text(s[i], f),
{
    assert(s.take(i + 1).drop_last() =~= s.take(i));
    if i == 0 {
        assert(records_text(s.take(0), sep, pad, f) =~= seq![]);
    }
}

fn write_record<F: Fn(u64) -> String>(
    out: &mut String,
    k: &Expr,
    delayed: bool,
    v: &Expr,
    real_text: &F,
)
    requires
        real_text_fn(*real_text),
    ensures
        final(out)@ == old(out)@ + record_text((k@, delayed, v@), *real_text),
{
    proof {
        reveal_strlit(" :> ");
        reveal_strlit(" -> ");
    }
    k.write_text(out, real_text);
    if delayed {
        out.append(" :> ");
    } else {
        out.append(" -> ");
    }
    v.write_text(out, real_text);
    assert(final(out)@ =~= old(out)@ + record_text((k@, delayed, v@), *real_text));
}

impl Association {
    /// The text of this association: compact where `alternate` is `false`,
    /// else one record per line after `indent + 4` spaces. Each real is
    /// rendered by `real_text` from its bit pattern.
    pub fn fmt_indent<F: Fn(u64) -> String>(
        &self,
        alternate: bool,
        indent: usize,
        real_text: &F,
    ) -> (r: String)
        requires
            indent + 4 <= usize::MAX,
            real_text_fn(*real_text),
        ensures
            r@ == association_text(self@, alternate, indent as nat, *real_text),
    {
        proof {
            reveal_strlit("<|");
            reveal_strlit("|>");
            reveal_strlit("\n");
        }
        let ghost recs = self@;
        let ghost sep = if alternate {
            seq![',', '\n']
        } else {
            seq![',', ' ']
        };
        let ghost pad = if alternate {
            spaces((indent + 4) as nat)
        } else {
            seq![]
        };
        let mut out = String::new();
        out.append("<|");
        if alternate {
            out.append("\n");
        }
        let ghost start = out@;
        let n = self.len();
        let mut i: usize = 0;
        while i < n
            invariant
                n == recs.len(),
                recs == self@,
                i <= n,
                sep == (if alternate { seq![',', '\n'] } else { seq![',', ' '] }),
                pad == (if alternate { spaces((indent + 4) as nat) } else { seq![] }),
                indent + 4 <= usize::MAX,
                real_text_fn(*real_text),
                out@ == start + records_text(recs.take(i as int), sep, pad, *real_text),
            decreases n - i,
        {
            proof {
                reveal_strlit(",\n");
                reveal_strlit(", ");
                lemma_records_step(recs, sep, pad, i as int, *real_text);
            }
            let (k, d, v) = match self.get_index(i) {
                Some(rec) => rec,
                None => (Expr::null(), false, Expr::null()),
            };
            if i > 0 {
                if alternate {
                    out.append(",\n");
                } else {
                    out.append(", ");
                }
            }
            if alternate {
                indent_amount(&mut out, indent + 4);
            }
            write_record(&mut out, &k, d, &v, real_text);
            i = i + 1;
            assert(out@ =~= start + records_text(recs.take(i as int), sep, pad, *real_text));
        }
        if alternate {
            out.append("\n");
        }
        out.append("|>");
        assert(recs.take(n as int) =~= recs);
        assert(out@ =~= association_text(recs, alternate, indent as nat, *real_text));
        out
    }

    /// The compact text of this association, `<|k -> v, k2 :> v2|>`, each real
    /// rendered by `real_text` from its bit pattern.
    pub fn to_text<F: Fn(u64) -> String>(&self, real_text: &F) -> (r: String)
        requires
            real_text_fn(*real_text),
        ensures
            r@ == association_text(self@, false, 0, *real_text),
    {
        self.fmt_indent(false, 0, real_text)
    }
}


/// The pieces of `s` between newline characters: one more than there are
/// newlines.
pub open spec fn pieces(s: Seq<char>) -> Seq<Seq<char>>
    decreases s.len(),
{
    if s.len() == 0 {
        seq![seq![]]
    } else {
        let p = pieces(s.drop_last());
        if s.last() == '\n' {
            p.push(seq![])
        } else {
            p.update(p.len() - 1, p.last().push(s.last()))
        }
    }
}

/// `l` without one trailing carriage return.
pub open spec fn strip_cr(l: Seq<char>) -> Seq<char> {
    if l.len() > 0 && l.last() == '\r' {
        l.drop_last()
    } else {
        l
    }
}

/// The lines of `s`, as `str::lines` yields them: split at `\n`, a `\r` just
/// before a `\n` dropped, and no empty line after a final newline.
pub open spec fn lines_of(s: Seq<char>) -> Seq<Seq<char>> {
    let p = pieces(s);
    let done = p.drop_last().map_values(|l: Seq<char>| strip_cr(l));
    if p.last().len() == 0 {
        done
    } else {
        done.push(p.last())
    }
}

/// The number of characters in the last line of `s`; 0 where it has none.
pub open spec fn last_line_len(s: Seq<char>) -> nat {
    if lines_of(s).len() == 0 {
        0
    } else {
        lines_of(s).last().len()
    }
}

/// The lines `ls` joined by newlines, each line after the first indented by
/// `column` spaces.
pub open spec fn indented_join(ls: Seq<Seq<char>>, column: nat) -> Seq<char>
    decreases ls.len(),
{
    if ls.len() == 0 {
        seq![]
    } else if ls.len() == 1 {
        ls[0]
    } else {
        indented_join(ls.drop_last(), column) + seq!['\n'] + spaces(column) + ls.last()
    }
}

proof fn lemma_pieces_step(s: Seq<char>, j: int)
    requires
        0 <= j < s.len(),
    ensures
        pieces(s.take(j + 1)) == (if s[j] == '\n' {
            pieces(s.take(j)).push(seq![])
        } else {
            pieces(s.take(j)).update(
                pieces(s.take(j)).len() - 1,
                pieces(s.take(j)).last().push(s[j]),
            )
        }),
{
    assert(s.take(j + 1).drop_last() =~= s.take(j));
}

fn last_line_width(b: &str) -> (r: usize)
    ensures
        r == last_line_len(b@),
{
    let n = b.unicode_len();
    let mut j: usize = 0;
    let mut start: usize = 0;
    let mut prev: usize = 0;
    proof {
        assert(b@.take(0) =~= seq![]);
    }
    while j < n
        invariant
            n == b@.len(),
            start <= j <= n,
            pieces(b@.take(j as int)).len() >= 1,
            pieces(b@.take(j as int)).last() =~= b@.subrange(start as int, j as int),
            pieces(b@.take(j as int)).len() == 1 ==> prev == 0,
            pieces(b@.take(j as int)).len() >= 2 ==> prev == strip_cr(
                pieces(b@.take(j as int))[pieces(b@.take(j as int)).len() - 2],
            ).len(),
        decreases n - j,
    {
        proof {
            lemma_pieces_step(b@, j as int);
        }
        if b.get_char(j) == '\n' {
            let ends_cr = j > start && b.get_char(j - 1) == '\r';
            prev = if ends_cr {
                j - 1 - start
            } else {
                j - start
            };
            start = j + 1;
        }
        j = j + 1;
    }
    proof {
        assert(b@.take(n as int) =~= b@);
        let p = pieces(b@);
        let done = p.drop_last().map_values(|l: Seq<char>| strip_cr(l));
        if j <= start && p.len() >= 2 {
            assert(done.last() == strip_cr(p[p.len() - 2]));
        }
    }
    if j > start {
        j - start
    } else {
        prev
    }
}

/// Appends the lines of `s` to `base`: the first line directly, each later
/// one after a newline and `column` spaces. Without a column, the indent is
/// the number of characters in the last line of `base`.
pub fn column_offset_append(base: &mut String, s: &str, column: Option<usize>)
    ensures
        final(base)@ == old(base)@ + indented_join(
            lines_of(s@),
            match column {
                Some(c) => c as nat,
                None => last_line_len(old(base)@),
            },
        ),
{
    let column = match column {
        Some(c) => c,
        None => last_line_width(base.as_str()),
    };
    let ghost col = column as nat;
    let ghost base0 = base@;
    let n = s.unicode_len();
    let mut j: usize = 0;
    let mut start: usize = 0;
    let mut emitted: usize = 0;
    proof {
        assert(s@.take(0) =~= seq![]);
        assert(pieces(s@.take(0)).drop_last() =~= seq![]);
    }
    while j < n
        invariant
            n == s@.len(),
            start <= j <= n,
            col == column,
            pieces(s@.take(j as int)).len() >= 1,
            pieces(s@.take(j as int)).last() =~= s@.subrange(start as int, j as int),
            emitted == pieces(s@.take(j as int)).len() - 1,
            emitted <= j,
            base@ == base0 + indented_join(
                pieces(s@.take(j as int)).drop_last().map_values(|l: Seq<char>| strip_cr(l)),
                col,
            ),
        decreases n - j,
    {
        let ghost p = pieces(s@.take(j as int));
        let ghost done = p.drop_last().map_values(|l: Seq<char>| strip_cr(l));
        proof {
            lemma_pieces_step(s@, j as int);
        }
        if s.get_char(j) == '\n' {
            let end = if j > start && s.get_char(j - 1) == '\r' {
                j - 1
            } else {
                j
            };
            let line = s.substring_char(start, end);
            proof {
                assert(line@ == strip_cr(p.last()));
                reveal_strlit("\n");
            }
            if emitted > 0 {
                base.append("\n");
                indent_amount(base, column);
            }
            base.append(line);
            proof {
                let next = pieces(s@.take(j + 1));
                let next_done = next.drop_last().map_values(|l: Seq<char>| strip_cr(l));
                assert(next.drop_last() =~= p);
                assert(next_done =~= done.push(line@));
                assert(next_done.drop_last() =~= done);
                assert(base@ =~= base0 + indented_join(next_done, col));
            }
            emitted = emitted + 1;
            start = j + 1;
        } else {
            proof {
                let next = pieces(s@.take(j + 1));
                assert(next.drop_last() =~= p.drop_last());
            }
        }
        j = j + 1;
    }
    proof {
        assert(s@.take(n as int) =~= s@);
        reveal_strlit("\n");
    }
    if j > start {
        let line = s.substring_char(start, n);
        if emitted > 0 {
            base.append("\n");
            indent_amount(base, column);
        }
        base.append(line);
        proof {
            let p = pieces(s@);
            let done = p.drop_last().map_values(|l: Seq<char>| strip_cr(l));
            assert(lines_of(s@) == done.push(p.last()));
            assert(done.push(p.last()).drop_last() =~= done);
            assert(base@ =~= base0 + indented_join(lines_of(s@), col));
        }
    }
}

} // verus!
