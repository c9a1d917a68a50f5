//! Expression trees whose nodes are uniquely owned (boxed, never shared).
use crate::expr::{tag_of, Term};
use crate::text::{debug_quoted, int_text, push_integer, quoted};
use crate::symbol::Symbol;
use vstd::prelude::*;
use vstd::string::StringExecFns;

verus! {

/// An expression whose normal nodes are boxed and owned by their parent.
#[derive(Debug, Hash)]
pub enum Expr {
    Normal(Box<Normal>),
    Number(Number),
    String(String),
    Symbol(Symbol),
}

/// A head applied to zero or more elements.
#[derive(Debug, Hash)]
pub struct Normal {
    pub head: Expr,
    pub contents: Vec<Expr>,
}

/// A machine integer.
#[derive(Clone, Copy, Debug, PartialEq, Eq, Hash)]
pub enum Number {
    Integer(i64),
}

/// The value of an owned expression.
pub open spec fn owned_term(e: Expr) -> Term
    decreases e,
{
    match e {
        Expr::Normal(n) => Term::Apply(
            Box::new(owned_term(n.head)),
            Seq::new(
                n.contents.len() as nat,
                |i: int|
                    if 0 <= i < n.contents.len() {
                        owned_term(n.contents[i])
                    } else {
                        Term::Integer(0)
                    },
            ),
        ),
        Expr::Number(Number::Integer(k)) => Term::Integer(k),
        Expr::String(s) => Term::Str(s@),
        Expr::Symbol(s) => Term::Sym(s@),
    }
}

impl View for Expr {
    type V = Term;

    open spec fn view(&self) -> Term {
        owned_term(*self)
    }
}

impl View for Normal {
    type V = Term;

    open spec fn view(&self) -> Term {
        owned_term(Expr::Normal(Box::new(*self)))
    }
}

/// The values of a sequence of owned expressions.
pub open spec fn owned_terms(v: Seq<Expr>) -> Seq<Term> {
    v.map_values(|e: Expr| e@)
}

impl Normal {
    proof fn lemma_view(&self)
        ensures
            self@ == Term::Apply(Box::new(self.head@), owned_terms(self.contents@)),
    {
        let args = self@->Apply_1;
        assert forall|i: int| 0 <= i < args.len() implies owned_terms(self.contents@)[i]
            == args[i] by {
            assert(self.contents@[i]@ == owned_term(self.contents[i]));
        }
        assert(owned_terms(self.contents@) =~= args);
    }

    /// The normal expression `head[contents...]`.
    pub fn new(head: Expr, contents: Vec<Expr>) -> (r: Normal)
        ensures
            r@ == Term::Apply(Box::new(head@), owned_terms(contents@)),
    {
        let r = Normal { head, contents };
        proof {
            r.lemma_view();
        }
        r
    }

    /// Whether the head is the symbol `sym`.
    pub fn has_head(&self, sym: Symbol) -> (r: bool)
        ensures
            r == (self@ matches Term::Apply(h, _) && *h == Term::Sym(sym@)),
    {
        proof {
            self.lemma_view();
        }
        match &self.head {
            Expr::Symbol(self_head) => *self_head == sym,
            _ => false,
        }
    }
}

impl Expr {
    /// The normal expression `head[contents...]`.
    pub fn normal(head: Expr, contents: Vec<Expr>) -> (r: Expr)
        ensures
            r@ == Term::Apply(Box::new(head@), owned_terms(contents@)),
    {
        let n = Normal::new(head, contents);
        Expr::Normal(Box::new(n))
    }

    /// The outermost symbol: none for a number or a string, the symbol itself
    /// for a symbol, and the tag of the head for a normal expression.
    pub fn tag(&self) -> (r: Option<Symbol>)
        ensures
            match r {
                Some(s) => tag_of(self@) == Some(s@),
                None => tag_of(self@) is None,
            },
        decreases self,
    {
        match self {
            Expr::Number(_) | Expr::String(_) => None,
            Expr::Normal(normal) => {
                proof {
                    normal.lemma_view();
                }
                normal.head.tag()
            },
            Expr::Symbol(sym) => Some(sym.clone()),
        }
    }
}

/// The text of an owned term: `head[a, b, ...]`, decimal integers, strings
/// quoted with quotes, backslashes and control characters escaped, and
/// qualified names.
pub open spec fn plain_text(t: Term) -> Seq<char>
    decreases t,
{
    match t {
        Term::Integer(n) => int_text(n as int),
        Term::Real(_) => seq![],
        Term::Str(s) => debug_quoted(s),
        Term::Sym(s) => s,
        Term::Apply(h, args) => plain_text(*h) + seq!['['] + plain_texts(args) + seq![']'],
    }
}

/// The texts of `ts`, separated by `, `.
pub open spec fn plain_texts(ts: Seq<Term>) -> Seq<char>
    decreases ts,
{
    if ts.len() == 0 {
        seq![]
    } else if ts.len() == 1 {
        plain_text(ts[0])
    } else {
        plain_texts(ts.drop_last()) + seq![',', ' '] + plain_text(ts.last())
    }
}

proof fn lemma_plain_texts_step(ts: Seq<Term>, i: int)
    requires
        0 <= i < ts.len(),
    ensures
        plain_texts(ts.take(i + 1)) == plain_texts(ts.take(i)) + (if i == 0 {
            seq![]
        } else {
            seq![',', ' ']
        }) + plain_text(ts[i]),
{
    assert(ts.take(i + 1).drop_last() =~= ts.take(i));
    if i == 0 {
        assert(plain_texts(ts.take(0)) =~= seq![]);
    }
}

impl Expr {
    /// Appends the text of this expression to `out`.
    pub fn write_text(&self, out: &mut String)
        ensures
            final(out)@ == old(out)@ + plain_text(self@),
        decreases self,
    {
        match self {
            Expr::Normal(normal) => normal.write_text(out),
            Expr::Number(Number::Integer(n)) => push_integer(out, *n),
            Expr::String(s) => {
                let q = quoted(s.as_str());
                out.append(q.as_str());
            },
            Expr::Symbol(s) => out.append(s.as_str()),
        }
    }

    /// The text of this expression.
    pub fn to_text(&self) -> (r: String)
        ensures
            r@ == plain_text(self@),
    {
        let mut out = String::new();
        self.write_text(&mut out);
        out
    }
}

impl Normal {
    /// Appends `head[a, b, ...]` to `out`.
    pub fn write_text(&self, out: &mut String)
        ensures
            final(out)@ == old(out)@ + plain_text(self@),
        decreases self,
    {
        proof {
            self.lemma_view();
            reveal_strlit("[");
            reveal_strlit("]");
        }
        let ghost args = owned_terms(self.contents@);
        self.head.write_text(out);
        out.append("[");
        let ghost start = out@;
        let mut i: usize = 0;
        while i < self.contents.len()
            invariant
                i <= self.contents.len(),
                args == owned_terms(self.contents@),
                out@ == start + plain_texts(args.take(i as int)),
            decreases self.contents.len() - i,
        {
            proof {
                reveal_strlit(", ");
                lemma_plain_texts_step(args, i as int);
            }
            if i > 0 {
                out.append(", ");
            }
            self.contents[i].write_text(out);
            i = i + 1;
            assert(out@ =~= start + plain_texts(args.take(i as int)));
        }
        out.append("]");
        assert(args.take(i as int) =~= args);
        assert(final(out)@ =~= old(out)@ + plain_text(self@));
    }
}

} // verus!
