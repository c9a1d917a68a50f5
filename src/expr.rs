use crate::number::{Number, F64};
use crate::symbol::Symbol;
use std::sync::Arc;
use vstd::prelude::*;

verus! {

/// The mathematical value of an expression tree: what every handle to it observes.
pub enum Term {
    Integer(i64),
    /// A real, by its IEEE-754 bit pattern.
    Real(u64),
    Str(Seq<char>),
    /// A symbol, by its qualified name.
    Sym(Seq<char>),
    /// A head applied to a sequence of elements.
    Apply(Box<Term>, Seq<Term>),
}

/// The values of a sequence of expressions.
pub open spec fn terms(v: Seq<Expr>) -> Seq<Term> {
    v.map_values(|e: Expr| e@)
}

/// The outermost symbol of a term, if there is one.
pub open spec fn tag_of(t: Term) -> Option<Seq<char>>
    decreases t,
{
    match t {
        Term::Sym(s) => Some(s),
        Term::Apply(h, _) => tag_of(*h),
        _ => None,
    }
}

/// The qualified name ``System`Rule``.
pub open spec fn rule_name() -> Seq<char> {
    "System`Rule"@
}

/// The qualified name ``System`RuleDelayed``.
pub open spec fn rule_delayed_name() -> Seq<char> {
    "System`RuleDelayed"@
}

/// The qualified name ``System`List``.
pub open spec fn list_name() -> Seq<char> {
    "System`List"@
}

/// The qualified name ``System`Null``.
pub open spec fn null_name() -> Seq<char> {
    "System`Null"@
}

/// An expression: a word-sized handle to a shared, reference-counted [`ExprKind`].
///
/// Cloning a handle never copies the tree; mutation through
/// [`Expr::kind_mut`] copies the node first when it is shared.
#[derive(Debug, Hash)]
pub struct Expr {
    pub(crate) inner: Arc<ExprKind>,
}

/// The variants of an expression.
#[derive(Debug, Hash)]
pub enum ExprKind {
    Integer(i64),
    Real(F64),
    String(String),
    Symbol(Symbol),
    Normal(Normal),
}

/// A head applied to zero or more elements: `f[...]`.
#[derive(Debug, Hash)]
pub struct Normal {
    pub(crate) head: Expr,
    pub(crate) contents: Vec<Expr>,
}

/// The value of an expression variant.
pub open(crate) spec fn kind_term(k: ExprKind) -> Term
    decreases k,
{
    match k {
        ExprKind::Integer(n) => Term::Integer(n),
        ExprKind::Real(x) => Term::Real(x@),
        ExprKind::String(s) => Term::Str(s@),
        ExprKind::Symbol(s) => Term::Sym(s@),
        ExprKind::Normal(n) => Term::Apply(
            Box::new(kind_term(*n.head.inner)),
            Seq::new(
                n.contents.len() as nat,
                |i: int|
                    if 0 <= i < n.contents.len() {
                        kind_term(*n.contents[i].inner)
                    } else {
                        Term::Integer(0)
                    },
            ),
        ),
    }
}

/// The value of an expression.
pub open(crate) spec fn expr_term(e: &Expr) -> Term {
    kind_term(*e.inner)
}

impl View for Expr {
    type V = Term;

    open spec fn view(&self) -> Term {
        expr_term(self)
    }
}

impl View for ExprKind {
    type V = Term;

    open spec fn view(&self) -> Term {
        kind_term(*self)
    }
}

impl View for Normal {
    type V = Term;

    open spec fn view(&self) -> Term {
        kind_term(ExprKind::Normal(*self))
    }
}

impl Normal {
    pub(crate) proof fn lemma_view(&self)
        ensures
            self@ == Term::Apply(Box::new(self.head@), terms(self.contents@)),
    {
        let args = self@->Apply_1;
        assert(args.len() == self.contents.len());
        assert forall|i: int| 0 <= i < args.len() implies terms(self.contents@)[i] == args[i] by {
            assert(self.contents@[i]@ == kind_term(*self.contents[i].inner));
        }
        assert(terms(self.contents@) =~= args);
    }
}

/// Relies on `Arc::clone`: the new handle points at the same value.
#[verifier::external_body]
fn share(a: &Arc<ExprKind>) -> (r: Arc<ExprKind>)
    ensures
        r == *a,
{
    Arc::clone(a)
}

/// Relies on `Arc::make_mut`: the value is cloned first when it is shared, so the
/// reference handed out starts from an equal value and the handle ends up
/// holding what was written through it.
#[verifier::external_body]
fn make_mut(a: &mut Arc<ExprKind>) -> (r: &mut ExprKind)
    ensures
        (*r)@ == (**old(a))@,
        **final(a) == *final(r),
{
    Arc::make_mut(a)
}

/// Relies on `Arc::unwrap_or_clone`: the value itself when this was the last
/// handle, else a clone of it.
#[verifier::external_body]
fn unwrap_or_clone(a: Arc<ExprKind>) -> (r: ExprKind)
    ensures
        r@ == (*a)@,
{
    Arc::unwrap_or_clone(a)
}

/// Relies on `Arc::strong_count`: the number of handles to the value, this one
/// included.
#[verifier::external_body]
fn strong_count(a: &Arc<ExprKind>) -> (r: usize)
    ensures
        r >= 1,
{
    Arc::strong_count(a)
}

impl Clone for Expr {
    /// Another handle to the same tree; nothing is copied.
    fn clone(&self) -> (r: Expr)
        ensures
            r == *self,
    {
        Expr { inner: share(&self.inner) }
    }
}

impl Clone for Normal {
    fn clone(&self) -> (r: Normal)
        ensures
            r@ == self@,
    {
        let r = Normal { head: self.head.clone(), contents: self.contents.clone() };
        proof {
            assert(r.contents@ =~= self.contents@);
            self.lemma_view();
            r.lemma_view();
        }
        r
    }
}

impl Clone for ExprKind {
    fn clone(&self) -> (r: ExprKind)
        ensures
            r@ == self@,
    {
        match self {
            ExprKind::Integer(n) => ExprKind::Integer(*n),
            ExprKind::Real(x) => ExprKind::Real(*x),
            ExprKind::String(s) => ExprKind::String(s.clone()),
            ExprKind::Symbol(s) => ExprKind::Symbol(s.clone()),
            ExprKind::Normal(n) => ExprKind::Normal(n.clone()),
        }
    }
}

impl Expr {
    /// A new expression holding `kind`.
    pub fn new(kind: ExprKind) -> (r: Expr)
        ensures
            r@ == kind@,
    {
        Expr { inner: Arc::new(kind) }
    }

    /// The variant of this expression, taken out of the handle: without a copy
    /// when this is the last handle to it.
    pub fn to_kind(self) -> (r: ExprKind)
        ensures
            r@ == self@,
    {
        unwrap_or_clone(self.inner)
    }

    /// A read-only view of the variant of this expression.
    pub fn kind(&self) -> (r: &ExprKind)
        ensures
            r@ == self@,
    {
        &*self.inner
    }

    /// Mutable access to the variant of this expression. Where the tree is
    /// shared with other handles it is copied first, so that they observe no
    /// change.
    pub fn kind_mut(&mut self) -> (r: &mut ExprKind)
        ensures
            (*r)@ == old(self)@,
            final(self)@ == (*final(r))@,
    {
        make_mut(&mut self.inner)
    }

    /// The number of handles to this expression's tree, this one included.
    pub fn ref_count(&self) -> (r: usize)
        ensures
            r >= 1,
    {
        strong_count(&self.inner)
    }

    /// The normal expression `head[contents...]`.
    pub fn normal(head: Expr, contents: Vec<Expr>) -> (r: Expr)
        ensures
            r@ == Term::Apply(Box::new(head@), terms(contents@)),
    {
        let n = Normal { head, contents };
        proof {
            n.lemma_view();
        }
        Expr { inner: Arc::new(ExprKind::Normal(n)) }
    }

    /// The normal expression whose head is the symbol `head`.
    pub fn function(head: Symbol, contents: Vec<Expr>) -> (r: Expr)
        ensures
            r@ == Term::Apply(Box::new(Term::Sym(head@)), terms(contents@)),
    {
        Self::normal(Expr::symbol(head), contents)
    }

    /// The symbol `s` as an expression.
    pub fn symbol(s: Symbol) -> (r: Expr)
        ensures
            r@ == Term::Sym(s@),
    {
        Expr { inner: Arc::new(ExprKind::Symbol(s)) }
    }

    /// The number `num` as an expression.
    pub fn number(num: Number) -> (r: Expr)
        ensures
            r@ == match num {
                Number::Integer(n) => Term::Integer(n),
                Number::Real(x) => Term::Real(x@),
            },
    {
        let kind = match num {
            Number::Integer(n) => ExprKind::Integer(n),
            Number::Real(x) => ExprKind::Real(x),
        };
        Expr { inner: Arc::new(kind) }
    }

    /// The string `s` as an expression.
    pub fn string(s: &str) -> (r: Expr)
        ensures
            r@ == Term::Str(s@),
    {
        Expr { inner: Arc::new(ExprKind::String(s.to_owned())) }
    }

    /// The machine integer `n` as an expression.
    pub fn integer(n: i64) -> (r: Expr)
        ensures
            r@ == Term::Integer(n),
    {
        Expr { inner: Arc::new(ExprKind::Integer(n)) }
    }

    /// The outermost symbol of this expression: none for a number or a string,
    /// the symbol itself for a symbol, and the tag of the head for a normal
    /// expression.
    pub fn tag(&self) -> (r: Option<Symbol>)
        ensures
            match r {
                Some(s) => tag_of(self@) == Some(s@),
                None => tag_of(self@) is None,
            },
        decreases self,
    {
        match &*self.inner {
            ExprKind::Integer(_) | ExprKind::Real(_) | ExprKind::String(_) => None,
            ExprKind::Normal(normal) => {
                proof {
                    normal.lemma_view();
                }
                normal.head.tag()
            },
            ExprKind::Symbol(sym) => Some(sym.clone()),
        }
    }

    /// The head of this expression where it is a normal expression.
    pub fn normal_head(&self) -> (r: Option<Expr>)
        ensures
            match self@ {
                Term::Apply(h, _) => r matches Some(e) && e@ == *h,
                _ => r is None,
            },
    {
        match &*self.inner {
            ExprKind::Normal(normal) => {
                proof {
                    normal.lemma_view();
                }
                Some(normal.head.clone())
            },
            ExprKind::Symbol(_) | ExprKind::Integer(_) | ExprKind::Real(_) | ExprKind::String(
                _,
            ) => None,
        }
    }

    /// The element at 0-based `index_0` of a normal expression (the head is not
    /// counted); `None` when this is not a normal expression or the index is out
    /// of range.
    pub fn normal_part(&self, index_0: usize) -> (r: Option<&Expr>)
        ensures
            match self@ {
                Term::Apply(_, args) => if index_0 < args.len() {
                    r matches Some(e) && e@ == args[index_0 as int]
                } else {
                    r is None
                },
                _ => r is None,
            },
    {
        match &*self.inner {
            ExprKind::Normal(normal) => {
                proof {
                    normal.lemma_view();
                }
                if index_0 < normal.contents.len() {
                    Some(&normal.contents[index_0])
                } else {
                    None
                }
            },
            ExprKind::Symbol(_) | ExprKind::Integer(_) | ExprKind::Real(_) | ExprKind::String(
                _,
            ) => None,
        }
    }

    /// Whether this is a normal expression whose head is the symbol `sym`.
    pub fn has_normal_head(&self, sym: &Symbol) -> (r: bool)
        ensures
            r == (self@ matches Term::Apply(h, _) && *h == Term::Sym(sym@)),
    {
        match &*self.inner {
            ExprKind::Normal(normal) => {
                proof {
                    normal.lemma_view();
                }
                normal.has_head(sym)
            },
            _ => false,
        }
    }

    /// Whether this expression is the symbol `sym`.
    pub fn is_symbol(&self, sym: &Symbol) -> (r: bool)
        ensures
            r == (self@ == Term::Sym(sym@)),
    {
        match &*self.inner {
            ExprKind::Symbol(s) => *s == *sym,
            _ => false,
        }
    }

    /// The symbol ``System`Null``.
    pub fn null() -> (r: Expr)
        ensures
            r@ == Term::Sym(null_name()),
    {
        Expr::symbol(Symbol::new("System`Null"))
    }

    /// The rule `lhs -> rhs`.
    pub fn rule(lhs: Expr, rhs: Expr) -> (r: Expr)
        ensures
            r@ == Term::Apply(Box::new(Term::Sym(rule_name())), seq![lhs@, rhs@]),
    {
        let ghost (l, h) = (lhs@, rhs@);
        let contents = vec![lhs, rhs];
        let r = Expr::function(Symbol::new("System`Rule"), contents);
        assert(terms(contents@) =~= seq![l, h]);
        r
    }

    /// The delayed rule `lhs :> rhs`.
    pub fn rule_delayed(lhs: Expr, rhs: Expr) -> (r: Expr)
        ensures
            r@ == Term::Apply(Box::new(Term::Sym(rule_delayed_name())), seq![lhs@, rhs@]),
    {
        let ghost (l, h) = (lhs@, rhs@);
        let contents = vec![lhs, rhs];
        let r = Expr::function(Symbol::new("System`RuleDelayed"), contents);
        assert(terms(contents@) =~= seq![l, h]);
        r
    }

    /// The list `{elements...}`.
    pub fn list(elements: Vec<Expr>) -> (r: Expr)
        ensures
            r@ == Term::Apply(Box::new(Term::Sym(list_name())), terms(elements@)),
    {
        Expr::function(Symbol::new("System`List"), elements)
    }
}

impl Normal {
    /// The normal expression `head[contents...]`.
    pub fn new(head: Expr, contents: Vec<Expr>) -> (r: Normal)
        ensures
            r@ == Term::Apply(Box::new(head@), terms(contents@)),
    {
        let r = Normal { head, contents };
        proof {
            r.lemma_view();
        }
        r
    }

    /// The head of this normal expression.
    pub fn head(&self) -> (r: &Expr)
        ensures
            self@ matches Term::Apply(h, _) && r@ == *h,
    {
        proof {
            self.lemma_view();
        }
        &self.head
    }

    /// The elements of this normal expression.
    pub fn elements(&self) -> (r: &[Expr])
        ensures
            self@ matches Term::Apply(_, args) && terms(r@) == args,
    {
        proof {
            self.lemma_view();
        }
        self.contents.as_slice()
    }

    /// The elements of this normal expression, taken out of it.
    pub fn into_elements(self) -> (r: Vec<Expr>)
        ensures
            self@ matches Term::Apply(_, args) && terms(r@) == args,
    {
        proof {
            self.lemma_view();
        }
        self.contents
    }

    /// Whether the head of this normal expression is the symbol `sym`.
    pub fn has_head(&self, sym: &Symbol) -> (r: bool)
        ensures
            r == (self@ matches Term::Apply(h, _) && *h == Term::Sym(sym@)),
    {
        proof {
            self.lemma_view();
        }
        self.head.is_symbol(sym)
    }
}

impl Expr {
    /// Structural equality: the same variant with equal contents, all the way
    /// down. Whether the two handles share storage does not matter.
    pub fn same(&self, o: &Expr) -> (r: bool)
        ensures
            r == (self@ == o@),
        decreases self,
    {
        self.inner.same(&o.inner)
    }
}

impl ExprKind {
    /// Structural equality of two variants.
    pub fn same(&self, o: &ExprKind) -> (r: bool)
        ensures
            r == (self@ == o@),
        decreases self,
    {
        match (self, o) {
            (ExprKind::Integer(a), ExprKind::Integer(b)) => *a == *b,
            (ExprKind::Real(a), ExprKind::Real(b)) => a.to_bits() == b.to_bits(),
            (ExprKind::String(a), ExprKind::String(b)) => *a == *b,
            (ExprKind::Symbol(a), ExprKind::Symbol(b)) => *a == *b,
            (ExprKind::Normal(a), ExprKind::Normal(b)) => a.same(b),
            _ => false,
        }
    }
}

impl Normal {
    /// Structural equality of two normal expressions.
    pub fn same(&self, o: &Normal) -> (r: bool)
        ensures
            r == (self@ == o@),
        decreases self,
    {
        proof {
            self.lemma_view();
            o.lemma_view();
        }
        if !self.head.same(&o.head) {
            proof {
                if self@ == o@ {
                    assert(self@->Apply_0 == o@->Apply_0);
                }
            }
            return false;
        }
        if self.contents.len() != o.contents.len() {
            proof {
                assert(terms(self.contents@).len() == self.contents@.len());
                assert(terms(o.contents@).len() == o.contents@.len());
                if self@ == o@ {
                    assert(self@->Apply_1 == o@->Apply_1);
                }
            }
            return false;
        }
        let mut i: usize = 0;
        while i < self.contents.len()
            invariant
                i <= self.contents.len(),
                self.contents.len() == o.contents.len(),
                forall|j: int| 0 <= j < i ==> self.contents@[j]@ == o.contents@[j]@,
                self@ == Term::Apply(Box::new(self.head@), terms(self.contents@)),
                o@ == Term::Apply(Box::new(o.head@), terms(o.contents@)),
            decreases self.contents.len() - i,
        {
            if !self.contents[i].same(&o.contents[i]) {
                proof {
                    assert(terms(self.contents@)[i as int] != terms(o.contents@)[i as int]);
                    if self@ == o@ {
                        assert(self@->Apply_1 == o@->Apply_1);
                    }
                }
                return false;
            }
            i = i + 1;
        }
        assert(terms(self.contents@) =~= terms(o.contents@));
        true
    }
}

impl PartialEq for Expr {
    fn eq(&self, o: &Expr) -> (r: bool) {
        self.same(o)
    }
}

impl vstd::std_specs::cmp::PartialEqSpecImpl for Expr {
    open spec fn obeys_eq_spec() -> bool {
        true
    }

    open spec fn eq_spec(&self, o: &Expr) -> bool {
        self@ == o@
    }
}

impl Eq for Expr {}

impl PartialEq for ExprKind {
    fn eq(&self, o: &ExprKind) -> (r: bool) {
        self.same(o)
    }
}

impl vstd::std_specs::cmp::PartialEqSpecImpl for ExprKind {
    open spec fn obeys_eq_spec() -> bool {
        true
    }

    open spec fn eq_spec(&self, o: &ExprKind) -> bool {
        self@ == o@
    }
}

impl Eq for ExprKind {}

impl PartialEq for Normal {
    fn eq(&self, o: &Normal) -> (r: bool) {
        self.same(o)
    }
}

impl vstd::std_specs::cmp::PartialEqSpecImpl for Normal {
    open spec fn obeys_eq_spec() -> bool {
        true
    }

    open spec fn eq_spec(&self, o: &Normal) -> bool {
        self@ == o@
    }
}

impl Eq for Normal {}

/// The tag of a number or a string is absent, the tag of a symbol is the
/// symbol, and the tag of a normal expression is the tag of its head.
pub proof fn tag_laws(n: i64, bits: u64, s: Seq<char>, head: Term, args: Seq<Term>)
    ensures
        tag_of(Term::Integer(n)) is None,
        tag_of(Term::Real(bits)) is None,
        tag_of(Term::Str(s)) is None,
        tag_of(Term::Sym(s)) == Some(s),
        tag_of(Term::Apply(Box::new(head), args)) == tag_of(head),
{
}

} // verus!
