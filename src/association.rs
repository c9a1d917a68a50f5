use crate::expr::{rule_delayed_name, rule_name, terms, Expr, Term};
use crate::symbol::Symbol;
use indexmap::IndexMap;
use std::hash::RandomState;
use vstd::prelude::*;

verus! {

#[verifier::external_type_specification]
#[verifier::external_body]
#[verifier::reject_recursive_types(K)]
#[verifier::reject_recursive_types(V)]
#[verifier::reject_recursive_types(S)]
pub struct ExIndexMap<K, V, S>(IndexMap<K, V, S>);

/// One record of an association: key, whether the rule is delayed, value.
pub type Record = (Term, bool, Term);

/// The records that an `IndexMap` of expressions holds, in its order.
pub uninterp spec fn index_map_records(m: IndexMap<Expr, (bool, Expr), RandomState>) -> Seq<
    Record,
>;

/// The keys of a sequence of records, in order.
pub open spec fn record_keys(s: Seq<Record>) -> Seq<Term> {
    s.map_values(|r: Record| r.0)
}

/// No key stands in two records.
pub open spec fn keys_unique(s: Seq<Record>) -> bool {
    forall|i: int, j: int| 0 <= i < s.len() && 0 <= j < s.len() && i != j ==> s[i].0 != s[j].0
}

/// Whether some record has the key `k`.
pub open spec fn has_key(s: Seq<Record>, k: Term) -> bool {
    exists|i: int| 0 <= i < s.len() && s[i].0 == k
}

/// The records after inserting `(k, delayed, v)`: a record with key `k` keeps its
/// place and takes the new flag and value; otherwise the record goes last.
pub open spec fn upsert(s: Seq<Record>, k: Term, delayed: bool, v: Term) -> Seq<Record> {
    if has_key(s, k) {
        let i = choose|i: int| 0 <= i < s.len() && s[i].0 == k;
        s.update(i, (k, delayed, v))
    } else {
        s.push((k, delayed, v))
    }
}

/// The rule that a record stands for: `k -> v`, or `k :> v` where delayed.
pub open spec fn record_rule(r: Record) -> Term {
    Term::Apply(
        Box::new(Term::Sym(if r.1 { rule_delayed_name() } else { rule_name() })),
        seq![r.0, r.2],
    )
}

pub open spec fn association_name() -> Seq<char> {
    "System`Association"@
}

/// The rules of a sequence of records, in order.
pub open spec fn record_rules(s: Seq<Record>) -> Seq<Term> {
    s.map_values(|r: Record| record_rule(r))
}

/// The expression of an association: ``System`Association`` applied to the
/// rules of its records, in order.
pub open spec fn association_term(s: Seq<Record>) -> Term {
    Term::Apply(Box::new(Term::Sym(association_name())), record_rules(s))
}

/// Relies on `IndexMap::new`: a map with no entries.
#[verifier::external_body]
fn map_new() -> (r: IndexMap<Expr, (bool, Expr), RandomState>)
    ensures
        index_map_records(r) == Seq::<Record>::empty(),
{
    IndexMap::new()
}

/// Relies on `IndexMap::insert`: an entry with an equal key keeps its place and
/// takes the new value; otherwise the entry goes last. Keys are compared by
/// `Expr`'s `==`, which is equality of values.
#[verifier::external_body]
fn map_insert(m: &mut IndexMap<Expr, (bool, Expr), RandomState>, k: Expr, v: (bool, Expr))
    requires
        keys_unique(index_map_records(*old(m))),
    ensures
        index_map_records(*final(m)) == upsert(index_map_records(*old(m)), k@, v.0, v.1@),
{
    m.insert(k, v);
}

/// Relies on `IndexMap::clone`: the same entries in the same order, each key
/// and value cloned (an `Expr` clone is another handle to the same tree).
#[verifier::external_body]
fn map_clone(m: &IndexMap<Expr, (bool, Expr), RandomState>) -> (r: IndexMap<
    Expr,
    (bool, Expr),
    RandomState,
>)
    ensures
        index_map_records(r) == index_map_records(*m),
{
    m.clone()
}

/// Relies on `IndexMap::get`: the value of the entry whose key equals `k`
/// (by `Expr`'s `==`, equality of values), if there is one.
#[verifier::external_body]
fn map_get<'a>(m: &'a IndexMap<Expr, (bool, Expr), RandomState>, k: &Expr) -> (r: Option<
    &'a (bool, Expr),
>)
    ensures
        r is Some <==> has_key(index_map_records(*m), k@),
        r matches Some(v) ==> exists|i: int|
            0 <= i < index_map_records(*m).len() && index_map_records(*m)[i] == (k@, v.0, v.1@),
{
    m.get(k)
}

/// Relies on `IndexMap::len`: the number of entries.
#[verifier::external_body]
fn map_len(m: &IndexMap<Expr, (bool, Expr), RandomState>) -> (r: usize)
    ensures
        r == index_map_records(*m).len(),
{
    m.len()
}

/// Relies on `IndexMap::get_index`: the entry at position `i` in order, if any.
#[verifier::external_body]
fn map_get_index(m: &IndexMap<Expr, (bool, Expr), RandomState>, i: usize) -> (r: Option<
    (&Expr, &(bool, Expr)),
>)
    ensures
        r == None::<(&Expr, &(bool, Expr))> <==> i >= index_map_records(*m).len(),
        r matches Some((k, v)) ==> (k@, v.0, v.1@) == index_map_records(*m)[i as int],
{
    m.get_index(i)
}

/// An ordered map from expressions to rules: each key holds a value and a flag
/// that tells a delayed rule (`:>`) from an immediate one (`->`). Records keep
/// the order in which their keys were first inserted.
#[derive(Debug)]
pub struct Association {
    pub(crate) records: IndexMap<Expr, (bool, Expr), RandomState>,
}

pub open(crate) spec fn association_records(a: &Association) -> Seq<Record> {
    index_map_records(a.records)
}

impl View for Association {
    type V = Seq<Record>;

    open spec fn view(&self) -> Seq<Record> {
        association_records(self)
    }
}

proof fn lemma_upsert_unique(s: Seq<Record>, k: Term, delayed: bool, v: Term)
    requires
        keys_unique(s),
    ensures
        keys_unique(upsert(s, k, delayed, v)),
{
}

impl Association {
    /// Every key stands in one record only.
    pub open spec fn wf(&self) -> bool {
        keys_unique(self@)
    }

    /// An association with no records.
    pub fn new() -> (r: Association)
        ensures
            r@ == Seq::<Record>::empty(),
            r.wf(),
    {
        Association { records: map_new() }
    }

    /// Inserts the immediate rule `key -> value`. A record with an equal key
    /// keeps its place and takes the new value and flag.
    pub fn insert(&mut self, key: Expr, value: Expr)
        requires
            old(self).wf(),
        ensures
            final(self)@ == upsert(old(self)@, key@, false, value@),
            final(self).wf(),
    {
        proof {
            lemma_upsert_unique(self@, key@, false, value@);
        }
        map_insert(&mut self.records, key, (false, value));
    }

    /// Inserts the delayed rule `key :> value`. A record with an equal key
    /// keeps its place and takes the new value and flag.
    pub fn insert_delayed(&mut self, key: Expr, value: Expr)
        requires
            old(self).wf(),
        ensures
            final(self)@ == upsert(old(self)@, key@, true, value@),
            final(self).wf(),
    {
        proof {
            lemma_upsert_unique(self@, key@, true, value@);
        }
        map_insert(&mut self.records, key, (true, value));
    }

    /// The number of records.
    pub fn len(&self) -> (r: usize)
        ensures
            r == self@.len(),
    {
        map_len(&self.records)
    }

    /// The flag and value of the record whose key equals `key`, if any.
    pub fn get(&self, key: &Expr) -> (r: Option<(bool, Expr)>)
        ensures
            r is Some <==> has_key(self@, key@),
            r matches Some((d, v)) ==> exists|i: int|
                0 <= i < self@.len() && self@[i] == (key@, d, v@),
    {
        match map_get(&self.records, key) {
            Some(entry) => Some((entry.0, entry.1.clone())),
            None => None,
        }
    }

    /// The record at position `i` in order: key, whether delayed, value.
    pub fn get_index(&self, i: usize) -> (r: Option<(Expr, bool, Expr)>)
        ensures
            r is None <==> i >= self@.len(),
            r matches Some((k, d, v)) ==> (k@, d, v@) == self@[i as int],
    {
        match map_get_index(&self.records, i) {
            Some((k, v)) => Some((k.clone(), v.0, v.1.clone())),
            None => None,
        }
    }

    /// The expression of this association: ``System`Association`` applied to
    /// one rule per record, in order; `key -> value` for an immediate record
    /// and `key :> value` for a delayed one.
    pub fn as_expr(&self) -> (r: Expr)
        ensures
            r@ == association_term(self@),
    {
        let n = map_len(&self.records);
        let mut elements: Vec<Expr> = Vec::new();
        let mut i: usize = 0;
        while i < n
            invariant
                n == self@.len(),
                i <= n,
                elements@.len() == i,
                terms(elements@) == record_rules(self@.take(i as int)),
            decreases n - i,
        {
            let item = match map_get_index(&self.records, i) {
                Some((key, entry)) => {
                    let k = key.clone();
                    let v = entry.1.clone();
                    if entry.0 {
                        Expr::rule_delayed(k, v)
                    } else {
                        Expr::rule(k, v)
                    }
                },
                None => Expr::null(),
            };
            assert(item@ == record_rule(self@[i as int]));
            let ghost before = elements@;
            elements.push(item);
            proof {
                let ts = record_rules(self@.take(i + 1));
                assert forall|j: int| 0 <= j <= i implies terms(elements@)[j] == ts[j] by {
                    if j < i {
                        assert(elements@[j] == before[j]);
                        assert(terms(before)[j] == record_rules(self@.take(i as int))[j]);
                    }
                }
                assert(terms(elements@) =~= ts);
            }
            i = i + 1;
        }
        assert(self@.take(n as int) =~= self@);
        assert(record_rules(self@.take(n as int)) == record_rules(self@));
        Expr::function(Symbol::new("System`Association"), elements)
    }
}

impl Clone for Association {
    fn clone(&self) -> (r: Association)
        ensures
            r@ == self@,
    {
        Association { records: map_clone(&self.records) }
    }
}

impl Default for Association {
    fn default() -> (r: Association)
        ensures
            r@ == Seq::<Record>::empty(),
            r.wf(),
    {
        Association::new()
    }
}

impl Expr {
    /// The expression of the association `map`.
    pub fn association(map: Association) -> (r: Expr)
        ensures
            r@ == association_term(map@),
    {
        map.as_expr()
    }
}

/// Inserting a key that is already present changes no key's position: the
/// keys keep their order.
pub proof fn reinsert_keeps_order(s: Seq<Record>, k: Term, delayed: bool, v: Term)
    requires
        has_key(s, k),
    ensures
        record_keys(upsert(s, k, delayed, v)) == record_keys(s),
{
    let i = choose|i: int| 0 <= i < s.len() && s[i].0 == k;
    assert(record_keys(upsert(s, k, delayed, v)) =~= record_keys(s));
}

/// Inserting distinct keys `a`, `b`, `c` into an empty association and then
/// `b` again leaves the keys in the order `a`, `b`, `c`, with `b`'s record
/// holding the last flag and value given for it.
pub proof fn insertion_order_is_kept(
    a: Term,
    b: Term,
    c: Term,
    va: (bool, Term),
    vb: (bool, Term),
    vc: (bool, Term),
    vb2: (bool, Term),
)
    requires
        a != b,
        b != c,
        a != c,
    ensures
        ({
            let s = upsert(
                upsert(
                    upsert(upsert(Seq::<Record>::empty(), a, va.0, va.1), b, vb.0, vb.1),
                    c,
                    vc.0,
                    vc.1,
                ),
                b,
                vb2.0,
                vb2.1,
            );
            &&& record_keys(s) == seq![a, b, c]
            &&& s[1] == (b, vb2.0, vb2.1)
        }),
{
    let s0 = Seq::<Record>::empty();
    assert(!has_key(s0, a));
    let s1 = upsert(s0, a, va.0, va.1);
    assert(s1 =~= seq![(a, va.0, va.1)]);
    assert(!has_key(s1, b));
    let s2 = upsert(s1, b, vb.0, vb.1);
    assert(s2 =~= seq![(a, va.0, va.1), (b, vb.0, vb.1)]);
    assert(!has_key(s2, c)) by {
        assert(s2[0].0 != c && s2[1].0 != c);
    }
    let s3 = upsert(s2, c, vc.0, vc.1);
    assert(s3 =~= seq![(a, va.0, va.1), (b, vb.0, vb.1), (c, vc.0, vc.1)]);
    assert(has_key(s3, b)) by {
        assert(s3[1].0 == b);
    }
    let i = choose|i: int| 0 <= i < s3.len() && s3[i].0 == b;
    assert(i == 1);
    let s4 = upsert(s3, b, vb2.0, vb2.1);
    assert(s4 =~= seq![(a, va.0, va.1), (b, vb2.0, vb2.1), (c, vc.0, vc.1)]);
    assert(record_keys(s4) =~= seq![a, b, c]);
}

} // verus!
