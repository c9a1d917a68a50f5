use vstd::prelude::*;

verus! {

/// A context-qualified name such as ``System`List``.
///
/// Two symbols are equal when their qualified names are equal.
#[derive(Debug, Hash)]
pub struct Symbol {
    name: String,
}

impl View for Symbol {
    type V = Seq<char>;

    closed spec fn view(&self) -> Seq<char> {
        self.name@
    }
}

/// The qualified-name prefix of the system context, ``System` ``.
pub open spec fn system_prefix() -> Seq<char> {
    seq!['S', 'y', 's', 't', 'e', 'm', '`']
}

impl Symbol {
    /// A symbol with the qualified name `name`.
    pub fn new(name: &str) -> (r: Symbol)
        ensures
            r@ == name@,
    {
        Symbol { name: name.to_owned() }
    }

    /// The qualified name of this symbol.
    pub fn as_str(&self) -> (r: &str)
        ensures
            r@ == self@,
    {
        self.name.as_str()
    }

    /// Whether this symbol lies in the system context, that is its qualified
    /// name starts with ``System` ``.
    pub fn is_system_symbol(&self) -> (r: bool)
        ensures
            r == system_prefix().is_prefix_of(self@),
    {
        proof {
            reveal_strlit("System`");
        }
        let name = self.name.as_str();
        let prefix = "System`";
        let n = name.unicode_len();
        if n < 7 {
            return false;
        }
        let mut i: usize = 0;
        while i < 7
            invariant
                i <= 7 <= n,
                n == name@.len(),
                name@ == self@,
                prefix@ == system_prefix(),
                forall|j: int| 0 <= j < i ==> name@[j] == system_prefix()[j],
            decreases 7 - i,
        {
            if name.get_char(i) != prefix.get_char(i) {
                return false;
            }
            i = i + 1;
        }
        assert(system_prefix() =~= self@.subrange(0, 7));
        true
    }
}

impl Clone for Symbol {
    fn clone(&self) -> (r: Symbol)
        ensures
            r@ == self@,
    {
        Symbol { name: self.name.clone() }
    }
}

impl PartialEq for Symbol {
    fn eq(&self, o: &Symbol) -> (r: bool) {
        self.name == o.name
    }
}

impl vstd::std_specs::cmp::PartialEqSpecImpl for Symbol {
    open spec fn obeys_eq_spec() -> bool {
        true
    }

    open spec fn eq_spec(&self, o: &Symbol) -> bool {
        self@ == o@
    }
}

impl Eq for Symbol {}

} // verus!
