//! The symbol table.

use vstd::prelude::*;
use crate::text::{int_text, int_to_text, str_eq, texts};
use crate::value::{Sym, Value};

verus! {

/// Names in the order in which they were first interned.
#[derive(Debug)]
pub struct Interner {
    names: Vec<String>,
}

impl View for Interner {
    type V = Seq<Seq<char>>;

    closed spec fn view(&self) -> Seq<Seq<char>> {
        texts(self.names@)
    }
}

/// The symbol of a name, where it has one.
pub open spec fn symbol_of(names: Seq<Seq<char>>, name: Seq<char>) -> Option<Sym> {
    if names.contains(name) {
        Some(Sym(names.index_of(name) as usize))
    } else {
        None
    }
}

/// The names after interning one.
pub open spec fn with_name(names: Seq<Seq<char>>, name: Seq<char>) -> Seq<Seq<char>> {
    if names.contains(name) {
        names
    } else {
        names.push(name)
    }
}

/// The symbol that interning a name gives.
pub open spec fn interned(names: Seq<Seq<char>>, name: Seq<char>) -> Sym {
    if names.contains(name) {
        Sym(names.index_of(name) as usize)
    } else {
        Sym(names.len() as usize)
    }
}

/// How a constant reads. A symbol that was never interned reads as nothing.
pub open spec fn shown(names: Seq<Seq<char>>, v: Value) -> Seq<char> {
    match v {
        Value::Int(i) => int_text(i as int),
        Value::Sym(s) => if s.0 < names.len() {
            names[s.0 as int]
        } else {
            Seq::empty()
        },
    }
}

/// Interning keeps every symbol and gives the name a symbol that reads back.
pub proof fn intern_reads_back(names: Seq<Seq<char>>, name: Seq<char>)
    requires
        names.len() < usize::MAX,
    ensures
        shown(with_name(names, name), Value::Sym(interned(names, name))) == name,
        symbol_of(with_name(names, name), name) == Some(interned(names, name)),
        forall|i: int| 0 <= i < names.len() ==> with_name(names, name)[i] == names[i],
{
    let m = with_name(names, name);
    if !names.contains(name) {
        assert(m[names.len() as int] == name);
        assert(m.contains(name));
        let k = m.index_of(name);
        assert(m[k] == name);
        if k < names.len() {
            assert(names[k] == name);
        }
    } else {
        assert(names[names.index_of(name)] == name);
    }
}

impl Interner {
    #[verifier::type_invariant]
    spec fn distinct(self) -> bool {
        texts(self.names@).no_duplicates()
    }

    /// An interner without names.
    pub fn new() -> (r: Interner)
        ensures
            r@ == Seq::<Seq<char>>::empty(),
    {
        let r = Interner { names: Vec::new() };
        assert(r@ =~= Seq::empty());
        r
    }

    /// How many names have a symbol.
    pub fn len(&self) -> (r: usize)
        ensures
            r == self@.len(),
    {
        self.names.len()
    }

    /// The symbol of a name, where it has one.
    pub fn lookup(&self, name: &str) -> (r: Option<Sym>)
        ensures
            r == symbol_of(self@, name@),
    {
        proof {
            use_type_invariant(self);
        }
        let mut i: usize = 0;
        while i < self.names.len()
            invariant
                i <= self.names@.len(),
                self@.no_duplicates(),
                forall|j: int| 0 <= j < i ==> (#[trigger] self@[j]) != name@,
            decreases self.names@.len() - i,
        {
            assert(self@[i as int] == self.names@[i as int]@);
            if str_eq(self.names[i].as_str(), name) {
                proof {
                    assert(self@.contains(name@));
                    let k = self@.index_of(name@);
                    assert(self@[k] == name@);
                    assert(k == i);
                }
                return Some(Sym(i));
            }
            i += 1;
        }
        None
    }

    /// The symbol of a name, which gets one if it has none.
    pub fn intern(&mut self, name: &str) -> (r: Sym)
        ensures
            final(self)@ == with_name(old(self)@, name@),
            r == interned(old(self)@, name@),
    {
        proof {
            use_type_invariant(&*self);
        }
        match self.lookup(name) {
            Some(s) => s,
            None => {
                let id = self.names.len();
                let mut names: Vec<String> = Vec::new();
                std::mem::swap(&mut names, &mut self.names);
                let ghost before = texts(names@);
                names.push(name.to_owned());
                assert(texts(names@) =~= before.push(name@));
                self.names = names;
                Sym(id)
            },
        }
    }

    /// The name of a symbol of this table.
    pub fn resolve(&self, s: Sym) -> (r: &str)
        requires
            s.0 < self@.len(),
        ensures
            r@ == self@[s.0 as int],
    {
        self.names[s.0].as_str()
    }

    /// How a constant reads.
    pub fn display(&self, v: &Value) -> (r: String)
        ensures
            r@ == shown(self@, *v),
    {
        match v {
            Value::Int(i) => int_to_text(*i),
            Value::Sym(s) => if s.0 < self.names.len() {
                self.names[s.0].clone()
            } else {
                String::new()
            },
        }
    }
}

} // verus!
