use vstd::prelude::*;

verus! {

/// The table after interning `s`, and the id of `s` in it.
pub open spec fn intern(table: Seq<Seq<char>>, s: Seq<char>) -> (Seq<Seq<char>>, u32) {
    if table.contains(s) {
        (table, table.index_of(s) as u32)
    } else {
        (table.push(s), table.len() as u32)
    }
}

/// Interns terms: each distinct string gets the next free `u32` id.
#[derive(Debug)]
pub struct SymbolTable {
    terms: Vec<String>,
}

impl View for SymbolTable {
    type V = Seq<Seq<char>>;

    closed spec fn view(&self) -> Seq<Seq<char>> {
        self.terms@.map_values(|t: String| t@)
    }
}

impl SymbolTable {
    #[verifier::type_invariant]
    spec fn inv(&self) -> bool {
        &&& self@.no_duplicates()
        &&& self.terms@.len() <= u32::MAX
    }

    /// The empty table.
    pub fn new() -> (r: SymbolTable)
        ensures
            r@ == Seq::<Seq<char>>::empty(),
            r@.no_duplicates(),
    {
        let r = SymbolTable { terms: Vec::new() };
        assert(r@ =~= Seq::<Seq<char>>::empty());
        r
    }

    /// Number of interned terms.
    pub fn len(&self) -> (r: usize)
        ensures
            r == self@.len(),
            r <= u32::MAX,
            self@.no_duplicates(),
    {
        proof {
            use_type_invariant(self);
        }
        self.terms.len()
    }

    /// Whether no term is interned.
    pub fn is_empty(&self) -> (r: bool)
        ensures
            r == (self@.len() == 0),
    {
        self.terms.len() == 0
    }

    /// The id of `term`, if it is interned.
    pub fn lookup(&self, term: &str) -> (r: Option<u32>)
        ensures
            r is Some <==> self@.contains(term@),
            r matches Some(id) ==> id < self@.len() && self@[id as int] == term@ && id
                == self@.index_of(term@),
    {
        proof {
            use_type_invariant(self);
        }
        let owned = term.to_owned();
        let n = self.terms.len();
        let mut i: usize = 0;
        while i < n
            invariant
                n == self.terms@.len(),
                n <= u32::MAX,
                owned@ == term@,
                i <= n,
                forall|j: int| 0 <= j < i ==> self@[j] != term@,
                self@.no_duplicates(),
            decreases n - i,
        {
            if self.terms[i] == owned {
                proof {
                    assert(self@[i as int] == term@);
                    assert(self@.contains(term@));
                    let k = self@.index_of(term@);
                    assert(self@[k] == term@);
                }
                return Some(i as u32);
            }
            i += 1;
        }
        assert forall|j: int| 0 <= j < self@.len() implies self@[j] != term@ by {}
        None
    }

    /// The id of `term`, interning it first when it is new.
    pub fn get_or_intern(&mut self, term: &str) -> (id: u32)
        requires
            old(self)@.len() < u32::MAX,
        ensures
            (final(self)@, id) == intern(old(self)@, term@),
            id < final(self)@.len(),
            final(self)@[id as int] == term@,
            final(self)@.no_duplicates(),
    {
        proof {
            use_type_invariant(&*self);
        }
        match self.lookup(term) {
            Some(id) => id,
            None => {
                let id = self.terms.len() as u32;
                let mut terms: Vec<String> = Vec::new();
                std::mem::swap(&mut terms, &mut self.terms);
                let ghost before = terms@;
                terms.push(term.to_owned());
                proof {
                    assert(terms@.map_values(|t: String| t@) =~= before.map_values(|t: String| t@).push(
                        term@,
                    ));
                }
                self.terms = terms;
                id
            },
        }
    }

    /// The term with id `id`, if any.
    pub fn resolve(&self, id: u32) -> (r: Option<&str>)
        ensures
            r is Some <==> id < self@.len(),
            r matches Some(t) ==> t@ == self@[id as int],
    {
        if (id as usize) < self.terms.len() {
            Some(self.terms[id as usize].as_str())
        } else {
            None
        }
    }
}

} // verus!
