use vstd::prelude::*;

use crate::error::{NreseError, NreseResult};

verus! {

/// Whether `s` contains the character `c`.
fn str_has_char(s: &str, c: char) -> (r: bool)
    ensures
        r == s@.contains(c),
{
    let mut found = false;
    for x in it: s.chars()
        invariant
            it.seq() == s@,
            found == s@.take(it.index() as int).contains(c),
    {
        let ghost pre = s@.take(it.index() as int);
        proof {
            assert(x == s@[it.index() as int]);
            assert(s@.take(it.index() + 1) =~= pre.push(x));
            if pre.push(x).contains(c) && x != c {
                let j = choose|j: int| 0 <= j < pre.push(x).len() && pre.push(x)[j] == c;
                assert(pre[j] == c);
            }
            if x == c {
                assert(pre.push(x)[pre.len() as int] == c);
            }
            if pre.contains(c) {
                let j = choose|j: int| 0 <= j < pre.len() && pre[j] == c;
                assert(pre.push(x)[j] == c);
            }
        }
        if x == c {
            found = true;
        }
    }
    proof {
        assert(s@.take(s@.len() as int) =~= s@);
    }
    found
}

/// A borrowed IRI: a string that holds a `:` (scheme separator).
#[derive(Debug, Clone, Copy, PartialEq, Eq, Hash)]
pub struct IriRef<'a> {
    value: &'a str,
}

impl<'a> View for IriRef<'a> {
    type V = Seq<char>;

    closed spec fn view(&self) -> Seq<char> {
        self.value@
    }
}

impl<'a> IriRef<'a> {
    /// Accepts `value` as an IRI when it contains `:`; otherwise reports
    /// `InvalidIri` with the rejected text.
    pub fn new(value: &'a str) -> (r: NreseResult<Self>)
        ensures
            value@.contains(':') <==> r is Ok,
            r matches Ok(iri) ==> iri@ == value@,
            r matches Err(e) ==> e matches NreseError::InvalidIri(text) && text@ == value@,
    {
        if str_has_char(value, ':') {
            Ok(IriRef { value })
        } else {
            Err(NreseError::InvalidIri(value.to_owned()))
        }
    }

    /// The IRI text.
    pub fn as_str(self) -> (r: &'a str)
        ensures
            r@ == self@,
    {
        self.value
    }
}

/// A borrowed RDF triple of three IRIs.
#[derive(Debug, Clone, Copy, PartialEq, Eq, Hash)]
pub struct TripleRef<'a> {
    pub subject: IriRef<'a>,
    pub predicate: IriRef<'a>,
    pub object: IriRef<'a>,
}

impl<'a> TripleRef<'a> {
    /// The triple `(subject, predicate, object)`.
    pub fn new(subject: IriRef<'a>, predicate: IriRef<'a>, object: IriRef<'a>) -> (r: Self)
        ensures
            r.subject == subject,
            r.predicate == predicate,
            r.object == object,
    {
        TripleRef { subject, predicate, object }
    }
}

} // verus!
