use vstd::prelude::*;

use crate::class_consistency::blame::{lemma_text_lt_irreflexive, lemma_text_lt_total, lemma_text_lt_transitive, text_less, text_lt};
use crate::closure_index::successors;
use crate::dataset_index::group_axioms::resolve_or_unknown;
use crate::dataset_index::rdf_list::{list_failure, list_members, parse_list};
use crate::dataset_index::spec::EdgeField;
use crate::dataset_index::IndexedDataset;
use crate::idset::IdSetMap;
use crate::pairs::{triple_lt, triples_sorted, TripleSet};
use crate::symbols::SymbolTable;

verus! {

/// The longest property chain the rules support.
pub const MAX_SUPPORTED_CHAIN_LENGTH: usize = 2;

/// A binary property chain: `first` followed by `second` implies
/// `super_property`.
#[derive(Debug, Clone, Copy, PartialEq, Eq, Structural)]
pub struct BinaryPropertyChain {
    pub super_property_id: u32,
    pub first_property_id: u32,
    pub second_property_id: u32,
}

/// The decimal text of one digit.
pub open spec fn digit_text(d: nat) -> Seq<char> {
    if d == 0 {
        "0"@
    } else if d == 1 {
        "1"@
    } else if d == 2 {
        "2"@
    } else if d == 3 {
        "3"@
    } else if d == 4 {
        "4"@
    } else if d == 5 {
        "5"@
    } else if d == 6 {
        "6"@
    } else if d == 7 {
        "7"@
    } else if d == 8 {
        "8"@
    } else {
        "9"@
    }
}

/// The decimal text of `n`.
pub open spec fn decimal(n: nat) -> Seq<char>
    decreases n,
{
    if n < 10 {
        digit_text(n)
    } else {
        decimal(n / 10) + digit_text(n % 10)
    }
}

fn digit_str(d: usize) -> (r: &'static str)
    requires
        d < 10,
    ensures
        r@ == digit_text(d as nat),
{
    if d == 0 {
        "0"
    } else if d == 1 {
        "1"
    } else if d == 2 {
        "2"
    } else if d == 3 {
        "3"
    } else if d == 4 {
        "4"
    } else if d == 5 {
        "5"
    } else if d == 6 {
        "6"
    } else if d == 7 {
        "7"
    } else if d == 8 {
        "8"
    } else {
        "9"
    }
}

/// The decimal text of `n`.
pub fn decimal_string(n: usize) -> (r: String)
    ensures
        r@ == decimal(n as nat),
    decreases n,
{
    if n < 10 {
        digit_str(n).to_owned()
    } else {
        let mut text = decimal_string(n / 10);
        text.append(digit_str(n % 10));
        text
    }
}

/// The binary chains `(super, first, second)` declared by the chain heads
/// `heads` over well-formed lists of exactly two properties.
pub open spec fn binary_chains(
    first: Map<u32, Set<u32>>,
    rest: Map<u32, Set<u32>>,
    nil: u32,
    heads: Map<u32, Set<u32>>,
) -> Set<(u32, u32, u32)> {
    Set::new(
        |c: (u32, u32, u32)|
            exists|h: u32|
                successors(heads, c.0).contains(h) && #[trigger] list_members(first, rest, nil, h)
                    == Some(seq![c.1, c.2]),
    )
}

/// The diagnostic of a chain of another length than two.
pub open spec fn long_chain_message(length: Seq<char>, iri: Seq<char>) -> Seq<char> {
    "owl:propertyChainAxiom beyond binary chains is not implemented in rules-mvp; ignored chain of length "@
        + length + " for <"@ + iri + ">"@
}

/// The diagnostic of a chain over a malformed list.
pub open spec fn malformed_chain_message(iri: Seq<char>, reason: Seq<char>) -> Seq<char> {
    "owl:propertyChainAxiom over malformed named-node RDF lists is not implemented in rules-mvp; ignored chain for <"@
        + iri + "> ("@ + reason + ")"@
}

/// `msg` is the diagnostic of the chain axiom `(super, head)`.
pub open spec fn chain_diagnostic(
    first: Map<u32, Set<u32>>,
    rest: Map<u32, Set<u32>>,
    nil: u32,
    terms: Seq<Seq<char>>,
    g: (u32, u32),
    msg: Seq<char>,
) -> bool {
    match list_members(first, rest, nil, g.1) {
        Some(ms) => ms.len() != 2 && msg == long_chain_message(
            decimal(ms.len()),
            resolve_or_unknown(terms, g.0),
        ),
        None => exists|reason: Seq<char>|
            list_failure(first, rest, nil, g.1, reason) && msg == #[trigger] malformed_chain_message(
                resolve_or_unknown(terms, g.0),
                reason,
            ),
    }
}

/// The chain axiom `(super, head)` is ignored.
pub open spec fn chain_ignored(first: Map<u32, Set<u32>>, rest: Map<u32, Set<u32>>, nil: u32, g: (u32, u32)) -> bool {
    match list_members(first, rest, nil, g.1) {
        Some(ms) => ms.len() != 2,
        None => true,
    }
}

/// The chain axioms `(super, head)` of `heads`.
pub open spec fn chain_axioms(heads: Map<u32, Set<u32>>) -> Set<(u32, u32)> {
    Set::new(|g: (u32, u32)| successors(heads, g.0).contains(g.1))
}

/// `msg` is the diagnostic of some chain axiom of `heads`.
pub open spec fn some_chain_axiom(
    first: Map<u32, Set<u32>>,
    rest: Map<u32, Set<u32>>,
    nil: u32,
    terms: Seq<Seq<char>>,
    heads: Map<u32, Set<u32>>,
    msg: Seq<char>,
) -> bool {
    exists|g: (u32, u32)| chain_axioms(heads).contains(g) && #[trigger] chain_diagnostic(first, rest, nil, terms, g, msg)
}

/// `msgs` holds a diagnostic of `g`.
pub open spec fn chain_reported(
    first: Map<u32, Set<u32>>,
    rest: Map<u32, Set<u32>>,
    nil: u32,
    terms: Seq<Seq<char>>,
    g: (u32, u32),
    msgs: Seq<Seq<char>>,
) -> bool {
    exists|k: int| 0 <= k < msgs.len() && #[trigger] chain_diagnostic(first, rest, nil, terms, g, msgs[k])
}

/// The texts of `msgs`.
pub open spec fn texts(msgs: Seq<String>) -> Seq<Seq<char>> {
    msgs.map_values(|m: String| m@)
}

/// The binary property chains of a dataset, with the reports of the chain
/// axioms that are ignored.
pub struct PropertyChainPlan {
    chains: TripleSet,
    diagnostics: Vec<String>,
}

impl PropertyChainPlan {
    #[verifier::type_invariant]
    spec fn well_formed(self) -> bool {
        triples_sorted(self.chains.seq())
    }

    /// The chains `(super, first, second)`.
    pub closed spec fn chain_set(&self) -> Set<(u32, u32, u32)> {
        self.chains@
    }

    /// The diagnostics, as texts.
    pub closed spec fn messages(&self) -> Seq<Seq<char>> {
        texts(self.diagnostics@)
    }

    /// The binary chains of `index` and the reports of every other chain
    /// axiom: longer or shorter chains, and chains over malformed lists.
    /// Each report is given once.
    pub fn build(index: &IndexedDataset) -> (r: PropertyChainPlan)
        ensures
            r.chain_set() == binary_chains(
                index.edges(EdgeField::ListFirst),
                index.edges(EdgeField::ListRest),
                index.vocab().rdf_nil_id,
                index.edges(EdgeField::PropertyChainAxiomHeads),
            ),
            texts_sorted(r.messages()),
            r.messages().no_duplicates(),
            forall|k: int| 0 <= k < r.messages().len() ==> #[trigger] some_chain_axiom(
                index.edges(EdgeField::ListFirst),
                index.edges(EdgeField::ListRest),
                index.vocab().rdf_nil_id,
                index.terms(),
                index.edges(EdgeField::PropertyChainAxiomHeads),
                r.messages()[k],
            ),
            forall|g: (u32, u32)| chain_axioms(index.edges(EdgeField::PropertyChainAxiomHeads)).contains(g)
                && #[trigger] chain_ignored(index.edges(EdgeField::ListFirst), index.edges(EdgeField::ListRest), index.vocab().rdf_nil_id, g)
                ==> chain_reported(
                    index.edges(EdgeField::ListFirst),
                    index.edges(EdgeField::ListRest),
                    index.vocab().rdf_nil_id,
                    index.terms(),
                    g,
                    r.messages(),
                ),
    {
        let heads = index.property_chain_axiom_heads();
        let first = index.list_first_by_node();
        let rest = index.list_rest_by_node();
        let nil = index.rdf_nil_id();
        let symbols = index.symbols();
        let axioms = collect_chain_axioms(heads);
        let ghost f = first@;
        let ghost rs = rest@;
        let ghost terms = symbols@;
        let n = axioms.len();
        let mut chains = TripleSet::new();
        let mut diagnostics: Vec<String> = Vec::new();
        let mut t: usize = 0;
        proof {
            assert(texts(diagnostics@) =~= Seq::<Seq<char>>::empty());
        }
        while t < n
            invariant
                n == axioms@.len(),
                axioms@.to_set() == chain_axioms(heads@),
                f == first@,
                rs == rest@,
                terms == symbols@,
                t <= n,
                chains@ == binary_chains(f, rs, nil, heads@).filter(
                    |c: (u32, u32, u32)| exists|h: u32| axioms@.take(t as int).contains((c.0, h)) && list_members(f, rs, nil, h) == Some(seq![c.1, c.2]),
                ),
                texts_sorted(texts(diagnostics@)),
                forall|k: int| 0 <= k < diagnostics@.len() ==> #[trigger] some_chain_axiom(f, rs, nil, terms, heads@, diagnostics@[k]@),
                forall|g: (u32, u32)| axioms@.take(t as int).contains(g) && #[trigger] chain_ignored(f, rs, nil, g)
                    ==> chain_reported(f, rs, nil, terms, g, texts(diagnostics@)),
            decreases n - t,
        {
            let (super_id, head_id) = axioms[t];
            let ghost g = axioms@[t as int];
            let ghost before_chains = chains@;
            let ghost before_msgs = texts(diagnostics@);
            proof {
                assert forall|k: int| 0 <= k < before_msgs.len() implies #[trigger] some_chain_axiom(f, rs, nil, terms, heads@, before_msgs[k]) by {
                    assert(before_msgs[k] == diagnostics@[k]@);
                }
                assert(axioms@.to_set().contains(g));
                assert forall|x: (u32, u32)| axioms@.take(t + 1).contains(x) <==> (axioms@.take(t as int).contains(x) || x == g) by {
                    crate::idset::lemma_take_succ_to_set(axioms@, t as int);
                    assert(axioms@.take(t + 1).to_set().contains(x) == axioms@.take(t + 1).contains(x));
                    assert(axioms@.take(t as int).to_set().contains(x) == axioms@.take(t as int).contains(x));
                }
            }
            let message_opt: Option<String> = match parse_list(first, rest, nil, head_id) {
                Ok(members) => {
                    if members.len() == MAX_SUPPORTED_CHAIN_LENGTH {
                        let c = (super_id, members[0], members[1]);
                        chains.insert(c);
                        proof {
                            assert(members@ =~= seq![c.1, c.2]);
                        }
                        None
                    } else {
                        let iri = resolve_text_or_unknown(symbols, super_id);
                        let length = decimal_string(members.len());
                        let mut message = "owl:propertyChainAxiom beyond binary chains is not implemented in rules-mvp; ignored chain of length ".to_owned();
                        message.append(length.as_str());
                        message.append(" for <");
                        message.append(iri);
                        message.append(">");
                        proof {
                            assert(chain_diagnostic(f, rs, nil, terms, g, message@));
                        }
                        Some(message)
                    }
                },
                Err(reason) => {
                    let iri = resolve_text_or_unknown(symbols, super_id);
                    let mut message = "owl:propertyChainAxiom over malformed named-node RDF lists is not implemented in rules-mvp; ignored chain for <".to_owned();
                    message.append(iri);
                    message.append("> (");
                    message.append(reason);
                    message.append(")");
                    proof {
                        let ghost who = resolve_or_unknown(terms, g.0);
                        assert(message@ == malformed_chain_message(who, reason@));
                        assert(list_failure(f, rs, nil, g.1, reason@));
                        assert(chain_diagnostic(f, rs, nil, terms, g, message@));
                    }
                    Some(message)
                },
            };
            match message_opt {
                Some(message) => {
                    let ghost msg = message@;
                    insert_message(&mut diagnostics, message);
                    proof {
                        let now = texts(diagnostics@);
                        assert(now.contains(msg));
                        let j = choose|j: int| 0 <= j < now.len() && now[j] == msg;
                        assert(chain_diagnostic(f, rs, nil, terms, g, now[j]));
                        assert forall|x: (u32, u32)| axioms@.take(t + 1).contains(x) && #[trigger] chain_ignored(f, rs, nil, x)
                            implies chain_reported(f, rs, nil, terms, x, now) by {
                            if x != g {
                                let k = choose|k: int| 0 <= k < before_msgs.len() && #[trigger] chain_diagnostic(f, rs, nil, terms, x, before_msgs[k]);
                                assert(before_msgs.contains(before_msgs[k]));
                                assert(now.contains(before_msgs[k]));
                                let k2 = choose|k2: int| 0 <= k2 < now.len() && now[k2] == before_msgs[k];
                                assert(chain_diagnostic(f, rs, nil, terms, x, now[k2]));
                            }
                        }
                        assert forall|k: int| 0 <= k < diagnostics@.len() implies #[trigger] some_chain_axiom(f, rs, nil, terms, heads@, diagnostics@[k]@) by {
                            assert(now[k] == diagnostics@[k]@);
                            assert(now.contains(now[k]));
                            if now[k] == msg {
                                assert(chain_axioms(heads@).contains(g));
                            } else {
                                let k0 = choose|k0: int| 0 <= k0 < before_msgs.len() && before_msgs[k0] == now[k];
                                assert(some_chain_axiom(f, rs, nil, terms, heads@, before_msgs[k0]));
                            }
                        }
                    }
                },
                None => {
                    proof {
                        assert forall|x: (u32, u32)| axioms@.take(t + 1).contains(x) && #[trigger] chain_ignored(f, rs, nil, x)
                            implies chain_reported(f, rs, nil, terms, x, texts(diagnostics@)) by {
                            if x == g {
                                assert(!chain_ignored(f, rs, nil, x));
                            }
                        }
                    }
                },
            }
            proof {
                assert(chains@ =~= binary_chains(f, rs, nil, heads@).filter(
                    |c: (u32, u32, u32)| exists|h: u32| axioms@.take(t + 1).contains((c.0, h)) && list_members(f, rs, nil, h) == Some(seq![c.1, c.2]),
                )) by {
                    assert forall|c: (u32, u32, u32)| chains@.contains(c) implies binary_chains(f, rs, nil, heads@).contains(c) && exists|h: u32| axioms@.take(t + 1).contains((c.0, h)) && list_members(f, rs, nil, h) == Some(seq![c.1, c.2]) by {
                        if !before_chains.contains(c) {
                            assert(list_members(f, rs, nil, head_id) == Some(seq![c.1, c.2]));
                            assert(axioms@.take(t + 1).contains((c.0, head_id)));
                            assert(successors(heads@, c.0).contains(head_id));
                        } else {
                            let h = choose|h: u32| axioms@.take(t as int).contains((c.0, h)) && list_members(f, rs, nil, h) == Some(seq![c.1, c.2]);
                            assert(axioms@.take(t + 1).contains((c.0, h)));
                        }
                    }
                    assert forall|c: (u32, u32, u32)| binary_chains(f, rs, nil, heads@).contains(c) && (exists|h: u32| axioms@.take(t + 1).contains((c.0, h)) && list_members(f, rs, nil, h) == Some(seq![c.1, c.2])) implies chains@.contains(c) by {
                        let h = choose|h: u32| axioms@.take(t + 1).contains((c.0, h)) && list_members(f, rs, nil, h) == Some(seq![c.1, c.2]);
                        if (c.0, h) == g {
                            assert(seq![c.1, c.2].len() == 2);
                        } else {
                            assert(axioms@.take(t as int).contains((c.0, h)));
                        }
                    }
                }
            }
            t += 1;
        }
        proof {
            assert(axioms@.take(n as int) =~= axioms@);
            assert(chains@ =~= binary_chains(f, rs, nil, heads@)) by {
                assert forall|c: (u32, u32, u32)| binary_chains(f, rs, nil, heads@).contains(c) implies chains@.contains(c) by {
                    let h = choose|h: u32| successors(heads@, c.0).contains(h) && #[trigger] list_members(f, rs, nil, h) == Some(seq![c.1, c.2]);
                    assert(chain_axioms(heads@).contains((c.0, h)));
                    assert(axioms@.to_set().contains((c.0, h)));
                }
            }
            assert forall|g: (u32, u32)| chain_axioms(heads@).contains(g) && #[trigger] chain_ignored(f, rs, nil, g)
                implies chain_reported(f, rs, nil, terms, g, texts(diagnostics@)) by {
                assert(axioms@.to_set().contains(g));
            }
            let ts = texts(diagnostics@);
            assert forall|i: int, j: int| 0 <= i < ts.len() && 0 <= j < ts.len() && i != j implies ts[i] != ts[j] by {
                if i < j {
                    assert(text_lt(ts[i], ts[j]));
                    lemma_text_lt_irreflexive(ts[i]);
                } else {
                    assert(text_lt(ts[j], ts[i]));
                    lemma_text_lt_irreflexive(ts[j]);
                }
            }
        }
        PropertyChainPlan { chains: chains.sorted_copy(), diagnostics }
    }

    /// The chains whose first property is `property_id`.
    pub fn chains_starting_with(&self, property_id: u32) -> (r: Vec<BinaryPropertyChain>)
        ensures
            forall|c: BinaryPropertyChain| #[trigger] r@.contains(c) <==> self.chain_set().contains(
                (c.super_property_id, c.first_property_id, c.second_property_id),
            ) && c.first_property_id == property_id,
            chains_sorted(r@),
    {
        self.select(property_id, true)
    }

    /// The chains whose second property is `property_id`.
    pub fn chains_ending_with(&self, property_id: u32) -> (r: Vec<BinaryPropertyChain>)
        ensures
            forall|c: BinaryPropertyChain| #[trigger] r@.contains(c) <==> self.chain_set().contains(
                (c.super_property_id, c.first_property_id, c.second_property_id),
            ) && c.second_property_id == property_id,
            chains_sorted(r@),
    {
        self.select(property_id, false)
    }

    fn select(&self, property_id: u32, by_first: bool) -> (r: Vec<BinaryPropertyChain>)
        ensures
            forall|c: BinaryPropertyChain| #[trigger] r@.contains(c) <==> self.chain_set().contains(
                (c.super_property_id, c.first_property_id, c.second_property_id),
            ) && (if by_first {
                c.first_property_id
            } else {
                c.second_property_id
            }) == property_id,
            chains_sorted(r@),
    {
        proof {
            use_type_invariant(self);
        }
        let items = self.chains.as_slice();
        let mut out: Vec<BinaryPropertyChain> = Vec::new();
        let mut i: usize = 0;
        while i < items.len()
            invariant
                i <= items@.len(),
                items@.to_set() == self.chain_set(),
                forall|c: BinaryPropertyChain| #[trigger] out@.contains(c) <==> items@.take(i as int).contains(
                    (c.super_property_id, c.first_property_id, c.second_property_id),
                ) && (if by_first {
                    c.first_property_id
                } else {
                    c.second_property_id
                }) == property_id,
            triples_sorted(items@),
            chains_sorted(out@),
            decreases items@.len() - i,
        {
            let (super_id, first_id, second_id) = items[i];
            let chain = BinaryPropertyChain {
                super_property_id: super_id,
                first_property_id: first_id,
                second_property_id: second_id,
            };
            let keep = if by_first {
                first_id == property_id
            } else {
                second_id == property_id
            };
            let ghost before = out@;
            if keep {
                out.push(chain);
            }
            proof {
                assert forall|a: int, b: int| 0 <= a < b < out@.len() implies triple_lt(
                    chain_key(#[trigger] out@[a]),
                    chain_key(#[trigger] out@[b]),
                ) by {
                    if b == before.len() {
                        assert(before.contains(out@[a]));
                        assert(items@.take(i as int).contains(chain_key(out@[a])));
                        let j = choose|j: int| 0 <= j < i && items@.take(i as int)[j] == chain_key(out@[a]);
                        assert(items@[j] == chain_key(out@[a]));
                    } else {
                        assert(out@[a] == before[a] && out@[b] == before[b]);
                    }
                }
                crate::idset::lemma_take_succ_to_set(items@, i as int);
                assert forall|c: BinaryPropertyChain| #[trigger] out@.contains(c) <==> items@.take(i + 1).contains(
                    (c.super_property_id, c.first_property_id, c.second_property_id),
                ) && (if by_first {
                    c.first_property_id
                } else {
                    c.second_property_id
                }) == property_id by {
                    let key = (c.super_property_id, c.first_property_id, c.second_property_id);
                    assert(items@.take(i + 1).to_set().contains(key) == items@.take(i + 1).contains(key));
                    assert(items@.take(i as int).to_set().contains(key) == items@.take(i as int).contains(key));
                    if keep && c == chain {
                        assert(out@[out@.len() - 1] == c);
                    }
                    if out@.contains(c) && !before.contains(c) {
                        let j = choose|j: int| 0 <= j < out@.len() && out@[j] == c;
                        if j < before.len() {
                            assert(before[j] == c);
                        }
                    }
                    if before.contains(c) {
                        let j = choose|j: int| 0 <= j < before.len() && before[j] == c;
                        assert(out@[j] == c);
                    }
                }
            }
            i += 1;
        }
        proof {
            assert(items@.take(items@.len() as int) =~= items@);
            assert forall|c: BinaryPropertyChain| out@.contains(c) <==> items@.contains((c.super_property_id, c.first_property_id, c.second_property_id)) && (if by_first {
                c.first_property_id
            } else {
                c.second_property_id
            }) == property_id by {
                let key = (c.super_property_id, c.first_property_id, c.second_property_id);
                assert(items@.to_set().contains(key) == items@.contains(key));
            }
        }
        out
    }

    /// The reports of the ignored chain axioms.
    pub fn diagnostics(&self) -> (r: &[String])
        ensures
            texts(r@) == self.messages(),
    {
        self.diagnostics.as_slice()
    }

    /// The number of binary chains.
    pub fn chain_count(&self) -> (r: usize)
        ensures
            r == self.chain_set().len(),
            self.chain_set().finite(),
    {
        self.chains.len()
    }
}

/// The chain as a tuple `(super, first, second)`.
pub open spec fn chain_key(c: BinaryPropertyChain) -> (u32, u32, u32) {
    (c.super_property_id, c.first_property_id, c.second_property_id)
}

/// `cs` is strictly increasing in the order of its tuples.
pub open spec fn chains_sorted(cs: Seq<BinaryPropertyChain>) -> bool {
    forall|a: int, b: int| 0 <= a < b < cs.len() ==> triple_lt(chain_key(#[trigger] cs[a]), chain_key(#[trigger] cs[b]))
}

/// The texts `msgs` are in strictly increasing order.
pub open spec fn texts_sorted(msgs: Seq<Seq<char>>) -> bool {
    forall|i: int, j: int| 0 <= i < j < msgs.len() ==> text_lt(#[trigger] msgs[i], #[trigger] msgs[j])
}

/// Adds `message` to the sorted `messages` at its place, unless a message
/// with its text is there already.
fn insert_message(messages: &mut Vec<String>, message: String)
    requires
        texts_sorted(texts(old(messages)@)),
    ensures
        texts_sorted(texts(final(messages)@)),
        forall|x: Seq<char>| #[trigger] texts(final(messages)@).contains(x) <==> (texts(old(messages)@).contains(x) || x == message@),
{
    let ghost old_texts = texts(messages@);
    let mut p: usize = 0;
    while p < messages.len() && text_less(messages[p].as_str(), message.as_str())
        invariant
            p <= messages@.len(),
            old_texts == texts(messages@),
            forall|j: int| 0 <= j < p ==> text_lt(#[trigger] messages@[j]@, message@),
        decreases messages@.len() - p,
    {
        p += 1;
    }
    if p < messages.len() && messages[p] == message {
        proof {
            assert(old_texts[p as int] == message@);
            assert(old_texts.contains(message@));
        }
        return;
    }
    proof {
        if p < messages@.len() {
            assert(!text_lt(messages@[p as int]@, message@));
            assert(messages@[p as int]@ != message@);
            if !text_lt(message@, messages@[p as int]@) {
                lemma_text_lt_total(messages@[p as int]@, message@);
            }
        }
    }
    let ghost m = message@;
    messages.insert(p, message);
    proof {
        let now = texts(messages@);
        assert(now =~= old_texts.insert(p as int, m));
        assert forall|i: int, j: int| 0 <= i < j < now.len() implies text_lt(#[trigger] now[i], #[trigger] now[j]) by {
            if j < p {
                assert(old_texts[i] == now[i] && old_texts[j] == now[j]);
            } else if j == p {
                assert(old_texts[i] == now[i]);
            } else if i < p {
                assert(old_texts[i] == now[i] && old_texts[j - 1] == now[j]);
                assert(old_texts[i] == messages@[i]@);
                assert(text_lt(now[i], m));
                if j - 1 > p {
                    assert(text_lt(old_texts[p as int], old_texts[j - 1]));
                }
                assert(text_lt(m, old_texts[j - 1])) by {
                    if j - 1 > p {
                        lemma_text_lt_transitive(m, old_texts[p as int], old_texts[j - 1]);
                    }
                }
                lemma_text_lt_transitive(now[i], m, now[j]);
            } else if i == p {
                assert(old_texts[j - 1] == now[j]);
                if j - 1 > p {
                    assert(text_lt(old_texts[p as int], old_texts[j - 1]));
                    lemma_text_lt_transitive(m, old_texts[p as int], old_texts[j - 1]);
                }
            } else {
                assert(old_texts[i - 1] == now[i] && old_texts[j - 1] == now[j]);
            }
        }
        assert forall|x: Seq<char>| #[trigger] now.contains(x) <==> (old_texts.contains(x) || x == m) by {
            if now.contains(x) {
                let k = choose|k: int| 0 <= k < now.len() && now[k] == x;
                if k < p {
                    assert(old_texts[k] == x);
                } else if k > p {
                    assert(old_texts[k - 1] == x);
                }
            }
            if old_texts.contains(x) {
                let k = choose|k: int| 0 <= k < old_texts.len() && old_texts[k] == x;
                if k < p {
                    assert(now[k] == x);
                } else {
                    assert(now[k + 1] == x);
                }
            }
            if x == m {
                assert(now[p as int] == x);
            }
        }
    }
}

/// The text of `id`, or `<unknown>`.
fn resolve_text_or_unknown(symbols: &SymbolTable, id: u32) -> (r: &str)
    ensures
        r@ == resolve_or_unknown(symbols@, id),
{
    match symbols.resolve(id) {
        Some(t) => t,
        None => "<unknown>",
    }
}

/// The chain axioms `(super, head)` of `heads`.
fn collect_chain_axioms(heads: &IdSetMap) -> (r: Vec<(u32, u32)>)
    ensures
        r@.to_set() == chain_axioms(heads@),
{
    let mut out: Vec<(u32, u32)> = Vec::new();
    let n = heads.len();
    let mut k: usize = 0;
    while k < n
        invariant
            n == heads.key_seq().len(),
            n == heads.set_seq().len(),
            k <= n,
            forall|g: (u32, u32)| #[trigger] out@.contains(g) <==> (chain_axioms(heads@).contains(g) && exists|x: int| 0 <= x < k && heads.key_seq()[x] == g.0),
        decreases n - k,
    {
        let key = heads.key_at(k);
        let items = heads.set_at(k).as_slice();
        let m = items.len();
        let mut y: usize = 0;
        let ghost before = out@;
        while y < m
            invariant
                m == items@.len(),
                y <= m,
                items@.to_set() == heads@[key],
                heads@.contains_key(key),
                forall|g: (u32, u32)| #[trigger] out@.contains(g) <==> (before.contains(g) || (g.0 == key && exists|z: int| 0 <= z < y && items@[z] == g.1)),
            decreases m - y,
        {
            let ghost prev = out@;
            out.push((key, items[y]));
            proof {
                assert forall|g: (u32, u32)| #[trigger] out@.contains(g) <==> (before.contains(g) || (g.0 == key && exists|z: int| 0 <= z < y + 1 && items@[z] == g.1)) by {
                    if out@.contains(g) {
                        let i = choose|i: int| 0 <= i < out@.len() && out@[i] == g;
                        if i < prev.len() {
                            assert(prev.contains(g));
                        }
                    }
                    if prev.contains(g) {
                        let i = choose|i: int| 0 <= i < prev.len() && prev[i] == g;
                        assert(out@[i] == g);
                    }
                    if g.0 == key && exists|z: int| 0 <= z < y + 1 && items@[z] == g.1 {
                        let z = choose|z: int| 0 <= z < y + 1 && items@[z] == g.1;
                        if z == y {
                            assert(out@[prev.len() as int] == g);
                        } else {
                            assert(prev.contains(g));
                        }
                    }
                }
            }
            y += 1;
        }
        proof {
            assert forall|g: (u32, u32)| #[trigger] out@.contains(g) <==> (chain_axioms(heads@).contains(g) && exists|x: int| 0 <= x < k + 1 && heads.key_seq()[x] == g.0) by {
                if g.0 == key && heads@[key].contains(g.1) {
                    assert(items@.to_set().contains(g.1));
                }
                if g.0 == key && exists|z: int| 0 <= z < m && items@[z] == g.1 {
                    let z = choose|z: int| 0 <= z < m && items@[z] == g.1;
                    assert(items@.to_set().contains(g.1));
                }
                if exists|x: int| 0 <= x < k + 1 && heads.key_seq()[x] == g.0 {
                    let x = choose|x: int| 0 <= x < k + 1 && heads.key_seq()[x] == g.0;
                    if x == k {
                        assert(g.0 == key);
                    }
                }
            }
        }
        k += 1;
    }
    proof {
        assert forall|g: (u32, u32)| #[trigger] out@.to_set().contains(g) <==> chain_axioms(heads@).contains(g) by {
            if chain_axioms(heads@).contains(g) {
                assert(heads@.contains_key(g.0));
                assert(heads.key_seq().contains(g.0));
            }
        }
        assert(out@.to_set() =~= chain_axioms(heads@));
    }
    out
}

} // verus!
