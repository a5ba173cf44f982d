use vstd::prelude::*;

use crate::closure_index::successors;
use crate::dataset_index::builder::ordered_pair;
use crate::dataset_index::ids::IndexedVocabulary;
use crate::dataset_index::rdf_list::{list_failure, list_members, parse_list};
use crate::dataset_index::spec::{add_edge, ordered_pair_spec};
use crate::idset::IdSetMap;
use crate::pairs::PairSet;
use crate::symbols::SymbolTable;

verus! {

/// The pairs `(ms[i], ms[j])` of members with `i < j`.
pub open spec fn member_pairs(ms: Seq<u32>) -> Set<(u32, u32)> {
    Set::new(
        |p: (u32, u32)|
            exists|i: int, j: int| 0 <= i < j < ms.len() && #[trigger] ms[i] == p.0 && #[trigger] ms[j] == p.1,
    )
}

/// The member pairs of the list at `head`; none when the list is malformed.
pub open spec fn list_member_pairs(
    first: Map<u32, Set<u32>>,
    rest: Map<u32, Set<u32>>,
    nil: u32,
    head: u32,
) -> Set<(u32, u32)> {
    match list_members(first, rest, nil, head) {
        Some(ms) => member_pairs(ms),
        None => Set::empty(),
    }
}

/// The group axioms `(subject, head)` declared with class `class`: the
/// subject is typed `class` and `head` is one of its member-list heads.
pub open spec fn declared_groups(types: Map<u32, Set<u32>>, heads: Map<u32, Set<u32>>, class: u32) -> Set<
    (u32, u32),
> {
    Set::new(
        |g: (u32, u32)| successors(types, g.0).contains(class) && successors(heads, g.0).contains(g.1),
    )
}

/// The member pairs of all the groups in `groups`.
pub open spec fn pairs_of_groups(
    first: Map<u32, Set<u32>>,
    rest: Map<u32, Set<u32>>,
    nil: u32,
    groups: Set<(u32, u32)>,
) -> Set<(u32, u32)> {
    Set::new(
        |p: (u32, u32)|
            exists|g: (u32, u32)|
                groups.contains(g) && #[trigger] list_member_pairs(first, rest, nil, g.1).contains(p),
    )
}

/// Each pair of `ps` with its smaller id first.
pub open spec fn ordered_pairs(ps: Set<(u32, u32)>) -> Set<(u32, u32)> {
    Set::new(
        |q: (u32, u32)|
            exists|p: (u32, u32)| ps.contains(p) && q == #[trigger] ordered_pair_spec(p.0, p.1),
    )
}

/// `a` and `b` form a pair of `ps`, in either order.
pub open spec fn linked(ps: Set<(u32, u32)>, a: u32, b: u32) -> bool {
    ps.contains((a, b)) || ps.contains((b, a))
}

/// `m` with an edge in both directions for every pair of `ps`.
pub open spec fn with_symmetric_pairs(m: Map<u32, Set<u32>>, ps: Set<(u32, u32)>) -> Map<
    u32,
    Set<u32>,
> {
    Map::new(
        |a: u32| m.contains_key(a) || exists|b: u32| #[trigger] linked(ps, a, b),
        |a: u32| successors(m, a).union(Set::new(|b: u32| linked(ps, a, b))),
    )
}

proof fn lemma_symmetric_pairs_empty(m: Map<u32, Set<u32>>)
    ensures
        with_symmetric_pairs(m, Set::empty()) == m,
{
    let r = with_symmetric_pairs(m, Set::empty());
    assert forall|a: u32| #[trigger] r.contains_key(a) implies m.contains_key(a) && r[a] == m[a] by {
        assert(r[a] =~= m[a]);
    }
    assert(r =~= m);
}

proof fn lemma_symmetric_pairs_insert(m: Map<u32, Set<u32>>, ps: Set<(u32, u32)>, p: (u32, u32))
    ensures
        with_symmetric_pairs(m, ps.insert(p)) == add_edge(
            add_edge(with_symmetric_pairs(m, ps), p.0, p.1),
            p.1,
            p.0,
        ),
{
    let lhs = with_symmetric_pairs(m, ps.insert(p));
    let base = with_symmetric_pairs(m, ps);
    let rhs = add_edge(add_edge(base, p.0, p.1), p.1, p.0);
    assert forall|a: u32| #[trigger] lhs.contains_key(a) <==> rhs.contains_key(a) by {
        if lhs.contains_key(a) && !m.contains_key(a) && a != p.0 && a != p.1 {
            let b = choose|b: u32| #[trigger] linked(ps.insert(p), a, b);
            assert(linked(ps, a, b));
        }
        if rhs.contains_key(a) && a != p.0 && a != p.1 && !m.contains_key(a) {
            let b = choose|b: u32| #[trigger] linked(ps, a, b);
            assert(linked(ps.insert(p), a, b));
        }
        if a == p.0 {
            assert(linked(ps.insert(p), a, p.1));
        }
        if a == p.1 {
            assert(linked(ps.insert(p), a, p.0));
        }
    }
    assert forall|a: u32| #[trigger] lhs.contains_key(a) implies lhs[a] == rhs[a] by {
        assert forall|b: u32| lhs[a].contains(b) <==> rhs[a].contains(b) by {
            if base.contains_key(a) {
                assert(successors(base, a) == successors(m, a).union(
                    Set::new(|c: u32| linked(ps, a, c)),
                ));
            } else {
                assert(!m.contains_key(a));
                assert(!linked(ps, a, b));
                assert(successors(base, a) == Set::<u32>::empty());
            }
        }
        assert(lhs[a] =~= rhs[a]);
    }
    assert(lhs =~= rhs);
}

/// The pairs `(ms[left], ms[j])` with `left < j < upto`.
spec fn row_pairs(ms: Seq<u32>, left: int, upto: int) -> Set<(u32, u32)> {
    Set::new(|p: (u32, u32)| exists|j: int| left < j < upto && p.0 == ms[left] && p.1 == #[trigger] ms[j])
}

/// The pairs `(ms[i], ms[j])` with `i < j` and `i < rows`.
spec fn prefix_pairs(ms: Seq<u32>, rows: int) -> Set<(u32, u32)> {
    Set::new(
        |p: (u32, u32)|
            exists|i: int, j: int| 0 <= i < rows && i < j < ms.len() && #[trigger] ms[i] == p.0 && #[trigger] ms[j] == p.1,
    )
}

proof fn lemma_row_pairs_step(ms: Seq<u32>, left: int, upto: int)
    requires
        0 <= left < upto < ms.len(),
    ensures
        row_pairs(ms, left, upto + 1) == row_pairs(ms, left, upto).insert((ms[left], ms[upto])),
{
    let a = row_pairs(ms, left, upto + 1);
    let b = row_pairs(ms, left, upto).insert((ms[left], ms[upto]));
    assert forall|p: (u32, u32)| a.contains(p) <==> b.contains(p) by {
        if a.contains(p) {
            let j = choose|j: int| left < j < upto + 1 && p.0 == ms[left] && p.1 == #[trigger] ms[j];
            if j < upto {
                assert(row_pairs(ms, left, upto).contains(p));
            }
        }
        if row_pairs(ms, left, upto).contains(p) {
            let j = choose|j: int| left < j < upto && p.0 == ms[left] && p.1 == #[trigger] ms[j];
            assert(left < j < upto + 1);
        }
        if p == (ms[left], ms[upto]) {
            assert(left < upto < upto + 1 && p.1 == ms[upto]);
        }
    }
    assert(a =~= b);
}

proof fn lemma_prefix_pairs_step(ms: Seq<u32>, rows: int)
    requires
        0 <= rows < ms.len(),
    ensures
        prefix_pairs(ms, rows + 1) == prefix_pairs(ms, rows).union(
            row_pairs(ms, rows, ms.len() as int),
        ),
        prefix_pairs(ms, 0) == Set::<(u32, u32)>::empty(),
{
    let a = prefix_pairs(ms, rows + 1);
    let b = prefix_pairs(ms, rows).union(row_pairs(ms, rows, ms.len() as int));
    assert forall|p: (u32, u32)| a.contains(p) <==> b.contains(p) by {
        if a.contains(p) {
            let (i, j) = choose|i: int, j: int|
                0 <= i < rows + 1 && i < j < ms.len() && #[trigger] ms[i] == p.0 && #[trigger] ms[j]
                    == p.1;
            if i < rows {
                assert(prefix_pairs(ms, rows).contains(p));
            } else {
                assert(row_pairs(ms, rows, ms.len() as int).contains(p));
            }
        }
        if prefix_pairs(ms, rows).contains(p) {
            let (i, j) = choose|i: int, j: int|
                0 <= i < rows && i < j < ms.len() && #[trigger] ms[i] == p.0 && #[trigger] ms[j]
                    == p.1;
            assert(0 <= i < rows + 1);
        }
        if row_pairs(ms, rows, ms.len() as int).contains(p) {
            let j = choose|j: int|
                rows < j < ms.len() && p.0 == ms[rows] && p.1 == #[trigger] ms[j];
            assert(ms[rows] == p.0 && ms[j] == p.1);
        }
    }
    assert(a =~= b);
    assert(prefix_pairs(ms, 0) =~= Set::<(u32, u32)>::empty());
}

proof fn lemma_prefix_pairs_all(ms: Seq<u32>)
    ensures
        prefix_pairs(ms, ms.len() as int) == member_pairs(ms),
{
    assert(prefix_pairs(ms, ms.len() as int) =~= member_pairs(ms));
}

/// Adds `ordered_pair(ms[i], ms[j])` for every `i < j`.
fn insert_ordered_member_pairs(set: &mut PairSet, ms: &[u32])
    ensures
        final(set)@ == old(set)@.union(ordered_pairs(member_pairs(ms@))),
{
    let n = ms.len();
    let ghost base = set@;
    proof {
        assert(prefix_pairs(ms@, 0) =~= Set::<(u32, u32)>::empty());
        assert(ordered_pairs(Set::<(u32, u32)>::empty()) =~= Set::<(u32, u32)>::empty());
        assert(set@ =~= base.union(ordered_pairs(prefix_pairs(ms@, 0))));
    }
    let mut left: usize = 0;
    while left < n
        invariant
            n == ms@.len(),
            left <= n,
            set@ == base.union(ordered_pairs(prefix_pairs(ms@, left as int))),
        decreases n - left,
    {
        proof {
            lemma_prefix_pairs_step(ms@, left as int);
        }
        let mut right: usize = left + 1;
        let ghost row_base = set@;
        while right < n
            invariant
                n == ms@.len(),
                left < n,
                left + 1 <= right <= n,
                set@ == row_base.union(ordered_pairs(row_pairs(ms@, left as int, right as int))),
            decreases n - right,
        {
            proof {
                lemma_row_pairs_step(ms@, left as int, right as int);
                let old_rows = row_pairs(ms@, left as int, right as int);
                let p = (ms@[left as int], ms@[right as int]);
                assert(ordered_pairs(old_rows.insert(p)) =~= ordered_pairs(old_rows).insert(
                    ordered_pair_spec(p.0, p.1),
                )) by {
                    assert forall|q: (u32, u32)| #[trigger]
                        ordered_pairs(old_rows.insert(p)).contains(q) implies ordered_pairs(
                        old_rows,
                    ).insert(ordered_pair_spec(p.0, p.1)).contains(q) by {
                        let w = choose|w: (u32, u32)|
                            old_rows.insert(p).contains(w) && q == #[trigger] ordered_pair_spec(
                                w.0,
                                w.1,
                            );
                        if w != p {
                            assert(old_rows.contains(w));
                        }
                    }
                    assert forall|q: (u32, u32)| #[trigger]
                        ordered_pairs(old_rows).insert(ordered_pair_spec(p.0, p.1)).contains(
                            q,
                        ) implies ordered_pairs(old_rows.insert(p)).contains(q) by {
                        if q == ordered_pair_spec(p.0, p.1) {
                            assert(old_rows.insert(p).contains(p));
                        } else {
                            let w = choose|w: (u32, u32)|
                                old_rows.contains(w) && q == #[trigger] ordered_pair_spec(w.0, w.1);
                            assert(old_rows.insert(p).contains(w));
                        }
                    }
                }
            }
            let pair = ordered_pair(ms[left], ms[right]);
            set.insert(pair);
            right += 1;
        }
        proof {
            let pre = prefix_pairs(ms@, left as int);
            let row = row_pairs(ms@, left as int, n as int);
            assert(ordered_pairs(pre.union(row)) =~= ordered_pairs(pre).union(ordered_pairs(row)))
                by {
                assert forall|q: (u32, u32)| #[trigger]
                    ordered_pairs(pre.union(row)).contains(q) implies ordered_pairs(pre).union(
                    ordered_pairs(row),
                ).contains(q) by {
                    let w = choose|w: (u32, u32)|
                        pre.union(row).contains(w) && q == #[trigger] ordered_pair_spec(w.0, w.1);
                    if pre.contains(w) {
                        assert(ordered_pairs(pre).contains(q));
                    } else {
                        assert(ordered_pairs(row).contains(q));
                    }
                }
                assert forall|q: (u32, u32)| #[trigger]
                    ordered_pairs(pre).union(ordered_pairs(row)).contains(q) implies ordered_pairs(
                    pre.union(row),
                ).contains(q) by {
                    if ordered_pairs(pre).contains(q) {
                        let w = choose|w: (u32, u32)|
                            pre.contains(w) && q == #[trigger] ordered_pair_spec(w.0, w.1);
                        assert(pre.union(row).contains(w));
                    } else {
                        let w = choose|w: (u32, u32)|
                            row.contains(w) && q == #[trigger] ordered_pair_spec(w.0, w.1);
                        assert(pre.union(row).contains(w));
                    }
                }
            }
            assert(set@ =~= base.union(ordered_pairs(prefix_pairs(ms@, left + 1))));
        }
        left += 1;
    }
    proof {
        lemma_prefix_pairs_all(ms@);
    }
}

/// Adds an edge in both directions between `ms[i]` and `ms[j]` for every
/// `i < j`.
fn insert_symmetric_member_pairs(edges: &mut IdSetMap, ms: &[u32])
    ensures
        final(edges)@ == with_symmetric_pairs(old(edges)@, member_pairs(ms@)),
{
    let n = ms.len();
    let ghost base = edges@;
    proof {
        lemma_symmetric_pairs_empty(base);
        assert(prefix_pairs(ms@, 0) =~= Set::<(u32, u32)>::empty());
    }
    let mut left: usize = 0;
    while left < n
        invariant
            n == ms@.len(),
            left <= n,
            edges@ == with_symmetric_pairs(base, prefix_pairs(ms@, left as int)),
        decreases n - left,
    {
        proof {
            lemma_prefix_pairs_step(ms@, left as int);
            assert(row_pairs(ms@, left as int, left + 1) =~= Set::<(u32, u32)>::empty());
            assert(prefix_pairs(ms@, left as int).union(row_pairs(ms@, left as int, left + 1))
                =~= prefix_pairs(ms@, left as int));
        }
        let mut right: usize = left + 1;
        while right < n
            invariant
                n == ms@.len(),
                left < n,
                left + 1 <= right <= n,
                edges@ == with_symmetric_pairs(
                    base,
                    prefix_pairs(ms@, left as int).union(
                        row_pairs(ms@, left as int, right as int),
                    ),
                ),
            decreases n - right,
        {
            let a = ms[left];
            let b = ms[right];
            proof {
                lemma_row_pairs_step(ms@, left as int, right as int);
                let ps = prefix_pairs(ms@, left as int).union(
                    row_pairs(ms@, left as int, right as int),
                );
                assert(prefix_pairs(ms@, left as int).union(
                    row_pairs(ms@, left as int, right + 1),
                ) =~= ps.insert((a, b)));
                lemma_symmetric_pairs_insert(base, ps, (a, b));
            }
            edges.insert(a, b);
            edges.insert(b, a);
            right += 1;
        }
        left += 1;
    }
    proof {
        lemma_prefix_pairs_all(ms@);
    }
}

/// The text a subject id resolves to, or `<unknown>`.
pub open spec fn resolve_or_unknown(terms: Seq<Seq<char>>, id: u32) -> Seq<char> {
    if id < terms.len() {
        terms[id as int]
    } else {
        "<unknown>"@
    }
}

/// The diagnostic for a group axiom over a malformed list.
pub open spec fn malformed_group_message(label: Seq<char>, iri: Seq<char>, reason: Seq<char>) -> Seq<
    char,
> {
    label + " over malformed RDF lists is not implemented in rules-mvp; ignored axiom for <"@ + iri
        + "> ("@ + reason + ")"@
}

/// The diagnostic for a group axiom with fewer than two members.
pub open spec fn short_group_message(label: Seq<char>, iri: Seq<char>) -> Seq<char> {
    label + " with fewer than 2 members is not implemented in rules-mvp; ignored axiom for <"@ + iri
        + ">"@
}

/// The list of group `g` is malformed or has fewer than two members.
pub open spec fn group_fails(
    first: Map<u32, Set<u32>>,
    rest: Map<u32, Set<u32>>,
    nil: u32,
    g: (u32, u32),
) -> bool {
    match list_members(first, rest, nil, g.1) {
        Some(ms) => ms.len() < 2,
        None => true,
    }
}

/// `msg` is the diagnostic reported for group `g`.
pub open spec fn group_diagnostic(
    first: Map<u32, Set<u32>>,
    rest: Map<u32, Set<u32>>,
    nil: u32,
    terms: Seq<Seq<char>>,
    label: Seq<char>,
    g: (u32, u32),
    msg: Seq<char>,
) -> bool {
    let iri = resolve_or_unknown(terms, g.0);
    match list_members(first, rest, nil, g.1) {
        Some(ms) => ms.len() < 2 && msg == short_group_message(label, iri),
        None => exists|reason: Seq<char>|
            list_failure(first, rest, nil, g.1, reason) && msg == #[trigger] malformed_group_message(
                label,
                iri,
                reason,
            ),
    }
}

fn resolve_or_unknown_exec(symbols: &SymbolTable, id: u32) -> (r: &str)
    ensures
        r@ == resolve_or_unknown(symbols@, id),
{
    match symbols.resolve(id) {
        Some(t) => t,
        None => "<unknown>",
    }
}

/// The members of the list of group `(subject_id, head_id)`, or `None`
/// after reporting why the group is ignored.
fn group_members(
    first: &IdSetMap,
    rest: &IdSetMap,
    nil: u32,
    symbols: &SymbolTable,
    label: &str,
    subject_id: u32,
    head_id: u32,
    diagnostics: &mut Vec<String>,
) -> (r: Option<Vec<u32>>)
    ensures
        r matches Some(ms) ==> list_members(first@, rest@, nil, head_id) == Some(ms@) && ms@.len()
            >= 2 && final(diagnostics)@ == old(diagnostics)@,
        r is None ==> group_fails(first@, rest@, nil, (subject_id, head_id)),
        r is None ==> final(diagnostics)@.len() == old(diagnostics)@.len() + 1,
        r is None ==> final(diagnostics)@.drop_last() == old(diagnostics)@,
        r is None ==> group_diagnostic(first@, rest@, nil, symbols@, label@, (subject_id, head_id), final(diagnostics)@.last()@),
{
    match parse_list(first, rest, nil, head_id) {
        Ok(members) => {
            if members.len() < 2 {
                let iri = resolve_or_unknown_exec(symbols, subject_id);
                let mut message = label.to_owned();
                message.append(
                    " with fewer than 2 members is not implemented in rules-mvp; ignored axiom for <",
                );
                message.append(iri);
                message.append(">");
                diagnostics.push(message);
                proof {
                    assert(diagnostics@.drop_last() =~= old(diagnostics)@);
                    assert(diagnostics@.last()@ == short_group_message(label@, iri@));
                }
                None
            } else {
                Some(members)
            }
        },
        Err(reason) => {
            let iri = resolve_or_unknown_exec(symbols, subject_id);
            let mut message = label.to_owned();
            message.append(
                " over malformed RDF lists is not implemented in rules-mvp; ignored axiom for <",
            );
            message.append(iri);
            message.append("> (");
            message.append(reason);
            message.append(")");
            diagnostics.push(message);
            proof {
                assert(diagnostics@.drop_last() =~= old(diagnostics)@);
                assert(diagnostics@.last()@ == malformed_group_message(
                    label@,
                    resolve_or_unknown(symbols@, subject_id),
                    reason@,
                ));
                assert(list_members(first@, rest@, nil, head_id) is None);
                let ghost msg = diagnostics@.last()@;
                let ghost who = resolve_or_unknown(symbols@, subject_id);
                assert(msg == malformed_group_message(label@, who, reason@));
                let ghost g = (subject_id, head_id);
                assert(who == resolve_or_unknown(symbols@, g.0));
                assert(list_failure(first@, rest@, nil, g.1, reason@));
                assert(group_diagnostic(first@, rest@, nil, symbols@, label@, g, msg));
                assert(group_diagnostic(first@, rest@, nil, symbols@, label@, (subject_id, head_id), diagnostics@.last()@));
            }
            None
        },
    }
}

/// The groups declared with class `class`, in order of subject and head.
fn collect_groups(types: &IdSetMap, heads: &IdSetMap, class: u32) -> (r: Vec<(u32, u32)>)
    ensures
        r@.to_set() == declared_groups(types@, heads@, class),
        r@.no_duplicates(),
{
    let key_list = types.keys();
    let mut groups: Vec<(u32, u32)> = Vec::new();
    let n = types.len();
    let mut k: usize = 0;
    while k < n
        invariant
            n == types.key_seq().len(),
            n == types.set_seq().len(),
            k <= n,
            key_list@ == types.key_seq(),
            key_list@.no_duplicates(),
            groups@.no_duplicates(),
            forall|g: (u32, u32)|
                #[trigger] groups@.contains(g) <==> (declared_groups(types@, heads@, class).contains(
                    g,
                ) && exists|x: int| 0 <= x < k && types.key_seq()[x] == g.0),
        decreases n - k,
    {
        let subject = types.key_at(k);
        let classes = types.set_at(k);
        if classes.contains(class) {
            if let Some(hs) = heads.get(subject) {
                let items = hs.as_slice();
                let m = items.len();
                let mut y: usize = 0;
                let ghost before = groups@;
                while y < m
                    invariant
                        m == items@.len(),
                        y <= m,
                        items@.to_set() == heads@[subject],
                        heads@.contains_key(subject),
                        items@.no_duplicates(),
                        groups@.no_duplicates(),
                        subject == types.key_seq()[k as int],
                        key_list@ == types.key_seq(),
                        key_list@.no_duplicates(),
                        k < n,
                        n == types.key_seq().len(),
                        forall|g: (u32, u32)| #[trigger] before.contains(g) ==> exists|x: int| 0 <= x < k && types.key_seq()[x] == g.0,
                        forall|g: (u32, u32)|
                            #[trigger] groups@.contains(g) <==> (before.contains(g) || (g.0 == subject
                                && exists|z: int| 0 <= z < y && items@[z] == g.1)),
                    decreases m - y,
                {
                    let ghost prev = groups@;
                    proof {
                        assert(!prev.contains((subject, items@[y as int]))) by {
                            if prev.contains((subject, items@[y as int])) {
                                if before.contains((subject, items@[y as int])) {
                                    let x = choose|x: int| 0 <= x < k && types.key_seq()[x] == subject;
                                    assert(key_list@[x] == key_list@[k as int]);
                                } else {
                                    let z = choose|z: int| 0 <= z < y && items@[z] == items@[y as int];
                                }
                            }
                        }
                    }
                    groups.push((subject, items[y]));
                    proof {
                        assert forall|a: int, c: int| 0 <= a < groups@.len() && 0 <= c < groups@.len() && a != c implies groups@[a] != groups@[c] by {
                            if a < prev.len() && c < prev.len() {
                                assert(groups@[a] == prev[a] && groups@[c] == prev[c]);
                            } else if a < prev.len() {
                                assert(prev.contains(groups@[a]));
                            } else if c < prev.len() {
                                assert(prev.contains(groups@[c]));
                            }
                        }
                        assert forall|g: (u32, u32)| #[trigger] groups@.contains(g) <==> (before.contains(
                            g,
                        ) || (g.0 == subject && exists|z: int| 0 <= z < y + 1 && items@[z] == g.1)) by {
                            if groups@.contains(g) {
                                let i = choose|i: int| 0 <= i < groups@.len() && groups@[i] == g;
                                if i < prev.len() {
                                    assert(prev.contains(g));
                                }
                            }
                            if prev.contains(g) {
                                let i = choose|i: int| 0 <= i < prev.len() && prev[i] == g;
                                assert(groups@[i] == g);
                            }
                            if g.0 == subject && exists|z: int| 0 <= z < y + 1 && items@[z] == g.1 {
                                let z = choose|z: int| 0 <= z < y + 1 && items@[z] == g.1;
                                if z == y {
                                    assert(groups@[prev.len() as int] == g);
                                } else {
                                    assert(prev.contains(g));
                                }
                            }
                        }
                    }
                    y += 1;
                }
                proof {
                    assert forall|g: (u32, u32)| #[trigger] groups@.contains(g) <==> (declared_groups(
                        types@,
                        heads@,
                        class,
                    ).contains(g) && exists|x: int| 0 <= x < k + 1 && types.key_seq()[x] == g.0) by {
                        if g.0 == subject && heads@[subject].contains(g.1) {
                            assert(items@.to_set().contains(g.1));
                        }
                        if g.0 == subject && exists|z: int| 0 <= z < m && items@[z] == g.1 {
                            let z = choose|z: int| 0 <= z < m && items@[z] == g.1;
                            assert(items@.to_set().contains(g.1));
                        }
                        if exists|x: int| 0 <= x < k + 1 && types.key_seq()[x] == g.0 {
                            let x = choose|x: int| 0 <= x < k + 1 && types.key_seq()[x] == g.0;
                            if x == k {
                                assert(g.0 == subject);
                            }
                        }
                    }
                }
            } else {
                proof {
                    assert forall|g: (u32, u32)| #[trigger] groups@.contains(g) <==> (declared_groups(
                        types@,
                        heads@,
                        class,
                    ).contains(g) && exists|x: int| 0 <= x < k + 1 && types.key_seq()[x] == g.0) by {
                        if exists|x: int| 0 <= x < k + 1 && types.key_seq()[x] == g.0 {
                            let x = choose|x: int| 0 <= x < k + 1 && types.key_seq()[x] == g.0;
                            if x == k {
                                assert(g.0 == subject);
                            }
                        }
                    }
                }
            }
        } else {
            proof {
                assert forall|g: (u32, u32)| #[trigger] groups@.contains(g) <==> (declared_groups(
                    types@,
                    heads@,
                    class,
                ).contains(g) && exists|x: int| 0 <= x < k + 1 && types.key_seq()[x] == g.0) by {
                    if exists|x: int| 0 <= x < k + 1 && types.key_seq()[x] == g.0 {
                        let x = choose|x: int| 0 <= x < k + 1 && types.key_seq()[x] == g.0;
                        if x == k {
                            assert(g.0 == subject);
                        }
                    }
                }
            }
        }
        k += 1;
    }
    proof {
        assert forall|g: (u32, u32)| #[trigger] groups@.to_set().contains(g) <==> declared_groups(
            types@,
            heads@,
            class,
        ).contains(g) by {
            if declared_groups(types@, heads@, class).contains(g) {
                assert(types@.contains_key(g.0));
                assert(types.key_seq().contains(g.0));
            }
        }
        assert(groups@.to_set() =~= declared_groups(types@, heads@, class));
    }
    groups
}

/// `msg` is the diagnostic of some group of `groups`.
pub open spec fn reported_for(
    first: Map<u32, Set<u32>>,
    rest: Map<u32, Set<u32>>,
    nil: u32,
    terms: Seq<Seq<char>>,
    label: Seq<char>,
    groups: Set<(u32, u32)>,
    msg: Seq<char>,
) -> bool {
    exists|g: (u32, u32)|
        groups.contains(g) && #[trigger] group_diagnostic(first, rest, nil, terms, label, g, msg)
}

/// Every diagnostic from position `from` on belongs to a group of `groups`.
pub open spec fn diagnostics_from(
    first: Map<u32, Set<u32>>,
    rest: Map<u32, Set<u32>>,
    nil: u32,
    terms: Seq<Seq<char>>,
    label: Seq<char>,
    groups: Set<(u32, u32)>,
    msgs: Seq<String>,
    from: int,
) -> bool {
    forall|k: int|
        from <= k < msgs.len() ==> #[trigger] reported_for(
            first,
            rest,
            nil,
            terms,
            label,
            groups,
            msgs[k]@,
        )
}

/// Every failing group of `groups` has a diagnostic among the new ones.
pub open spec fn failures_reported(
    first: Map<u32, Set<u32>>,
    rest: Map<u32, Set<u32>>,
    nil: u32,
    terms: Seq<Seq<char>>,
    label: Seq<char>,
    groups: Set<(u32, u32)>,
    msgs: Seq<String>,
    from: int,
) -> bool {
    forall|g: (u32, u32)|
        groups.contains(g) && #[trigger] group_fails(first, rest, nil, g) ==> exists|k: int|
            from <= k < msgs.len() && group_diagnostic(first, rest, nil, terms, label, g, msgs[k]@)
}

proof fn lemma_pairs_of_groups_insert(
    first: Map<u32, Set<u32>>,
    rest: Map<u32, Set<u32>>,
    nil: u32,
    groups: Set<(u32, u32)>,
    g: (u32, u32),
)
    ensures
        pairs_of_groups(first, rest, nil, groups.insert(g)) == pairs_of_groups(
            first,
            rest,
            nil,
            groups,
        ).union(list_member_pairs(first, rest, nil, g.1)),
        pairs_of_groups(first, rest, nil, Set::empty()) == Set::<(u32, u32)>::empty(),
{
    let a = pairs_of_groups(first, rest, nil, groups.insert(g));
    let b = pairs_of_groups(first, rest, nil, groups).union(list_member_pairs(first, rest, nil, g.1));
    assert forall|p: (u32, u32)| a.contains(p) <==> b.contains(p) by {
        if a.contains(p) {
            let h = choose|h: (u32, u32)|
                groups.insert(g).contains(h) && #[trigger] list_member_pairs(first, rest, nil, h.1).contains(p);
            if h != g {
                assert(pairs_of_groups(first, rest, nil, groups).contains(p));
            }
        }
        if pairs_of_groups(first, rest, nil, groups).contains(p) {
            let h = choose|h: (u32, u32)|
                groups.contains(h) && #[trigger] list_member_pairs(first, rest, nil, h.1).contains(p);
            assert(groups.insert(g).contains(h));
        }
        if list_member_pairs(first, rest, nil, g.1).contains(p) {
            assert(groups.insert(g).contains(g));
        }
    }
    assert(a =~= b);
    assert(pairs_of_groups(first, rest, nil, Set::empty()) =~= Set::<(u32, u32)>::empty());
}

proof fn lemma_ordered_pairs_union(a: Set<(u32, u32)>, b: Set<(u32, u32)>)
    ensures
        ordered_pairs(a.union(b)) == ordered_pairs(a).union(ordered_pairs(b)),
        ordered_pairs(Set::empty()) == Set::<(u32, u32)>::empty(),
{
    assert forall|q: (u32, u32)| #[trigger] ordered_pairs(a.union(b)).contains(q) implies ordered_pairs(
        a,
    ).union(ordered_pairs(b)).contains(q) by {
        let w = choose|w: (u32, u32)| a.union(b).contains(w) && q == #[trigger] ordered_pair_spec(w.0, w.1);
        if a.contains(w) {
            assert(ordered_pairs(a).contains(q));
        } else {
            assert(ordered_pairs(b).contains(q));
        }
    }
    assert forall|q: (u32, u32)| #[trigger] ordered_pairs(a).union(ordered_pairs(b)).contains(
        q,
    ) implies ordered_pairs(a.union(b)).contains(q) by {
        if ordered_pairs(a).contains(q) {
            let w = choose|w: (u32, u32)| a.contains(w) && q == #[trigger] ordered_pair_spec(w.0, w.1);
            assert(a.union(b).contains(w));
        } else {
            let w = choose|w: (u32, u32)| b.contains(w) && q == #[trigger] ordered_pair_spec(w.0, w.1);
            assert(a.union(b).contains(w));
        }
    }
    assert(ordered_pairs(a.union(b)) =~= ordered_pairs(a).union(ordered_pairs(b)));
    assert(ordered_pairs(Set::empty()) =~= Set::<(u32, u32)>::empty());
}

proof fn lemma_symmetric_pairs_union(m: Map<u32, Set<u32>>, a: Set<(u32, u32)>, b: Set<(u32, u32)>)
    ensures
        with_symmetric_pairs(with_symmetric_pairs(m, a), b) == with_symmetric_pairs(m, a.union(b)),
{
    let lhs = with_symmetric_pairs(with_symmetric_pairs(m, a), b);
    let mid = with_symmetric_pairs(m, a);
    let rhs = with_symmetric_pairs(m, a.union(b));
    assert forall|x: u32| #[trigger] lhs.contains_key(x) <==> rhs.contains_key(x) by {
        if lhs.contains_key(x) && !mid.contains_key(x) {
            let y = choose|y: u32| #[trigger] linked(b, x, y);
            assert(linked(a.union(b), x, y));
        }
        if mid.contains_key(x) && !m.contains_key(x) {
            let y = choose|y: u32| #[trigger] linked(a, x, y);
            assert(linked(a.union(b), x, y));
        }
        if rhs.contains_key(x) && !m.contains_key(x) {
            let y = choose|y: u32| #[trigger] linked(a.union(b), x, y);
            if linked(a, x, y) {
                assert(mid.contains_key(x));
            } else {
                assert(linked(b, x, y));
            }
        }
    }
    assert forall|x: u32| #[trigger] lhs.contains_key(x) implies lhs[x] == rhs[x] by {
        assert forall|y: u32| lhs[x].contains(y) <==> rhs[x].contains(y) by {
            if !mid.contains_key(x) {
                assert(!m.contains_key(x));
                assert(!linked(a, x, y));
            }
        }
        assert(lhs[x] =~= rhs[x]);
    }
    assert(lhs =~= rhs);
}

/// Reporting `m` for the new group `g` keeps both diagnostics properties.
/// The groups of `groups` whose list is malformed or too short.
pub open spec fn failing_groups(
    first: Map<u32, Set<u32>>,
    rest: Map<u32, Set<u32>>,
    nil: u32,
    groups: Set<(u32, u32)>,
) -> Set<(u32, u32)> {
    groups.filter(|g: (u32, u32)| group_fails(first, rest, nil, g))
}

/// `msgs` reports each failing group of `groups` once and nothing else:
/// there is a list of the failing groups, each once, whose diagnostics
/// `msgs` holds one by one.
pub open spec fn reported_once(
    first: Map<u32, Set<u32>>,
    rest: Map<u32, Set<u32>>,
    nil: u32,
    terms: Seq<Seq<char>>,
    label: Seq<char>,
    groups: Set<(u32, u32)>,
    msgs: Seq<String>,
) -> bool {
    exists|fs: Seq<(u32, u32)>|
        #[trigger] fs.to_set() == failing_groups(first, rest, nil, groups) && fs.no_duplicates() && fs.len()
            == msgs.len() && forall|k: int| 0 <= k < fs.len() ==> group_diagnostic(first, rest, nil, terms, label, #[trigger] fs[k], msgs[k]@)
}

/// One more group, reported.
proof fn lemma_once_push(
    first: Map<u32, Set<u32>>,
    rest: Map<u32, Set<u32>>,
    nil: u32,
    terms: Seq<Seq<char>>,
    label: Seq<char>,
    done: Set<(u32, u32)>,
    g: (u32, u32),
    fs: Seq<(u32, u32)>,
    msgs: Seq<String>,
    m: String,
)
    requires
        fs.to_set() == failing_groups(first, rest, nil, done),
        fs.no_duplicates(),
        fs.len() == msgs.len(),
        forall|k: int| 0 <= k < fs.len() ==> group_diagnostic(first, rest, nil, terms, label, #[trigger] fs[k], msgs[k]@),
        !done.contains(g),
        group_fails(first, rest, nil, g),
        group_diagnostic(first, rest, nil, terms, label, g, m@),
    ensures
        fs.push(g).to_set() == failing_groups(first, rest, nil, done.insert(g)),
        fs.push(g).no_duplicates(),
        forall|k: int| 0 <= k < fs.push(g).len() ==> group_diagnostic(first, rest, nil, terms, label, #[trigger] fs.push(g)[k], msgs.push(m)[k]@),
{
    let f2 = fs.push(g);
    fs.lemma_push_to_set_commute(g);
    assert(f2.to_set() =~= failing_groups(first, rest, nil, done.insert(g)));
    assert(!fs.contains(g)) by {
        if fs.contains(g) {
            assert(fs.to_set().contains(g));
        }
    }
    assert forall|i: int, j: int| 0 <= i < f2.len() && 0 <= j < f2.len() && i != j implies f2[i] != f2[j] by {
        if i < fs.len() && j < fs.len() {
            assert(f2[i] == fs[i] && f2[j] == fs[j]);
        } else if i < fs.len() {
            assert(fs.contains(f2[i]));
        } else if j < fs.len() {
            assert(fs.contains(f2[j]));
        }
    }
    assert forall|k: int| 0 <= k < f2.len() implies group_diagnostic(first, rest, nil, terms, label, #[trigger] f2[k], msgs.push(m)[k]@) by {
        if k < fs.len() {
            assert(f2[k] == fs[k]);
            assert(msgs.push(m)[k] == msgs[k]);
        }
    }
}

/// One more group, not reported as it does not fail.
proof fn lemma_once_keep(
    first: Map<u32, Set<u32>>,
    rest: Map<u32, Set<u32>>,
    nil: u32,
    done: Set<(u32, u32)>,
    g: (u32, u32),
    fs: Seq<(u32, u32)>,
)
    requires
        fs.to_set() == failing_groups(first, rest, nil, done),
        !group_fails(first, rest, nil, g),
    ensures
        fs.to_set() == failing_groups(first, rest, nil, done.insert(g)),
{
    assert(failing_groups(first, rest, nil, done) =~= failing_groups(first, rest, nil, done.insert(g)));
}

proof fn lemma_diagnostics_push(
    first: Map<u32, Set<u32>>,
    rest: Map<u32, Set<u32>>,
    nil: u32,
    terms: Seq<Seq<char>>,
    label: Seq<char>,
    groups: Set<(u32, u32)>,
    g: (u32, u32),
    msgs: Seq<String>,
    m: String,
    from: int,
)
    requires
        0 <= from <= msgs.len(),
        diagnostics_from(first, rest, nil, terms, label, groups, msgs, from),
        failures_reported(first, rest, nil, terms, label, groups, msgs, from),
        group_diagnostic(first, rest, nil, terms, label, g, m@),
    ensures
        diagnostics_from(first, rest, nil, terms, label, groups.insert(g), msgs.push(m), from),
        failures_reported(first, rest, nil, terms, label, groups.insert(g), msgs.push(m), from),
{
    let ms = msgs.push(m);
    let gs = groups.insert(g);
    assert forall|k: int| from <= k < ms.len() implies #[trigger] reported_for(
        first,
        rest,
        nil,
        terms,
        label,
        gs,
        ms[k]@,
    ) by {
        if k < msgs.len() {
            assert(ms[k] == msgs[k]);
            assert(reported_for(first, rest, nil, terms, label, groups, msgs[k]@));
            let h = choose|h: (u32, u32)|
                groups.contains(h) && #[trigger] group_diagnostic(first, rest, nil, terms, label, h, msgs[k]@);
            assert(gs.contains(h));
        } else {
            assert(ms[k] == m);
            assert(gs.contains(g));
        }
    }
    assert forall|h: (u32, u32)| gs.contains(h) && #[trigger] group_fails(first, rest, nil, h) implies exists|k: int|
        from <= k < ms.len() && group_diagnostic(first, rest, nil, terms, label, h, ms[k]@) by {
        if h == g {
            assert(ms[msgs.len() as int] == m);
        } else {
            let k = choose|k: int|
                from <= k < msgs.len() && group_diagnostic(first, rest, nil, terms, label, h, msgs[k]@);
            assert(ms[k] == msgs[k]);
        }
    }
}

/// A new group that needs no report keeps both diagnostics properties.
proof fn lemma_diagnostics_keep(
    first: Map<u32, Set<u32>>,
    rest: Map<u32, Set<u32>>,
    nil: u32,
    terms: Seq<Seq<char>>,
    label: Seq<char>,
    groups: Set<(u32, u32)>,
    g: (u32, u32),
    msgs: Seq<String>,
    from: int,
)
    requires
        diagnostics_from(first, rest, nil, terms, label, groups, msgs, from),
        failures_reported(first, rest, nil, terms, label, groups, msgs, from),
        !group_fails(first, rest, nil, g),
    ensures
        diagnostics_from(first, rest, nil, terms, label, groups.insert(g), msgs, from),
        failures_reported(first, rest, nil, terms, label, groups.insert(g), msgs, from),
{
    let gs = groups.insert(g);
    assert forall|k: int| from <= k < msgs.len() implies #[trigger] reported_for(
        first,
        rest,
        nil,
        terms,
        label,
        gs,
        msgs[k]@,
    ) by {
        assert(reported_for(first, rest, nil, terms, label, groups, msgs[k]@));
        let h = choose|h: (u32, u32)|
            groups.contains(h) && #[trigger] group_diagnostic(first, rest, nil, terms, label, h, msgs[k]@);
        assert(gs.contains(h));
    }
}

/// Expands each group of `groups` into ordered member pairs of `set`,
/// reporting the groups that are ignored.
fn expand_groups_into_pairs(
    first: &IdSetMap,
    rest: &IdSetMap,
    nil: u32,
    symbols: &SymbolTable,
    label: &str,
    groups: &[(u32, u32)],
    set: &mut PairSet,
    diagnostics: &mut Vec<String>,
)
    requires
        groups@.no_duplicates(),
    ensures
        final(set)@ == old(set)@.union(
            ordered_pairs(pairs_of_groups(first@, rest@, nil, groups@.to_set())),
        ),
        final(diagnostics)@.len() >= old(diagnostics)@.len(),
        final(diagnostics)@.take(old(diagnostics)@.len() as int) == old(diagnostics)@,
        diagnostics_from(first@, rest@, nil, symbols@, label@, groups@.to_set(), final(diagnostics)@, old(diagnostics)@.len() as int),
        failures_reported(first@, rest@, nil, symbols@, label@, groups@.to_set(), final(diagnostics)@, old(diagnostics)@.len() as int),
        reported_once(
            first@,
            rest@,
            nil,
            symbols@,
            label@,
            groups@.to_set(),
            final(diagnostics)@.subrange(old(diagnostics)@.len() as int, final(diagnostics)@.len() as int),
        ),
{
    let ghost base = set@;
    let ghost start = diagnostics@;
    let ghost mut fs: Seq<(u32, u32)> = Seq::empty();
    let n = groups.len();
    let mut t: usize = 0;
    proof {
        lemma_pairs_of_groups_insert(first@, rest@, nil, Set::empty(), (0, 0));
        lemma_ordered_pairs_union(Set::empty(), Set::empty());
        assert(groups@.take(0).to_set() =~= Set::<(u32, u32)>::empty());
        assert(diagnostics@.take(start.len() as int) =~= start);
    }
    while t < n
        invariant
            n == groups@.len(),
            t <= n,
            set@ == base.union(
                ordered_pairs(pairs_of_groups(first@, rest@, nil, groups@.take(t as int).to_set())),
            ),
            diagnostics@.len() >= start.len(),
            diagnostics@.take(start.len() as int) == start,
            diagnostics_from(first@, rest@, nil, symbols@, label@, groups@.take(t as int).to_set(), diagnostics@, start.len() as int),
            failures_reported(first@, rest@, nil, symbols@, label@, groups@.take(t as int).to_set(), diagnostics@, start.len() as int),
            groups@.no_duplicates(),
            fs.to_set() == failing_groups(first@, rest@, nil, groups@.take(t as int).to_set()),
            fs.no_duplicates(),
            fs.len() == diagnostics@.len() - start.len(),
            forall|k: int| 0 <= k < fs.len() ==> group_diagnostic(
                first@,
                rest@,
                nil,
                symbols@,
                label@,
                #[trigger] fs[k],
                diagnostics@.subrange(start.len() as int, diagnostics@.len() as int)[k]@,
            ),
        decreases n - t,
    {
        let (subject_id, head_id) = groups[t];
        let ghost g = groups@[t as int];
        let ghost done = groups@.take(t as int).to_set();
        let ghost before = diagnostics@;
        proof {
            crate::idset::lemma_take_succ_to_set(groups@, t as int);
            lemma_pairs_of_groups_insert(first@, rest@, nil, done, g);
            lemma_ordered_pairs_union(
                pairs_of_groups(first@, rest@, nil, done),
                list_member_pairs(first@, rest@, nil, g.1),
            );
        }
        match group_members(first, rest, nil, symbols, label, subject_id, head_id, diagnostics) {
            Some(members) => {
                insert_ordered_member_pairs(set, members.as_slice());
            },
            None => {
                proof {
                    assert(list_member_pairs(first@, rest@, nil, g.1) =~= Set::<(u32, u32)>::empty())
                        by {
                        if let Some(ms) = list_members(first@, rest@, nil, g.1) {
                            assert(member_pairs(ms) =~= Set::<(u32, u32)>::empty()) by {
                                assert forall|p: (u32, u32)| !member_pairs(ms).contains(p) by {
                                    if member_pairs(ms).contains(p) {
                                        let (i, j) = choose|i: int, j: int|
                                            0 <= i < j < ms.len() && #[trigger] ms[i] == p.0
                                                && #[trigger] ms[j] == p.1;
                                    }
                                }
                            }
                        }
                    }
                    lemma_ordered_pairs_union(Set::empty(), Set::empty());
                    assert(set@ =~= base.union(ordered_pairs(pairs_of_groups(first@, rest@, nil, done.insert(g)))));
                }
            },
        }
        proof {
            let next = done.insert(g);
            assert(groups@.take(t + 1).to_set() == next);
            assert(!done.contains(g)) by {
                if done.contains(g) {
                    assert(groups@.take(t as int).contains(g));
                    let q = choose|q: int| 0 <= q < t && groups@.take(t as int)[q] == g;
                    assert(groups@[q] == groups@[t as int]);
                }
            }
            let old_msgs = before.subrange(start.len() as int, before.len() as int);
            if diagnostics@.len() > before.len() {
                assert(diagnostics@.subrange(start.len() as int, diagnostics@.len() as int) =~= old_msgs.push(diagnostics@.last()));
                lemma_once_push(first@, rest@, nil, symbols@, label@, done, g, fs, old_msgs, diagnostics@.last());
                fs = fs.push(g);
                assert(diagnostics@ == before.push(diagnostics@.last()));
                assert(diagnostics@.take(start.len() as int) =~= start) by {
                    assert forall|k: int| 0 <= k < start.len() implies diagnostics@[k] == start[k] by {
                        assert(before[k] == before.take(start.len() as int)[k]);
                    }
                }
                lemma_diagnostics_push(first@, rest@, nil, symbols@, label@, done, g, before, diagnostics@.last(), start.len() as int);
            } else {
                assert(diagnostics@ == before);
                lemma_once_keep(first@, rest@, nil, done, g, fs);
                lemma_diagnostics_keep(first@, rest@, nil, symbols@, label@, done, g, before, start.len() as int);
            }
        }
        t += 1;
    }
    proof {
        assert(groups@.take(n as int) =~= groups@);
        assert(reported_once(
            first@,
            rest@,
            nil,
            symbols@,
            label@,
            groups@.to_set(),
            diagnostics@.subrange(start.len() as int, diagnostics@.len() as int),
        ));
    }
}

/// Expands each group of `groups` into symmetric member edges of `edges`,
/// reporting the groups that are ignored.
fn expand_groups_into_edges(
    first: &IdSetMap,
    rest: &IdSetMap,
    nil: u32,
    symbols: &SymbolTable,
    label: &str,
    groups: &[(u32, u32)],
    edges: &mut IdSetMap,
    diagnostics: &mut Vec<String>,
)
    requires
        groups@.no_duplicates(),
    ensures
        final(edges)@ == with_symmetric_pairs(
            old(edges)@,
            pairs_of_groups(first@, rest@, nil, groups@.to_set()),
        ),
        final(diagnostics)@.len() >= old(diagnostics)@.len(),
        final(diagnostics)@.take(old(diagnostics)@.len() as int) == old(diagnostics)@,
        diagnostics_from(first@, rest@, nil, symbols@, label@, groups@.to_set(), final(diagnostics)@, old(diagnostics)@.len() as int),
        failures_reported(first@, rest@, nil, symbols@, label@, groups@.to_set(), final(diagnostics)@, old(diagnostics)@.len() as int),
        reported_once(
            first@,
            rest@,
            nil,
            symbols@,
            label@,
            groups@.to_set(),
            final(diagnostics)@.subrange(old(diagnostics)@.len() as int, final(diagnostics)@.len() as int),
        ),
{
    let ghost base = edges@;
    let ghost start = diagnostics@;
    let ghost mut fs: Seq<(u32, u32)> = Seq::empty();
    let n = groups.len();
    let mut t: usize = 0;
    proof {
        lemma_pairs_of_groups_insert(first@, rest@, nil, Set::empty(), (0, 0));
        lemma_symmetric_pairs_empty(base);
        assert(groups@.take(0).to_set() =~= Set::<(u32, u32)>::empty());
        assert(diagnostics@.take(start.len() as int) =~= start);
    }
    while t < n
        invariant
            n == groups@.len(),
            t <= n,
            edges@ == with_symmetric_pairs(
                base,
                pairs_of_groups(first@, rest@, nil, groups@.take(t as int).to_set()),
            ),
            diagnostics@.len() >= start.len(),
            diagnostics@.take(start.len() as int) == start,
            diagnostics_from(first@, rest@, nil, symbols@, label@, groups@.take(t as int).to_set(), diagnostics@, start.len() as int),
            failures_reported(first@, rest@, nil, symbols@, label@, groups@.take(t as int).to_set(), diagnostics@, start.len() as int),
            groups@.no_duplicates(),
            fs.to_set() == failing_groups(first@, rest@, nil, groups@.take(t as int).to_set()),
            fs.no_duplicates(),
            fs.len() == diagnostics@.len() - start.len(),
            forall|k: int| 0 <= k < fs.len() ==> group_diagnostic(
                first@,
                rest@,
                nil,
                symbols@,
                label@,
                #[trigger] fs[k],
                diagnostics@.subrange(start.len() as int, diagnostics@.len() as int)[k]@,
            ),
        decreases n - t,
    {
        let (subject_id, head_id) = groups[t];
        let ghost g = groups@[t as int];
        let ghost done = groups@.take(t as int).to_set();
        let ghost before = diagnostics@;
        proof {
            crate::idset::lemma_take_succ_to_set(groups@, t as int);
            lemma_pairs_of_groups_insert(first@, rest@, nil, done, g);
            lemma_symmetric_pairs_union(
                base,
                pairs_of_groups(first@, rest@, nil, done),
                list_member_pairs(first@, rest@, nil, g.1),
            );
        }
        match group_members(first, rest, nil, symbols, label, subject_id, head_id, diagnostics) {
            Some(members) => {
                insert_symmetric_member_pairs(edges, members.as_slice());
            },
            None => {
                proof {
                    assert(list_member_pairs(first@, rest@, nil, g.1) =~= Set::<(u32, u32)>::empty())
                        by {
                        if let Some(ms) = list_members(first@, rest@, nil, g.1) {
                            assert(member_pairs(ms) =~= Set::<(u32, u32)>::empty()) by {
                                assert forall|p: (u32, u32)| !member_pairs(ms).contains(p) by {
                                    if member_pairs(ms).contains(p) {
                                        let (i, j) = choose|i: int, j: int|
                                            0 <= i < j < ms.len() && #[trigger] ms[i] == p.0
                                                && #[trigger] ms[j] == p.1;
                                    }
                                }
                            }
                        }
                    }
                    lemma_symmetric_pairs_empty(with_symmetric_pairs(base, pairs_of_groups(first@, rest@, nil, done)));
                    assert(pairs_of_groups(first@, rest@, nil, done).union(Set::empty()) =~= pairs_of_groups(first@, rest@, nil, done));
                }
            },
        }
        proof {
            let next = done.insert(g);
            assert(groups@.take(t + 1).to_set() == next);
            assert(!done.contains(g)) by {
                if done.contains(g) {
                    assert(groups@.take(t as int).contains(g));
                    let q = choose|q: int| 0 <= q < t && groups@.take(t as int)[q] == g;
                    assert(groups@[q] == groups@[t as int]);
                }
            }
            let old_msgs = before.subrange(start.len() as int, before.len() as int);
            if diagnostics@.len() > before.len() {
                assert(diagnostics@.subrange(start.len() as int, diagnostics@.len() as int) =~= old_msgs.push(diagnostics@.last()));
                lemma_once_push(first@, rest@, nil, symbols@, label@, done, g, fs, old_msgs, diagnostics@.last());
                fs = fs.push(g);
                assert(diagnostics@ == before.push(diagnostics@.last()));
                assert(diagnostics@.take(start.len() as int) =~= start) by {
                    assert forall|k: int| 0 <= k < start.len() implies diagnostics@[k] == start[k] by {
                        assert(before[k] == before.take(start.len() as int)[k]);
                    }
                }
                lemma_diagnostics_push(first@, rest@, nil, symbols@, label@, done, g, before, diagnostics@.last(), start.len() as int);
            } else {
                assert(diagnostics@ == before);
                lemma_once_keep(first@, rest@, nil, done, g, fs);
                lemma_diagnostics_keep(first@, rest@, nil, symbols@, label@, done, g, before, start.len() as int);
            }
        }
        t += 1;
    }
    proof {
        assert(groups@.take(n as int) =~= groups@);
        assert(reported_once(
            first@,
            rest@,
            nil,
            symbols@,
            label@,
            groups@.to_set(),
            diagnostics@.subrange(start.len() as int, diagnostics@.len() as int),
        ));
    }
}

/// `msg` reports one of the ignored group axioms of the index: an
/// `owl:AllDifferent` group (through `owl:distinctMembers` or
/// `owl:members`), an `owl:AllDisjointClasses` or an
/// `owl:AllDisjointProperties` group.
pub open spec fn group_axiom_report(
    first: Map<u32, Set<u32>>,
    rest: Map<u32, Set<u32>>,
    nil: u32,
    terms: Seq<Seq<char>>,
    types: Map<u32, Set<u32>>,
    members: Map<u32, Set<u32>>,
    distinct: Map<u32, Set<u32>>,
    v: IndexedVocabulary,
    msg: Seq<char>,
) -> bool {
    ||| reported_for(first, rest, nil, terms, "owl:AllDifferent"@, declared_groups(types, distinct, v.owl_all_different_id), msg)
    ||| reported_for(first, rest, nil, terms, "owl:AllDifferent"@, declared_groups(types, members, v.owl_all_different_id), msg)
    ||| reported_for(first, rest, nil, terms, "owl:AllDisjointClasses"@, declared_groups(types, members, v.owl_all_disjoint_classes_id), msg)
    ||| reported_for(first, rest, nil, terms, "owl:AllDisjointProperties"@, declared_groups(types, members, v.owl_all_disjoint_properties_id), msg)
}

/// Every ignored group axiom of the index is reported in `msgs`.
pub open spec fn group_failures_reported(
    first: Map<u32, Set<u32>>,
    rest: Map<u32, Set<u32>>,
    nil: u32,
    terms: Seq<Seq<char>>,
    types: Map<u32, Set<u32>>,
    members: Map<u32, Set<u32>>,
    distinct: Map<u32, Set<u32>>,
    v: IndexedVocabulary,
    msgs: Seq<String>,
) -> bool {
    &&& failures_reported(first, rest, nil, terms, "owl:AllDifferent"@, declared_groups(types, distinct, v.owl_all_different_id), msgs, 0)
    &&& failures_reported(first, rest, nil, terms, "owl:AllDifferent"@, declared_groups(types, members, v.owl_all_different_id), msgs, 0)
    &&& failures_reported(first, rest, nil, terms, "owl:AllDisjointClasses"@, declared_groups(types, members, v.owl_all_disjoint_classes_id), msgs, 0)
    &&& failures_reported(first, rest, nil, terms, "owl:AllDisjointProperties"@, declared_groups(types, members, v.owl_all_disjoint_properties_id), msgs, 0)
}

/// `msgs` reports, in four runs, each failing `owl:AllDifferent` group
/// declared through `owl:distinctMembers`, then through `owl:members`, then
/// each failing `owl:AllDisjointClasses` and `owl:AllDisjointProperties`
/// group, each once and nothing else.
pub open spec fn group_reports_once(
    first: Map<u32, Set<u32>>,
    rest: Map<u32, Set<u32>>,
    nil: u32,
    terms: Seq<Seq<char>>,
    types: Map<u32, Set<u32>>,
    members: Map<u32, Set<u32>>,
    distinct: Map<u32, Set<u32>>,
    v: IndexedVocabulary,
    msgs: Seq<String>,
) -> bool {
    exists|a: int, b: int, c: int|
        #![trigger msgs.subrange(0, a), msgs.subrange(a, b), msgs.subrange(b, c)]
        0 <= a <= b <= c <= msgs.len()
            && reported_once(first, rest, nil, terms, "owl:AllDifferent"@, declared_groups(types, distinct, v.owl_all_different_id), msgs.subrange(0, a))
            && reported_once(first, rest, nil, terms, "owl:AllDifferent"@, declared_groups(types, members, v.owl_all_different_id), msgs.subrange(a, b))
            && reported_once(first, rest, nil, terms, "owl:AllDisjointClasses"@, declared_groups(types, members, v.owl_all_disjoint_classes_id), msgs.subrange(b, c))
            && reported_once(first, rest, nil, terms, "owl:AllDisjointProperties"@, declared_groups(types, members, v.owl_all_disjoint_properties_id), msgs.subrange(c, msgs.len() as int))
}

proof fn lemma_failures_extend(
    first: Map<u32, Set<u32>>,
    rest: Map<u32, Set<u32>>,
    nil: u32,
    terms: Seq<Seq<char>>,
    label: Seq<char>,
    groups: Set<(u32, u32)>,
    msgs: Seq<String>,
    longer: Seq<String>,
    base: int,
    from: int,
)
    requires
        failures_reported(first, rest, nil, terms, label, groups, msgs, from),
        0 <= base <= from,
        msgs.len() <= longer.len(),
        longer.take(msgs.len() as int) == msgs,
    ensures
        failures_reported(first, rest, nil, terms, label, groups, longer.skip(base), 0),
{
    assert forall|g: (u32, u32)| groups.contains(g) && #[trigger] group_fails(first, rest, nil, g) implies exists|k: int|
        0 <= k < longer.skip(base).len() && group_diagnostic(first, rest, nil, terms, label, g, longer.skip(base)[k]@) by {
        let k = choose|k: int| from <= k < msgs.len() && group_diagnostic(first, rest, nil, terms, label, g, msgs[k]@);
        assert(longer[k] == longer.take(msgs.len() as int)[k]);
        assert(longer.skip(base)[k - base] == longer[k]);
    }
}

/// Expands the group axioms of the index: each `owl:AllDifferent` group
/// into pairwise `owl:differentFrom` pairs, each `owl:AllDisjointClasses`
/// and `owl:AllDisjointProperties` group into pairwise disjointness
/// edges, and reports each group whose member list is malformed or has
/// fewer than two members instead.
pub(crate) fn expand_group_axioms(
    symbols: &SymbolTable,
    v: &IndexedVocabulary,
    types: &IdSetMap,
    first: &IdSetMap,
    rest: &IdSetMap,
    members: &IdSetMap,
    distinct: &IdSetMap,
    different_from: &mut PairSet,
    disjoint_classes: &mut IdSetMap,
    disjoint_properties: &mut IdSetMap,
    diagnostics: &mut Vec<String>,
)
    ensures
        final(different_from)@ == old(different_from)@.union(
            ordered_pairs(pairs_of_groups(first@, rest@, v.rdf_nil_id, declared_groups(types@, distinct@, v.owl_all_different_id))),
        ).union(
            ordered_pairs(pairs_of_groups(first@, rest@, v.rdf_nil_id, declared_groups(types@, members@, v.owl_all_different_id))),
        ),
        final(disjoint_classes)@ == with_symmetric_pairs(
            old(disjoint_classes)@,
            pairs_of_groups(first@, rest@, v.rdf_nil_id, declared_groups(types@, members@, v.owl_all_disjoint_classes_id)),
        ),
        final(disjoint_properties)@ == with_symmetric_pairs(
            old(disjoint_properties)@,
            pairs_of_groups(first@, rest@, v.rdf_nil_id, declared_groups(types@, members@, v.owl_all_disjoint_properties_id)),
        ),
        final(diagnostics)@.len() >= old(diagnostics)@.len(),
        final(diagnostics)@.take(old(diagnostics)@.len() as int) == old(diagnostics)@,
        forall|k: int| old(diagnostics)@.len() <= k < final(diagnostics)@.len() ==> #[trigger] group_axiom_report(
            first@, rest@, v.rdf_nil_id, symbols@, types@, members@, distinct@, *v, final(diagnostics)@[k]@),
        group_failures_reported(first@, rest@, v.rdf_nil_id, symbols@, types@, members@, distinct@, *v, final(diagnostics)@.skip(old(diagnostics)@.len() as int)),
        group_reports_once(first@, rest@, v.rdf_nil_id, symbols@, types@, members@, distinct@, *v, final(diagnostics)@.skip(old(diagnostics)@.len() as int)),
{
    let nil = v.rdf_nil_id;
    let ghost d0 = diagnostics@;
    let g1 = collect_groups(types, distinct, v.owl_all_different_id);
    expand_groups_into_pairs(first, rest, nil, symbols, "owl:AllDifferent", g1.as_slice(), different_from, diagnostics);
    let ghost d1 = diagnostics@;
    let g2 = collect_groups(types, members, v.owl_all_different_id);
    expand_groups_into_pairs(first, rest, nil, symbols, "owl:AllDifferent", g2.as_slice(), different_from, diagnostics);
    let ghost d2 = diagnostics@;
    let g3 = collect_groups(types, members, v.owl_all_disjoint_classes_id);
    expand_groups_into_edges(first, rest, nil, symbols, "owl:AllDisjointClasses", g3.as_slice(), disjoint_classes, diagnostics);
    let ghost d3 = diagnostics@;
    let g4 = collect_groups(types, members, v.owl_all_disjoint_properties_id);
    expand_groups_into_edges(first, rest, nil, symbols, "owl:AllDisjointProperties", g4.as_slice(), disjoint_properties, diagnostics);
    proof {
        let d4 = diagnostics@;
        assert forall|k: int| d0.len() <= k < d4.len() implies #[trigger] group_axiom_report(
            first@, rest@, nil, symbols@, types@, members@, distinct@, *v, d4[k]@) by {
            if k >= d3.len() {
                assert(reported_for(first@, rest@, nil, symbols@, "owl:AllDisjointProperties"@, g4@.to_set(), d4[k]@));
            } else if k >= d2.len() {
                assert(d4[k] == d4.take(d3.len() as int)[k]);
                assert(reported_for(first@, rest@, nil, symbols@, "owl:AllDisjointClasses"@, g3@.to_set(), d3[k]@));
            } else if k >= d1.len() {
                assert(d4[k] == d4.take(d3.len() as int)[k]);
                assert(d3[k] == d3.take(d2.len() as int)[k]);
                assert(reported_for(first@, rest@, nil, symbols@, "owl:AllDifferent"@, g2@.to_set(), d2[k]@));
            } else {
                assert(d4[k] == d4.take(d3.len() as int)[k]);
                assert(d3[k] == d3.take(d2.len() as int)[k]);
                assert(d2[k] == d2.take(d1.len() as int)[k]);
                assert(reported_for(first@, rest@, nil, symbols@, "owl:AllDifferent"@, g1@.to_set(), d1[k]@));
            }
        }
        assert(d4.take(d3.len() as int).take(d2.len() as int) =~= d4.take(d2.len() as int));
        assert(d4.take(d2.len() as int) == d3.take(d2.len() as int));
        assert(d4.take(d2.len() as int).take(d1.len() as int) =~= d4.take(d1.len() as int));
        let b = d0.len() as int;
        lemma_failures_extend(first@, rest@, nil, symbols@, "owl:AllDifferent"@, g1@.to_set(), d1, d4, b, b);
        lemma_failures_extend(first@, rest@, nil, symbols@, "owl:AllDifferent"@, g2@.to_set(), d2, d4, b, d1.len() as int);
        lemma_failures_extend(first@, rest@, nil, symbols@, "owl:AllDisjointClasses"@, g3@.to_set(), d3, d4, b, d2.len() as int);
        assert(d4.take(d4.len() as int) =~= d4);
        lemma_failures_extend(first@, rest@, nil, symbols@, "owl:AllDisjointProperties"@, g4@.to_set(), d4, d4, b, d3.len() as int);
        assert(d4.take(d3.len() as int).take(b) =~= d4.take(b));
        assert(d3.take(d2.len() as int).take(b) =~= d3.take(b));
        assert(d2.take(d1.len() as int).take(b) =~= d2.take(b));
        let e = d4.skip(b);
        let x1 = d1.len() - b;
        let x2 = d2.len() - b;
        let x3 = d3.len() - b;
        assert(e.subrange(0, x1) =~= d1.subrange(b, d1.len() as int)) by {
            assert forall|k: int| 0 <= k < x1 implies e.subrange(0, x1)[k] == d1.subrange(b, d1.len() as int)[k] by {
                assert(d4[b + k] == d4.take(d3.len() as int)[b + k]);
                assert(d3[b + k] == d3.take(d2.len() as int)[b + k]);
                assert(d2[b + k] == d2.take(d1.len() as int)[b + k]);
            }
        }
        assert(e.subrange(x1, x2) =~= d2.subrange(d1.len() as int, d2.len() as int)) by {
            assert forall|k: int| 0 <= k < x2 - x1 implies e.subrange(x1, x2)[k] == d2.subrange(d1.len() as int, d2.len() as int)[k] by {
                assert(d4[d1.len() + k] == d4.take(d3.len() as int)[d1.len() + k]);
                assert(d3[d1.len() + k] == d3.take(d2.len() as int)[d1.len() + k]);
            }
        }
        assert(e.subrange(x2, x3) =~= d3.subrange(d2.len() as int, d3.len() as int)) by {
            assert forall|k: int| 0 <= k < x3 - x2 implies e.subrange(x2, x3)[k] == d3.subrange(d2.len() as int, d3.len() as int)[k] by {
                assert(d4[d2.len() + k] == d4.take(d3.len() as int)[d2.len() + k]);
            }
        }
        assert(e.subrange(x3, e.len() as int) =~= d4.subrange(d3.len() as int, d4.len() as int));
        assert(group_reports_once(first@, rest@, nil, symbols@, types@, members@, distinct@, *v, e)) by {
            assert(0 <= x1 <= x2 <= x3 <= e.len());
            assert(reported_once(first@, rest@, nil, symbols@, "owl:AllDifferent"@, declared_groups(types@, distinct@, v.owl_all_different_id), e.subrange(0, x1)));
        }
    }
}

} // verus!
