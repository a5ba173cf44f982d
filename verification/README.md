# nrese

The rules engine of a small OWL/RDFS reasoner over IRI triples, written in
Verus. Each function states what it computes in `requires` / `ensures` over
mathematical models (sets and maps of interned ids), and Verus proves it.

- `src/dataset_index/`: interning of IRIs, classification of triples into the
  edge maps and property sets the rules read, RDF list parsing, group axioms
  (`owl:AllDifferent`, `owl:AllDisjointClasses`, `owl:AllDisjointProperties`)
  and the schema cache key.
- `src/closure_index.rs`: transitive ancestors of a directed graph.
- `src/identity/`: `owl:sameAs` equality clusters, equality inferred from
  functional and inverse-functional properties, `owl:differentFrom` conflicts.
- `src/property_chain.rs`, `src/property_closure/`: binary property chains and
  the least closure of the property assertions under the enabled rules.
- `src/effective_types/`: the classes of each instance with the origin of each.
- `src/class_consistency/`, `src/property_consistency/`: detection of
  inconsistencies and the explanation of a rejected update.
- `src/materialization.rs`: the triples the rules add.
- `src/config.rs`, `src/policy.rs`, `src/profile.rs`: reasoner configuration.

`tests/` runs the library on concrete datasets. `app/` holds the copy of the
error type that carries a `thiserror` derive.
