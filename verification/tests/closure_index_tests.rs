use nrese::closure_index::ClosureIndex;
use nrese::idset::IdSetMap;

fn edges(pairs: &[(u32, u32)]) -> IdSetMap {
    let mut map = IdSetMap::new();
    for &(from, to) in pairs {
        map.insert(from, to);
    }
    map
}

#[test]
fn closure_index_memoizes_transitive_ancestors() {
    let edges = edges(&[(1, 2), (2, 3)]);

    let closure = ClosureIndex::from_edges(&edges);
    let ancestors = closure.ancestors_of(1).expect("ancestors");

    assert_eq!(closure.node_count(), 3);
    assert!(ancestors.contains(2));
    assert!(ancestors.contains(3));
}

#[test]
fn closure_index_handles_cycles_without_recursing_forever() {
    let edges = edges(&[(1, 2), (2, 1)]);

    let closure = ClosureIndex::from_edges(&edges);

    let ancestors_one = closure.ancestors_of(1).expect("ancestors for 1");
    let ancestors_two = closure.ancestors_of(2).expect("ancestors for 2");

    assert!(ancestors_one.contains(2));
    assert!(ancestors_two.contains(1));
}

#[test]
fn property_taxonomy_index_tracks_transitive_super_properties() {
    let edges = edges(&[(10, 20), (20, 30)]);

    let taxonomy = ClosureIndex::from_edges(&edges);
    let ancestors = taxonomy.ancestors_of(10).expect("ancestors");

    assert_eq!(taxonomy.node_count(), 3);
    assert!(ancestors.contains(20));
    assert!(ancestors.contains(30));
}

#[test]
fn closure_index_cycle_members_are_their_own_ancestors() {
    let closure = ClosureIndex::from_edges(&edges(&[(1, 2), (2, 1), (3, 1)]));
    assert!(closure.ancestors_of(1).expect("1").contains(1));
    assert!(closure.ancestors_of(3).expect("3").contains(2));
    assert!(!closure.ancestors_of(3).expect("3").contains(3));
}

#[test]
fn closure_index_gives_roots_an_empty_entry_and_unknown_nodes_none() {
    let closure = ClosureIndex::from_edges(&edges(&[(1, 2)]));
    assert!(closure.ancestors_of(2).expect("root").is_empty());
    assert!(closure.ancestors_of(9).is_none());
    assert_eq!(closure.nodes().as_slice().len(), 2);
}
