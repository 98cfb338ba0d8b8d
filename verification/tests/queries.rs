use genealogy::individual::Individual;
use genealogy::pedigree::Genealogy;

fn chain_of_five() -> Genealogy<String> {
    let mut tree = Genealogy::<String>::new();
    tree.add("A".to_string(), None, None);
    tree.add("C".to_string(), Some(0), None);
    tree.add("E".to_string(), Some(1), None);
    tree.add("G".to_string(), Some(2), None);
    tree.add("I".to_string(), Some(3), None);
    tree
}

fn second_cousins_tree() -> Genealogy<String> {
    let mut tree = Genealogy::<String>::new();
    tree.add("A".to_string(), None, None);
    tree.add("B".to_string(), None, None);
    tree.add("D".to_string(), Some(0), Some(1));
    tree.add("E".to_string(), Some(0), Some(1));
    tree.add("H".to_string(), Some(2), None);
    tree.add("I".to_string(), Some(3), None);
    tree.add("K".to_string(), Some(4), None);
    tree.add("L".to_string(), Some(5), None);
    tree.add("M".to_string(), Some(6), Some(7));
    tree
}

#[test]
fn fresh_individual_defaults() {
    let ind = Individual::new("someone");
    assert!(ind.children.is_empty());
    assert!(ind.parents.is_empty());
    assert_eq!("someone", ind.individual);
    assert!(ind.alive);
    assert!(ind.fertile);
    assert!(ind.sex.is_none());
    assert!(ind.score.is_none());
}

#[test]
fn identifiers_are_sequential() {
    let mut tree = Genealogy::<u32>::new();
    assert_eq!(0, tree.add(10, None, None));
    assert_eq!(1, tree.add(11, None, None));
    assert_eq!(2, tree.add(12, Some(0), Some(1)));
    assert!(tree.contains_id(2));
    assert!(!tree.contains_id(3));
}

#[test]
fn ancestors_contain_self_and_all_forebears() {
    let tree = second_cousins_tree();
    assert_eq!(vec![0, 1, 2, 3, 4, 5, 6, 7, 8], tree.get_ancestors(8));
    assert_eq!(vec![0, 1, 2, 4], tree.get_ancestors(4));
    assert_eq!(vec![0], tree.get_ancestors(0));
}

#[test]
fn ancestors_of_unknown_individual_are_empty() {
    let tree = chain_of_five();
    let ancestors = tree.get_ancestors(99);
    assert!(ancestors.is_empty());
}

#[test]
fn ancestors_bounded_by_depth() {
    let tree = second_cousins_tree();
    assert_eq!(vec![8], tree.get_ancestors_bounded(8, 0));
    assert_eq!(vec![6, 7, 8], tree.get_ancestors_bounded(8, 1));
    assert_eq!(vec![4, 5, 6, 7, 8], tree.get_ancestors_bounded(8, 2));
    assert_eq!(vec![2, 3, 4, 5, 6, 7, 8], tree.get_ancestors_bounded(8, 3));
    assert_eq!(vec![0, 1, 2, 3, 4, 5, 6, 7, 8], tree.get_ancestors_bounded(8, 4));
    assert_eq!(vec![0, 1, 2, 3, 4, 5, 6, 7, 8], tree.get_ancestors_bounded(8, 100));
}

#[test]
fn paths_read_descendant_first() {
    let tree = chain_of_five();
    let paths = tree.get_paths_from_ancestor_to_descendant(0, 2);
    assert_eq!(vec![vec![2, 1, 0]], paths);
    let paths = tree.get_paths_from_ancestor_to_descendant(0, 4);
    assert_eq!(vec![vec![4, 3, 2, 1, 0]], paths);
}

#[test]
fn paths_between_equal_ids_is_the_singleton() {
    let tree = chain_of_five();
    let paths = tree.get_paths_from_ancestor_to_descendant(3, 3);
    assert_eq!(vec![vec![3]], paths);
}

#[test]
fn paths_through_a_diamond_both_found() {
    let mut tree = Genealogy::<String>::new();
    tree.add("A".to_string(), None, None);
    tree.add("B".to_string(), Some(0), None);
    tree.add("C".to_string(), Some(0), None);
    tree.add("D".to_string(), Some(1), Some(2));
    let paths = tree.get_paths_from_ancestor_to_descendant(0, 3);
    assert_eq!(vec![vec![3, 1, 0], vec![3, 2, 0]], paths);
}

#[test]
fn paths_to_unreachable_descendant_are_empty() {
    let tree = chain_of_five();
    assert!(tree.get_paths_from_ancestor_to_descendant(4, 0).is_empty());
    assert!(tree.get_paths_from_ancestor_to_descendant(77, 0).is_empty());
}

#[test]
fn everyone_is_their_own_descendant() {
    let tree = chain_of_five();
    assert!(tree.is_descendant_of(2, 2));
}

#[test]
fn add_parent_rejects_cycles_and_leaves_graph_unchanged() {
    let mut tree = Genealogy::<String>::new();
    tree.add("A".to_string(), None, None);
    tree.add("B".to_string(), Some(0), None);
    tree.add("C".to_string(), Some(1), None);
    // Making the grandchild a parent of the root would make 0 an ancestor
    // of itself; so would a self-edge.
    assert!(!tree.add_parent(0, Some(2)));
    assert!(!tree.add_parent(0, Some(0)));
    assert!(!tree.add_parent(1, Some(2)));
    assert_eq!(vec![0], tree.get_ancestors(0));
    assert_eq!(vec![0, 1, 2], tree.get_ancestors(2));
    assert!(tree.get_paths_from_ancestor_to_descendant(2, 0).is_empty());
}

#[test]
fn add_parent_rejects_unknown_ids_and_full_parent_slots() {
    let mut tree = Genealogy::<String>::new();
    tree.add("A".to_string(), None, None);
    tree.add("B".to_string(), None, None);
    tree.add("C".to_string(), None, None);
    tree.add("D".to_string(), Some(0), Some(1));
    assert!(!tree.add_parent(3, Some(9)));
    assert!(!tree.add_parent(9, Some(0)));
    // a third parent is one too many
    assert!(!tree.add_parent(3, Some(2)));
    // absent parent is a no-op success
    assert!(tree.add_parent(3, None));
    assert_eq!(vec![0, 1, 3], tree.get_ancestors(3));
}

#[test]
fn add_parent_installs_edge_both_ways() {
    let mut tree = Genealogy::<String>::new();
    tree.add("A".to_string(), None, None);
    tree.add("B".to_string(), None, None);
    assert!(tree.add_parent(1, Some(0)));
    assert!(tree.is_descendant_of(0, 1));
    assert_eq!(vec![0, 1], tree.get_ancestors(1));
    assert_eq!(vec![vec![1, 0]], tree.get_paths_from_ancestor_to_descendant(0, 1));
}

#[test]
fn shortest_path_follows_the_chain() {
    let tree = chain_of_five();
    assert_eq!(Some(vec![0, 1, 2, 3, 4]), tree.shortest_path(0, 4));
    assert_eq!(Some(vec![4, 3, 2, 1, 0]), tree.shortest_path(4, 0));
    assert_eq!(Some(vec![2]), tree.shortest_path(2, 2));
}

#[test]
fn shortest_path_crosses_generations() {
    let mut tree = Genealogy::<String>::new();
    tree.add("A".to_string(), None, None);
    tree.add("B".to_string(), None, None);
    tree.add("D".to_string(), Some(0), Some(1));
    tree.add("E".to_string(), Some(0), Some(1));
    tree.add("H".to_string(), Some(2), None);
    tree.add("I".to_string(), Some(3), None);
    tree.add("K".to_string(), Some(4), None);
    tree.add("L".to_string(), Some(5), None);
    // From K (6) to L (7) the nearest meeting points are the roots:
    // K-H-D-root-E-I-L, six edges either way.
    let path = tree.shortest_path(6, 7).unwrap_or_default();
    assert_eq!(7, path.len());
    assert_eq!(6, path[0]);
    assert_eq!(7, path[6]);
    // A common child M of K and L shortens the separation to two edges.
    tree.add("M".to_string(), Some(6), Some(7));
    let path = tree.shortest_path(6, 7).unwrap_or_default();
    assert_eq!(vec![6, 8, 7], path);
}

#[test]
fn shortest_path_fails_on_unknown_or_unreachable() {
    let mut tree = Genealogy::<String>::new();
    tree.add("A".to_string(), None, None);
    tree.add("B".to_string(), None, None);
    assert_eq!(None, tree.shortest_path(0, 1));
    assert_eq!(None, tree.shortest_path(0, 9));
    assert_eq!(None, tree.shortest_path(9, 0));
}

#[test]
fn empty_genealogy_answers_every_query_harmlessly() {
    let tree = Genealogy::<String>::new();
    assert!(!tree.contains_id(0));
    assert!(tree.get_ancestors(0).is_empty());
    assert!(tree.get_paths_from_ancestor_to_descendant(0, 1).is_empty());
    assert!(tree.compute_coefficient_of_relationship(0, 0).is_err());
    assert_eq!(None, tree.shortest_path(0, 0));
    assert!(tree.tail(0).is_none());
}

#[test]
fn add_creates_the_individual_even_when_an_edge_fails() {
    let mut tree = Genealogy::<String>::new();
    tree.add("A".to_string(), None, None);
    // the mother identifier is unknown: the individual is still created,
    // with only the father edge installed
    let id = tree.add("B".to_string(), Some(0), Some(7));
    assert_eq!(1, id);
    assert!(tree.contains_id(1));
    assert_eq!(vec![0, 1], tree.get_ancestors(1));
}

#[test]
fn tail_returns_the_most_recent_individuals() {
    let mut tree = Genealogy::<u32>::new();
    tree.add(10, None, None);
    tree.add(11, None, None);
    tree.add(12, None, None);
    let last_two = tree.tail(2);
    match last_two {
        Some(s) => {
            assert_eq!(2, s.len());
            assert_eq!(11, s[0].individual);
            assert_eq!(12, s[1].individual);
        },
        None => panic!("tail of a longer arena must exist"),
    }
    assert!(tree.tail(3).is_none());
    assert!(tree.tail(4).is_none());
}
