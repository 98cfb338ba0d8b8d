use genealogy::pedigree::Genealogy;
use genealogy::relationship::{Coefficient, GeneError};

/// The numeric value of a coefficient query, for comparing against decimal
/// literals: the sum of `0.5^e` over the exponent list.
fn value(r: Result<Coefficient, GeneError>) -> Option<f64> {
    r.ok().map(|c| c.exponents.iter().map(|e| 0.5f64.powi(*e as i32)).sum())
}

fn second_cousins_tree() -> Genealogy<String> {
    let mut tree = Genealogy::<String>::new();

    // Root ancestors
    tree.add("A".to_string(), None, None);
    tree.add("B".to_string(), None, None);

    // 2
    tree.add("D".to_string(), Some(0), Some(1));
    tree.add("E".to_string(), Some(0), Some(1));

    // 4
    tree.add("H".to_string(), Some(2), None);
    tree.add("I".to_string(), Some(3), None);

    // 6
    tree.add("K".to_string(), Some(4), None);
    tree.add("L".to_string(), Some(5), None);

    // 8
    tree.add("M".to_string(), Some(6), Some(7));

    tree
}

fn first_cousins_tree() -> Genealogy<String> {
    let mut tree = Genealogy::<String>::new();

    // Root ancestors
    tree.add("A".to_string(), None, None);
    tree.add("B".to_string(), None, None);

    // 2
    tree.add("D".to_string(), Some(0), Some(1));
    tree.add("E".to_string(), Some(0), Some(1));

    // 4
    tree.add("G".to_string(), Some(2), None);
    tree.add("H".to_string(), Some(3), None);

    tree
}

fn first_cousins_children_tree() -> Genealogy<String> {
    let mut tree = first_cousins_tree();

    // 6
    tree.add("I".to_string(), Some(4), Some(5));
    tree.add("J".to_string(), Some(4), Some(5));

    tree
}

fn direct_relationship_tree() -> Genealogy<String> {
    let mut tree = Genealogy::<String>::new();

    // Root ancestor, then one child per generation
    tree.add("A".to_string(), None, None);
    tree.add("C".to_string(), Some(0), None);
    tree.add("E".to_string(), Some(1), None);
    tree.add("G".to_string(), Some(2), None);
    tree.add("I".to_string(), Some(3), None);

    tree
}

fn double_relationship_tree() -> Genealogy<String> {
    let mut tree = Genealogy::<String>::new();

    // Root ancestors
    tree.add("A".to_string(), None, None);
    tree.add("B".to_string(), None, None);
    tree.add("C".to_string(), None, None);
    tree.add("D".to_string(), None, None);
    tree.add("E".to_string(), None, None);
    tree.add("F".to_string(), None, None);

    // 6
    tree.add("G".to_string(), Some(0), Some(1));
    tree.add("H".to_string(), Some(1), Some(2));
    tree.add("I".to_string(), Some(3), Some(4));
    tree.add("J".to_string(), Some(4), Some(5));

    // 10
    tree.add("K".to_string(), Some(6), Some(8));
    tree.add("L".to_string(), Some(7), Some(9));

    tree
}

fn diamond_relationship_tree() -> Genealogy<String> {
    let mut tree = Genealogy::<String>::new();

    // Root ancestor
    tree.add("A".to_string(), None, None);

    tree.add("B".to_string(), Some(0), None);
    tree.add("C".to_string(), Some(0), None);

    tree.add("D".to_string(), Some(1), Some(2));

    tree
}

#[test]
fn second_cousins_k_l_relationship() {
    let tree = second_cousins_tree();
    let relationship = tree.compute_coefficient_of_relationship(6, 7);
    assert_eq!(Some(0.03125), value(relationship));
}

#[test]
fn second_cousins_m_d_relationship() {
    let tree = second_cousins_tree();
    let relationship = tree.compute_coefficient_of_relationship(2, 8);
    assert_eq!(Some(0.1875), value(relationship));
}

#[test]
fn second_cousins_m_a_relationship() {
    let tree = second_cousins_tree();
    let relationship = tree.compute_coefficient_of_relationship(0, 8);
    assert_eq!(Some(0.125), value(relationship));
}

#[test]
fn second_cousins_m_b_relationship() {
    let tree = second_cousins_tree();
    let relationship = tree.compute_coefficient_of_relationship(1, 8);
    assert_eq!(Some(0.125), value(relationship));
}

#[test]
fn first_cousins() {
    let tree = first_cousins_tree();
    let relationship = tree.compute_coefficient_of_relationship(4, 5);
    assert_eq!(Some(0.125), value(relationship));
}

#[test]
fn first_cousins_children() {
    let tree = first_cousins_children_tree();
    let relationship = tree.compute_coefficient_of_relationship(6, 7);
    assert_eq!(Some(0.5625), value(relationship));
}

#[test]
fn direct_relationship() {
    let tree = direct_relationship_tree();
    let relationship = tree.compute_coefficient_of_relationship(0, 4);
    assert_eq!(Some(0.0625), value(relationship));
}

#[test]
fn sibling_relationship() {
    let tree = direct_relationship_tree();
    let relationship = tree.compute_coefficient_of_relationship(2, 3);
    assert_eq!(Some(0.5), value(relationship));
}

#[test]
fn diamond_relationship() {
    let tree = diamond_relationship_tree();
    let relationship = tree.compute_coefficient_of_relationship(0, 3);
    assert_eq!(Some(0.5), value(relationship));
}

#[test]
fn double_relationship() {
    let tree = double_relationship_tree();
    let relationship = tree.compute_coefficient_of_relationship(10, 11);
    assert_eq!(Some(0.125), value(relationship));
}

#[test]
fn double_relationship_same() {
    let tree = double_relationship_tree();
    let relationship = tree.compute_coefficient_of_relationship(11, 11);
    assert_eq!(Some(1.0), value(relationship));
}

#[test]
fn is_ancestor() {
    let tree = direct_relationship_tree();
    let descendant = tree.is_descendant_of(2, 3);
    assert_eq!(true, descendant);
    let descendant = tree.is_descendant_of(3, 2);
    assert_eq!(false, descendant);
}

#[test]
fn is_ancestor_first_cousins() {
    let tree = first_cousins_tree();
    let descendant = tree.is_descendant_of(0, 2);
    assert_eq!(true, descendant);
    let descendant = tree.is_descendant_of(4, 0);
    assert_eq!(false, descendant);
}

#[test]
fn test() {
    assert!(true);
}

#[test]
fn siblings_share_half() {
    // Two roots, two children of both: full siblings relate by one half.
    let mut tree = Genealogy::<String>::new();
    tree.add("A".to_string(), None, None);
    tree.add("B".to_string(), None, None);
    tree.add("C".to_string(), Some(0), Some(1));
    tree.add("D".to_string(), Some(0), Some(1));
    assert_eq!(Some(0.5), value(tree.compute_coefficient_of_relationship(2, 3)));
}

#[test]
fn relationship_is_symmetric_on_cousins() {
    let tree = first_cousins_tree();
    let one_way = value(tree.compute_coefficient_of_relationship(4, 5));
    let other_way = value(tree.compute_coefficient_of_relationship(5, 4));
    assert_eq!(one_way, other_way);
    assert_eq!(Some(0.125), one_way);
}

#[test]
fn relationship_of_unknown_individual_fails() {
    let tree = first_cousins_tree();
    assert!(matches!(
        tree.compute_coefficient_of_relationship(0, 100),
        Err(GeneError::UnknownIndividual)
    ));
    assert!(matches!(
        tree.compute_coefficient_of_relationship(100, 0),
        Err(GeneError::UnknownIndividual)
    ));
    assert!(matches!(
        tree.compute_coefficient_of_relationship(100, 100),
        Err(GeneError::UnknownIndividual)
    ));
}

#[test]
fn self_relationship_is_single_unit_contribution() {
    let tree = first_cousins_tree();
    let c = tree.compute_coefficient_of_relationship(3, 3).unwrap_or(Coefficient {
        exponents: Vec::new(),
    });
    assert_eq!(vec![0], c.exponents);
    assert_eq!(Some((1, 0)), c.as_ratio());
}

#[test]
fn sibling_coefficient_as_exact_ratio() {
    // Each shared parent contributes 0.5^2: the exact ratio is 2 / 2^2.
    let mut tree = Genealogy::<String>::new();
    tree.add("A".to_string(), None, None);
    tree.add("B".to_string(), None, None);
    tree.add("C".to_string(), Some(0), Some(1));
    tree.add("D".to_string(), Some(0), Some(1));
    let c = tree.compute_coefficient_of_relationship(2, 3).unwrap_or(Coefficient {
        exponents: Vec::new(),
    });
    assert_eq!(vec![2, 2], c.exponents);
    assert_eq!(Some((2, 2)), c.as_ratio());
}

#[test]
fn unrelated_individuals_have_zero_coefficient() {
    let mut tree = Genealogy::<String>::new();
    tree.add("A".to_string(), None, None);
    tree.add("B".to_string(), None, None);
    let c = tree.compute_coefficient_of_relationship(0, 1).unwrap_or(Coefficient {
        exponents: vec![0],
    });
    assert!(c.exponents.is_empty());
    assert_eq!(Some(0.0), value(tree.compute_coefficient_of_relationship(0, 1)));
    assert_eq!(Some((0, 0)), c.as_ratio());
}
