use hccr_verified::cong_lattice::{CongPoset, IsCongPoset, IsLattice, IsPoset, Lattice, Poset};
use std::collections::HashSet;

/// The diamond `0 < 1, 2 < 3` with `1` and `2` incomparable.
fn diamond() -> Poset<String> {
    Poset::from_edges(
        vec!["0".to_string(), "a".to_string(), "b".to_string(), "1".to_string()],
        &[(0, 1), (0, 2), (1, 3), (2, 3)],
    )
}

fn set(items: &[usize]) -> HashSet<usize> {
    items.iter().copied().collect()
}

#[test]
fn relation_matrix_constructor_keeps_the_order() {
    let relation = vec![
        vec![true, true, true],
        vec![false, true, true],
        vec![false, false, true],
    ];
    let chain = Poset::new(vec![0u8, 1, 2], relation);
    assert_eq!(chain.num_elements(), 3);
    assert!(chain.leq(0, 2));
    assert!(!chain.leq(2, 0));
    assert_eq!(chain.upset(1), set(&[1, 2]));
    assert_eq!(chain.downset(1), set(&[0, 1]));
    assert!(chain.is_bottom(0));
    assert!(!chain.is_bottom(1));
    assert!(chain.is_top(2));
    assert!(!chain.is_top(0));
}

#[test]
fn generated_order_is_the_reflexive_transitive_closure() {
    let poset = diamond();
    assert!(poset.leq(0, 3));
    assert!(poset.leq(2, 2));
    assert!(!poset.leq(1, 2));
    assert!(!poset.leq(3, 0));
    assert_eq!(poset.upset(1), set(&[1, 3]));
    assert_eq!(poset.downset(3), set(&[0, 1, 2, 3]));
}

#[test]
fn meets_and_joins_are_found_through_downsets_and_upsets() {
    let poset = diamond();
    assert_eq!(poset.maybe_meet(1, 2), Some(0));
    assert_eq!(poset.maybe_join(1, 2), Some(3));
    assert_eq!(poset.maybe_meet(1, 3), Some(1));

    // Two minimal elements have no meet.
    let vee = Poset::from_edges(vec![0, 1, 2], &[(0, 2), (1, 2)]);
    assert_eq!(vee.maybe_meet(0, 1), None);
    assert_eq!(vee.maybe_join(0, 1), Some(2));
}

#[test]
fn lattice_tables_agree_with_the_trait_defaults() {
    let lattice = Lattice::from_poset(diamond());
    let poset = diamond();
    for a in 0..4 {
        for b in 0..4 {
            assert_eq!(lattice.meet(a, b), poset.maybe_meet(a, b).unwrap());
            assert_eq!(lattice.join(a, b), poset.maybe_join(a, b).unwrap());
        }
    }
    assert_eq!(lattice.restriction(1, 3), vec![(0, 0), (1, 1), (0, 2), (1, 3)]);
    assert_eq!(lattice.corestriction(0, 1), vec![(0, 1), (1, 1), (2, 3), (3, 3)]);
}

#[test]
fn discrete_congruence_relates_only_ordered_pairs() {
    let congruence = CongPoset::discrete_from_poset(diamond());
    for a in 0..4 {
        for b in 0..4 {
            assert_eq!(congruence.preceq(a, b), congruence.leq(a, b));
            assert_eq!(congruence.simeq(a, b), a == b);
        }
        assert_eq!(congruence.equivalence_class_element(a), set(&[a]));
    }
}

#[test]
fn congruence_from_classes_reads_the_classes_of_identities() {
    let chain = Poset::from_edges(vec![0, 1, 2], &[(0, 1), (1, 2)]);
    let classes = vec![((0, 0), vec![(0, 0), (1, 1)]), ((2, 2), vec![(2, 2)])];
    let congruence = CongPoset::from_poset(chain, classes);
    assert!(congruence.preceq(0, 0));
    assert!(congruence.preceq(0, 2));
    // The class of (1, 1) is not listed.
    assert!(!congruence.preceq(1, 1));
    assert!(congruence.preceq(2, 2));
    assert!(!congruence.preceq(2, 1));
    assert!(!congruence.simeq(0, 2));
}
