use hccr_verified::g_lattice::{
    GCompatibilityFailure, GLattice, GLatticeError, GTransferSystemError, RelationOrbitLabel,
};
use hccr_verified::lattice::Lattice;
use hccr_verified::poset::{Edge, EdgeSet, Poset};
use std::sync::Arc;

fn diamond_lattice() -> Arc<Lattice<&'static str>> {
    Arc::new(
        Lattice::new(
            Poset::from_edges(
                vec!["0", "a", "b", "1"],
                vec![Edge::new(0, 1), Edge::new(0, 2), Edge::new(1, 3), Edge::new(2, 3)],
            )
            .unwrap(),
        )
        .unwrap(),
    )
}

fn edge_set(pairs: &[(usize, usize)]) -> EdgeSet {
    EdgeSet::from_vec(pairs.iter().map(|&(from, to)| Edge::new(from, to)).collect())
}

fn orbit_ids<A>(g_lattice: &GLattice<A>) -> Vec<Vec<usize>> {
    g_lattice
        .relation_orbits()
        .iter()
        .map(|orbit| orbit.relation_ids().to_vec())
        .collect()
}

#[test]
fn group_actions_produce_the_correct_relation_orbits_and_transfer_systems() {
    let diamond = diamond_lattice();
    let from_generators =
        GLattice::from_generator_images(Arc::clone(&diamond), vec![vec![0, 2, 1, 3]]).unwrap();

    let expected_relations = vec![
        Edge::new(0, 0),
        Edge::new(0, 1),
        Edge::new(0, 2),
        Edge::new(0, 3),
        Edge::new(1, 1),
        Edge::new(1, 3),
        Edge::new(2, 2),
        Edge::new(2, 3),
        Edge::new(3, 3),
    ];
    let expected_orbits = vec![vec![0], vec![1, 2], vec![3], vec![4, 6], vec![5, 7], vec![8]];
    assert_eq!(from_generators.relations(), expected_relations);
    assert_eq!(orbit_ids(&from_generators), expected_orbits);
    assert_eq!(from_generators.element_generator_permutations(), &[vec![0, 2, 1, 3]]);

    let generated = from_generators
        .transfer_universe()
        .generated_by(vec![Edge::new(0, 3)])
        .unwrap();
    assert_eq!(generated.relations(false), edge_set(&[(0, 1), (0, 2), (0, 3)]));

    let swapped = from_generators
        .relation_orbit(Edge::new(0, 1))
        .expect("swapped relation should have an orbit");
    assert_eq!(swapped.canonical_representative(), Edge::new(0, 1));
    assert_eq!(swapped.relation_ids(), &[1, 2]);

    let expected_labels = vec![
        RelationOrbitLabel::new(1, 1, Edge::new(0, 1)),
        RelationOrbitLabel::new(2, 3, Edge::new(0, 3)),
        RelationOrbitLabel::new(4, 5, Edge::new(1, 3)),
    ];
    assert_eq!(from_generators.non_identity_relation_orbit_labels(), expected_labels);
    let universe = from_generators.transfer_universe();
    assert_eq!(universe.relation_orbit_labels(), expected_labels.as_slice());

    let containment = from_generators.transfer_systems_containment().unwrap();
    assert_eq!(containment.size(), 4);
    assert_eq!(containment.as_poset().cover_relations().len(), 3);

    let bottom = containment.system(containment.bottom()).unwrap();
    assert!(bottom.relation_orbit_labels().is_empty());
    assert!(bottom.relations(false).is_empty());
    assert_eq!(bottom.relations(true).len(), diamond.size());

    let top = containment.system(containment.top()).unwrap();
    assert_eq!(top.relation_orbit_labels(), expected_labels);
    assert_eq!(top.relations(false).len(), 5);
    for relation in [
        Edge::new(0, 1),
        Edge::new(0, 2),
        Edge::new(0, 3),
        Edge::new(1, 3),
        Edge::new(2, 3),
    ] {
        assert!(top.relations(false).contains(&relation));
        assert!(top.contains_relation(relation));
    }
    for system in containment.systems() {
        let ordinary = system.underlying_transfer_system();
        assert_eq!(ordinary.edges(false), system.relations(false));
        for relation in ordinary.edges(true).to_vec() {
            assert_eq!(ordinary.contains_relation(relation), system.contains_relation(relation));
        }
    }
}

#[test]
fn g_transfer_count_agrees_with_enumeration() {
    let diamond = diamond_lattice();
    let g_lattice = GLattice::from_generator_images(Arc::clone(&diamond), vec![vec![0, 2, 1, 3]]).unwrap();
    assert_eq!(g_lattice.transfer_system_count(), 4);
    assert_eq!(g_lattice.transfer_universe().transfer_systems().len(), 4);

    // The trivial action gives back the ordinary transfer systems: ten on the diamond.
    let trivial = GLattice::from_generator_images(Arc::clone(&diamond), vec![vec![0, 1, 2, 3]]).unwrap();
    assert_eq!(trivial.transfer_system_count(), 10);
    assert_eq!(trivial.relation_orbits().len(), 9);
}

#[test]
fn g_lattice_rejects_generators_that_are_not_automorphisms() {
    let diamond = diamond_lattice();
    assert_eq!(
        GLattice::from_generator_images(Arc::clone(&diamond), vec![vec![0, 2, 1]]).unwrap_err(),
        GLatticeError::WrongPermutationLength { generator: 0, expected: 4, actual: 3 }
    );
    assert_eq!(
        GLattice::from_generator_images(Arc::clone(&diamond), vec![vec![0, 1, 2, 3], vec![0, 1, 1, 3]])
            .unwrap_err(),
        GLatticeError::DuplicatePermutationImage {
            generator: 1,
            first_element: 1,
            second_element: 2,
            image: 1
        }
    );
    assert!(matches!(
        GLattice::from_generator_images(Arc::clone(&diamond), vec![vec![0, 1, 2, 7]]).unwrap_err(),
        GLatticeError::PermutationImageOutOfBounds { generator: 0, element: 3, image: 7, len: 4 }
    ));
    assert!(matches!(
        GLattice::from_generator_images(Arc::clone(&diamond), vec![vec![3, 1, 2, 0]]).unwrap_err(),
        GLatticeError::NotALatticeAutomorphism { generator: 0, .. }
    ));
}

#[test]
fn g_transfer_system_errors_and_raw_validation() {
    let diamond = diamond_lattice();
    let g_lattice = GLattice::from_generator_images(Arc::clone(&diamond), vec![vec![0, 2, 1, 3]]).unwrap();
    let universe = g_lattice.transfer_universe();

    assert!(matches!(
        universe.generated_by(vec![Edge::new(0, 9)]),
        Err(GTransferSystemError::EdgeOutOfBounds { edge, lattice_size: 4 }) if edge == Edge::new(0, 9)
    ));
    assert!(matches!(
        universe.generated_by(vec![Edge::new(1, 2)]),
        Err(GTransferSystemError::NotLatticeRelation { edge }) if edge == Edge::new(1, 2)
    ));

    // A raw system of the trivial action has one bit per proper relation.
    let trivial = GLattice::from_generator_images(Arc::clone(&diamond), vec![vec![0, 1, 2, 3]]).unwrap();
    let foreign = trivial.transfer_universe().generated_by(vec![Edge::new(0, 1)]).unwrap();
    assert!(matches!(
        universe.try_from_raw(foreign.raw().clone()),
        Err(GTransferSystemError::WrongOrbitCount { expected: 3, actual: 5 })
    ));
    let generated = universe.generated_by(vec![Edge::new(0, 2)]).unwrap();
    let system = universe.try_from_raw(generated.raw().clone()).unwrap();
    assert_eq!(system.relations(false), edge_set(&[(0, 1), (0, 2)]));
    assert!(!system.contains_relation(Edge::new(0, 3)));
    assert!(system.contains_relation(Edge::new(3, 3)));
    assert!(!system.contains_relation(Edge::new(4, 4)));
}

#[test]
fn equivariant_saturation_cosaturation_and_bases_on_the_swapped_diamond() {
    let diamond = diamond_lattice();
    let g_lattice = GLattice::from_generator_images(Arc::clone(&diamond), vec![vec![0, 2, 1, 3]]).unwrap();
    let universe = g_lattice.transfer_universe();

    let lower = universe.generated_by(vec![Edge::new(0, 1)]).unwrap();
    let through = universe.generated_by(vec![Edge::new(0, 3)]).unwrap();
    let top = universe.generated_by(vec![Edge::new(1, 3)]).unwrap();
    let bottom = universe.generated_by(vec![]).unwrap();
    assert_eq!(top.relations(false).len(), 5);

    assert!(bottom.is_saturated());
    assert!(lower.is_saturated());
    assert!(!through.is_saturated());
    assert!(top.is_saturated());
    assert_eq!(universe.saturated_transfer_systems().len(), 3);

    assert!(bottom.is_cosaturated());
    assert!(!lower.is_cosaturated());
    assert!(lower.cosaturated_coclosure().relations(false).is_empty());
    assert!(through.is_disklike());
    assert!(top.is_cosaturated());

    assert_eq!(
        top.minimal_generating_set(),
        vec![RelationOrbitLabel::new(4, 5, Edge::new(1, 3))]
    );
    assert_eq!(top.minimum_generating_set().len(), 1);
    assert_eq!(through.generator_complexity(), 1);
    assert_eq!(bottom.generator_complexity(), 0);
    assert_eq!(universe.complexity(), 1);
    assert_eq!(universe.width(), 1);
    assert_eq!(g_lattice.transfer_system_complexity(), 1);
    assert_eq!(g_lattice.transfer_system_width(), 1);

    assert_eq!(top.is_generated_by(vec![Edge::new(2, 3)]), Ok(true));
    assert_eq!(top.is_generated_by(vec![Edge::new(0, 3)]), Ok(false));
    assert!(top.is_generated_by(vec![Edge::new(1, 2)]).is_err());
}

#[test]
fn equivariant_compatibility_reports_witnesses() {
    let diamond = diamond_lattice();
    let g_lattice = GLattice::from_generator_images(Arc::clone(&diamond), vec![vec![0, 2, 1, 3]]).unwrap();
    let universe = g_lattice.transfer_universe();
    let bottom = universe.generated_by(vec![]).unwrap();
    let lower = universe.generated_by(vec![Edge::new(0, 1)]).unwrap();
    let top = universe.generated_by(vec![Edge::new(1, 3)]).unwrap();

    assert!(top.is_compatible_with(&top));
    assert!(top.is_compatible_with(&bottom));
    assert!(matches!(
        bottom.compatibility_failure(&lower),
        Some(GCompatibilityFailure::MultiplicativeNotAdditive { .. })
    ));
    assert!(!bottom.is_compatible_with(&top));
    let pairs = universe.compatible_pairs();
    assert!(pairs.iter().all(|(additive, multiplicative)| additive.is_compatible_with(multiplicative)));
    assert!(pairs.len() >= 4);

    let other = GLattice::from_generator_images(Arc::clone(&diamond), vec![vec![0, 2, 1, 3]]).unwrap();
    let foreign = other.transfer_universe().generated_by(vec![]).unwrap();
    assert_eq!(bottom.compatibility_failure(&foreign), Some(GCompatibilityFailure::DifferentUniverses));
}

#[test]
fn saturated_closure_is_the_least_saturated_extension_on_the_swapped_diamond() {
    let diamond = diamond_lattice();
    let g_lattice = GLattice::from_generator_images(Arc::clone(&diamond), vec![vec![0, 2, 1, 3]]).unwrap();
    let universe = g_lattice.transfer_universe();
    let systems = universe.transfer_systems();
    let subset = |a: &hccr_verified::g_lattice::GTransferSystem<&'static str>, b: &hccr_verified::g_lattice::GTransferSystem<&'static str>| {
        a.relations(true).is_subset(&b.relations(true))
    };
    for system in &systems {
        let closure = system.saturated_closure();
        assert!(closure.is_saturated());
        assert!(subset(system, &closure));
        assert_eq!(closure.saturated_closure().relations(true), closure.relations(true));
        for candidate in systems.iter().filter(|c| c.is_saturated() && subset(system, c)) {
            assert!(subset(&closure, candidate));
        }
    }
    let through = universe.generated_by(vec![Edge::new(0, 3)]).unwrap();
    assert_eq!(through.saturated_closure().relations(false).len(), 5);
}

#[test]
fn minimal_generating_sets_are_irredundant_on_the_swapped_diamond() {
    let diamond = diamond_lattice();
    let g_lattice = GLattice::from_generator_images(Arc::clone(&diamond), vec![vec![0, 2, 1, 3]]).unwrap();
    let universe = g_lattice.transfer_universe();
    let top = universe.generated_by(vec![Edge::new(1, 3)]).unwrap();
    assert_eq!(top.is_minimal_generating_set(vec![Edge::new(1, 3)]), Ok(true));
    assert_eq!(top.is_minimal_generating_set(vec![Edge::new(2, 3)]), Ok(true));
    assert_eq!(top.is_minimal_generating_set(vec![Edge::new(1, 3), Edge::new(2, 3)]), Ok(false));
    assert_eq!(top.is_minimal_generating_set(vec![Edge::new(0, 3), Edge::new(1, 3)]), Ok(false));
    assert_eq!(top.is_minimal_generating_set(vec![Edge::new(0, 0), Edge::new(1, 3)]), Ok(false));
    assert_eq!(top.is_minimal_generating_set(vec![Edge::new(0, 1)]), Ok(false));
    assert!(top.is_minimal_generating_set(vec![Edge::new(1, 2)]).is_err());
}

#[test]
fn compatibility_check_given_the_handle_comparison() {
    let diamond = diamond_lattice();
    let g_lattice = GLattice::from_generator_images(Arc::clone(&diamond), vec![vec![0, 2, 1, 3]]).unwrap();
    let universe = g_lattice.transfer_universe();
    let bottom = universe.generated_by(vec![]).unwrap();
    let lower = universe.generated_by(vec![Edge::new(0, 1)]).unwrap();
    let top = universe.generated_by(vec![Edge::new(1, 3)]).unwrap();
    assert_eq!(top.compatibility_failure_for_handles(&top, false), Some(GCompatibilityFailure::DifferentUniverses));
    assert_eq!(top.compatibility_failure_for_handles(&top, true), None);
    assert_eq!(top.compatibility_failure_for_handles(&lower, true), None);
    assert!(matches!(
        bottom.compatibility_failure_for_handles(&lower, true),
        Some(GCompatibilityFailure::MultiplicativeNotAdditive { relation }) if relation == Edge::new(0, 1) || relation == Edge::new(0, 2)
    ));
    assert_eq!(universe.compatible_pairs().len(), universe.transfer_systems().iter().map(|a| {
        universe.transfer_systems().iter().filter(|m| a.is_compatible_with(m)).count()
    }).sum::<usize>());
}
