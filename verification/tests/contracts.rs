use hccr_verified::cong_lattice::{CongPoset, IsCongPoset, IsPoset, Poset as CongOrder};
use hccr_verified::cotransfer_lattice::CotransferUniverse;
use hccr_verified::g_lattice::{GLattice, GLatticeError};
use hccr_verified::lattice::{Lattice, LatticeError};
use hccr_verified::lattice_constructions::{horizontal_join, HorizontalJoinError};
use hccr_verified::model_structure::ModelStructure;
use hccr_verified::morphism::LatticeMapError;
use hccr_verified::poset::{Edge, Poset, PosetError};
use hccr_verified::tikz::layout::FenwickTree;
use hccr_verified::transfer_lattice::TransferUniverse;
use std::sync::Arc;

fn chain_universe(top: usize) -> Arc<TransferUniverse<usize>> {
    Arc::new(Lattice::chain(top).unwrap()).transfer_universe()
}

#[test]
fn model_structure_in_one_universe_agrees_with_the_checked_constructor() {
    let universe = chain_universe(2);
    let systems = universe.transfer_systems();
    let mut accepted = 0;
    for acyclic_fibrations in &systems {
        for fibrations in &systems {
            let checked = ModelStructure::new(acyclic_fibrations.clone(), fibrations.clone());
            let direct = ModelStructure::new_in_universe(acyclic_fibrations.clone(), fibrations.clone());
            match (checked, direct) {
                (Ok(left), Ok(right)) => {
                    accepted += 1;
                    assert_eq!(left.weak_equivalences(), right.weak_equivalences());
                }
                (Err(left), Err(right)) => assert_eq!(left, right),
                _ => panic!("the two constructors disagree"),
            }
        }
    }
    assert!(accepted > 0);
}

#[test]
fn lifting_in_one_universe_agrees_with_the_checked_lifting() {
    let universe = chain_universe(3);
    let cotransfer = Arc::new(CotransferUniverse::from_transfer_universe(Arc::clone(&universe)));
    for right in universe.transfer_systems() {
        let checked = cotransfer.left_lifting_of(&right).unwrap();
        let direct = cotransfer.left_lifting_in_universe(&right);
        assert_eq!(checked.edges(true), direct.edges(true));
        assert_eq!(direct.right_lifting_transfer().unwrap().edges(true), right.edges(true));
    }
    for opposite in cotransfer.opposite_transfer_universe().transfer_systems() {
        let checked = cotransfer.from_opposite_transfer_system(&opposite).unwrap();
        let direct = cotransfer.from_opposite_in_universe(&opposite);
        assert_eq!(checked.edges(true), direct.edges(true));
        for edge in opposite.edges(false).as_slice() {
            assert!(direct.contains_relation(Edge::new(edge.to, edge.from)));
        }
    }
}

#[test]
fn fenwick_additions_past_the_end_change_nothing() {
    let mut tree = FenwickTree::new(4);
    tree.add(1, 5);
    tree.add(3, 2);
    tree.add(9, 7);
    tree.add(4, 1);
    assert_eq!(tree.prefix_sum(0), 0);
    assert_eq!(tree.prefix_sum(1), 0);
    assert_eq!(tree.prefix_sum(2), 5);
    assert_eq!(tree.prefix_sum(3), 5);
    assert_eq!(tree.prefix_sum(4), 7);
}

#[test]
fn horizontal_join_rejects_a_trivial_factor() {
    let point = Arc::new(Lattice::chain(0).unwrap());
    let pair = Arc::new(Lattice::chain(1).unwrap());
    assert!(matches!(
        horizontal_join(Arc::clone(&point), Arc::clone(&pair)),
        Err(HorizontalJoinError::TrivialInput)
    ));
    assert!(matches!(horizontal_join(pair, point), Err(HorizontalJoinError::TrivialInput)));
}

#[test]
fn poset_from_edges_names_the_first_edge_out_of_range() {
    let result = Poset::from_edges(
        vec![0, 1, 2],
        vec![Edge::new(0, 1), Edge::new(1, 5), Edge::new(7, 0)],
    );
    assert!(matches!(
        result,
        Err(PosetError::EdgeOutOfBounds { edge, len: 3 }) if edge == Edge::new(1, 5)
    ));
}

#[test]
fn g_transfer_context_lists_representatives_in_target_major_order() {
    let diamond = Arc::new(
        Lattice::new(
            Poset::from_edges(
                vec!["0", "a", "b", "1"],
                vec![Edge::new(0, 1), Edge::new(0, 2), Edge::new(1, 3), Edge::new(2, 3)],
            )
            .unwrap(),
        )
        .unwrap(),
    );
    let g_lattice = GLattice::from_generator_images(diamond, vec![vec![0, 2, 1, 3]]).unwrap();
    let context = g_lattice.transfer_context();
    let objects: Vec<(usize, usize)> = context.objects.iter().map(|e| (e.from, e.to)).collect();
    let attributes: Vec<(usize, usize)> = context.attributes.iter().map(|e| (e.from, e.to)).collect();
    // The swap of a and b leaves three orbits of proper relations:
    // {0 < a, 0 < b}, {a < 1, b < 1} and {0 < 1}.
    assert_eq!(objects.len(), 3);
    let mut sorted_objects = objects.clone();
    sorted_objects.sort_by_key(|&(from, to)| (to, from));
    assert_eq!(attributes, sorted_objects);
    assert_eq!(attributes, vec![(0, 1), (0, 3), (1, 3)]);
}

#[test]
fn discrete_classes_give_the_discrete_congruence_order() {
    let diamond = || CongOrder::from_edges(vec![0u8, 1, 2, 3], &[(0, 1), (0, 2), (1, 3), (2, 3)]);
    let discrete = CongPoset::discrete_from_poset(diamond());
    let poset = diamond();
    let mut classes = Vec::new();
    for a in 0..4 {
        for b in 0..4 {
            if poset.leq(a, b) {
                classes.push(((a, b), vec![(a, b)]));
            }
        }
    }
    let listed = CongPoset::from_poset(diamond(), classes);
    for a in 0..4 {
        for b in 0..4 {
            assert_eq!(discrete.preceq(a, b), listed.preceq(a, b));
            assert_eq!(listed.preceq(a, b), poset.leq(a, b));
        }
    }
}

#[test]
fn error_messages_write_numbers_in_decimal() {
    assert_eq!(
        GLatticeError::WrongPermutationLength { generator: 0, expected: 4, actual: 3 }.message(),
        "generator image 0 has length 3, expected 4"
    );
    assert_eq!(
        PosetError::EdgeOutOfBounds { edge: Edge::new(120, 7), len: 10 }.message(),
        "edge 120 <= 7 is out of bounds for a poset with 10 elements"
    );
    assert_eq!(
        LatticeError::NotALattice { left: 1, right: 2 }.message(),
        "elements 1 and 2 do not have both meet and join"
    );
    assert_eq!(
        GLatticeError::NotALatticeAutomorphism {
            generator: 12,
            source: LatticeMapError::DoesNotPreserveTop { expected: 3, actual: 0 },
        }
        .message(),
        "generator image 12 is not a lattice automorphism: map sends top to 0, expected 3"
    );
    assert_eq!(
        GLatticeError::Lattice(LatticeError::Poset(PosetError::MissingReflexiveEdge { element: 5 })).message(),
        "relation is missing reflexive edge 5 <= 5"
    );
}

#[test]
fn opposite_universe_reverses_every_orbit() {
    let diamond = Arc::new(
        Lattice::new(
            Poset::from_edges(
                vec!["0", "a", "b", "1"],
                vec![Edge::new(0, 1), Edge::new(0, 2), Edge::new(1, 3), Edge::new(2, 3)],
            )
            .unwrap(),
        )
        .unwrap(),
    );
    let g_lattice = GLattice::from_generator_images(diamond, vec![vec![0, 2, 1, 3]]).unwrap();
    let universe = g_lattice.transfer_universe();
    let opposite = universe.opposite();
    assert_eq!(opposite.relation_orbit_labels().len(), universe.relation_orbit_labels().len());
    for id in 0..universe.relation_orbit_labels().len() {
        let mut forward: Vec<(usize, usize)> =
            universe.relation_orbit_relations(id).unwrap().iter().map(|e| (e.to, e.from)).collect();
        let backward: Vec<(usize, usize)> =
            opposite.relation_orbit_relations(id).unwrap().iter().map(|e| (e.from, e.to)).collect();
        let lead = backward[0];
        assert!(forward.iter().all(|&pair| lead <= pair));
        forward.sort();
        let mut sorted_backward = backward.clone();
        sorted_backward.sort();
        assert_eq!(forward, sorted_backward);
        assert_eq!(
            opposite.relation_orbit_labels()[id].orbit_id(),
            universe.relation_orbit_labels()[id].orbit_id()
        );
    }
    assert!(opposite.lattice().leq(3, 0));
    assert!(!opposite.lattice().leq(0, 3));
}

#[test]
fn lattice_from_poset_uses_the_posets_meets_and_joins() {
    use_lattice_tables();
}

fn use_lattice_tables() {
    let diamond = || CongOrder::from_edges(vec![0u8, 1, 2, 3], &[(0, 1), (0, 2), (1, 3), (2, 3)]);
    let lattice = hccr_verified::cong_lattice::Lattice::from_poset(diamond());
    let poset = diamond();
    for a in 0..4 {
        for b in 0..4 {
            assert_eq!(Some(hccr_verified::cong_lattice::IsLattice::meet(&lattice, a, b)), poset.maybe_meet(a, b));
            assert_eq!(Some(hccr_verified::cong_lattice::IsLattice::join(&lattice, a, b)), poset.maybe_join(a, b));
        }
    }
}
