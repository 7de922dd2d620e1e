use hccr_verified::cotransfer_lattice::{
    opposite_lattice, CotransferSystem, CotransferSystemError, CotransferUniverse,
};
use hccr_verified::lattice::Lattice;
use hccr_verified::poset::{Edge, EdgeSet, Poset};
use hccr_verified::transfer_lattice::TransferSystem;
use std::sync::Arc;

fn representative_lattices() -> Vec<Arc<Lattice<usize>>> {
    vec![
        Arc::new(Lattice::chain(0).unwrap()),
        Arc::new(Lattice::chain(3).unwrap()),
        Arc::new(Lattice::boolean(2).unwrap()),
        Arc::new(
            Lattice::new(
                Poset::from_edges(
                    (0..5).collect(),
                    vec![
                        Edge::new(0, 1),
                        Edge::new(1, 3),
                        Edge::new(3, 4),
                        Edge::new(0, 2),
                        Edge::new(2, 4),
                    ],
                )
                .unwrap(),
            )
            .unwrap(),
        ),
    ]
}

/// The same cotransfer system of the same universe.
fn same_cotransfer<A>(left: &CotransferSystem<A>, right: &CotransferSystem<A>) -> bool {
    left.raw() == right.raw() && Arc::ptr_eq(left.universe(), right.universe())
}

/// The same transfer system of the same universe.
fn same_transfer<A>(left: &TransferSystem<A>, right: &TransferSystem<A>) -> bool {
    left.raw() == right.raw() && Arc::ptr_eq(left.universe(), right.universe())
}

fn assert_cotransfer_axioms<A>(system: &CotransferSystem<A>) {
    let lattice = system.lattice();
    let arrows = system.edges(true);

    for &first in arrows.as_slice() {
        for &second in arrows.as_slice() {
            if first.to == second.from {
                assert!(
                    arrows.contains(&Edge::new(first.from, second.to)),
                    "cotransfer system was not transitive"
                );
            }
        }
    }

    for &edge in arrows.as_slice() {
        for z in 0..lattice.size() {
            if lattice.leq(edge.from, z) {
                assert!(
                    arrows.contains(&Edge::new(z, lattice.join_id(edge.to, z))),
                    "cotransfer system was not closed under pushout"
                );
            }
        }
    }
}

#[test]
fn cotransfer_generation_enumeration_and_opposite_conversion_obey_their_laws() {
    for lattice in representative_lattices() {
        let universe = Arc::clone(&lattice).cotransfer_universe();
        let systems = universe.cotransfer_systems();
        let containment = universe.containment_lattice().unwrap();
        let opposite_count = universe
            .opposite_transfer_universe()
            .transfer_systems()
            .len();

        assert_eq!(systems.len(), opposite_count);
        assert_eq!(containment.size(), systems.len());
        for system in systems {
            assert_cotransfer_axioms(&system);

            let opposite = system.opposite_transfer_system();
            for edge in system.edges(true).as_slice() {
                assert!(opposite.contains_relation(Edge::new(edge.to, edge.from)));
            }
            let round_trip = universe.from_opposite_transfer_system(&opposite).unwrap();
            assert!(same_cotransfer(&round_trip, &system));
        }
    }
}

#[test]
fn lifting_classes_give_an_order_reversing_bijection() {
    for lattice in representative_lattices() {
        let transfer_universe = Arc::clone(&lattice).transfer_universe();
        let cotransfer_universe = Arc::new(CotransferUniverse::from_transfer_universe(
            Arc::clone(&transfer_universe),
        ));
        let transfers = transfer_universe.transfer_systems();

        for right in &transfers {
            let left = cotransfer_universe.left_lifting_of(right).unwrap();
            assert!(same_transfer(&left.right_lifting_transfer().unwrap(), right));
        }

        for left in cotransfer_universe.cotransfer_systems() {
            let right = left.right_lifting_transfer().unwrap();
            assert!(same_cotransfer(
                &cotransfer_universe.left_lifting_of(&right).unwrap(),
                &left
            ));
        }

        for lower in &transfers {
            for upper in &transfers {
                if lower.edges(false).is_subset(&upper.edges(false)) {
                    let lower_left = cotransfer_universe.left_lifting_of(lower).unwrap();
                    let upper_left = cotransfer_universe.left_lifting_of(upper).unwrap();
                    assert!(upper_left.edges(false).is_subset(&lower_left.edges(false)));
                }
            }
        }
    }
}

#[test]
fn generated_cotransfer_system_is_the_least_pushout_closed_system() {
    let lattice = Arc::new(Lattice::chain(2).unwrap());
    let generated = lattice
        .cotransfer_universe()
        .generated_by(vec![Edge::new(0, 2)])
        .unwrap();
    assert_eq!(
        generated.edges(false),
        EdgeSet::from_vec(vec![Edge::new(0, 2), Edge::new(1, 2)])
    );
}

#[test]
fn opposite_lattice_interchanges_meets_and_joins() {
    for lattice in representative_lattices() {
        let opposite = opposite_lattice(lattice.as_ref());
        for left in 0..lattice.size() {
            for right in 0..lattice.size() {
                assert_eq!(opposite.meet_id(left, right), lattice.join_id(left, right));
                assert_eq!(opposite.join_id(left, right), lattice.meet_id(left, right));
                assert_eq!(opposite.leq(left, right), lattice.leq(right, left));
            }
        }
    }
}

#[test]
fn cotransfer_generators_are_validated_in_order() {
    let universe = Arc::new(Lattice::chain(2).unwrap()).cotransfer_universe();
    assert_eq!(
        universe
            .generated_by(vec![Edge::new(0, 1), Edge::new(0, 7), Edge::new(2, 0)])
            .unwrap_err(),
        CotransferSystemError::EdgeOutOfBounds {
            edge: Edge::new(0, 7),
            lattice_size: 3
        }
    );
    assert_eq!(
        universe
            .generated_by(vec![Edge::new(2, 0)])
            .unwrap_err(),
        CotransferSystemError::NotLatticeRelation {
            edge: Edge::new(2, 0)
        }
    );
}

#[test]
fn chains_have_catalan_many_cotransfer_systems() {
    for (top, expected) in [(0usize, 1usize), (1, 2), (2, 5), (3, 14)] {
        let universe = Arc::new(Lattice::chain(top).unwrap()).cotransfer_universe();
        assert_eq!(universe.cotransfer_systems().len(), expected);
    }
}
