use hccr_verified::g_cotransfer_lattice::{GCotransferSystem, GCotransferSystemError, GCotransferUniverse};
use hccr_verified::g_lattice::GLattice;
use hccr_verified::lattice::Lattice;
use hccr_verified::poset::{Edge, Poset};
use std::sync::Arc;

fn diamond() -> Arc<Lattice<&'static str>> {
    Arc::new(
        Lattice::new(
            Poset::from_edges(
                vec!["bottom", "left", "right", "top"],
                vec![Edge::new(0, 1), Edge::new(0, 2), Edge::new(1, 3), Edge::new(2, 3)],
            )
            .unwrap(),
        )
        .unwrap(),
    )
}

fn assert_cotransfer_axioms<A>(system: &GCotransferSystem<A>) {
    let lattice = system.lattice();
    let arrows = system.relations(true);
    for &first in arrows.as_slice() {
        for &second in arrows.as_slice() {
            if first.to == second.from {
                assert!(arrows.contains(&Edge::new(first.from, second.to)));
            }
        }
    }
    for &edge in arrows.as_slice() {
        for z in 0..lattice.size() {
            if lattice.leq(edge.from, z) {
                assert!(arrows.contains(&Edge::new(z, lattice.join_id(edge.to, z))));
            }
        }
    }
}

#[test]
fn g_cotransfers_are_exactly_invariant_cotransfers_and_form_a_containment_lattice() {
    let g_lattice = GLattice::from_generator_images(diamond(), vec![vec![0, 2, 1, 3]]).unwrap();
    let universe = g_lattice.cotransfer_universe();
    let systems = universe.cotransfer_systems();
    let containment = universe.containment_lattice().unwrap();
    assert_eq!(containment.size(), systems.len());
    assert_eq!(systems.len(), g_lattice.transfer_universe().transfer_systems().len());
    for system in &systems {
        assert_cotransfer_axioms(system);
        assert_eq!(system.relations(false), system.underlying_cotransfer_system().edges(false));
        for relation in system.relations(false).as_slice() {
            let orbit = g_lattice.relation_orbit(*relation).unwrap();
            assert!(orbit.relations().iter().all(|&translate| system.contains_relation(translate)));
        }
        let opposite = system.opposite_transfer_system();
        assert!(universe.opposite_transfer_universe().try_from_raw(opposite.raw().clone()).is_ok());
        for relation in system.relations(true).as_slice() {
            assert!(opposite.contains_relation(Edge::new(relation.to, relation.from)));
        }
        let back = universe.from_opposite_transfer_system(&opposite).unwrap();
        assert_eq!(back.raw().orbit_arrows(), system.raw().orbit_arrows());
    }
    for opposite in universe.opposite_transfer_universe().transfer_systems() {
        let cotransfer = universe.from_opposite_transfer_system(&opposite).unwrap();
        assert_eq!(cotransfer.opposite_transfer_system().raw(), opposite.raw());
    }
}

#[test]
fn opposite_isomorphism_agrees_on_a_non_self_dual_presentation() {
    let n5 = Arc::new(
        Lattice::new(
            Poset::from_edges(
                (0..5).collect(),
                vec![Edge::new(0, 1), Edge::new(1, 3), Edge::new(3, 4), Edge::new(0, 2), Edge::new(2, 4)],
            )
            .unwrap(),
        )
        .unwrap(),
    );
    let g_lattice = GLattice::from_generator_images(n5, vec![]).unwrap();
    let universe = g_lattice.cotransfer_universe();
    let cotransfers = universe.cotransfer_systems();
    let opposite_transfers = universe.opposite_transfer_universe().transfer_systems();
    assert_eq!(cotransfers.len(), opposite_transfers.len());
    for cotransfer in &cotransfers {
        assert!(universe
            .opposite_transfer_universe()
            .try_from_raw(cotransfer.opposite_transfer_system().raw().clone())
            .is_ok());
    }
    for opposite in opposite_transfers {
        let cotransfer = universe.from_opposite_transfer_system(&opposite).unwrap();
        assert_eq!(cotransfer.opposite_transfer_system().raw(), opposite.raw());
    }
}

#[test]
fn equivariant_lifting_classes_are_mutually_inverse_and_reverse_containment() {
    let g_lattice = GLattice::from_generator_images(diamond(), vec![vec![0, 2, 1, 3]]).unwrap();
    let transfer_universe = g_lattice.transfer_universe();
    let cotransfer_universe = Arc::new(GCotransferUniverse::new(Arc::clone(&transfer_universe)));
    let transfers = transfer_universe.transfer_systems();

    for right in &transfers {
        let left = cotransfer_universe.left_lifting_of(right).unwrap();
        assert_eq!(left.right_lifting_transfer().unwrap().raw(), right.raw());
    }
    for left in cotransfer_universe.cotransfer_systems() {
        let right = left.right_lifting_transfer().unwrap();
        assert_eq!(cotransfer_universe.left_lifting_of(&right).unwrap().raw().orbit_arrows(), left.raw().orbit_arrows());
    }
    for lower in &transfers {
        for upper in &transfers {
            let lower_set = lower.relations(false);
            let upper_set = upper.relations(false);
            if lower_set.as_slice().iter().all(|edge| upper_set.contains(edge)) {
                let lower_left = cotransfer_universe.left_lifting_of(lower).unwrap().relations(false);
                let upper_left = cotransfer_universe.left_lifting_of(upper).unwrap().relations(false);
                assert!(upper_left.as_slice().iter().all(|edge| lower_left.contains(edge)));
            }
        }
    }
}

#[test]
fn g_cotransfer_generation_reports_bad_generators() {
    let g_lattice = GLattice::from_generator_images(diamond(), vec![vec![0, 2, 1, 3]]).unwrap();
    let universe = g_lattice.cotransfer_universe();
    let generated = universe.generated_by(vec![Edge::new(0, 1)]).unwrap();
    assert!(generated.contains_relation(Edge::new(0, 2)));
    assert!(generated.contains_relation(Edge::new(2, 3)));
    assert!(generated.contains_relation(Edge::new(0, 3)));
    assert!(matches!(
        universe.generated_by(vec![Edge::new(0, 1), Edge::new(0, 9)]),
        Err(GCotransferSystemError::EdgeOutOfBounds { edge, lattice_size: 4 }) if edge == Edge::new(0, 9)
    ));
    assert!(matches!(
        universe.generated_by(vec![Edge::new(3, 0)]),
        Err(GCotransferSystemError::NotLatticeRelation { edge }) if edge == Edge::new(3, 0)
    ));
    let other = GLattice::from_generator_images(diamond(), vec![vec![0, 2, 1, 3]]).unwrap();
    let foreign = other.transfer_universe().transfer_systems().remove(0);
    assert!(matches!(universe.left_lifting_of(&foreign), Err(GCotransferSystemError::UniverseMismatch)));
}

#[test]
fn g_cotransfer_containment_lattice_lists_every_system() {
    let g_lattice = GLattice::from_generator_images(diamond(), vec![vec![0, 2, 1, 3]]).unwrap();
    let universe = g_lattice.cotransfer_universe();
    let systems = universe.cotransfer_systems();
    let containment = universe.containment_lattice().unwrap();
    assert_eq!(containment.size(), systems.len());
    let via_lattice = g_lattice.cotransfer_systems_containment().unwrap();
    assert_eq!(via_lattice.size(), systems.len());
    let listed = containment.systems();
    for (id, system) in listed.iter().enumerate() {
        assert_cotransfer_axioms(system);
        for other in 0..listed.len() {
            let other_set = listed[other].relations(true);
            let contained = system.relations(true).as_slice().iter().all(|edge| other_set.contains(edge));
            assert_eq!(containment.as_poset().leq(id, other), contained);
        }
    }
    let bottom = containment.system(containment.bottom()).unwrap();
    assert_eq!(bottom.relations(false).as_slice().len(), 0);
    let top = containment.system(containment.top()).unwrap();
    assert!(top.contains_relation(Edge::new(0, 3)));
}

#[test]
fn g_cotransfer_errors_describe_themselves() {
    assert_eq!(
        GCotransferSystemError::WrongOrbitCount { expected: 3, actual: 12 }.message(),
        "raw G-cotransfer system has 12 relation-orbit bits, expected 3"
    );
    assert_eq!(
        GCotransferSystemError::NotLatticeRelation { edge: Edge::new(3, 0) }.message(),
        "generator 3 <= 0 is not a relation in the lattice order"
    );
}

#[test]
fn g_cotransfer_context_labels_orbits_by_their_representatives() {
    let g_lattice = GLattice::from_generator_images(diamond(), vec![vec![0, 2, 1, 3]]).unwrap();
    let universe = g_lattice.cotransfer_universe();
    let context = universe.context();
    let count = universe.relation_orbit_labels().len();
    assert_eq!(context.objects.len(), count);
    assert_eq!(context.attributes.len(), count);
    for id in 0..count {
        let leading = universe.relation_orbit_relations(id).unwrap()[0];
        assert_eq!(context.objects[id], leading);
        assert_eq!(context.attributes[id], leading);
    }
}
