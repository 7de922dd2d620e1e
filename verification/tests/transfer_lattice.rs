use hccr_verified::lattice::{horizontal_join, Lattice};
use hccr_verified::poset::{Edge, EdgeSet};
use std::sync::Arc;

fn edge_set(pairs: &[(usize, usize)]) -> EdgeSet {
    EdgeSet::from_vec(pairs.iter().map(|&(from, to)| Edge::new(from, to)).collect())
}

#[test]
fn generated_transfer_system_has_restriction_closure() {
    let lattice = Arc::new(Lattice::chain(2).expect("the finite chain is a lattice"));
    let universe = lattice.transfer_universe();

    let generated = universe
        .generated_by(vec![Edge::new(0, 2), Edge::new(1, 1), Edge::new(0, 2)])
        .expect("all generators are lattice relations");
    assert_eq!(generated.edges(false), edge_set(&[(0, 1), (0, 2)]));
}

#[test]
fn composition_order_enforces_the_factorization_condition() {
    let lattice = Arc::new(Lattice::chain(2).expect("the finite chain is a lattice"));
    let universe = lattice.transfer_universe();
    let left = universe
        .generated_by(vec![Edge::new(0, 1)])
        .expect("the generator is a lattice relation");
    let right = universe
        .generated_by(vec![Edge::new(0, 1), Edge::new(0, 2)])
        .expect("the generators are lattice relations");

    // In the composition-closed order, `left <= right` holds exactly when
    // the factorization condition holds for the pair.
    let order = universe.composition_closed_order().unwrap();
    let id_of = |raw| {
        order
            .raw_poset()
            .elements()
            .iter()
            .position(|candidate| candidate == raw)
            .unwrap()
    };
    let left_id = id_of(left.raw());
    let right_id = id_of(right.raw());
    assert!(!order.raw_poset().leq(left_id, right_id));
    assert!(order.raw_poset().leq(left_id, left_id));
}

#[test]
fn boolean_lattice_of_rank_two_has_ten_transfer_systems() {
    let lattice = Arc::new(Lattice::boolean(2).unwrap());
    let universe = lattice.transfer_universe();
    assert_eq!(universe.transfer_systems().len(), 10);
    let containment = universe.containment_lattice().unwrap();
    assert_eq!(containment.size(), 10);
}

#[test]
fn chains_have_catalan_many_transfer_systems() {
    for (top, expected) in [(0usize, 1usize), (1, 2), (2, 5), (3, 14)] {
        let lattice = Arc::new(Lattice::chain(top).unwrap());
        assert_eq!(lattice.transfer_universe().transfer_systems().len(), expected);
    }
}

#[test]
fn composition_closed_orders_on_three_chain_joins_are_lattices() {
    for a in 1..=3 {
        for b in a..=3 {
            for c in b..=3 {
                let ab = horizontal_join(
                    Arc::new(Lattice::chain(a).unwrap()),
                    Arc::new(Lattice::chain(b).unwrap()),
                )
                .unwrap();
                let abc = horizontal_join(ab.lattice, Arc::new(Lattice::chain(c).unwrap()))
                    .unwrap()
                    .lattice;
                let composition = Arc::clone(&abc)
                    .transfer_systems_composition_closed()
                    .unwrap();

                assert!(
                    composition.raw_poset().is_lattice(),
                    "CC([{}]*[{}]*[{}]) should be a lattice",
                    a,
                    b,
                    c
                );
            }
        }
    }
}

#[test]
fn composition_closed_orders_on_non_chain_joins_are_not_lattices() {
    let product = Lattice::product(
        Arc::new(Lattice::chain(1).unwrap()),
        Arc::new(Lattice::chain(2).unwrap()),
    )
    .unwrap()
    .lattice
    .relabelled(|element| format!("{element:?}"));

    for (name, lattice) in [
        (
            "B3",
            Lattice::boolean(3)
                .unwrap()
                .relabelled(|element| format!("{element:b}")),
        ),
        ("[1] x [2]", product),
    ] {
        assert!(
            !lattice.is_fusion_of_total_orders(),
            "{name} should not be a horizontal join of chains"
        );

        let lattice = Arc::new(lattice);
        let composition = Arc::clone(&lattice)
            .transfer_systems_composition_closed()
            .unwrap();

        assert!(
            !composition.raw_poset().is_lattice(),
            "CC({name}) should not be a lattice"
        );
    }
}
