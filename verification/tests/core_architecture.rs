use hccr_verified::lattice::Lattice;
use hccr_verified::poset::{self, compose, composition_closed, Edge, EdgeSet, Poset};
use std::sync::Arc;

/// Checks that the meet and join tables of a lattice agree with the
/// independent `Poset::meet` and `Poset::join` searches for every pair.
fn check_meets_and_joins_agree<A: Clone + std::fmt::Debug>(poset: Poset<A>) {
    let lattice = Lattice::new(poset).expect("expected a valid lattice");
    let poset = lattice.as_poset();
    for i in 0..poset.size() {
        for j in 0..poset.size() {
            let expected_meet = poset.meet(i, j).expect("should have meet");
            let expected_join = poset.join(i, j).expect("should have join");
            assert_eq!(lattice.meet_id(i, j), expected_meet, "meet({i}, {j})");
            assert_eq!(lattice.join_id(i, j), expected_join, "join({i}, {j})");
        }
    }
}

#[test]
fn lattice_meet_join_agree_with_poset_methods() {
    // Single element.
    check_meets_and_joins_agree(Poset::from_edges(vec![0i32], vec![]).unwrap());

    // Chain: 0 <= 1 <= 2 <= 3.
    check_meets_and_joins_agree(
        Poset::from_edges(
            vec![0i32, 1, 2, 3],
            vec![Edge::new(0, 1), Edge::new(1, 2), Edge::new(2, 3)],
        )
        .unwrap(),
    );

    // Boolean lattice B2: bottom <= a, b <= top.
    check_meets_and_joins_agree(
        Poset::from_edges(
            vec![0i32, 1, 2, 3],
            vec![
                Edge::new(0, 1),
                Edge::new(0, 2),
                Edge::new(1, 3),
                Edge::new(2, 3),
            ],
        )
        .unwrap(),
    );

    // M3: bottom <= a, b, c <= top.
    check_meets_and_joins_agree(
        Poset::from_edges(
            vec![0i32, 1, 2, 3, 4],
            vec![
                Edge::new(0, 1),
                Edge::new(0, 2),
                Edge::new(0, 3),
                Edge::new(1, 4),
                Edge::new(2, 4),
                Edge::new(3, 4),
            ],
        )
        .unwrap(),
    );

    // N5 (pentagon): 0 < a < c < 1, 0 < b < 1, with a and b incomparable.
    check_meets_and_joins_agree(
        Poset::from_edges(
            vec![0i32, 1, 2, 3, 4],
            vec![
                Edge::new(0, 1),
                Edge::new(1, 3),
                Edge::new(3, 4),
                Edge::new(0, 2),
                Edge::new(2, 4),
            ],
        )
        .unwrap(),
    );
}

#[test]
fn non_lattice_poset_is_rejected() {
    // a < c, a < d, b < c, b < d with c and d incomparable: a and b have
    // two minimal upper bounds and no least one.
    let poset = Poset::from_edges(
        vec![0i32, 1, 2, 3],
        vec![
            Edge::new(0, 2),
            Edge::new(0, 3),
            Edge::new(1, 2),
            Edge::new(1, 3),
        ],
    )
    .unwrap();
    assert!(Lattice::new(poset).is_err());
}

#[test]
fn poset_product_and_disjoint_union_constructors_work() {
    let left = Arc::new(Poset::chain(1).unwrap());
    let right = Arc::new(Poset::chain(2).unwrap());

    let product = poset::product(Arc::clone(&left), Arc::clone(&right)).unwrap();
    assert_eq!(product.poset.size(), 6);
    for source in 0..product.poset.size() {
        for target in 0..product.poset.size() {
            let &(source_left, source_right) = product.poset.element(source).unwrap();
            let &(target_left, target_right) = product.poset.element(target).unwrap();
            assert_eq!(
                product.poset.leq(source, target),
                left.leq(source_left, target_left) && right.leq(source_right, target_right),
            );
        }
    }
    assert_eq!(product.left_projection.map(), &[0, 0, 0, 1, 1, 1]);
    assert_eq!(product.right_projection.map(), &[0, 1, 2, 0, 1, 2]);

    let coproduct = poset::disjoint_union(Arc::clone(&left), Arc::clone(&right)).unwrap();
    assert_eq!(coproduct.poset.size(), 5);
    assert!(coproduct.poset.leq(0, 1));
    assert!(coproduct.poset.leq(2, 4));
    assert!(!coproduct.poset.leq(0, 2));
    assert!(!coproduct.poset.leq(2, 0));
    assert_eq!(coproduct.left.map(), &[0, 1]);
    assert_eq!(coproduct.right.map(), &[2, 3, 4]);
}

fn lifting_condition(poset: &Poset<usize>, left: Edge, right: Edge) -> bool {
    !poset.leq(left.from, right.from)
        || !poset.leq(left.to, right.to)
        || poset.leq(left.to, right.from)
}

/// Checks the lifting classes against their defining conditions for every
/// class of arrows in several small posets.
#[test]
fn lifting_classes_satisfy_their_defining_conditions() {
    let posets = [
        Poset::chain(2).unwrap(),
        Poset::from_edges(
            (0..4).collect(),
            vec![
                Edge::new(0, 1),
                Edge::new(0, 2),
                Edge::new(1, 3),
                Edge::new(2, 3),
            ],
        )
        .unwrap(),
    ];

    for poset in posets {
        let relations = poset.all_relations_iter();
        for class_bits in 0usize..(1usize << relations.len()) {
            let arrows = EdgeSet::from_vec(
                relations
                    .iter()
                    .copied()
                    .enumerate()
                    .filter(|&(id, _)| (class_bits >> id) & 1 == 1)
                    .map(|(_, edge)| edge)
                    .collect(),
            );

            let expected_left = EdgeSet::from_vec(
                relations
                    .iter()
                    .copied()
                    .filter(|&left| {
                        arrows
                            .as_slice()
                            .iter()
                            .all(|&right| lifting_condition(&poset, left, right))
                    })
                    .collect(),
            );
            let expected_right = EdgeSet::from_vec(
                relations
                    .iter()
                    .copied()
                    .filter(|&right| {
                        arrows
                            .as_slice()
                            .iter()
                            .all(|&left| lifting_condition(&poset, left, right))
                    })
                    .collect(),
            );

            assert_eq!(poset.llc(&arrows), expected_left);
            assert_eq!(poset.rlc(&arrows), expected_right);
        }
    }
}

/// Checks composition against its definition for every class of arrows on
/// three objects.  Closure is equivalent to containing every composite.
#[test]
fn relation_composition_and_closure_satisfy_their_definitions() {
    let relations = (0..3)
        .flat_map(|from| (0..3).map(move |to| Edge::new(from, to)))
        .collect::<Vec<_>>();

    for class_bits in 0usize..(1usize << relations.len()) {
        let class = EdgeSet::from_vec(
            relations
                .iter()
                .copied()
                .enumerate()
                .filter(|&(id, _)| (class_bits >> id) & 1 == 1)
                .map(|(_, edge)| edge)
                .collect(),
        );
        let mut composites = Vec::new();
        for edge1 in class.as_slice() {
            for edge2 in class.as_slice() {
                if edge2.to == edge1.from {
                    composites.push(Edge::new(edge2.from, edge1.to));
                }
            }
        }
        let expected = EdgeSet::from_vec(composites);

        assert_eq!(compose(&class, &class), expected);
        assert_eq!(composition_closed(&class), expected.is_subset(&class));
    }
}
