use hccr_verified::group_notation::structure_description_to_tex;
use hccr_verified::permutation_action::{
    orbit_points, point_orbit_ids, validate_permutation, GapSubgroup, GroupTheoryError,
};

#[test]
fn structure_descriptions_become_tex() {
    assert_eq!(structure_description_to_tex("C2 x C2"), "$C_{2} \\times C_{2}$");
    assert_eq!(structure_description_to_tex("S3"), "$S_{3}$");
    assert_eq!(structure_description_to_tex("(C3 x C3) : C4"), "$(C_{3} \\times C_{3}) \\rtimes C_{4}$");
    assert_eq!(structure_description_to_tex("O+(4,2)"), "$O^{+}(4,2)$");
    assert_eq!(structure_description_to_tex("2^3"), "$2^{3}$");
    assert_eq!(structure_description_to_tex("3.A6"), "$3\\cdotA_{6}$");
    assert_eq!(structure_description_to_tex("2A5"), "${}^{2}A_{5}$");
    assert_eq!(structure_description_to_tex("PSL(2,7)"), "$PSL(2,7)$");
    assert_eq!(structure_description_to_tex("C2'"), "$C_{2}^{\\prime}$");
    assert_eq!(structure_description_to_tex("xy"), "$xy$");
    assert_eq!(structure_description_to_tex("a_b&c%d#e$f{g}h\\"), "$a\\_b\\&c\\%d\\#e\\$f\\{g\\}h\\textbackslash{}$");
    assert_eq!(structure_description_to_tex(""), "$$");
}

#[test]
fn permutations_are_validated_with_the_first_failure() {
    assert_eq!(validate_permutation(0, 3, &[2, 0, 1]), Ok(()));
    assert_eq!(validate_permutation(0, 0, &[]), Ok(()));
    assert_eq!(
        validate_permutation(4, 3, &[0, 1]),
        Err(GroupTheoryError::WrongPermutationLength { generator: 4, expected: 3, actual: 2 })
    );
    assert_eq!(
        validate_permutation(1, 3, &[0, 3, 3]),
        Err(GroupTheoryError::PermutationImageOutOfBounds { generator: 1, element: 1, image: 3, len: 3 })
    );
    assert_eq!(
        validate_permutation(2, 3, &[1, 2, 1]),
        Err(GroupTheoryError::DuplicatePermutationImage {
            generator: 2,
            first_element: 0,
            second_element: 2,
            image: 1,
        })
    );
}

#[test]
fn orbits_are_numbered_by_their_least_points() {
    // One generator swapping 1 and 3, another cycling 0, 2, 4.
    let generators = vec![vec![0, 3, 2, 1, 4], vec![2, 1, 4, 3, 0]];
    let labels = point_orbit_ids(5, &generators);
    assert_eq!(labels, vec![0, 1, 0, 1, 0]);
    let orbits = orbit_points(&labels);
    assert_eq!(orbits, vec![vec![0, 2, 4], vec![1, 3]]);

    assert_eq!(point_orbit_ids(3, &vec![]), vec![0, 1, 2]);
    assert_eq!(point_orbit_ids(0, &vec![]), Vec::<usize>::new());
}

#[test]
fn subgroup_labels_count_from_zero_and_from_one() {
    let label = GapSubgroup::new(2, 5);
    assert_eq!(label.conjugacy_class(), 2);
    assert_eq!(label.class_element(), 5);
    assert_eq!(label.gap_conjugacy_class(), 3);
    assert_eq!(label.gap_class_element(), 6);
}
