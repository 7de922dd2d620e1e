use hccr_verified::poset::Edge;
use hccr_verified::tikz::geometry::{
    straight_geometry_contribution, straight_geometry_defects, GridPoint, StraightGeometryDefects,
};
use hccr_verified::tikz::glyph::{glyph_edge_plan, selected_cover_relations};
use hccr_verified::tikz::layered::{LayeredCoverGraph, OrderingScore};
use hccr_verified::tikz::layout::{doubled_centered_slot, id_order_grid_points, ranked_layout_is_better};
use hccr_verified::tikz::vertical::vertical_levels;

fn clean() -> StraightGeometryDefects {
    StraightGeometryDefects { proper_crossings: 0, node_intersections: 0, collinear_overlaps: 0 }
}

#[test]
fn local_geometry_delta_matches_full_rescoring() {
    let edges = [
        Edge::new(0, 1),
        Edge::new(0, 2),
        Edge::new(1, 5),
        Edge::new(2, 3),
        Edge::new(3, 4),
        Edge::new(3, 5),
    ];
    let points = [
        GridPoint { x: 0, y: 0 },
        GridPoint { x: -1, y: 3 },
        GridPoint { x: -1, y: 2 },
        GridPoint { x: -1, y: 4 },
        GridPoint { x: -1, y: 6 },
        GridPoint { x: 1, y: 6 },
    ];
    let full_before = straight_geometry_defects(&edges, &points);

    for moved in 0..points.len() {
        for delta in [-2, 2] {
            let old_contribution = straight_geometry_contribution(&edges, &points, &[moved]);
            let mut changed = points;
            changed[moved].x += delta;
            let new_contribution = straight_geometry_contribution(&edges, &changed, &[moved]);
            assert_eq!(
                full_before.replace_contribution(old_contribution, new_contribution),
                straight_geometry_defects(&edges, &changed)
            );
        }
    }

    for left in 0..points.len() {
        for right in left + 1..points.len() {
            let moved = [left, right];
            let old_contribution = straight_geometry_contribution(&edges, &points, &moved);
            let mut changed = points;
            let (left_points, right_points) = changed.split_at_mut(right);
            std::mem::swap(&mut left_points[left].x, &mut right_points[0].x);
            let new_contribution = straight_geometry_contribution(&edges, &changed, &moved);
            assert_eq!(
                full_before.replace_contribution(old_contribution, new_contribution),
                straight_geometry_defects(&edges, &changed)
            );
        }
    }
}

#[test]
fn straight_geometry_counts_each_kind_of_defect() {
    // Two segments crossing in an X.
    let crossing = [Edge::new(0, 3), Edge::new(1, 2)];
    let points = [
        GridPoint { x: 0, y: 0 },
        GridPoint { x: 2, y: 0 },
        GridPoint { x: 0, y: 2 },
        GridPoint { x: 2, y: 2 },
    ];
    assert_eq!(
        straight_geometry_defects(&crossing, &points),
        StraightGeometryDefects { proper_crossings: 1, node_intersections: 0, collinear_overlaps: 0 }
    );
    // A segment through an unrelated node.
    let through = [Edge::new(0, 2)];
    let line = [GridPoint { x: 0, y: 0 }, GridPoint { x: 0, y: 1 }, GridPoint { x: 0, y: 2 }];
    assert_eq!(
        straight_geometry_defects(&through, &line),
        StraightGeometryDefects { proper_crossings: 0, node_intersections: 1, collinear_overlaps: 0 }
    );
    // Two overlapping collinear segments without a common endpoint.
    let overlapping = [Edge::new(0, 2), Edge::new(1, 3)];
    let row = [
        GridPoint { x: 0, y: 0 },
        GridPoint { x: 0, y: 1 },
        GridPoint { x: 0, y: 2 },
        GridPoint { x: 0, y: 3 },
    ];
    assert_eq!(
        straight_geometry_defects(&overlapping, &row),
        StraightGeometryDefects { proper_crossings: 0, node_intersections: 2, collinear_overlaps: 1 }
    );
}

#[test]
fn centered_levels_give_n5_five_distinct_heights() {
    let covers = [
        Edge::new(0, 1),
        Edge::new(1, 3),
        Edge::new(3, 4),
        Edge::new(0, 2),
        Edge::new(2, 4),
    ];
    let levels = vertical_levels(5, &covers);
    assert_eq!(levels.earliest, vec![0, 1, 1, 2, 3]);
    assert_eq!(levels.centered, vec![0, 2, 3, 4, 6]);
}

#[test]
fn vertical_levels_of_an_antichain_are_zero() {
    let levels = vertical_levels(3, &[]);
    assert_eq!(levels.earliest, vec![0, 0, 0]);
    assert_eq!(levels.centered, vec![0, 0, 0]);
}

#[test]
fn layered_graph_subdivides_long_covers() {
    // In N5 at centered levels the cover 0 < b spans levels 0..3 and b < 1
    // spans 3..6, so four temporary vertices are added, and 0 < a and c < 1
    // need one each.
    let covers = [
        Edge::new(0, 1),
        Edge::new(1, 3),
        Edge::new(3, 4),
        Edge::new(0, 2),
        Edge::new(2, 4),
    ];
    let graph = LayeredCoverGraph::new(&[0, 2, 3, 4, 6], &covers);
    assert_eq!(graph.real_count(), 5);
    assert_eq!(graph.layer_count(), 7);
    assert_eq!(graph.layer(0), vec![0]);
    assert_eq!(graph.layer(6), vec![4]);
    let total: usize = (0..graph.layer_count()).map(|level| graph.layer(level).len()).sum();
    assert_eq!(total, 5 + 2 + 1 + 1 + 2 + 1);
    for level in 0..graph.layer_count() {
        for vertex in graph.layer(level) {
            assert_eq!(graph.level_of(vertex), level);
            for upper in graph.outgoing_of(vertex) {
                assert_eq!(graph.level_of(upper), level + 1);
            }
        }
    }
}

#[test]
fn adjacent_switching_removes_a_crossing() {
    // Element order puts 1 left of 2 but 3 left of 4 while 1 < 4 and 2 < 3.
    let covers = [Edge::new(0, 1), Edge::new(0, 2), Edge::new(1, 4), Edge::new(2, 3)];
    let mut graph = LayeredCoverGraph::new(&[0, 1, 1, 2, 2], &covers);
    let before = graph.straight_geometry_defects();
    assert_eq!(before.proper_crossings, 1);
    let after = graph.greedy_switch_adjacent();
    assert_eq!(after, clean());
    assert_eq!(after, graph.straight_geometry_defects());
}

#[test]
fn permuting_a_layer_checks_the_order() {
    let covers = [Edge::new(0, 1), Edge::new(0, 2)];
    let mut graph = LayeredCoverGraph::new(&[0, 1, 1], &covers);
    assert!(!graph.permute_layer(1, &[0, 0]));
    assert!(!graph.permute_layer(1, &[0, 2]));
    assert!(!graph.permute_layer(1, &[1]));
    assert_eq!(graph.layer(1), vec![1, 2]);
    assert!(graph.permute_layer(1, &[1, 0]));
    assert_eq!(graph.layer(1), vec![2, 1]);
    assert_eq!(graph.vertex_positions(), vec![0, 1, 0]);
}

#[test]
fn ordering_score_counts_routed_crossings_and_length() {
    let covers = [Edge::new(0, 3), Edge::new(1, 2)];
    let graph = LayeredCoverGraph::new(&[0, 0, 1, 1], &covers);
    let score = graph.ordering_score();
    assert_eq!(score.geometry.proper_crossings, 1);
    assert_eq!(score.routed_crossings, 1);
    // Slots are -1 and 1 in both layers; each edge spans 2.
    assert_eq!(score.horizontal_length, 4);

    let mut best_layers = graph.layers_snapshot();
    let mut best_score = OrderingScore {
        geometry: StraightGeometryDefects { proper_crossings: 5, node_intersections: 0, collinear_overlaps: 0 },
        routed_crossings: 0,
        horizontal_length: 0,
    };
    graph.remember_if_better(&mut best_layers, &mut best_score);
    assert_eq!(best_score, score);
    let unchanged = best_score;
    graph.remember_if_better(&mut best_layers, &mut best_score);
    assert_eq!(best_score, unchanged);
    assert!(!score.is_lower_than(&score));
}

#[test]
fn id_order_points_center_each_rank() {
    assert_eq!(doubled_centered_slot(0, 3), -2);
    assert_eq!(doubled_centered_slot(2, 3), 2);
    assert_eq!(doubled_centered_slot(0, 0), 0);
    let points = id_order_grid_points(&[0, 1, 1, 2]);
    assert_eq!(
        points,
        vec![
            GridPoint { x: 0, y: 0 },
            GridPoint { x: -1, y: 2 },
            GridPoint { x: 1, y: 2 },
            GridPoint { x: 0, y: 4 },
        ]
    );
}

#[test]
fn ranked_layout_wins_only_with_fewer_defects() {
    let covers = [Edge::new(0, 1), Edge::new(0, 2)];
    let one_crossing =
        StraightGeometryDefects { proper_crossings: 1, node_intersections: 0, collinear_overlaps: 0 };
    assert!(ranked_layout_is_better(&covers, &[0, 1, 1], &one_crossing));
    assert!(!ranked_layout_is_better(&covers, &[0, 1, 1], &clean()));
}

#[test]
fn selected_covers_skip_relations_through_a_middle_element() {
    // The chain 0 < 1 < 2 with all three proper relations.
    let proper = [Edge::new(0, 1), Edge::new(0, 2), Edge::new(1, 2)];
    assert_eq!(
        selected_cover_relations(3, &proper, &[true, true, true]),
        vec![Edge::new(0, 1), Edge::new(1, 2)]
    );
    assert_eq!(
        selected_cover_relations(3, &proper, &[false, true, true]),
        vec![Edge::new(0, 2), Edge::new(1, 2)]
    );
    assert_eq!(selected_cover_relations(3, &proper, &[false, false, false]), Vec::<Edge>::new());
}

#[test]
fn glyph_plan_lists_the_union_in_order_with_highlights() {
    let ambient = [Edge::new(1, 2), Edge::new(0, 1)];
    let highlighted = [Edge::new(0, 2), Edge::new(0, 1), Edge::new(0, 1)];
    let (edges, flags) = glyph_edge_plan(3, &ambient, &highlighted);
    assert_eq!(edges, vec![Edge::new(0, 1), Edge::new(0, 2), Edge::new(1, 2)]);
    assert_eq!(flags, vec![true, true, false]);
}

#[test]
fn adjacent_switching_leaves_staggered_branches_without_defects() {
    // One shorter branch has a half-rank vertex between two vertices of the
    // longer branch; exact-score switching leaves no crossing or overlap
    // and no improving exchange.
    let covers = [
        Edge::new(0, 1),
        Edge::new(0, 2),
        Edge::new(1, 5),
        Edge::new(2, 3),
        Edge::new(3, 4),
        Edge::new(3, 5),
    ];
    let vertical = vertical_levels(6, &covers);
    let mut graph = LayeredCoverGraph::new(&vertical.centered, &covers);
    let before = graph.straight_geometry_defects();
    let after = graph.greedy_switch_adjacent();
    assert_eq!(after, graph.straight_geometry_defects());
    let no_worse = after.proper_crossings < before.proper_crossings
        || (after.proper_crossings == before.proper_crossings
            && (after.node_intersections < before.node_intersections
                || (after.node_intersections == before.node_intersections
                    && after.collinear_overlaps <= before.collinear_overlaps)));
    assert!(no_worse);
    assert_eq!(after.proper_crossings, 0);
    let positions = graph.vertex_positions();
    let points = graph.real_grid_points_with_positions(&positions);
    assert_eq!(points[2].x, points[3].x);
}
