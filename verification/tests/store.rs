use polonius_engine::atom::{covers_atoms, has_atom, same_atom, same_atoms};
use polonius_engine::{AllFacts, Atom};
use std::collections::HashMap;

type Facts = AllFacts<usize, usize, usize>;

fn with_edges(edges: Vec<(usize, usize)>) -> Facts {
    let mut facts = Facts::default();
    facts.cfg_edge = edges;
    facts
}

fn chain_of_seven() -> Vec<(usize, usize)> {
    vec![(0, 1), (1, 2), (2, 3), (3, 4), (4, 5), (5, 6)]
}

#[test]
fn default_store_is_empty() {
    let facts = Facts::default();
    assert!(facts.borrow_region.is_empty());
    assert!(facts.universal_region.is_empty());
    assert!(facts.cfg_edge.is_empty());
    assert!(facts.killed.is_empty());
    assert!(facts.outlives.is_empty());
    assert!(facts.region_live_at.is_empty());
    assert!(facts.invalidates.is_empty());
}

#[test]
fn usize_is_its_own_index() {
    assert_eq!(Atom::index(7usize), 7);
    assert_eq!(Atom::index(0usize), 0);
}

#[test]
fn atoms_compare_by_index() {
    assert!(same_atom(3usize, 3usize));
    assert!(!same_atom(3usize, 4usize));
    assert!(has_atom(&vec![1usize, 5, 9], 5));
    assert!(!has_atom(&vec![1usize, 5, 9], 2));
    assert!(covers_atoms(&vec![1usize, 5, 9], &vec![9, 9, 1]));
    assert!(!covers_atoms(&vec![1usize, 5], &vec![9]));
}

#[test]
fn same_atoms_ignores_order_and_repeats() {
    assert!(same_atoms(&vec![1usize, 2], &vec![2, 1]));
    assert!(same_atoms(&vec![1usize, 1, 2], &vec![2, 1]));
    assert!(same_atoms::<usize>(&vec![], &vec![]));
    assert!(!same_atoms(&vec![1usize, 2], &vec![1]));
    assert!(!same_atoms(&vec![1usize], &vec![1, 2]));
}

#[test]
fn queries_pick_the_tuples_of_a_point() {
    let mut facts = Facts::default();
    facts.region_live_at = vec![(10, 1), (11, 2), (12, 1)];
    facts.killed = vec![(20, 2), (21, 1), (22, 2)];
    facts.outlives = vec![(10, 11, 3), (12, 10, 1), (11, 12, 3)];
    facts.invalidates = vec![(1, 30), (2, 31), (1, 32)];
    assert_eq!(facts.live_regions_at(1), vec![10, 12]);
    assert_eq!(facts.live_regions_at(3), Vec::<usize>::new());
    assert_eq!(facts.killed_loans_at(2), vec![20, 22]);
    assert_eq!(facts.outlives_at(3), vec![(10, 11), (11, 12)]);
    assert_eq!(facts.invalidates_at(1), vec![30, 32]);
    assert_eq!(facts.invalidates_at(2), vec![31]);
}

#[test]
fn endpoint_and_startpoint() {
    let facts = with_edges(vec![(0, 1), (1, 2)]);
    assert!(facts.is_startpoint(0));
    assert!(!facts.is_startpoint(1));
    assert!(!facts.is_startpoint(2));
    assert!(!facts.is_endpoint(0));
    assert!(!facts.is_endpoint(1));
    assert!(facts.is_endpoint(2));
    assert!(facts.is_endpoint(9));
    assert!(facts.is_startpoint(9));
}

#[test]
fn collapsible_without_facts() {
    let facts = with_edges(vec![(0, 1)]);
    assert!(facts.is_edge_collapsible(0, 1));
}

#[test]
fn collapsible_with_the_same_live_regions_in_any_order() {
    let mut facts = with_edges(vec![(0, 1)]);
    facts.region_live_at = vec![(1, 0), (2, 0), (2, 1), (1, 1), (1, 1)];
    assert!(facts.is_edge_collapsible(0, 1));
}

#[test]
fn not_collapsible_with_other_live_regions() {
    let mut facts = with_edges(vec![(0, 1)]);
    facts.region_live_at = vec![(1, 0), (2, 0), (1, 1)];
    assert!(!facts.is_edge_collapsible(0, 1));
    assert!(!facts.is_edge_collapsible(1, 0));
}

#[test]
fn not_collapsible_with_a_kill_at_either_end() {
    let mut facts = with_edges(vec![(0, 1)]);
    facts.killed = vec![(5, 0)];
    assert!(!facts.is_edge_collapsible(0, 1));
    facts.killed = vec![(5, 1)];
    assert!(!facts.is_edge_collapsible(0, 1));
    facts.killed = vec![(5, 2)];
    assert!(facts.is_edge_collapsible(0, 1));
}

#[test]
fn not_collapsible_with_an_outlives_at_either_end() {
    let mut facts = with_edges(vec![(0, 1)]);
    facts.outlives = vec![(5, 6, 0)];
    assert!(!facts.is_edge_collapsible(0, 1));
    facts.outlives = vec![(5, 6, 1)];
    assert!(!facts.is_edge_collapsible(0, 1));
}

#[test]
fn not_collapsible_with_an_invalidation_at_either_end() {
    let mut facts = with_edges(vec![(0, 1)]);
    facts.invalidates = vec![(0, 5)];
    assert!(!facts.is_edge_collapsible(0, 1));
    facts.invalidates = vec![(1, 5)];
    assert!(!facts.is_edge_collapsible(0, 1));
}

#[test]
fn borrow_and_universal_regions_do_not_gate_a_collapse() {
    let mut facts = with_edges(vec![(0, 1)]);
    facts.borrow_region = vec![(1, 2, 0)];
    facts.universal_region = vec![7];
    assert!(facts.is_edge_collapsible(0, 1));
}

#[test]
fn collapse_keeps_first_point_when_second_has_a_successor() {
    let mut facts = with_edges(vec![(0, 1), (1, 2), (1, 3)]);
    facts.borrow_region = vec![(1, 1, 1), (1, 1, 0)];
    facts.region_live_at = vec![(4, 1), (4, 2)];
    facts.killed = vec![(9, 1), (9, 3)];
    facts.outlives = vec![(1, 2, 1), (1, 2, 2)];
    facts.invalidates = vec![(1, 8), (0, 8)];
    facts.universal_region = vec![3];
    facts.collapse_edge(0, 1);
    assert_eq!(facts.cfg_edge, vec![(0, 2), (0, 3)]);
    assert_eq!(facts.borrow_region, vec![(1, 1, 0)]);
    assert_eq!(facts.region_live_at, vec![(4, 2)]);
    assert_eq!(facts.killed, vec![(9, 3)]);
    assert_eq!(facts.outlives, vec![(1, 2, 2)]);
    assert_eq!(facts.invalidates, vec![(0, 8)]);
    assert_eq!(facts.universal_region, vec![3]);
}

#[test]
fn collapse_keeps_second_point_when_only_first_has_a_predecessor() {
    let mut facts = with_edges(vec![(5, 0), (6, 0), (0, 1)]);
    facts.region_live_at = vec![(4, 0), (4, 1)];
    facts.borrow_region = vec![(1, 1, 0), (1, 1, 1)];
    facts.collapse_edge(0, 1);
    assert_eq!(facts.cfg_edge, vec![(5, 1), (6, 1)]);
    assert_eq!(facts.region_live_at, vec![(4, 1)]);
    assert_eq!(facts.borrow_region, vec![(1, 1, 1)]);
}

#[test]
fn collapse_of_a_lone_edge_changes_nothing() {
    let mut facts = with_edges(vec![(0, 1)]);
    facts.region_live_at = vec![(4, 0), (4, 1)];
    facts.collapse_edge(0, 1);
    assert_eq!(facts.cfg_edge, vec![(0, 1)]);
    assert_eq!(facts.region_live_at, vec![(4, 0), (4, 1)]);
}

#[test]
fn keeping_first_point_drops_every_edge_into_second() {
    let mut facts = with_edges(vec![(0, 1), (7, 1), (1, 2), (3, 4)]);
    facts.collapse_edge_keeping_first_point(0, 1);
    assert_eq!(facts.cfg_edge, vec![(0, 2), (3, 4)]);
}

#[test]
fn keeping_second_point_drops_every_edge_out_of_first() {
    let mut facts = with_edges(vec![(9, 0), (0, 1), (0, 7), (3, 4)]);
    facts.collapse_edge_keeping_second_point(0, 1);
    assert_eq!(facts.cfg_edge, vec![(9, 1), (3, 4)]);
}

#[test]
fn isolated_edges_need_one_way_out_and_one_way_in() {
    let facts = with_edges(vec![(0, 1), (1, 2), (1, 3), (4, 3), (5, 6)]);
    let isolated = facts.isolated_edges();
    let mut expected = HashMap::new();
    expected.insert(0usize, 1usize);
    expected.insert(5usize, 6usize);
    assert_eq!(isolated, expected);
}

#[test]
fn a_repeated_edge_is_not_isolated() {
    let facts = with_edges(vec![(0, 1), (0, 1), (2, 3)]);
    let isolated = facts.isolated_edges();
    let mut expected = HashMap::new();
    expected.insert(2usize, 3usize);
    assert_eq!(isolated, expected);
}

#[test]
fn chains_come_by_ascending_head() {
    let facts = with_edges(vec![(4, 5), (5, 6), (8, 9), (0, 1), (1, 2)]);
    assert_eq!(
        facts.isolated_chains(),
        vec![vec![0, 1, 2], vec![4, 5, 6], vec![8, 9]]
    );
}

#[test]
fn chains_stop_at_forks_and_joins() {
    let facts = with_edges(vec![
        (0, 1),
        (1, 2),
        (2, 3),
        (3, 4),
        (4, 5),
        (5, 6),
        (6, 7),
        (7, 8),
        (8, 9),
        (3, 10),
        (10, 11),
        (11, 8),
    ]);
    assert_eq!(
        facts.isolated_chains(),
        vec![vec![0, 1, 2, 3], vec![4, 5, 6, 7], vec![8, 9], vec![10, 11]]
    );
}

#[test]
fn chains_share_no_point_and_touch_only_edge_points() {
    let facts = with_edges(vec![
        (0, 1),
        (1, 2),
        (2, 3),
        (2, 4),
        (4, 5),
        (3, 6),
        (6, 7),
        (7, 3),
        (20, 21),
    ]);
    let chains = facts.isolated_chains();
    let mut seen: Vec<usize> = Vec::new();
    for chain in &chains {
        assert!(chain.len() >= 2);
        for point in chain {
            assert!(!seen.contains(point));
            seen.push(*point);
            assert!(facts
                .cfg_edge
                .iter()
                .any(|(p, q)| p == point || q == point));
        }
    }
    assert_eq!(
        chains,
        vec![vec![0, 1, 2], vec![3, 6, 7], vec![4, 5], vec![20, 21]]
    );
}

#[test]
fn a_cycle_of_isolated_edges_has_no_chain() {
    let mut facts = with_edges(vec![(0, 1), (1, 2), (2, 0)]);
    assert_eq!(facts.isolated_chains(), Vec::<Vec<usize>>::new());
    facts.simplify_cfg();
    assert_eq!(facts.cfg_edge, vec![(0, 1), (1, 2), (2, 0)]);
}

#[test]
fn a_self_loop_is_left_alone() {
    let mut facts = with_edges(vec![(0, 0)]);
    facts.simplify_cfg();
    assert_eq!(facts.cfg_edge, vec![(0, 0)]);
}

#[test]
fn an_empty_graph_is_left_alone() {
    let mut facts = Facts::default();
    facts.region_live_at = vec![(1, 1)];
    facts.simplify_cfg();
    assert!(facts.cfg_edge.is_empty());
    assert_eq!(facts.region_live_at, vec![(1, 1)]);
}

#[test]
fn a_lone_edge_is_left_alone() {
    let mut facts = with_edges(vec![(0, 1)]);
    facts.simplify_cfg();
    assert_eq!(facts.cfg_edge, vec![(0, 1)]);
}

#[test]
fn simplify_chain_folds_into_the_anchor() {
    let mut facts = with_edges(vec![(0, 1), (1, 2), (2, 3), (3, 7), (3, 8)]);
    facts.simplify_chain(vec![0, 1, 2, 3]);
    assert_eq!(facts.cfg_edge, vec![(0, 7), (0, 8)]);
}

#[test]
fn simplify_chain_of_one_point_changes_nothing() {
    let mut facts = with_edges(vec![(0, 1), (1, 2)]);
    facts.simplify_chain(vec![0]);
    assert_eq!(facts.cfg_edge, vec![(0, 1), (1, 2)]);
}

#[test]
fn a_kill_inside_a_chain_splits_it() {
    let mut facts = with_edges(chain_of_seven());
    facts.killed = vec![(9, 3)];
    facts.simplify_cfg();
    assert_eq!(facts.cfg_edge, vec![(0, 3), (3, 6)]);
    assert_eq!(facts.killed, vec![(9, 3)]);
}

#[test]
fn a_live_region_inside_a_chain_splits_it() {
    let mut facts = with_edges(chain_of_seven());
    facts.region_live_at = vec![(9, 3)];
    facts.simplify_cfg();
    assert_eq!(facts.cfg_edge, vec![(0, 3), (3, 6)]);
    assert_eq!(facts.region_live_at, vec![(9, 3)]);
}

#[test]
fn an_outlives_inside_a_chain_splits_it() {
    let mut facts = with_edges(chain_of_seven());
    facts.outlives = vec![(8, 9, 3)];
    facts.simplify_cfg();
    assert_eq!(facts.cfg_edge, vec![(0, 3), (3, 6)]);
    assert_eq!(facts.outlives, vec![(8, 9, 3)]);
}

#[test]
fn an_invalidation_inside_a_chain_splits_it() {
    let mut facts = with_edges(chain_of_seven());
    facts.invalidates = vec![(3, 9)];
    facts.simplify_cfg();
    assert_eq!(facts.cfg_edge, vec![(0, 3), (3, 6)]);
    assert_eq!(facts.invalidates, vec![(3, 9)]);
}

#[test]
fn live_regions_that_change_along_a_chain_keep_their_points() {
    let mut facts = with_edges(chain_of_seven());
    facts.region_live_at = vec![(1, 0), (1, 1), (1, 2), (2, 3), (2, 4), (1, 4), (1, 5), (2, 5)];
    facts.simplify_cfg();
    assert_eq!(facts.cfg_edge, vec![(0, 3), (3, 4), (4, 6)]);
    assert_eq!(facts.region_live_at, vec![(1, 0), (2, 3), (2, 4), (1, 4)]);
}

#[test]
fn borrow_regions_of_a_merged_point_are_dropped() {
    let mut facts = with_edges(vec![(0, 1), (1, 2)]);
    facts.borrow_region = vec![(1, 1, 0), (2, 2, 1), (3, 3, 2)];
    facts.universal_region = vec![5, 6];
    facts.simplify_cfg();
    assert_eq!(facts.cfg_edge, vec![(0, 2)]);
    assert_eq!(facts.borrow_region, vec![(1, 1, 0), (3, 3, 2)]);
    assert_eq!(facts.universal_region, vec![5, 6]);
}

fn graphs() -> Vec<Facts> {
    let mut with_kill = with_edges(chain_of_seven());
    with_kill.killed = vec![(9, 2), (9, 5)];
    let mut with_live = with_edges(vec![(0, 1), (1, 2), (2, 3), (3, 4), (2, 5), (5, 6)]);
    with_live.region_live_at = vec![(1, 0), (1, 1), (2, 5), (2, 6), (3, 3)];
    with_live.borrow_region = vec![(1, 1, 1), (1, 1, 6)];
    vec![
        Facts::default(),
        with_edges(vec![(0, 1)]),
        with_edges(vec![(0, 1), (1, 2)]),
        with_edges(chain_of_seven()),
        with_edges(vec![(0, 1), (1, 2), (2, 3), (4, 5), (5, 6)]),
        with_edges(vec![(0, 1), (1, 2), (2, 3), (3, 4), (2, 5), (5, 6)]),
        with_edges(vec![
            (0, 1),
            (1, 2),
            (2, 3),
            (3, 4),
            (4, 5),
            (5, 6),
            (6, 7),
            (7, 8),
            (8, 9),
            (3, 10),
            (10, 11),
            (11, 8),
        ]),
        with_edges(vec![(0, 1), (1, 2), (2, 0), (3, 4), (4, 5), (5, 3), (5, 6)]),
        with_edges(vec![(3, 2), (2, 1), (1, 0), (0, 0), (7, 3), (8, 3)]),
        with_kill,
        with_live,
    ]
}

fn relations(facts: &Facts) -> (
    Vec<(usize, usize, usize)>,
    Vec<usize>,
    Vec<(usize, usize)>,
    Vec<(usize, usize)>,
    Vec<(usize, usize, usize)>,
    Vec<(usize, usize)>,
    Vec<(usize, usize)>,
) {
    (
        facts.borrow_region.clone(),
        facts.universal_region.clone(),
        facts.cfg_edge.clone(),
        facts.killed.clone(),
        facts.outlives.clone(),
        facts.region_live_at.clone(),
        facts.invalidates.clone(),
    )
}

#[test]
fn a_second_run_changes_nothing() {
    for mut facts in graphs() {
        facts.simplify_cfg();
        let once = relations(&facts);
        facts.simplify_cfg();
        assert_eq!(relations(&facts), once);
    }
}

#[test]
fn no_run_adds_an_edge_or_drops_a_quiet_fact() {
    for mut facts in graphs() {
        let before = relations(&facts);
        facts.simplify_cfg();
        let after = relations(&facts);
        assert!(after.2.len() <= before.2.len());
        assert_eq!(after.1, before.1);
        assert_eq!(after.3, before.3);
        assert_eq!(after.4, before.4);
        assert_eq!(after.6, before.6);
        assert!(after.0.iter().all(|t| before.0.contains(t)));
        assert!(after.5.iter().all(|t| before.5.contains(t)));
    }
}

#[test]
fn merged_points_had_the_same_facts() {
    let mut facts = with_edges(chain_of_seven());
    facts.region_live_at = vec![(1, 0), (1, 1), (2, 2), (2, 3), (1, 3), (1, 4), (2, 4)];
    facts.killed = vec![(9, 5)];
    let before = facts.clone();
    facts.simplify_cfg();
    assert_eq!(facts.cfg_edge, vec![(0, 2), (2, 3), (3, 5), (5, 6)]);
    for gone in [1usize, 4] {
        assert!(facts.cfg_edge.iter().all(|(p, q)| *p != gone && *q != gone));
    }
    assert!(before.is_edge_collapsible(0, 1));
    assert!(before.is_edge_collapsible(3, 4));
    assert!(!before.is_edge_collapsible(0, 2));
    assert!(!before.is_edge_collapsible(2, 3));
    assert!(!before.is_edge_collapsible(3, 5));
    assert!(!before.is_edge_collapsible(5, 6));
}

#[test]
fn ends_of_a_collapsed_path_stay_joined() {
    let mut facts = with_edges(vec![
        (0, 1),
        (1, 2),
        (2, 3),
        (3, 4),
        (4, 5),
        (5, 6),
        (6, 7),
        (7, 8),
        (8, 9),
        (3, 10),
        (10, 11),
        (11, 8),
    ]);
    facts.simplify_cfg();
    // 1, 2, 3 went into 0; 5, 6, 7 into 4; 8 into 9; 11 into 10.
    assert!(facts.cfg_edge.contains(&(0, 4)));
    assert!(facts.cfg_edge.contains(&(4, 9)));
    assert!(facts.cfg_edge.contains(&(0, 10)));
    assert!(facts.cfg_edge.contains(&(10, 9)));
}

#[test]
fn chains_walked_in_any_order_give_the_same() {
    for facts in graphs() {
        let chains = facts.isolated_chains();
        let mut forward = facts.clone();
        for chain in chains.iter() {
            forward.simplify_chain(chain.clone());
        }
        let mut backward = facts.clone();
        for chain in chains.iter().rev() {
            backward.simplify_chain(chain.clone());
        }
        let mut whole = facts.clone();
        whole.simplify_cfg();
        assert_eq!(relations(&forward), relations(&whole));
        assert_eq!(relations(&backward), relations(&whole));
    }
}

#[test]
fn no_repeated_tuple_is_added() {
    for mut facts in graphs() {
        facts.simplify_cfg();
        let edges = facts.cfg_edge.clone();
        for (i, edge) in edges.iter().enumerate() {
            assert!(!edges[..i].contains(edge));
        }
    }
}

#[test]
fn facts_stay_at_the_points_that_are_kept() {
    let mut facts = with_edges(chain_of_seven());
    facts.region_live_at =
        vec![(1, 0), (1, 1), (1, 2), (2, 3), (2, 4), (2, 5), (2, 6), (1, 9)];
    facts.borrow_region = vec![(1, 1, 0), (1, 1, 2), (1, 1, 4), (1, 1, 6), (1, 1, 9)];
    facts.simplify_cfg();
    // 1 and 2 are merged into 0; 4 and 5 into 3, and 3 into 6.
    assert_eq!(facts.cfg_edge, vec![(0, 6)]);
    assert_eq!(facts.region_live_at, vec![(1, 0), (2, 6), (1, 9)]);
    assert_eq!(facts.borrow_region, vec![(1, 1, 0), (1, 1, 6), (1, 1, 9)]);
}
