use netext_core::astar::{route_visibility_astar, MoveCost, StepCost, UnitCost, MAX_SCORE};
use netext_core::frontier::Frontier;
use netext_core::error::RouteError;
use netext_core::geometry::{Orientation, PlacedRectangularNode, Point, RectangularNode, Size};
use netext_core::grid::{Grid, GridPoint};
use netext_core::masked_grid::MaskedGrid;
use rand::rngs::StdRng;
use rand::SeedableRng;

const H: Orientation = Orientation::Horizontal;
const V: Orientation = Orientation::Vertical;

fn square() -> Grid {
    Grid::new(3, 3, vec![0, 1, 2], vec![0, 1, 2])
}

fn open(grid: &Grid) -> MaskedGrid<'_> {
    MaskedGrid {
        grid,
        point_mask: vec![true; grid.size],
        segment_mask: vec![true; grid.num_segments],
    }
}

fn check_route(
    masked: &MaskedGrid,
    start: (GridPoint, Orientation),
    goal: (GridPoint, Orientation),
    path: &Vec<(GridPoint, Orientation)>,
) {
    assert_eq!(path[0], start);
    assert_eq!(*path.last().unwrap(), goal);
    for w in path.windows(2) {
        assert!(masked.neighbors(w[0].0, w[0].1).contains(&w[1]));
        assert!(masked.point_mask[w[1].0 .0 as usize]);
        if w[0].0 == w[1].0 {
            assert!(w[0].0 != start.0 && w[0].0 != goal.0);
        }
    }
}

#[test]
fn unit_cost_is_one() {
    let c = UnitCost {};
    assert_eq!(c.cost(GridPoint(0), GridPoint(1), H, H), 1);
    assert_eq!(c.cost(GridPoint(3), GridPoint(3), H, V), 1);
    assert_eq!(MAX_SCORE, i32::MAX / 4);
}

#[test]
fn frontier_gives_lowest_estimate_and_latest_insertion_first() {
    let mut f = Frontier::new();
    assert_eq!(f.pop_best(), None);
    f.push(5, 0, 10);
    f.push(3, 1, 11);
    f.push(3, 2, 12);
    f.push(7, 3, 13);
    assert_eq!(f.len(), 4);
    assert_eq!(f.pop_best(), Some((3, 2, 12)));
    assert_eq!(f.pop_best(), Some((3, 1, 11)));
    assert_eq!(f.pop_best(), Some((5, 0, 10)));
    assert_eq!(f.pop_best(), Some((7, 3, 13)));
    assert_eq!(f.pop_best(), None);
}

#[test]
fn frontier_sorts_many_entries() {
    let mut f = Frontier::new();
    let mut state: u64 = 99;
    let mut expected: Vec<(i64, u64, u32)> = Vec::new();
    for order in 0..500u64 {
        state = state.wrapping_mul(6364136223846793005).wrapping_add(1442695040888963407);
        let estimate = ((state >> 40) % 37) as i64;
        f.push(estimate, order, order as u32);
        expected.push((estimate, order, order as u32));
        if order % 7 == 3 {
            expected.sort_by(|a, b| a.0.cmp(&b.0).then(b.1.cmp(&a.1)));
            assert_eq!(f.pop_best(), Some(expected.remove(0)));
        }
    }
    expected.sort_by(|a, b| a.0.cmp(&b.0).then(b.1.cmp(&a.1)));
    for e in expected {
        assert_eq!(f.pop_best(), Some(e));
    }
    assert_eq!(f.len(), 0);
}

#[test]
fn straight_route_along_a_row() {
    let grid = square();
    let masked = open(&grid);
    let mut rng = StdRng::seed_from_u64(1);
    let path =
        route_visibility_astar(&masked, GridPoint(3), GridPoint(5), H, H, &mut rng, &UnitCost {}).unwrap();
    assert_eq!(path, vec![(GridPoint(3), H), (GridPoint(4), H), (GridPoint(5), H)]);
}

#[test]
fn start_that_is_the_goal() {
    let grid = square();
    let masked = open(&grid);
    let mut rng = StdRng::seed_from_u64(1);
    let path =
        route_visibility_astar(&masked, GridPoint(4), GridPoint(4), V, V, &mut rng, &UnitCost {}).unwrap();
    assert_eq!(path, vec![(GridPoint(4), V)]);
}

#[test]
fn no_turn_in_place_on_the_terminals() {
    let grid = square();
    let masked = open(&grid);
    for seed in 0..8 {
        let mut rng = StdRng::seed_from_u64(seed);
        let path = route_visibility_astar(&masked, GridPoint(4), GridPoint(4), H, V, &mut rng, &UnitCost {})
            .unwrap();
        check_route(&masked, (GridPoint(4), H), (GridPoint(4), V), &path);
        // out along the row, a turn, a step, a turn, a step, a turn, and back in along the column
        assert_eq!(path.len(), 8);
    }
}

#[test]
fn route_with_a_turn() {
    let grid = square();
    let masked = open(&grid);
    for seed in 0..8 {
        let mut rng = StdRng::seed_from_u64(seed);
        let path = route_visibility_astar(&masked, GridPoint(0), GridPoint(8), H, V, &mut rng, &UnitCost {})
            .unwrap();
        check_route(&masked, (GridPoint(0), H), (GridPoint(8), V), &path);
        assert_eq!(
            path,
            vec![
                (GridPoint(0), H),
                (GridPoint(1), H),
                (GridPoint(2), H),
                (GridPoint(2), V),
                (GridPoint(5), V),
                (GridPoint(8), V),
            ]
        );
    }
}

#[test]
fn route_where_turns_cost_nothing() {
    let grid = square();
    let masked = open(&grid);
    for seed in 0..16 {
        let mut rng = StdRng::seed_from_u64(seed);
        let path =
            route_visibility_astar(&masked, GridPoint(0), GridPoint(8), H, H, &mut rng, &MoveCost {}).unwrap();
        check_route(&masked, (GridPoint(0), H), (GridPoint(8), H), &path);
        assert_eq!(
            path,
            vec![
                (GridPoint(0), H),
                (GridPoint(1), H),
                (GridPoint(1), V),
                (GridPoint(4), V),
                (GridPoint(7), V),
                (GridPoint(7), H),
                (GridPoint(8), H),
            ]
        );
        assert_eq!(MoveCost {}.cost(GridPoint(1), GridPoint(1), H, V), 0);
        let total: i32 = path.windows(2).map(|w| MoveCost {}.cost(w[0].0, w[1].0, w[0].1, w[1].1)).sum();
        assert_eq!(total, 4);
    }
}

#[test]
fn index_outside_the_grid() {
    let grid = square();
    let masked = open(&grid);
    let mut rng = StdRng::seed_from_u64(1);
    assert_eq!(
        route_visibility_astar(&masked, GridPoint(9), GridPoint(0), H, H, &mut rng, &UnitCost {}),
        Err(RouteError::IndexOutOfBounds)
    );
    assert_eq!(
        route_visibility_astar(&masked, GridPoint(0), GridPoint(100), H, H, &mut rng, &UnitCost {}),
        Err(RouteError::IndexOutOfBounds)
    );
}

#[test]
fn blocked_terminal() {
    let grid = square();
    let mut masked = open(&grid);
    masked.point_mask[8] = false;
    let mut rng = StdRng::seed_from_u64(1);
    assert_eq!(
        route_visibility_astar(&masked, GridPoint(0), GridPoint(8), H, H, &mut rng, &UnitCost {}),
        Err(RouteError::EndpointBlocked)
    );
    assert_eq!(
        route_visibility_astar(&masked, GridPoint(8), GridPoint(0), H, H, &mut rng, &UnitCost {}),
        Err(RouteError::EndpointBlocked)
    );
    // out of bounds is found first
    assert_eq!(
        route_visibility_astar(&masked, GridPoint(8), GridPoint(9), H, H, &mut rng, &UnitCost {}),
        Err(RouteError::IndexOutOfBounds)
    );
}

#[test]
fn goal_not_found_when_cut_off() {
    let grid = square();
    let mut masked = open(&grid);
    for s in 0..grid.num_segments {
        masked.segment_mask[s] = false;
    }
    let mut rng = StdRng::seed_from_u64(1);
    assert_eq!(
        route_visibility_astar(&masked, GridPoint(0), GridPoint(8), H, H, &mut rng, &UnitCost {}),
        Err(RouteError::GoalNotFound)
    );
}

#[test]
fn goal_not_found_when_it_cannot_be_entered_the_right_way() {
    // the goal wants to be entered along its row, and both neighbours in the row are masked
    let grid = square();
    let mut masked = open(&grid);
    masked.point_mask[3] = false;
    masked.point_mask[5] = false;
    let mut rng = StdRng::seed_from_u64(1);
    assert_eq!(
        route_visibility_astar(&masked, GridPoint(0), GridPoint(4), H, H, &mut rng, &UnitCost {}),
        Err(RouteError::GoalNotFound)
    );
    let path =
        route_visibility_astar(&masked, GridPoint(0), GridPoint(4), H, V, &mut rng, &UnitCost {}).unwrap();
    check_route(&masked, (GridPoint(0), H), (GridPoint(4), V), &path);
}

#[test]
fn routes_go_around_masked_points() {
    let grid = square();
    let mut masked = open(&grid);
    masked.point_mask[4] = false;
    for seed in 0..16 {
        let mut rng = StdRng::seed_from_u64(seed);
        let path = route_visibility_astar(&masked, GridPoint(3), GridPoint(5), V, V, &mut rng, &UnitCost {})
            .unwrap();
        check_route(&masked, (GridPoint(3), V), (GridPoint(5), V), &path);
        assert!(path.iter().all(|s| s.0 != GridPoint(4)));
        // up or down the column, a turn, two steps along the row, a turn, and into the goal
        assert_eq!(path.len(), 7);
    }
}

#[test]
fn the_order_of_ties_depends_on_the_generator() {
    // around a node in the middle the way above and the way below cost the same
    let edges = vec![(Point::new(0, 5), Point::new(10, 5))];
    let nodes = vec![PlacedRectangularNode::new(
        Point::new(5, 5),
        RectangularNode::new(Size::new(4, 4)),
    )];
    let grid = Grid::from_edges_and_nodes(&edges, &nodes);
    let keep = Vec::new();
    let masked = MaskedGrid::from_nodes(&grid, &nodes, &keep);
    let start = grid.point_to_grid_point(&Point::new(0, 5)).unwrap();
    let goal = grid.point_to_grid_point(&Point::new(10, 5)).unwrap();
    let mut seen: Vec<Vec<(GridPoint, Orientation)>> = Vec::new();
    for seed in 0..64 {
        let mut rng = StdRng::seed_from_u64(seed);
        let path = route_visibility_astar(&masked, start, goal, H, H, &mut rng, &UnitCost {}).unwrap();
        check_route(&masked, (start, H), (goal, H), &path);
        if !seen.contains(&path) {
            seen.push(path);
        }
    }
    assert!(seen.len() >= 2);
}

#[test]
fn the_same_seed_gives_the_same_route() {
    let grid = Grid::new(4, 4, vec![0, 1, 2, 3], vec![0, 1, 2, 3]);
    let masked = open(&grid);
    let mut a = StdRng::seed_from_u64(42);
    let mut b = StdRng::seed_from_u64(42);
    let first = route_visibility_astar(&masked, GridPoint(0), GridPoint(15), V, V, &mut a, &UnitCost {});
    let second = route_visibility_astar(&masked, GridPoint(0), GridPoint(15), V, V, &mut b, &UnitCost {});
    assert_eq!(first, second);
    assert!(first.is_ok());
}

fn fewest_steps(
    masked: &MaskedGrid,
    start: (GridPoint, Orientation),
    goal: (GridPoint, Orientation),
) -> Option<usize> {
    let mut seen = vec![start];
    let mut level = vec![start];
    let mut steps = 0;
    while !level.is_empty() {
        if level.contains(&goal) {
            return Some(steps);
        }
        let mut next = Vec::new();
        for a in &level {
            for b in masked.neighbors(a.0, a.1) {
                let turn_on_terminal = b.0 == a.0 && (a.0 == start.0 || a.0 == goal.0);
                if turn_on_terminal || !masked.point_mask[b.0 .0 as usize] || seen.contains(&b) {
                    continue;
                }
                seen.push(b);
                next.push(b);
            }
        }
        level = next;
        steps += 1;
    }
    None
}

#[test]
fn the_route_found_is_a_cheapest_one() {
    let grid = Grid::new(6, 5, vec![0, 1, 2, 3, 4, 5], vec![0, 1, 2, 3, 4]);
    let mut state: u64 = 12345;
    let mut found = 0;
    let mut missed = 0;
    for round in 0..60u64 {
        let mut masked = open(&grid);
        for p in 0..grid.size {
            state = state.wrapping_mul(6364136223846793005).wrapping_add(1442695040888963407);
            if (state >> 33) % 4 == 0 {
                masked.point_mask[p] = false;
            }
        }
        for s in 0..grid.num_segments {
            state = state.wrapping_mul(6364136223846793005).wrapping_add(1442695040888963407);
            if (state >> 33) % 6 == 0 {
                masked.segment_mask[s] = false;
            }
        }
        let start = (GridPoint((round % 30) as u32), if round % 2 == 0 { H } else { V });
        let goal = (GridPoint(((round * 7 + 3) % 30) as u32), if round % 3 == 0 { H } else { V });
        masked.point_mask[start.0 .0 as usize] = true;
        masked.point_mask[goal.0 .0 as usize] = true;
        let mut rng = StdRng::seed_from_u64(round);
        let routed = route_visibility_astar(&masked, start.0, goal.0, start.1, goal.1, &mut rng, &UnitCost {});
        match fewest_steps(&masked, start, goal) {
            Some(steps) => {
                let path = routed.unwrap();
                check_route(&masked, start, goal, &path);
                assert_eq!(path.len() - 1, steps);
                found += 1;
            }
            None => {
                assert_eq!(routed, Err(RouteError::GoalNotFound));
                missed += 1;
            }
        }
    }
    assert!(found > 10);
    assert!(missed > 0);
}
