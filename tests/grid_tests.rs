use dcconway::grid::Grid;
use dcconway::position::GridPosition;
use dcconway::rules::{BasicRuleSet, Ticker};

fn pos(x: i64, y: i64) -> GridPosition {
    GridPosition::new(x, y)
}

fn sorted_alive(grid: &Grid) -> Vec<(i64, i64)> {
    let mut v: Vec<(i64, i64)> = grid.alive_positions_iter().iter().map(|p| (p.0, p.1)).collect();
    v.sort();
    v
}

fn sorted_counts(grid: &Grid) -> Vec<((i64, i64), usize)> {
    let mut v: Vec<((i64, i64), usize)> =
        grid.neighbour_count_iter().iter().map(|(p, c)| ((p.0, p.1), *c)).collect();
    v.sort();
    v
}

fn grid_of(cells: &[(i64, i64)]) -> Grid {
    Grid::new(cells.iter().map(|&(x, y)| pos(x, y)).collect())
}

fn brute_count(grid: &Grid, p: GridPosition) -> usize {
    p.neighbours().iter().filter(|n| grid.is_live(**n)).count()
}

#[test]
fn neighbours_in_fixed_order() {
    let n = pos(3, -7).neighbours();
    assert_eq!(
        n,
        [pos(2, -7), pos(2, -8), pos(3, -8), pos(4, -8), pos(4, -7), pos(4, -6), pos(3, -6), pos(2, -6)]
    );
}

#[test]
fn neighbours_wrap_at_the_ends_of_the_range() {
    let n = pos(i64::MAX, i64::MIN).neighbours();
    assert_eq!(n[0], pos(i64::MAX - 1, i64::MIN));
    assert_eq!(n[2], pos(i64::MAX, i64::MAX));
    assert_eq!(n[4], pos(i64::MIN, i64::MIN));
    assert_eq!(n[6], pos(i64::MAX, i64::MIN + 1));
}

#[test]
fn named_conversions() {
    assert_eq!(GridPosition::from_i32s(-1, 2), pos(-1, 2));
    assert_eq!(GridPosition::from_i64_i32(-5, 7), pos(-5, 7));
    assert_eq!(GridPosition::from_i32_i64(7, -5), pos(7, -5));
    assert_eq!(GridPosition::from_i64_usize(-3, 4), pos(-3, 4));
    assert_eq!(GridPosition::from_usize_i64(4, -3), pos(4, -3));
}

#[test]
fn empty_grid_has_nothing() {
    let g = Grid::empty();
    assert!(g.is_dead(pos(0, 0)));
    assert!(!g.is_live(pos(10, -10)));
    assert_eq!(g.neighbour_count(pos(0, 0)), 0);
    assert!(g.alive_positions_iter().is_empty());
    assert!(g.neighbour_count_iter().is_empty());
}

#[test]
fn mark_alive_counts_neighbours() {
    let mut g = Grid::empty();
    g.mark_as_alive(pos(0, 0));
    assert!(g.is_live(pos(0, 0)));
    assert_eq!(g.neighbour_count(pos(0, 0)), 0);
    for n in pos(0, 0).neighbours().iter() {
        assert_eq!(g.neighbour_count(*n), 1);
    }
    assert_eq!(g.neighbour_count(pos(2, 0)), 0);
    assert_eq!(sorted_counts(&g).len(), 8);
    g.mark_as_alive(pos(1, 0));
    assert_eq!(g.neighbour_count(pos(0, 0)), 1);
    assert_eq!(g.neighbour_count(pos(1, 0)), 1);
    assert_eq!(g.neighbour_count(pos(0, 1)), 2);
    assert_eq!(g.neighbour_count(pos(2, 1)), 1);
}

#[test]
fn mark_alive_twice_is_once() {
    let mut once = grid_of(&[(4, 4)]);
    once.mark_as_alive(pos(0, 0));
    let mut twice = grid_of(&[(4, 4)]);
    twice.mark_as_alive(pos(0, 0));
    twice.mark_as_alive(pos(0, 0));
    assert_eq!(sorted_alive(&once), sorted_alive(&twice));
    assert_eq!(sorted_counts(&once), sorted_counts(&twice));
}

#[test]
fn mark_dead_twice_is_once() {
    let mut once = grid_of(&[(0, 0), (1, 0), (1, 1)]);
    once.mark_as_dead(pos(1, 0));
    let mut twice = grid_of(&[(0, 0), (1, 0), (1, 1)]);
    twice.mark_as_dead(pos(1, 0));
    twice.mark_as_dead(pos(1, 0));
    assert_eq!(sorted_alive(&once), sorted_alive(&twice));
    assert_eq!(sorted_counts(&once), sorted_counts(&twice));
    assert_eq!(sorted_alive(&once), vec![(0, 0), (1, 1)]);
}

#[test]
fn mark_dead_on_a_dead_cell_changes_nothing() {
    let mut g = grid_of(&[(0, 0)]);
    let before = sorted_counts(&g);
    g.mark_as_dead(pos(5, 5));
    assert_eq!(sorted_alive(&g), vec![(0, 0)]);
    assert_eq!(sorted_counts(&g), before);
}

#[test]
fn mark_alive_then_dead_restores_the_grid() {
    let start = grid_of(&[(0, 0), (2, 0), (1, 2)]);
    let mut g = grid_of(&[(0, 0), (2, 0), (1, 2)]);
    g.mark_as_alive(pos(1, 1));
    assert_ne!(sorted_counts(&g), sorted_counts(&start));
    g.mark_as_dead(pos(1, 1));
    assert_eq!(sorted_alive(&g), sorted_alive(&start));
    assert_eq!(sorted_counts(&g), sorted_counts(&start));
}

#[test]
fn last_neighbour_removed_drops_the_entry() {
    let mut g = grid_of(&[(0, 0)]);
    g.mark_as_dead(pos(0, 0));
    assert!(g.neighbour_count_iter().is_empty());
    assert!(g.alive_positions_iter().is_empty());
}

#[test]
fn counts_match_live_neighbours_after_edits() {
    let mut g = Grid::empty();
    let cells = [(0, 0), (1, 0), (2, 1), (-1, -1), (0, 1), (1, 1), (5, 5), (i64::MAX, 0), (i64::MIN, 0)];
    for &(x, y) in cells.iter() {
        g.mark_as_alive(pos(x, y));
    }
    g.mark_as_dead(pos(1, 0));
    g.mark_as_dead(pos(5, 5));
    g.mark_as_alive(pos(1, 0));
    for x in -3..=4 {
        for y in -3..=4 {
            assert_eq!(g.neighbour_count(pos(x, y)), brute_count(&g, pos(x, y)));
        }
    }
    assert_eq!(g.neighbour_count(pos(i64::MAX, 1)), 2);
    for (p, c) in g.neighbour_count_iter().iter() {
        assert!(*c > 0);
        assert_eq!(*c, brute_count(&g, *p));
    }
}

#[test]
fn new_ignores_repeats() {
    let g = Grid::new(vec![pos(0, 0), pos(0, 0), pos(1, 0)]);
    assert_eq!(sorted_alive(&g), vec![(0, 0), (1, 0)]);
    assert_eq!(g.neighbour_count(pos(0, 1)), 2);
}

#[test]
fn tick_is_deterministic() {
    let g = grid_of(&[(0, 0), (1, 0), (2, 0), (2, -1), (1, -2)]);
    let a = BasicRuleSet::tick(&g);
    let b = BasicRuleSet::tick(&g);
    assert_eq!(sorted_alive(&a), sorted_alive(&b));
    assert_eq!(sorted_counts(&a), sorted_counts(&b));
}

#[test]
fn tick_of_empty_is_empty() {
    let next = BasicRuleSet::tick(&Grid::empty());
    assert!(next.alive_positions_iter().is_empty());
    assert!(next.neighbour_count_iter().is_empty());
}

#[test]
fn lone_cell_dies() {
    let next = BasicRuleSet::tick(&grid_of(&[(7, -3)]));
    assert!(next.alive_positions_iter().is_empty());
    assert!(next.neighbour_count_iter().is_empty());
}

#[test]
fn blinker_has_period_two() {
    let g = grid_of(&[(-1, 0), (0, 0), (1, 0)]);
    let g1 = BasicRuleSet::tick(&g);
    assert_eq!(sorted_alive(&g1), vec![(0, -1), (0, 0), (0, 1)]);
    let g2 = BasicRuleSet::tick(&g1);
    assert_eq!(sorted_alive(&g2), vec![(-1, 0), (0, 0), (1, 0)]);
}

#[test]
fn block_is_still() {
    let g = grid_of(&[(0, 0), (1, 0), (0, 1), (1, 1)]);
    let g1 = BasicRuleSet::tick(&g);
    assert_eq!(sorted_alive(&g1), vec![(0, 0), (0, 1), (1, 0), (1, 1)]);
}

#[test]
fn birth_needs_exactly_three() {
    let g = grid_of(&[(0, 0), (2, 0), (1, 2)]);
    let g1 = BasicRuleSet::tick(&g);
    assert_eq!(sorted_alive(&g1), vec![(1, 1)]);
}

#[test]
fn glider_moves_one_cell_diagonally_in_four_ticks() {
    let cells = [(1, 0), (2, 1), (0, 2), (1, 2), (2, 2)];
    let mut g = grid_of(&cells);
    for _ in 0..4 {
        g = BasicRuleSet::tick(&g);
    }
    let mut expected: Vec<(i64, i64)> = cells.iter().map(|&(x, y)| (x + 1, y + 1)).collect();
    expected.sort();
    assert_eq!(sorted_alive(&g), expected);
}
