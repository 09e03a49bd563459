use vstd::prelude::*;
use crate::grid::{
    Grid,
    lemma_alive_among_witness,
    lemma_live_neighbours_insert,
    lemma_same_cells_same_counts,
    live_neighbours,
};
use crate::position::{GridPosition, neighbour, lemma_neighbour_opposite, opposite};

verus! {

/// The cells that stay alive: live cells with two or three live neighbours.
pub open spec fn survivors(alive: Set<GridPosition>) -> Set<GridPosition> {
    alive.filter(|p: GridPosition| live_neighbours(alive, p) == 2 || live_neighbours(alive, p) == 3)
}

/// The cells with exactly three live neighbours (already alive or not).
pub open spec fn births(alive: Set<GridPosition>) -> Set<GridPosition> {
    Set::new(|p: GridPosition| live_neighbours(alive, p) == 3)
}

/// The next generation under the rule "born with three, survives with two or three".
pub open spec fn next_generation(alive: Set<GridPosition>) -> Set<GridPosition> {
    survivors(alive) + births(alive)
}

/// With no live cells there are no live neighbours anywhere.
proof fn lemma_empty_has_no_neighbours(q: GridPosition)
    ensures
        live_neighbours(Set::<GridPosition>::empty(), q) == 0,
{
    if live_neighbours(Set::<GridPosition>::empty(), q) > 0 {
        lemma_alive_among_witness(Set::<GridPosition>::empty(), q, 8);
    }
}

/// The next generation depends on the live cells alone: two ticks of the
/// same grid agree in live cells and in counts.
pub proof fn lemma_tick_deterministic(g: &Grid, r1: &Grid, r2: &Grid)
    requires
        g.wf(),
        r1.wf(),
        r2.wf(),
        r1@ == next_generation(g@),
        r2@ == next_generation(g@),
    ensures
        r1@ == r2@,
        r1.counts() == r2.counts(),
{
    lemma_same_cells_same_counts(r1, r2);
}

/// The empty grid is a fixpoint of the rules.
pub proof fn lemma_empty_fixpoint()
    ensures
        next_generation(Set::<GridPosition>::empty()) == Set::<GridPosition>::empty(),
{
    assert forall|q: GridPosition| !next_generation(Set::<GridPosition>::empty()).contains(q) by {
        lemma_empty_has_no_neighbours(q);
    }
    assert(next_generation(Set::<GridPosition>::empty()) =~= Set::<GridPosition>::empty());
}

/// A lone live cell dies out, and nothing is born around it.
pub proof fn lemma_lone_cell_dies(p: GridPosition)
    ensures
        next_generation(Set::<GridPosition>::empty().insert(p)) == Set::<GridPosition>::empty(),
{
    let a = Set::<GridPosition>::empty().insert(p);
    assert forall|q: GridPosition| !next_generation(a).contains(q) by {
        lemma_empty_has_no_neighbours(q);
        lemma_live_neighbours_insert(Set::<GridPosition>::empty(), p, q);
    }
    assert(next_generation(a) =~= Set::<GridPosition>::empty());
}

/// A rule set: derives the next generation of a grid.
pub trait Ticker {
    fn tick(grid: &Grid) -> (r: Grid)
        requires
            grid.wf(),
        ensures
            r.wf(),
    ;
}

/// The classic Game of Life rules.
pub struct BasicRuleSet {}

impl Ticker for BasicRuleSet {
    fn tick(grid: &Grid) -> (r: Grid)
        ensures
            r@ == next_generation(grid@),
    {
        let alive = grid.alive_positions_iter();
        let ghost a = grid@;
        let mut next: Vec<GridPosition> = Vec::new();
        let mut i: usize = 0;
        while i < alive.len()
            invariant
                grid.wf(),
                a == grid@,
                i <= alive@.len(),
                alive@.to_set() == a,
                forall|k: int| 0 <= k < next@.len() ==> next_generation(a).contains(#[trigger] next@[k]),
                forall|k: int| 0 <= k < i ==> {
                    &&& (survivors(a).contains(#[trigger] alive@[k]) ==> next@.contains(alive@[k]))
                    &&& forall|j: int| 0 <= j < 8 && births(a).contains(#[trigger] neighbour(alive@[k], j))
                        ==> next@.contains(neighbour(alive@[k], j))
                },
            decreases alive@.len() - i,
        {
            let p = alive[i];
            let c = grid.neighbour_count(p);
            let ghost before = next@;
            proof {
                assert(alive@.contains(p));
                assert(a.contains(p));
            }
            if c == 2 || c == 3 {
                next.push(p);
                assert(next@[next@.len() - 1] == p);
            }
            let nbs = p.neighbours();
            let mut j: usize = 0;
            while j < 8
                invariant
                    grid.wf(),
                    a == grid@,
                    i < alive@.len(),
                    p == alive@[i as int],
                    j <= 8,
                    alive@.to_set() == a,
                    forall|m: int| 0 <= m < 8 ==> #[trigger] nbs@[m] == neighbour(p, m),
                    forall|k: int| 0 <= k < before.len() ==> next@[k] == before[k],
                    before.len() <= next@.len(),
                    forall|k: int| 0 <= k < next@.len() ==> next_generation(a).contains(#[trigger] next@[k]),
                    survivors(a).contains(p) ==> next@.contains(p),
                    forall|m: int| 0 <= m < j && births(a).contains(#[trigger] neighbour(p, m))
                        ==> next@.contains(neighbour(p, m)),
                decreases 8 - j,
            {
                let n = nbs[j];
                if grid.neighbour_count(n) == 3 {
                    let ghost prev = next@;
                    next.push(n);
                    proof {
                        assert(next@[prev.len() as int] == n);
                        assert forall|q: GridPosition| prev.contains(q) implies next@.contains(q) by {
                            let k = choose|k: int| 0 <= k < prev.len() && prev[k] == q;
                            assert(next@[k] == q);
                        }
                    }
                }
                j += 1;
            }
            proof {
                assert forall|k: int| 0 <= k < i + 1 implies {
                    &&& (survivors(a).contains(#[trigger] alive@[k]) ==> next@.contains(alive@[k]))
                    &&& forall|m: int| 0 <= m < 8 && births(a).contains(#[trigger] neighbour(alive@[k], m))
                        ==> next@.contains(neighbour(alive@[k], m))
                } by {
                    if k < i {
                        assert forall|q: GridPosition| before.contains(q) implies next@.contains(q) by {
                            let w = choose|w: int| 0 <= w < before.len() && before[w] == q;
                            assert(next@[w] == q);
                        }
                    }
                }
            }
            i += 1;
        }
        proof {
            assert forall|q: GridPosition| next_generation(a).contains(q) implies next@.contains(q) by {
                if survivors(a).contains(q) {
                    assert(alive@.contains(q));
                    let k = choose|k: int| 0 <= k < alive@.len() && alive@[k] == q;
                    assert(survivors(a).contains(alive@[k]));
                } else {
                    assert(births(a).contains(q));
                    lemma_alive_among_witness(a, q, 8);
                    let m = choose|m: int| 0 <= m < 8 && a.contains(#[trigger] neighbour(q, m));
                    let p = neighbour(q, m);
                    lemma_neighbour_opposite(q, m);
                    assert(alive@.contains(p));
                    let k = choose|k: int| 0 <= k < alive@.len() && alive@[k] == p;
                    assert(neighbour(alive@[k], opposite(m)) == q);
                }
            }
            assert(next@.to_set() =~= next_generation(a));
        }
        Grid::new(next)
    }
}

} // verus!
