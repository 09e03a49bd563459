use std::collections::{HashMap, HashSet};
use vstd::prelude::*;
use crate::position::{
    GridPosition,
    lemma_neighbour_opposite,
    opposite,
    is_neighbour,
    lemma_neighbour_symmetric,
    lemma_neighbours_distinct,
    neighbour,
};

verus! {

broadcast use vstd::std_specs::hash::group_hash_axioms;

/// How many of the first `n` neighbours of `p` are in `alive`.
pub open spec fn alive_among(alive: Set<GridPosition>, p: GridPosition, n: nat) -> nat
    decreases n,
{
    if n == 0 {
        0
    } else {
        alive_among(alive, p, (n - 1) as nat) + if alive.contains(neighbour(p, n - 1)) {
            1nat
        } else {
            0nat
        }
    }
}

/// The number of the eight neighbours of `p` that are in `alive`.
pub open spec fn live_neighbours(alive: Set<GridPosition>, p: GridPosition) -> nat {
    alive_among(alive, p, 8)
}

/// The neighbour-count mapping determined by a set of live cells: every
/// position with at least one live neighbour, mapped to how many it has.
pub open spec fn neighbour_counts(alive: Set<GridPosition>) -> Map<GridPosition, nat> {
    Map::new(|p: GridPosition| live_neighbours(alive, p) > 0, |p: GridPosition| live_neighbours(alive, p))
}

/// `q` is among the first `n` neighbours of `p`.
pub open spec fn among_first(p: GridPosition, q: GridPosition, n: int) -> bool {
    exists|j: int| 0 <= j < n && #[trigger] neighbour(p, j) == q
}

/// The integer that keys a position in the count table: a bijection between
/// pairs of `i64` and `i128`.
pub open spec fn key(p: GridPosition) -> int {
    p.0 * 0x1_0000_0000_0000_0000 + p.1 + 0x8000_0000_0000_0000
}

pub proof fn lemma_key_injective(p: GridPosition, q: GridPosition)
    ensures
        key(p) == key(q) ==> p == q,
        i128::MIN <= key(p) <= i128::MAX,
        i128::MIN <= key(q) <= i128::MAX,
{
    lemma_key_range(p);
    lemma_key_range(q);
    let a = p.0 as int;
    let b = q.0 as int;
    let u = p.1 + 0x8000_0000_0000_0000;
    let v = q.1 + 0x8000_0000_0000_0000;
    if key(p) == key(q) {
        assert(a == b) by (nonlinear_arith)
            requires
                a * 0x1_0000_0000_0000_0000 + u == b * 0x1_0000_0000_0000_0000 + v,
                0 <= u < 0x1_0000_0000_0000_0000,
                0 <= v < 0x1_0000_0000_0000_0000,
        ;
    }
}

proof fn lemma_key_range(p: GridPosition)
    ensures
        i128::MIN <= key(p) <= i128::MAX,
{
    let a = p.0 as int;
    let u = p.1 + 0x8000_0000_0000_0000;
    assert(-0x8000_0000_0000_0000 * 0x1_0000_0000_0000_0000 <= a * 0x1_0000_0000_0000_0000 <= 0x7fff_ffff_ffff_ffff * 0x1_0000_0000_0000_0000) by (nonlinear_arith)
        requires
            -0x8000_0000_0000_0000 <= a <= 0x7fff_ffff_ffff_ffff,
    ;
}

pub proof fn lemma_alive_among_bound(alive: Set<GridPosition>, p: GridPosition, n: nat)
    ensures
        alive_among(alive, p, n) <= n,
    decreases n,
{
    if n > 0 {
        lemma_alive_among_bound(alive, p, (n - 1) as nat);
    }
}

/// A position with a live neighbour has one at some index.
pub proof fn lemma_alive_among_witness(alive: Set<GridPosition>, p: GridPosition, n: nat)
    requires
        alive_among(alive, p, n) > 0,
    ensures
        exists|i: int| 0 <= i < n && alive.contains(#[trigger] neighbour(p, i)),
    decreases n,
{
    if !alive.contains(neighbour(p, n - 1)) {
        lemma_alive_among_witness(alive, p, (n - 1) as nat);
        let i = choose|i: int| 0 <= i < n - 1 && alive.contains(#[trigger] neighbour(p, i));
        assert(alive.contains(neighbour(p, i)));
    }
}

proof fn lemma_alive_among_insert(alive: Set<GridPosition>, c: GridPosition, q: GridPosition, n: nat)
    requires
        !alive.contains(c),
        n <= 8,
    ensures
        alive_among(alive.insert(c), q, n) == alive_among(alive, q, n) + if among_first(q, c, n as int) {
            1nat
        } else {
            0nat
        },
    decreases n,
{
    if n > 0 {
        lemma_alive_among_insert(alive, c, q, (n - 1) as nat);
        if neighbour(q, n - 1) == c {
            assert(among_first(q, c, n as int));
            if among_first(q, c, n - 1) {
                let j = choose|j: int| 0 <= j < n - 1 && #[trigger] neighbour(q, j) == c;
                lemma_neighbours_distinct(q, j, n - 1);
            }
        } else {
            if among_first(q, c, n as int) {
                let j = choose|j: int| 0 <= j < n && #[trigger] neighbour(q, j) == c;
                assert(among_first(q, c, n - 1));
            }
            if among_first(q, c, n - 1) {
                let j = choose|j: int| 0 <= j < n - 1 && #[trigger] neighbour(q, j) == c;
                assert(among_first(q, c, n as int));
            }
        }
    }
}

/// Bringing `c` to life adds one to the count of each of its neighbours and
/// leaves every other count as it was.
pub proof fn lemma_live_neighbours_insert(alive: Set<GridPosition>, c: GridPosition, q: GridPosition)
    requires
        !alive.contains(c),
    ensures
        live_neighbours(alive.insert(c), q) == live_neighbours(alive, q) + if is_neighbour(c, q) {
            1nat
        } else {
            0nat
        },
{
    lemma_alive_among_insert(alive, c, q, 8);
    lemma_neighbour_symmetric(c, q);
    assert(among_first(q, c, 8) == is_neighbour(q, c));
}

/// Killing `c` takes one from the count of each of its neighbours and leaves
/// every other count as it was.
pub proof fn lemma_live_neighbours_remove(alive: Set<GridPosition>, c: GridPosition, q: GridPosition)
    requires
        alive.contains(c),
    ensures
        live_neighbours(alive, q) == live_neighbours(alive.remove(c), q) + if is_neighbour(c, q) {
            1nat
        } else {
            0nat
        },
{
    assert(alive.remove(c).insert(c) =~= alive);
    lemma_live_neighbours_insert(alive.remove(c), c, q);
}

/// Two well-formed grids with the same live cells hold the same counts.
pub proof fn lemma_same_cells_same_counts(g1: &Grid, g2: &Grid)
    requires
        g1.wf(),
        g2.wf(),
        g1@ == g2@,
    ensures
        g1.counts() == g2.counts(),
{
    g1.lemma_counts();
    g2.lemma_counts();
}

/// Marking a cell alive a second time changes nothing: `once` is `start`
/// after one call, `twice` is `once` after a second call with the same cell.
pub proof fn lemma_mark_alive_idempotent(start: &Grid, once: &Grid, twice: &Grid, p: GridPosition)
    requires
        start.wf(),
        once.wf(),
        twice.wf(),
        once@ == start@.insert(p),
        twice@ == once@.insert(p),
    ensures
        twice@ == once@,
        twice.counts() == once.counts(),
{
    assert(once@.insert(p) =~= once@);
    lemma_same_cells_same_counts(once, twice);
}

/// Marking a cell dead a second time changes nothing: `once` is `start`
/// after one call, `twice` is `once` after a second call with the same cell.
pub proof fn lemma_mark_dead_idempotent(start: &Grid, once: &Grid, twice: &Grid, p: GridPosition)
    requires
        start.wf(),
        once.wf(),
        twice.wf(),
        once@ == start@.remove(p),
        twice@ == once@.remove(p),
    ensures
        twice@ == once@,
        twice.counts() == once.counts(),
{
    assert(once@.remove(p) =~= once@);
    lemma_same_cells_same_counts(once, twice);
}

/// Bringing a dead cell to life and then killing it again gives back the
/// live cells and counts it started from, at every position.
pub proof fn lemma_mark_alive_then_dead(start: &Grid, lit: &Grid, back: &Grid, p: GridPosition)
    requires
        start.wf(),
        lit.wf(),
        back.wf(),
        !start@.contains(p),
        lit@ == start@.insert(p),
        back@ == lit@.remove(p),
    ensures
        back@ == start@,
        back.counts() == start.counts(),
        forall|q: GridPosition| #[trigger] back.stored(q) == start.stored(q),
{
    assert(start@.insert(p).remove(p) =~= start@);
    lemma_same_cells_same_counts(start, back);
}

/// The count stored for `p` in a count table (0 where it has no entry).
pub open spec fn stored_count(m: Map<i128, usize>, p: GridPosition) -> nat {
    if m.contains_key(key(p) as i128) {
        m[key(p) as i128] as nat
    } else {
        0
    }
}

fn position_key(p: GridPosition) -> (r: i128)
    ensures
        r == key(p),
{
    let low: i128 = (p.1 as i128) + 0x8000_0000_0000_0000i128;
    (p.0 as i128) * 0x1_0000_0000_0000_0000i128 + low
}

/// A sparse Game of Life board: the set of live cells and, for every cell with
/// at least one live neighbour, how many it has.
#[derive(Clone, Debug)]
pub struct Grid {
    alive_states: Vec<GridPosition>,
    /// Where each live cell stands in `alive_states`, by key.
    alive_index: HashMap<i128, usize>,
    neighbour_count: HashMap<i128, usize>,
}

impl View for Grid {
    type V = Set<GridPosition>;

    /// The set of live cells.
    closed spec fn view(&self) -> Set<GridPosition> {
        self.alive_states@.to_set()
    }
}

impl Grid {
    /// The count that the grid holds for `p`.
    pub closed spec fn stored(&self, p: GridPosition) -> nat {
        stored_count(self.neighbour_count@, p)
    }

    /// `alive_index` maps the key of each live cell to its place in `alive_states`, and holds nothing else.
    closed spec fn index_wf(&self) -> bool {
        &&& forall|i: int| 0 <= i < self.alive_states@.len() ==> {
            &&& #[trigger] self.alive_index@.contains_key(key(self.alive_states@[i]) as i128)
            &&& self.alive_index@[key(self.alive_states@[i]) as i128] == i
        }
        &&& forall|k: i128| #[trigger] self.alive_index@.contains_key(k) ==> {
            &&& self.alive_index@[k] < self.alive_states@.len()
            &&& key(self.alive_states@[self.alive_index@[k] as int]) == k
        }
    }

    /// The neighbour-count mapping as the grid holds it.
    pub closed spec fn counts(&self) -> Map<GridPosition, nat> {
        Map::new(|p: GridPosition| self.stored(p) > 0, |p: GridPosition| self.stored(p))
    }

    /// The grid's invariant: no live cell is listed twice, no count is zero,
    /// and every stored count is the number of live neighbours.
    pub closed spec fn wf(&self) -> bool {
        &&& self.alive_states@.no_duplicates()
        &&& self.index_wf()
        &&& forall|k: i128| #[trigger]
            self.neighbour_count@.contains_key(k) ==> self.neighbour_count@[k] > 0
        &&& forall|p: GridPosition| #[trigger] self.stored(p) == live_neighbours(self@, p)
    }

    /// What the grid holds as counts is exactly the mapping its live cells
    /// determine.
    pub proof fn lemma_counts(&self)
        requires
            self.wf(),
        ensures
            self.counts() == neighbour_counts(self@),
    {
        assert(self.counts() =~= neighbour_counts(self@));
    }

    pub fn empty() -> (r: Self)
        ensures
            r.wf(),
            r@ == Set::<GridPosition>::empty(),
    {
        let r = Grid { alive_states: Vec::new(), alive_index: HashMap::new(), neighbour_count: HashMap::new() };
        assert(r@ =~= Set::<GridPosition>::empty());
        assert forall|p: GridPosition| #[trigger] r.stored(p) == live_neighbours(r@, p) by {
            lemma_alive_among_bound(r@, p, 8);
            if live_neighbours(r@, p) > 0 {
                lemma_alive_among_witness(r@, p, 8);
            }
        }
        r
    }

    fn find_alive(&self, pos: GridPosition) -> (r: Option<usize>)
        requires
            self.wf(),
        ensures
            match r {
                Some(i) => i < self.alive_states@.len() && self.alive_states@[i as int] == pos,
                None => !self@.contains(pos),
            },
    {
        let k = position_key(pos);
        match self.alive_index.get(&k) {
            Some(i) => {
                proof {
                    lemma_key_injective(self.alive_states@[*i as int], pos);
                }
                Some(*i)
            },
            None => {
                proof {
                    if self.alive_states@.contains(pos) {
                        let j = choose|j: int| 0 <= j < self.alive_states@.len() && self.alive_states@[j] == pos;
                        assert(self.alive_index@.contains_key(key(self.alive_states@[j]) as i128));
                    }
                }
                None
            },
        }
    }

    pub fn is_live(&self, pos: GridPosition) -> (r: bool)
        requires
            self.wf(),
        ensures
            r == self@.contains(pos),
    {
        match self.find_alive(pos) {
            Some(i) => {
                assert(self.alive_states@.contains(pos));
                true
            },
            None => false,
        }
    }

    pub fn is_dead(&self, pos: GridPosition) -> (r: bool)
        requires
            self.wf(),
        ensures
            r == !self@.contains(pos),
    {
        !self.is_live(pos)
    }

    /// The number of live neighbours of `pos`.
    pub fn neighbour_count(&self, pos: GridPosition) -> (r: usize)
        requires
            self.wf(),
        ensures
            r == live_neighbours(self@, pos),
    {
        let k = position_key(pos);
        assert(self.stored(pos) == live_neighbours(self@, pos));
        match self.neighbour_count.get(&k) {
            Some(c) => *c,
            None => 0,
        }
    }
    /// Brings `pos` to life; nothing changes where it is already alive.
    pub fn mark_as_alive(&mut self, pos: GridPosition)
        requires
            old(self).wf(),
        ensures
            final(self).wf(),
            final(self)@ == old(self)@.insert(pos),
    {
        if self.is_live(pos) {
            assert(self@.insert(pos) =~= self@);
            return;
        }
        let ghost old_alive = self@;
        let ghost old_counts = self.neighbour_count@;
        let nbs = pos.neighbours();
        let mut i: usize = 0;
        while i < 8
            invariant
                i <= 8,
                self.alive_states == old(self).alive_states,
                self.alive_index == old(self).alive_index,
                old_alive == old(self)@,
                old_counts == old(self).neighbour_count@,
                old(self).wf(),
                !old_alive.contains(pos),
                forall|j: int| 0 <= j < 8 ==> #[trigger] nbs@[j] == neighbour(pos, j),
                forall|k: i128| #[trigger]
                    self.neighbour_count@.contains_key(k) ==> self.neighbour_count@[k] > 0,
                forall|q: GridPosition| #[trigger]
                    stored_count(self.neighbour_count@, q) == stored_count(old_counts, q) + if among_first(pos, q, i as int) {
                        1nat
                    } else {
                        0nat
                    },
            decreases 8 - i,
        {
            let n = nbs[i];
            let k = position_key(n);
            proof {
                assert(old(self).stored(n) == live_neighbours(old_alive, n));
                lemma_live_neighbours_insert(old_alive, pos, n);
                lemma_alive_among_bound(old_alive.insert(pos), n, 8);
                if among_first(pos, n, i as int) {
                    let j = choose|j: int| 0 <= j < i && #[trigger] neighbour(pos, j) == n;
                    lemma_neighbours_distinct(pos, j, i as int);
                }
            }
            assert(!among_first(pos, n, i as int));
            let ghost prev = self.neighbour_count@;
            let c: usize = match self.neighbour_count.get(&k) {
                Some(c) => *c,
                None => 0,
            };
            assert(c == stored_count(prev, n));
            self.neighbour_count.insert(k, c + 1);
            proof {
                assert forall|q: GridPosition| #[trigger]
                    stored_count(self.neighbour_count@, q) == stored_count(old_counts, q) + if among_first(pos, q, i + 1) {
                        1nat
                    } else {
                        0nat
                    } by {
                    lemma_key_injective(q, n);
                    assert(stored_count(prev, q) == stored_count(old_counts, q) + if among_first(pos, q, i as int) {
                        1nat
                    } else {
                        0nat
                    });
                    if q == n {
                        assert(among_first(pos, q, i + 1));
                        assert(self.neighbour_count@.contains_key(k));
                        assert(self.neighbour_count@[k] == c + 1);
                    } else {
                        assert(key(q) as i128 != k);
                        assert(self.neighbour_count@.contains_key(key(q) as i128) == prev.contains_key(key(q) as i128));
                        if among_first(pos, q, i + 1) {
                            let j = choose|j: int| 0 <= j < i + 1 && #[trigger] neighbour(pos, j) == q;
                            assert(among_first(pos, q, i as int));
                        }
                        if among_first(pos, q, i as int) {
                            let j = choose|j: int| 0 <= j < i && #[trigger] neighbour(pos, j) == q;
                            assert(among_first(pos, q, i + 1));
                        }
                    }
                }
            }
            i += 1;
        }
        let ghost before = self.alive_states@;
        let ghost before_index = self.alive_index@;
        let at = self.alive_states.len();
        self.alive_states.push(pos);
        self.alive_index.insert(position_key(pos), at);
        proof {
            assert forall|i: int| 0 <= i < self.alive_states@.len() implies {
                &&& #[trigger] self.alive_index@.contains_key(key(self.alive_states@[i]) as i128)
                &&& self.alive_index@[key(self.alive_states@[i]) as i128] == i
            } by {
                lemma_key_injective(self.alive_states@[i], pos);
                if i < before.len() {
                    assert(before[i] == self.alive_states@[i]);
                    assert(before.contains(before[i]));
                }
            }
            assert forall|k: i128| #[trigger] self.alive_index@.contains_key(k) implies {
                &&& self.alive_index@[k] < self.alive_states@.len()
                &&& key(self.alive_states@[self.alive_index@[k] as int]) == k
            } by {
                if k != key(pos) as i128 {
                    assert(before_index.contains_key(k));
                }
            }
            assert(self.alive_states@[before.len() as int] == pos);
            assert forall|q: GridPosition| self.alive_states@.contains(q) <==> (before.contains(q) || q == pos) by {
                if before.contains(q) {
                    let j = choose|j: int| 0 <= j < before.len() && before[j] == q;
                    assert(self.alive_states@[j] == q);
                }
                if self.alive_states@.contains(q) && q != pos {
                    let j = choose|j: int| 0 <= j < self.alive_states@.len() && self.alive_states@[j] == q;
                    assert(before[j] == q);
                }
            }
            assert(self.alive_states@.no_duplicates());
            assert(self@ =~= old_alive.insert(pos));
            assert forall|q: GridPosition| #[trigger] self.stored(q) == live_neighbours(self@, q) by {
                assert(old(self).stored(q) == live_neighbours(old_alive, q));
                lemma_live_neighbours_insert(old_alive, pos, q);
            }
        }
    }

    /// Kills `pos`; nothing changes where it is already dead.
    pub fn mark_as_dead(&mut self, pos: GridPosition)
        requires
            old(self).wf(),
        ensures
            final(self).wf(),
            final(self)@ == old(self)@.remove(pos),
    {
        let idx = match self.find_alive(pos) {
            Some(idx) => idx,
            None => {
                assert(self@.remove(pos) =~= self@);
                return;
            },
        };
        let ghost old_alive = self@;
        let ghost old_counts = self.neighbour_count@;
        proof {
            assert(old_alive.contains(pos));
        }
        let nbs = pos.neighbours();
        let mut i: usize = 0;
        while i < 8
            invariant
                i <= 8,
                self.alive_states == old(self).alive_states,
                self.alive_index == old(self).alive_index,
                old_alive == old(self)@,
                old_counts == old(self).neighbour_count@,
                old(self).wf(),
                old_alive.contains(pos),
                forall|j: int| 0 <= j < 8 ==> #[trigger] nbs@[j] == neighbour(pos, j),
                forall|k: i128| #[trigger]
                    self.neighbour_count@.contains_key(k) ==> self.neighbour_count@[k] > 0,
                forall|q: GridPosition| #[trigger]
                    stored_count(self.neighbour_count@, q) + (if among_first(pos, q, i as int) {
                        1nat
                    } else {
                        0nat
                    }) == stored_count(old_counts, q),
            decreases 8 - i,
        {
            let n = nbs[i];
            let k = position_key(n);
            proof {
                assert(old(self).stored(n) == live_neighbours(old_alive, n));
                lemma_live_neighbours_remove(old_alive, pos, n);
                assert(neighbour(pos, i as int) == n);
                assert(is_neighbour(pos, n));
                if among_first(pos, n, i as int) {
                    let j = choose|j: int| 0 <= j < i && #[trigger] neighbour(pos, j) == n;
                    lemma_neighbours_distinct(pos, j, i as int);
                }
            }
            assert(!among_first(pos, n, i as int));
            let ghost prev = self.neighbour_count@;
            let c: usize = match self.neighbour_count.get(&k) {
                Some(c) => *c,
                None => 0,
            };
            assert(c == stored_count(prev, n));
            if c == 1 {
                self.neighbour_count.remove(&k);
            } else {
                self.neighbour_count.insert(k, c - 1);
            }
            proof {
                assert forall|q: GridPosition| #[trigger]
                    stored_count(self.neighbour_count@, q) + (if among_first(pos, q, i + 1) {
                        1nat
                    } else {
                        0nat
                    }) == stored_count(old_counts, q) by {
                    lemma_key_injective(q, n);
                    assert(stored_count(prev, q) + (if among_first(pos, q, i as int) {
                        1nat
                    } else {
                        0nat
                    }) == stored_count(old_counts, q));
                    if q == n {
                        assert(among_first(pos, q, i + 1));
                    } else {
                        assert(key(q) as i128 != k);
                        assert(self.neighbour_count@.contains_key(key(q) as i128) == prev.contains_key(key(q) as i128));
                        if among_first(pos, q, i + 1) {
                            let j = choose|j: int| 0 <= j < i + 1 && #[trigger] neighbour(pos, j) == q;
                            assert(among_first(pos, q, i as int));
                        }
                        if among_first(pos, q, i as int) {
                            let j = choose|j: int| 0 <= j < i && #[trigger] neighbour(pos, j) == q;
                            assert(among_first(pos, q, i + 1));
                        }
                    }
                }
            }
            i += 1;
        }
        let ghost before = self.alive_states@;
        let ghost before_index = self.alive_index@;
        let last = self.alive_states.len() - 1;
        let moved = self.alive_states[last];
        self.alive_states.swap_remove(idx);
        if idx != last {
            self.alive_index.insert(position_key(moved), idx);
        }
        self.alive_index.remove(&position_key(pos));
        proof {
            let after = self.alive_states@;
            assert(before[idx as int] == pos);
            assert(after.len() == last);
            assert forall|j: int| 0 <= j < after.len() implies #[trigger] after[j] == if j == idx {
                before[last as int]
            } else {
                before[j]
            } by {}
            lemma_key_injective(moved, pos);
            assert(idx != last ==> moved != pos);
            assert forall|q: GridPosition| self.alive_states@.contains(q) <==> (before.contains(q) && q != pos) by {
                if after.contains(q) {
                    let j = choose|j: int| 0 <= j < after.len() && after[j] == q;
                    if j == idx {
                        assert(before[last as int] == q);
                    } else {
                        assert(before[j] == q);
                    }
                }
                if before.contains(q) && q != pos {
                    let j = choose|j: int| 0 <= j < before.len() && before[j] == q;
                    if j == last {
                        assert(after[idx as int] == q);
                    } else {
                        assert(after[j] == q);
                    }
                }
            }
            assert forall|i: int| 0 <= i < after.len() implies {
                &&& #[trigger] self.alive_index@.contains_key(key(after[i]) as i128)
                &&& self.alive_index@[key(after[i]) as i128] == i
            } by {
                lemma_key_injective(after[i], pos);
                lemma_key_injective(after[i], moved);
                if i == idx {
                    assert(after[i] == moved);
                } else {
                    assert(after[i] == before[i]);
                    assert(before_index.contains_key(key(before[i]) as i128));
                }
            }
            assert forall|k: i128| #[trigger] self.alive_index@.contains_key(k) implies {
                &&& self.alive_index@[k] < after.len()
                &&& key(after[self.alive_index@[k] as int]) == k
            } by {
                lemma_key_range(pos);
                lemma_key_range(moved);
                if idx != last && k == key(moved) as i128 {
                    assert(after[idx as int] == moved);
                } else {
                    assert(before_index.contains_key(k));
                    let j = before_index[k] as int;
                    assert(key(before[j]) == k);
                    assert(j != idx);
                    assert(j != last);
                    assert(after[j] == before[j]);
                }
            }
            assert(self@ =~= old_alive.remove(pos));
            assert(self.alive_states@.no_duplicates());
            assert forall|q: GridPosition| #[trigger] self.stored(q) == live_neighbours(self@, q) by {
                assert(old(self).stored(q) == live_neighbours(old_alive, q));
                lemma_live_neighbours_remove(old_alive, pos, q);
            }
        }
    }
    /// A grid whose live cells are exactly those listed (repeats are harmless).
    pub fn new(alive_states: Vec<GridPosition>) -> (r: Self)
        ensures
            r.wf(),
            r@ == alive_states@.to_set(),
    {
        let mut grid = Grid::empty();
        let mut i: usize = 0;
        while i < alive_states.len()
            invariant
                i <= alive_states@.len(),
                grid.wf(),
                grid@ == alive_states@.take(i as int).to_set(),
            decreases alive_states@.len() - i,
        {
            grid.mark_as_alive(alive_states[i]);
            proof {
                assert(alive_states@.take(i + 1) =~= alive_states@.take(i as int).push(alive_states@[i as int]));
                alive_states@.take(i as int).lemma_push_to_set_commute(alive_states@[i as int]);
            }
            i += 1;
        }
        assert(alive_states@.take(i as int) =~= alive_states@);
        grid
    }

    /// The live cells, each once, in no particular order.
    pub fn alive_positions_iter(&self) -> (r: Vec<GridPosition>)
        requires
            self.wf(),
        ensures
            r@.no_duplicates(),
            r@.to_set() == self@,
    {
        let mut r: Vec<GridPosition> = Vec::new();
        let mut i: usize = 0;
        while i < self.alive_states.len()
            invariant
                i <= self.alive_states@.len(),
                r@ == self.alive_states@.take(i as int),
            decreases self.alive_states@.len() - i,
        {
            r.push(self.alive_states[i]);
            assert(self.alive_states@.take(i + 1) =~= self.alive_states@.take(i as int).push(self.alive_states@[i as int]));
            i += 1;
        }
        assert(self.alive_states@.take(i as int) =~= self.alive_states@);
        r
    }
    /// Every position with at least one live neighbour, each once, with its
    /// count, in no particular order.
    pub fn neighbour_count_iter(&self) -> (r: Vec<(GridPosition, usize)>)
        requires
            self.wf(),
        ensures
            forall|k: int| 0 <= k < r@.len() ==>
                #[trigger] r@[k].1 == live_neighbours(self@, r@[k].0) && r@[k].1 > 0,
            forall|k1: int, k2: int| 0 <= k1 < r@.len() && 0 <= k2 < r@.len() && k1 != k2
                ==> #[trigger] r@[k1].0 != #[trigger] r@[k2].0,
            forall|p: GridPosition| live_neighbours(self@, p) > 0
                ==> exists|k: int| 0 <= k < r@.len() && #[trigger] r@[k].0 == p,
    {
        let alive = self.alive_positions_iter();
        let ghost a = self@;
        let mut r: Vec<(GridPosition, usize)> = Vec::new();
        let mut seen: HashSet<i128> = HashSet::new();
        let mut i: usize = 0;
        while i < alive.len()
            invariant
                self.wf(),
                a == self@,
                i <= alive@.len(),
                alive@.to_set() == a,
                forall|k: int| 0 <= k < r@.len() ==>
                    #[trigger] r@[k].1 == live_neighbours(a, r@[k].0) && r@[k].1 > 0,
                forall|k1: int, k2: int| 0 <= k1 < r@.len() && 0 <= k2 < r@.len() && k1 != k2
                    ==> #[trigger] r@[k1].0 != #[trigger] r@[k2].0,
                forall|q: GridPosition| #[trigger] seen@.contains(key(q) as i128)
                    <==> exists|k: int| 0 <= k < r@.len() && #[trigger] r@[k].0 == q,
                forall|k: int, j: int| 0 <= k < i && 0 <= j < 8 ==>
                    seen@.contains(key(#[trigger] neighbour(alive@[k], j)) as i128),
            decreases alive@.len() - i,
        {
            let p = alive[i];
            let nbs = p.neighbours();
            proof {
                assert(alive@.contains(p));
            }
            let mut j: usize = 0;
            while j < 8
                invariant
                    self.wf(),
                    a == self@,
                    i < alive@.len(),
                    p == alive@[i as int],
                    a.contains(p),
                    j <= 8,
                    alive@.to_set() == a,
                    forall|m: int| 0 <= m < 8 ==> #[trigger] nbs@[m] == neighbour(p, m),
                    forall|k: int| 0 <= k < r@.len() ==>
                        #[trigger] r@[k].1 == live_neighbours(a, r@[k].0) && r@[k].1 > 0,
                    forall|k1: int, k2: int| 0 <= k1 < r@.len() && 0 <= k2 < r@.len() && k1 != k2
                        ==> #[trigger] r@[k1].0 != #[trigger] r@[k2].0,
                    forall|q: GridPosition| #[trigger] seen@.contains(key(q) as i128)
                        <==> exists|k: int| 0 <= k < r@.len() && #[trigger] r@[k].0 == q,
                    forall|k: int, m: int| 0 <= k < i && 0 <= m < 8 ==>
                        seen@.contains(key(#[trigger] neighbour(alive@[k], m)) as i128),
                    forall|m: int| 0 <= m < j ==>
                        seen@.contains(key(#[trigger] neighbour(p, m)) as i128),
                decreases 8 - j,
            {
                let n = nbs[j];
                let k = position_key(n);
                if !seen.contains(&k) {
                    let c = self.neighbour_count(n);
                    proof {
                        assert(neighbour(p, j as int) == n);
                        lemma_live_neighbours_remove(a, p, n);
                    }
                    let ghost prev = r@;
                    let ghost prev_seen = seen@;
                    r.push((n, c));
                    seen.insert(k);
                    proof {
                        assert(r@[prev.len() as int].0 == n);
                        assert forall|q: GridPosition| #[trigger] seen@.contains(key(q) as i128)
                            <==> exists|w: int| 0 <= w < r@.len() && #[trigger] r@[w].0 == q by {
                            lemma_key_injective(q, n);
                            if prev_seen.contains(key(q) as i128) {
                                let w = choose|w: int| 0 <= w < prev.len() && #[trigger] prev[w].0 == q;
                                assert(r@[w].0 == q);
                            }
                            if exists|w: int| 0 <= w < r@.len() && #[trigger] r@[w].0 == q {
                                let w = choose|w: int| 0 <= w < r@.len() && #[trigger] r@[w].0 == q;
                                if w < prev.len() {
                                    assert(prev[w].0 == q);
                                }
                            }
                        }
                        assert forall|k1: int, k2: int| 0 <= k1 < r@.len() && 0 <= k2 < r@.len() && k1 != k2
                            implies #[trigger] r@[k1].0 != #[trigger] r@[k2].0 by {
                            if k1 == prev.len() {
                                assert(prev[k2].0 == r@[k2].0);
                                if prev[k2].0 == n {
                                    assert(prev_seen.contains(key(n) as i128));
                                }
                            } else if k2 == prev.len() {
                                assert(prev[k1].0 == r@[k1].0);
                                if prev[k1].0 == n {
                                    assert(prev_seen.contains(key(n) as i128));
                                }
                            } else {
                                assert(prev[k1].0 == r@[k1].0);
                                assert(prev[k2].0 == r@[k2].0);
                            }
                        }
                    }
                }
                j += 1;
            }
            i += 1;
        }
        proof {
            assert forall|q: GridPosition| live_neighbours(a, q) > 0
                implies exists|k: int| 0 <= k < r@.len() && #[trigger] r@[k].0 == q by {
                lemma_alive_among_witness(a, q, 8);
                let m = choose|m: int| 0 <= m < 8 && a.contains(#[trigger] neighbour(q, m));
                let p = neighbour(q, m);
                lemma_neighbour_opposite(q, m);
                assert(alive@.contains(p));
                let k = choose|k: int| 0 <= k < alive@.len() && alive@[k] == p;
                assert(seen@.contains(key(neighbour(alive@[k], opposite(m))) as i128));
            }
        }
        r
    }
}

/// A horizontal line of `2 * span + 1` live cells on the x axis, centred on the origin.
pub fn line(span: usize) -> (r: Grid)
    requires
        span <= i64::MAX,
        span < usize::MAX,
    ensures
        r.wf(),
        r@ == Set::new(|p: GridPosition| p.1 == 0 && -span <= p.0 <= span),
{
    let mut grid = Grid::empty();
    let mut x: usize = 0;
    while x <= span
        invariant
            span <= i64::MAX,
            span < usize::MAX,
            x <= span + 1,
            grid.wf(),
            grid@ == Set::new(|p: GridPosition| p.1 == 0 && -x < p.0 < x),
        decreases span + 1 - x,
    {
        grid.mark_as_alive(GridPosition::from_usize_i64(x, 0));
        grid.mark_as_alive(GridPosition::new(-(x as i64), 0));
        assert(grid@ =~= Set::new(|p: GridPosition| p.1 == 0 && -(x + 1) < p.0 < x + 1));
        x += 1;
    }
    assert(grid@ =~= Set::new(|p: GridPosition| p.1 == 0 && -span <= p.0 <= span));
    grid
}

} // verus!
