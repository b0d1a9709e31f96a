//! The automaton engine: a sparse live-cell store with per-cell ages,
//! a generation counter, and the synchronous generation advance.
//!
//! The store is a vector of distinct positions with a parallel vector
//! of ages; its abstract value is the set of live cells as model
//! cells (`live_set`) together with an age for each live cell
//! (`age_of`). Every mutating operation states how it changes that
//! abstraction, and `next_generation` is pinned to the B3/S23 rule of
//! the `rule` module.

use vstd::prelude::*;

use crate::rule;
use crate::rule::Cell;

verus! {

/// A grid coordinate pair, the executable counterpart of a model
/// cell.
#[derive(Clone, Copy, PartialEq, Eq, Structural, Debug)]
pub struct Position {
    pub x: i64,
    pub y: i64,
}

impl View for Position {
    type V = Cell;

    open spec fn view(&self) -> Cell {
        (self.x as int, self.y as int)
    }
}

/// Whether a model cell and its whole Moore neighborhood are
/// representable in `i64` coordinates. The automaton itself has no
/// edge; this is the one limit the machine integers force.
pub open spec fn cell_in_range(q: Cell) -> bool {
    &&& i64::MIN < q.0 < i64::MAX
    &&& i64::MIN < q.1 < i64::MAX
}

/// Whether some entry of `s` stands for the model cell `q`.
pub open spec fn has_pos(s: Seq<Position>, q: Cell) -> bool {
    exists|i: int| 0 <= i < s.len() && s[i]@ == q
}

/// Whether the entries of `s` stand for pairwise distinct cells.
pub open spec fn distinct_positions(s: Seq<Position>) -> bool {
    forall|i: int, j: int| 0 <= i < j < s.len() ==> s[i]@ != s[j]@
}

/// Whether every entry of `s` is in the representable range.
pub open spec fn positions_in_range(s: Seq<Position>) -> bool {
    forall|i: int| 0 <= i < s.len() ==> cell_in_range(#[trigger] s[i]@)
}

impl Position {
    pub fn new(x: i64, y: i64) -> (p: Position)
        ensures
            p@ == (x as int, y as int),
    {
        Position { x, y }
    }

    /// The eight Moore neighbors of this position, in a fixed order.
    pub fn neighbors(&self) -> (r: Vec<Position>)
        requires
            cell_in_range(self@),
        ensures
            r@.len() == 8,
            forall|k: int| 0 <= k < 8 ==> rule::is_neighbor(#[trigger] r@[k]@, self@),
            forall|q: Cell| rule::is_neighbor(q, self@) ==> has_pos(r@, q),
    {
        let mut r: Vec<Position> = Vec::new();
        r.push(Position::new(self.x - 1, self.y - 1));
        r.push(Position::new(self.x - 1, self.y));
        r.push(Position::new(self.x - 1, self.y + 1));
        r.push(Position::new(self.x, self.y - 1));
        r.push(Position::new(self.x, self.y + 1));
        r.push(Position::new(self.x + 1, self.y - 1));
        r.push(Position::new(self.x + 1, self.y));
        r.push(Position::new(self.x + 1, self.y + 1));
        proof {
            assert forall|q: Cell| rule::is_neighbor(q, self@) implies has_pos(r@, q) by {
                rule::lemma_neighbor_is_one_of_eight(self@, q);
                if q == (self@.0 - 1, self@.1 - 1) {
                    assert(r@[0]@ == q);
                } else if q == (self@.0 - 1, self@.1) {
                    assert(r@[1]@ == q);
                } else if q == (self@.0 - 1, self@.1 + 1) {
                    assert(r@[2]@ == q);
                } else if q == (self@.0, self@.1 - 1) {
                    assert(r@[3]@ == q);
                } else if q == (self@.0, self@.1 + 1) {
                    assert(r@[4]@ == q);
                } else if q == (self@.0 + 1, self@.1 - 1) {
                    assert(r@[5]@ == q);
                } else if q == (self@.0 + 1, self@.1) {
                    assert(r@[6]@ == q);
                } else {
                    assert(r@[7]@ == q);
                }
            }
        }
        r
    }
}

/// Appends `p` to `v` unless an entry for the same cell is already
/// present, so that `v` keeps standing for a set.
fn push_unique(v: &mut Vec<Position>, p: Position)
    requires
        distinct_positions(old(v)@),
    ensures
        distinct_positions(final(v)@),
        positions_in_range(old(v)@) && cell_in_range(p@) ==> positions_in_range(final(v)@),
        forall|q: Cell| has_pos(final(v)@, q) <==> has_pos(old(v)@, q) || q == p@,
{
    let n = v.len();
    let mut i: usize = 0;
    #[verifier::loop_isolation(false)]
    while i < n
        invariant
            *v == *old(v),
            0 <= i <= n,
            forall|k: int| 0 <= k < i ==> v@[k]@ != p@,
        decreases n - i,
    {
        if v[i].x == p.x && v[i].y == p.y {
            proof {
                assert(v@[i as int]@ == p@);
            }
            return ;
        }
        i += 1;
    }
    proof {
        assert(!has_pos(v@, p@));
    }
    let ghost prev = v@;
    v.push(p);
    proof {
        assert(v@[prev.len() as int]@ == p@);
        assert(forall|k: int| 0 <= k < prev.len() ==> v@[k] == prev[k]);
        assert forall|q: Cell| has_pos(v@, q) implies has_pos(prev, q) || q == p@ by {
            let k = choose|k: int| 0 <= k < v@.len() && v@[k]@ == q;
            if k < prev.len() {
                assert(prev[k]@ == q);
            }
        }
        assert forall|q: Cell| has_pos(prev, q) implies has_pos(v@, q) by {
            let k = choose|k: int| 0 <= k < prev.len() && prev[k]@ == q;
            assert(v@[k]@ == q);
        }
        assert forall|i2: int, j2: int| 0 <= i2 < j2 < v@.len() implies v@[i2]@ != v@[j2]@ by {
            if j2 == prev.len() {
                if v@[i2]@ == p@ {
                    assert(prev[i2]@ == p@);
                }
            }
        }
    }
}

/// Appends `p` as `push_unique` does, but only when its neighborhood
/// is representable; a cell outside that range is dropped.
fn push_in_range(v: &mut Vec<Position>, p: Position)
    requires
        distinct_positions(old(v)@),
        positions_in_range(old(v)@),
    ensures
        distinct_positions(final(v)@),
        positions_in_range(final(v)@),
        forall|q: Cell|
            has_pos(final(v)@, q) <==> has_pos(old(v)@, q) || (q == p@ && cell_in_range(p@)),
{
    if p.x > i64::MIN && p.x < i64::MAX && p.y > i64::MIN && p.y < i64::MAX {
        push_unique(v, p);
    }
}

/// Whether generation advance confines the world to the grid
/// `[0, width) x [0, height)` or lets it drift on the whole plane.
/// Seeding is never confined: callers may place cells anywhere in
/// either mode.
#[derive(Clone, Copy, PartialEq, Eq, Structural, Debug)]
pub enum BoundsMode {
    Bounded,
    Unbounded,
}

/// The automaton engine.
pub struct GameOfLife {
    live: Vec<Position>,
    ages: Vec<u32>,
    width: i64,
    height: i64,
    mode: BoundsMode,
    generation: u32,
}

impl GameOfLife {
    /// The set of live cells, as model cells.
    pub closed spec fn live_set(self) -> Set<Cell> {
        Set::new(|q: Cell| has_pos(self.live@, q))
    }

    spec fn live_index(self, q: Cell) -> int {
        choose|i: int| 0 <= i < self.live@.len() && self.live@[i]@ == q
    }

    /// The age of a live cell: the number of consecutive generations
    /// it has survived since it was last (re)born. Meaningful only
    /// for cells in `live_set`.
    pub closed spec fn age_of(self, q: Cell) -> nat {
        self.ages@[self.live_index(q)] as nat
    }

    /// The age map: defined exactly on the live cells.
    pub open spec fn age_map(self) -> Map<Cell, nat> {
        Map::new(|q: Cell| self.live_set().contains(q), |q: Cell| self.age_of(q))
    }

    /// The number of generation advances since construction.
    pub closed spec fn spec_generation(self) -> nat {
        self.generation as nat
    }

    /// The grid width given at construction.
    pub closed spec fn spec_width(self) -> int {
        self.width as int
    }

    /// The grid height given at construction.
    pub closed spec fn spec_height(self) -> int {
        self.height as int
    }

    /// The bounds policy given at construction.
    pub closed spec fn spec_mode(self) -> BoundsMode {
        self.mode
    }

    /// Whether `q` lies on the grid `[0, width) x [0, height)`.
    pub open spec fn in_bounds(self, q: Cell) -> bool {
        &&& 0 <= q.0 < self.spec_width()
        &&& 0 <= q.1 < self.spec_height()
    }

    /// Whether generation advance may keep the cell `q`: it must be
    /// representable, and on the grid when the engine is bounded.
    pub open spec fn retains(self, q: Cell) -> bool {
        &&& cell_in_range(q)
        &&& (self.spec_mode() is Bounded ==> self.in_bounds(q))
    }

    /// The live set one generation ahead: the B3/S23 step of the
    /// current live set, restricted to the cells this engine retains.
    pub open spec fn next_live_set(self) -> Set<Cell> {
        Set::new(|q: Cell| rule::next_alive(self.live_set(), q) && self.retains(q))
    }

    /// The engine's internal invariant: the parallel vectors agree in
    /// length, entries are distinct and representable, no age exceeds
    /// the generation counter, and the grid is non-degenerate.
    pub closed spec fn wf(self) -> bool {
        &&& self.ages@.len() == self.live@.len()
        &&& distinct_positions(self.live@)
        &&& positions_in_range(self.live@)
        &&& forall|i: int| 0 <= i < self.ages@.len() ==> #[trigger] self.ages@[i] <= self.generation
        &&& 1 <= self.width
        &&& 1 <= self.height
    }

    proof fn lemma_age_at_index(self, i: int)
        requires
            self.ages@.len() == self.live@.len(),
            distinct_positions(self.live@),
            0 <= i < self.live@.len(),
        ensures
            self.live_set().contains(self.live@[i]@),
            self.age_of(self.live@[i]@) == self.ages@[i] as nat,
    {
        let q = self.live@[i]@;
        assert(has_pos(self.live@, q));
        let j = self.live_index(q);
        assert(0 <= j < self.live@.len() && self.live@[j]@ == q);
        if j != i {
            assert(false);
        }
    }

    /// A fresh engine: empty live set, generation 0, the given grid
    /// and bounds policy.
    pub fn new(width: i64, height: i64, mode: BoundsMode) -> (g: GameOfLife)
        requires
            1 <= width,
            1 <= height,
        ensures
            g.wf(),
            g.live_set() == Set::<Cell>::empty(),
            g.spec_generation() == 0,
            g.spec_width() == width as int,
            g.spec_height() == height as int,
            g.spec_mode() == mode,
    {
        let g = GameOfLife {
            live: Vec::new(),
            ages: Vec::new(),
            width,
            height,
            mode,
            generation: 0,
        };
        proof {
            assert(g.live_set() =~= Set::<Cell>::empty());
        }
        g
    }

    /// Pure membership query: whether the cell at `pos` is live.
    pub fn is_alive(&self, pos: &Position) -> (r: bool)
        ensures
            r == self.live_set().contains(pos@),
    {
        let n = self.live.len();
        let mut i: usize = 0;
        #[verifier::loop_isolation(false)]
        while i < n
            invariant
                0 <= i <= n,
                forall|k: int| 0 <= k < i ==> self.live@[k]@ != pos@,
            decreases n - i,
        {
            if self.live[i].x == pos.x && self.live[i].y == pos.y {
                proof {
                    assert(self.live@[i as int]@ == pos@);
                }
                return true;
            }
            i += 1;
        }
        proof {
            assert(!has_pos(self.live@, pos@));
        }
        false
    }

    /// The number of live cells among the eight Moore neighbors of
    /// `pos`, counted against the current live set.
    pub fn count_live_neighbors(&self, pos: &Position) -> (n: usize)
        requires
            cell_in_range(pos@),
        ensures
            n as int == rule::neighbor_count(self.live_set(), pos@),
            n <= 8,
    {
        let mut n: usize = 0;
        if self.is_alive(&Position::new(pos.x - 1, pos.y - 1)) {
            n += 1;
        }
        if self.is_alive(&Position::new(pos.x - 1, pos.y)) {
            n += 1;
        }
        if self.is_alive(&Position::new(pos.x - 1, pos.y + 1)) {
            n += 1;
        }
        if self.is_alive(&Position::new(pos.x, pos.y - 1)) {
            n += 1;
        }
        if self.is_alive(&Position::new(pos.x, pos.y + 1)) {
            n += 1;
        }
        if self.is_alive(&Position::new(pos.x + 1, pos.y - 1)) {
            n += 1;
        }
        if self.is_alive(&Position::new(pos.x + 1, pos.y)) {
            n += 1;
        }
        if self.is_alive(&Position::new(pos.x + 1, pos.y + 1)) {
            n += 1;
        }
        n
    }

    /// Inserts the cell `(x, y)` into the live set. Idempotent on the
    /// set: inserting a cell that is already live leaves the set
    /// unchanged. The cell's age is set, or reset, to 0; no other
    /// cell's age changes. No grid-bounds validation is applied.
    pub fn add_cell(&mut self, x: i64, y: i64)
        requires
            old(self).wf(),
            cell_in_range((x as int, y as int)),
        ensures
            final(self).wf(),
            final(self).live_set() == old(self).live_set().insert((x as int, y as int)),
            final(self).age_of((x as int, y as int)) == 0,
            forall|q: Cell|
                old(self).live_set().contains(q) && q != (x as int, y as int) ==> final(self).age_of(
                    q,
                ) == old(self).age_of(q),
            final(self).spec_generation() == old(self).spec_generation(),
            final(self).spec_width() == old(self).spec_width(),
            final(self).spec_height() == old(self).spec_height(),
            final(self).spec_mode() == old(self).spec_mode(),
    {
        let pos = Position::new(x, y);
        let n = self.live.len();
        let mut i: usize = 0;
        #[verifier::loop_isolation(false)]
        while i < n
            invariant
                *self == *old(self),
                0 <= i <= n,
                forall|k: int| 0 <= k < i ==> self.live@[k]@ != pos@,
            decreases n - i,
        {
            if self.live[i].x == pos.x && self.live[i].y == pos.y {
                proof {
                    assert(self.live@[i as int]@ == pos@);
                }
                self.ages.set(i, 0);
                proof {
                    self.lemma_age_reset(*old(self), i as int, pos@);
                }
                return ;
            }
            i += 1;
        }
        proof {
            assert(!has_pos(self.live@, pos@));
        }
        self.live.push(pos);
        self.ages.push(0);
        proof {
            self.lemma_age_push(*old(self), pos@);
        }
    }

    /// The age of a cell known to be live.
    fn age_at(&self, pos: &Position) -> (a: u32)
        requires
            self.wf(),
            self.live_set().contains(pos@),
        ensures
            a as nat == self.age_of(pos@),
            a as nat <= self.spec_generation(),
    {
        let n = self.live.len();
        let mut i: usize = 0;
        #[verifier::loop_isolation(false)]
        while i < n
            invariant
                0 <= i <= n,
                forall|k: int| 0 <= k < i ==> self.live@[k]@ != pos@,
            decreases n - i,
        {
            if self.live[i].x == pos.x && self.live[i].y == pos.y {
                proof {
                    assert(self.live@[i as int]@ == pos@);
                    self.lemma_age_at_index(i as int);
                }
                return self.ages[i];
            }
            i += 1;
        }
        proof {
            assert(!has_pos(self.live@, pos@));
            assert(false);
        }
        vstd::pervasive::unreached()
    }

    /// Advances the world by exactly one generation: every cell's
    /// fate is judged by the B3/S23 rule against the stable pre-step
    /// live set, out-of-grid cells are discarded when the engine is
    /// bounded, survivors' ages grow by exactly 1, newborn cells get
    /// age 0, and the generation counter grows by exactly 1. The
    /// result is a function of the pre-step live set and the engine's
    /// configuration alone.
    pub fn next_generation(&mut self)
        requires
            old(self).wf(),
            old(self).spec_generation() < u32::MAX,
        ensures
            final(self).wf(),
            final(self).live_set() == old(self).next_live_set(),
            final(self).spec_generation() == old(self).spec_generation() + 1,
            final(self).spec_width() == old(self).spec_width(),
            final(self).spec_height() == old(self).spec_height(),
            final(self).spec_mode() == old(self).spec_mode(),
            forall|q: Cell|
                final(self).live_set().contains(q) ==> final(self).age_of(q) == (if old(
                    self,
                ).live_set().contains(q) {
                    old(self).age_of(q) + 1
                } else {
                    0nat
                }),
    {
        // Candidate set: every live cell and all of its representable
        // Moore neighbors. Nothing else can be live next generation.
        let mut candidates: Vec<Position> = Vec::new();
        let n = self.live.len();
        let mut i: usize = 0;
        #[verifier::loop_isolation(false)]
        while i < n
            invariant
                0 <= i <= n,
                distinct_positions(candidates@),
                positions_in_range(candidates@),
                forall|k: int| 0 <= k < i ==> has_pos(candidates@, #[trigger] self.live@[k]@),
                forall|k: int, q: Cell|
                    0 <= k < i && #[trigger] rule::is_neighbor(q, self.live@[k]@) && cell_in_range(
                        q,
                    ) ==> has_pos(candidates@, q),
            decreases n - i,
        {
            let ghost head = candidates@;
            let c = self.live[i];
            proof {
                assert(cell_in_range(self.live@[i as int]@));
            }
            push_unique(&mut candidates, c);
            let ghost pre = candidates@;
            let neigh = c.neighbors();
            let mut j: usize = 0;
            #[verifier::loop_isolation(false)]
            while j < 8
                invariant
                    0 <= j <= 8,
                    distinct_positions(candidates@),
                    positions_in_range(candidates@),
                    forall|q: Cell| has_pos(pre, q) ==> has_pos(candidates@, q),
                    forall|t: int|
                        0 <= t < j && cell_in_range(#[trigger] neigh@[t]@) ==> has_pos(
                            candidates@,
                            neigh@[t]@,
                        ),
                decreases 8 - j,
            {
                push_in_range(&mut candidates, neigh[j]);
                j += 1;
            }
            proof {
                assert forall|k: int| 0 <= k < i + 1 implies has_pos(
                    candidates@,
                    #[trigger] self.live@[k]@,
                ) by {
                    if k < i {
                        assert(has_pos(head, self.live@[k]@));
                        assert(has_pos(pre, self.live@[k]@));
                    } else {
                        assert(has_pos(pre, c@));
                    }
                }
                assert forall|k: int, q: Cell|
                    0 <= k < i + 1 && #[trigger] rule::is_neighbor(q, self.live@[k]@)
                        && cell_in_range(q) implies has_pos(candidates@, q) by {
                    if k < i {
                        assert(has_pos(head, q));
                        assert(has_pos(pre, q));
                    } else {
                        assert(rule::is_neighbor(q, c@));
                        assert(has_pos(neigh@, q));
                        let t = choose|t: int| 0 <= t < neigh@.len() && neigh@[t]@ == q;
                        assert(cell_in_range(neigh@[t]@));
                        assert(has_pos(candidates@, neigh@[t]@));
                    }
                }
            }
            i += 1;
        }
        // Judge every candidate against the stable pre-step state.
        let mut new_live: Vec<Position> = Vec::new();
        let mut new_ages: Vec<u32> = Vec::new();
        let m = candidates.len();
        let mut j: usize = 0;
        #[verifier::loop_isolation(false)]
        while j < m
            invariant
                0 <= j <= m,
                new_ages@.len() == new_live@.len(),
                distinct_positions(new_live@),
                positions_in_range(new_live@),
                forall|q: Cell|
                    has_pos(new_live@, q) <==> ((exists|t: int|
                        0 <= t < j && candidates@[t]@ == q) && rule::next_alive(
                        self.live_set(),
                        q,
                    ) && self.retains(q)),
                forall|k: int|
                    0 <= k < new_live@.len() ==> new_ages@[k] as nat == (if self.live_set().contains(
                        #[trigger] new_live@[k]@,
                    ) {
                        self.age_of(new_live@[k]@) + 1
                    } else {
                        0nat
                    }),
                forall|k: int|
                    0 <= k < new_ages@.len() ==> #[trigger] new_ages@[k] as int <= self.generation
                        as int + 1,
            decreases m - j,
        {
            let cand = candidates[j];
            proof {
                assert(cell_in_range(candidates@[j as int]@));
            }
            let ghost prev_live = new_live@;
            let keep = match self.mode {
                BoundsMode::Bounded => cand.x >= 0 && cand.x < self.width && cand.y >= 0 && cand.y
                    < self.height,
                BoundsMode::Unbounded => true,
            };
            let cnt = self.count_live_neighbors(&cand);
            let alive = self.is_alive(&cand);
            let lives_on = (alive && (cnt == 2 || cnt == 3)) || (!alive && cnt == 3);
            let chosen = keep && lives_on;
            proof {
                assert(keep == self.retains(cand@));
                assert(lives_on == rule::next_alive(self.live_set(), cand@));
            }
            if chosen {
                proof {
                    if has_pos(new_live@, cand@) {
                        let t = choose|t: int| 0 <= t < j && candidates@[t]@ == cand@;
                        assert(false);
                    }
                }
                new_live.push(cand);
                if alive {
                    let a = self.age_at(&cand);
                    new_ages.push(a + 1);
                } else {
                    new_ages.push(0);
                }
                proof {
                    assert(forall|k: int| 0 <= k < prev_live.len() ==> new_live@[k] == prev_live[k]);
                    assert(new_live@[prev_live.len() as int]@ == cand@);
                    assert forall|q: Cell| has_pos(new_live@, q) implies has_pos(prev_live, q) || q
                        == cand@ by {
                        let k = choose|k: int| 0 <= k < new_live@.len() && new_live@[k]@ == q;
                        if k < prev_live.len() {
                            assert(prev_live[k]@ == q);
                        }
                    }
                    assert forall|q: Cell| has_pos(prev_live, q) implies has_pos(new_live@, q) by {
                        let k = choose|k: int| 0 <= k < prev_live.len() && prev_live[k]@ == q;
                        assert(new_live@[k]@ == q);
                    }
                    assert forall|i2: int, j2: int| 0 <= i2 < j2 < new_live@.len() implies new_live@[i2]@
                        != new_live@[j2]@ by {
                        if j2 == prev_live.len() {
                            if new_live@[i2]@ == cand@ {
                                assert(prev_live[i2]@ == cand@);
                            }
                        }
                    }
                }
            }
            proof {
                assert forall|q: Cell|
                    has_pos(new_live@, q) <==> ((exists|t: int|
                        0 <= t < j + 1 && candidates@[t]@ == q) && rule::next_alive(
                        self.live_set(),
                        q,
                    ) && self.retains(q)) by {
                    if has_pos(new_live@, q) {
                        if chosen && q == cand@ {
                            assert(candidates@[j as int]@ == q);
                            assert(exists|t: int| 0 <= t < j + 1 && candidates@[t]@ == q);
                        } else {
                            assert(has_pos(prev_live, q));
                            let t0 = choose|t: int| 0 <= t < j && candidates@[t]@ == q;
                            assert(0 <= t0 < j + 1 && candidates@[t0]@ == q);
                        }
                    }
                    if ((exists|t: int| 0 <= t < j + 1 && candidates@[t]@ == q)
                        && rule::next_alive(self.live_set(), q) && self.retains(q)) {
                        let t = choose|t: int| 0 <= t < j + 1 && candidates@[t]@ == q;
                        if t == j {
                            assert(q == cand@);
                            assert(chosen);
                            assert(has_pos(new_live@, q));
                        } else {
                            assert(0 <= t < j && candidates@[t]@ == q);
                            assert(has_pos(prev_live, q));
                            assert(has_pos(new_live@, q));
                        }
                    }
                }
            }
            j += 1;
        }
        let ghost prev = *self;
        self.live = new_live;
        self.ages = new_ages;
        self.generation = self.generation + 1;
        proof {
            assert(self.wf());
            assert(self.live_set() =~= prev.next_live_set()) by {
                assert forall|q: Cell|
                    self.live_set().contains(q) == prev.next_live_set().contains(q) by {
                    if prev.next_live_set().contains(q) {
                        if !(exists|t: int| 0 <= t < m && candidates@[t]@ == q) {
                            assert(!has_pos(candidates@, q));
                            assert(!prev.live_set().contains(q)) by {
                                if prev.live_set().contains(q) {
                                    let k = choose|k: int|
                                        0 <= k < prev.live@.len() && prev.live@[k]@ == q;
                                    assert(has_pos(candidates@, prev.live@[k]@));
                                }
                            }
                            assert forall|c: Cell| prev.live_set().contains(c) implies
                                !rule::is_neighbor(c, q) by {
                                if rule::is_neighbor(c, q) {
                                    let k = choose|k: int|
                                        0 <= k < prev.live@.len() && prev.live@[k]@ == c;
                                    rule::lemma_neighbor_symmetric(c, q);
                                    assert(has_pos(candidates@, q));
                                }
                            }
                            rule::lemma_candidate_sufficiency(prev.live_set(), q);
                            assert(false);
                        }
                    }
                }
            }
            assert forall|q: Cell| self.live_set().contains(q) implies self.age_of(q) == (if prev.live_set().contains(
                q,
            ) {
                prev.age_of(q) + 1
            } else {
                0nat
            }) by {
                let k = choose|k: int| 0 <= k < self.live@.len() && self.live@[k]@ == q;
                self.lemma_age_at_index(k);
            }
        }
    }

    /// A well-formed engine has a grid of at least 1 x 1, with
    /// dimensions representable as `i64` values.
    pub proof fn lemma_wf_dims(self)
        requires
            self.wf(),
        ensures
            1 <= self.spec_width() <= i64::MAX,
            1 <= self.spec_height() <= i64::MAX,
    {
    }

    proof fn lemma_live_set_len(self)
        requires
            distinct_positions(self.live@),
        ensures
            self.live_set().finite(),
            self.live_set().len() == self.live@.len(),
    {
        broadcast use vstd::seq_lib::seq_to_set_is_finite;

        let views = self.live@.map_values(|p: Position| p@);
        assert(views.no_duplicates());
        views.unique_seq_to_set();
        assert(self.live_set() =~= views.to_set()) by {
            assert forall|q: Cell| self.live_set().contains(q) implies views.to_set().contains(
                q,
            ) by {
                let k = choose|k: int| 0 <= k < self.live@.len() && self.live@[k]@ == q;
                assert(views[k] == q);
            }
            assert forall|q: Cell| views.to_set().contains(q) implies self.live_set().contains(
                q,
            ) by {
                let k = choose|k: int| 0 <= k < views.len() && views[k] == q;
                assert(self.live@[k]@ == q);
            }
        }
    }

    /// The number of live cells.
    pub fn population(&self) -> (n: usize)
        requires
            self.wf(),
        ensures
            n == self.live_set().len(),
    {
        proof {
            self.lemma_live_set_len();
        }
        self.live.len()
    }

    /// A read-only snapshot of the live cells, each exactly once, in
    /// unspecified order.
    pub fn live_cells(&self) -> (r: Vec<Position>)
        requires
            self.wf(),
        ensures
            r@.len() == self.live_set().len(),
            distinct_positions(r@),
            forall|q: Cell| has_pos(r@, q) <==> self.live_set().contains(q),
    {
        proof {
            self.lemma_live_set_len();
        }
        let mut r: Vec<Position> = Vec::new();
        let n = self.live.len();
        let mut i: usize = 0;
        #[verifier::loop_isolation(false)]
        while i < n
            invariant
                0 <= i <= n,
                r@ == self.live@.subrange(0, i as int),
            decreases n - i,
        {
            r.push(self.live[i]);
            proof {
                assert(r@ =~= self.live@.subrange(0, i as int + 1));
            }
            i += 1;
        }
        proof {
            assert(self.live@.subrange(0, n as int) =~= self.live@);
        }
        r
    }

    /// The age of the cell at `pos`: `Some` exactly when it is live.
    pub fn cell_age(&self, pos: &Position) -> (r: Option<u32>)
        requires
            self.wf(),
        ensures
            match r {
                Some(a) => self.live_set().contains(pos@) && a as nat == self.age_of(pos@),
                None => !self.live_set().contains(pos@),
            },
    {
        let n = self.live.len();
        let mut i: usize = 0;
        #[verifier::loop_isolation(false)]
        while i < n
            invariant
                0 <= i <= n,
                forall|k: int| 0 <= k < i ==> self.live@[k]@ != pos@,
            decreases n - i,
        {
            if self.live[i].x == pos.x && self.live[i].y == pos.y {
                proof {
                    assert(self.live@[i as int]@ == pos@);
                    self.lemma_age_at_index(i as int);
                }
                return Some(self.ages[i]);
            }
            i += 1;
        }
        proof {
            assert(!has_pos(self.live@, pos@));
        }
        None
    }

    /// The number of generation advances so far.
    pub fn generation(&self) -> (g: u32)
        ensures
            g as nat == self.spec_generation(),
    {
        self.generation
    }

    /// The grid width given at construction.
    pub fn width(&self) -> (w: i64)
        ensures
            w as int == self.spec_width(),
    {
        self.width
    }

    /// The grid height given at construction.
    pub fn height(&self) -> (h: i64)
        ensures
            h as int == self.spec_height(),
    {
        self.height
    }

    /// The bounds policy given at construction.
    pub fn bounds_mode(&self) -> (m: BoundsMode)
        ensures
            m == self.spec_mode(),
    {
        self.mode
    }

    /// After resetting the age at index `i` (the entry for `q`), the
    /// live set is unchanged up to re-insertion of `q`, `q` has age 0,
    /// and every other live cell keeps its age.
    proof fn lemma_age_reset(self, prev: GameOfLife, i: int, q: Cell)
        requires
            prev.wf(),
            0 <= i < prev.live@.len(),
            prev.live@[i]@ == q,
            self.live == prev.live,
            self.ages@ == prev.ages@.update(i, 0u32),
            self.width == prev.width,
            self.height == prev.height,
            self.mode == prev.mode,
            self.generation == prev.generation,
        ensures
            self.wf(),
            self.live_set() == prev.live_set().insert(q),
            self.age_of(q) == 0,
            forall|c: Cell|
                prev.live_set().contains(c) && c != q ==> self.age_of(c) == prev.age_of(c),
    {
        assert(self.live_set() =~= prev.live_set().insert(q)) by {
            assert(has_pos(prev.live@, q));
        }
        self.lemma_age_at_index(i);
        assert forall|c: Cell| prev.live_set().contains(c) && c != q implies self.age_of(c)
            == prev.age_of(c) by {
            let k = choose|k: int| 0 <= k < prev.live@.len() && prev.live@[k]@ == c;
            assert(k != i);
            prev.lemma_age_at_index(k);
            self.lemma_age_at_index(k);
        }
    }

    /// After pushing a new entry for `q` with age 0, the live set
    /// gains `q`, `q` has age 0, and every other live cell keeps its
    /// age.
    proof fn lemma_age_push(self, prev: GameOfLife, q: Cell)
        requires
            prev.wf(),
            !has_pos(prev.live@, q),
            cell_in_range(q),
            self.live@ == prev.live@.push(Position { x: q.0 as i64, y: q.1 as i64 }),
            self.ages@ == prev.ages@.push(0u32),
            self.width == prev.width,
            self.height == prev.height,
            self.mode == prev.mode,
            self.generation == prev.generation,
        ensures
            self.wf(),
            self.live_set() == prev.live_set().insert(q),
            self.age_of(q) == 0,
            forall|c: Cell|
                prev.live_set().contains(c) && c != q ==> self.age_of(c) == prev.age_of(c),
    {
        let n = prev.live@.len() as int;
        assert(self.live@[n]@ == q);
        assert(forall|k: int| 0 <= k < n ==> self.live@[k] == prev.live@[k]);
        assert(distinct_positions(self.live@)) by {
            assert forall|i: int, j: int| 0 <= i < j < self.live@.len() implies self.live@[i]@
                != self.live@[j]@ by {
                if j == n {
                    assert(self.live@[i]@ == prev.live@[i]@);
                    if self.live@[i]@ == q {
                        assert(has_pos(prev.live@, q));
                    }
                }
            }
        }
        assert(self.live_set() =~= prev.live_set().insert(q)) by {
            assert forall|c: Cell| self.live_set().contains(c) implies prev.live_set().insert(
                q,
            ).contains(c) by {
                let k = choose|k: int| 0 <= k < self.live@.len() && self.live@[k]@ == c;
                if k < n {
                    assert(has_pos(prev.live@, c));
                }
            }
            assert forall|c: Cell| prev.live_set().contains(c) implies self.live_set().contains(
                c,
            ) by {
                let k = choose|k: int| 0 <= k < prev.live@.len() && prev.live@[k]@ == c;
                assert(self.live@[k]@ == c);
            }
            assert(self.live_set().contains(q));
        }
        self.lemma_age_at_index(n);
        assert forall|c: Cell| prev.live_set().contains(c) && c != q implies self.age_of(c)
            == prev.age_of(c) by {
            let k = choose|k: int| 0 <= k < prev.live@.len() && prev.live@[k]@ == c;
            assert(self.live@[k]@ == c);
            prev.lemma_age_at_index(k);
            self.lemma_age_at_index(k);
        }
    }
}

/// The display tier of a cell age: 0 for a newborn cell, then the
/// bands 1–2, 3–5, 6–10, and 11 or more.
pub fn age_tier(age: u32) -> (t: u8)
    ensures
        age == 0 ==> t == 0,
        1 <= age <= 2 ==> t == 1,
        3 <= age <= 5 ==> t == 2,
        6 <= age <= 10 ==> t == 3,
        age >= 11 ==> t == 4,
{
    if age == 0 {
        0
    } else if age <= 2 {
        1
    } else if age <= 5 {
        2
    } else if age <= 10 {
        3
    } else {
        4
    }
}

/// Determinism: two engines over the same live set and the same
/// configuration agree on the live set one generation ahead, so
/// advancing independently constructed engines seeded alike yields
/// identical results.
pub proof fn lemma_next_generation_deterministic(a: GameOfLife, b: GameOfLife)
    requires
        a.live_set() == b.live_set(),
        a.spec_mode() == b.spec_mode(),
        a.spec_width() == b.spec_width(),
        a.spec_height() == b.spec_height(),
    ensures
        a.next_live_set() == b.next_live_set(),
{
    assert(a.next_live_set() =~= b.next_live_set());
}

/// Idempotent seeding: inserting the same cell twice leaves the live
/// set exactly as one insertion does, with the cell present once.
pub proof fn lemma_add_cell_idempotent(s: Set<Cell>, q: Cell)
    ensures
        s.insert(q).insert(q) == s.insert(q),
{
    assert(s.insert(q).insert(q) =~= s.insert(q));
}

/// Extinction: an engine whose live set is empty steps to an empty
/// live set, whatever its configuration.
pub proof fn lemma_extinct_world_stays_empty(g: GameOfLife)
    requires
        g.live_set() == Set::<Cell>::empty(),
    ensures
        g.next_live_set() == Set::<Cell>::empty(),
{
    assert(g.next_live_set() =~= Set::<Cell>::empty()) by {
        assert forall|q: Cell| !g.next_live_set().contains(q) by {
            rule::lemma_empty_next_alive(q);
        }
    }
}

} // verus!
