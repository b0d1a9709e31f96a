//! The classic seed patterns, each a fixed list of offsets from an
//! anchor, inserted cell by cell through `add_cell`.
//!
//! Every seeder states the same contract: the live set grows by
//! exactly the anchored cells of the pattern, the seeded cells get
//! age 0, every other live cell keeps its age, and nothing else of
//! the engine changes.

use vstd::prelude::*;

use crate::engine::{GameOfLife, cell_in_range};
use crate::rule::Cell;

verus! {

/// The cells seeded by `offsets` anchored at `(x, y)`.
pub open spec fn anchored_cells(offsets: Seq<(i64, i64)>, x: int, y: int) -> Set<Cell> {
    Set::new(
        |q: Cell|
            exists|k: int|
                0 <= k < offsets.len() && q == (x + #[trigger] offsets[k].0, y + offsets[k].1),
    )
}

/// Whether every cell of `offsets` anchored at `(x, y)` is
/// representable.
pub open spec fn anchor_in_range(offsets: Seq<(i64, i64)>, x: int, y: int) -> bool {
    forall|k: int|
        0 <= k < offsets.len() ==> cell_in_range(
            (x + #[trigger] offsets[k].0, y + offsets[k].1),
        )
}

/// The glider, drifting one cell down-right every four generations.
pub open spec fn glider_offsets() -> Seq<(i64, i64)> {
    seq![(1i64, 0i64), (2i64, 1i64), (0i64, 2i64), (1i64, 2i64), (2i64, 2i64)]
}

/// The period-2 blinker: three cells in a row.
pub open spec fn blinker_offsets() -> Seq<(i64, i64)> {
    seq![(0i64, 0i64), (1i64, 0i64), (2i64, 0i64)]
}

/// The still-life block: a stable 2x2 square.
pub open spec fn block_offsets() -> Seq<(i64, i64)> {
    seq![(0i64, 0i64), (1i64, 0i64), (0i64, 1i64), (1i64, 1i64)]
}

/// The period-2 beacon: two diagonal corner triples.
pub open spec fn beacon_offsets() -> Seq<(i64, i64)> {
    seq![(0i64, 0i64), (1i64, 0i64), (0i64, 1i64), (2i64, 3i64), (3i64, 2i64), (3i64, 3i64)]
}

/// The R-pentomino, a long-lived 5-cell methuselah.
pub open spec fn rpentomino_offsets() -> Seq<(i64, i64)> {
    seq![(1i64, 0i64), (2i64, 0i64), (0i64, 1i64), (1i64, 1i64), (1i64, 2i64)]
}

/// The acorn, a 7-cell methuselah.
pub open spec fn acorn_offsets() -> Seq<(i64, i64)> {
    seq![
        (1i64, 0i64),
        (3i64, 1i64),
        (0i64, 2i64),
        (1i64, 2i64),
        (4i64, 2i64),
        (5i64, 2i64),
        (6i64, 2i64),
    ]
}

/// The diehard, which dies out after 130 generations.
pub open spec fn diehard_offsets() -> Seq<(i64, i64)> {
    seq![
        (6i64, 0i64),
        (0i64, 1i64),
        (1i64, 1i64),
        (1i64, 2i64),
        (5i64, 2i64),
        (6i64, 2i64),
        (7i64, 2i64),
    ]
}

/// The Gosper glider gun, which emits a glider every 30 generations.
pub open spec fn gosper_gun_offsets() -> Seq<(i64, i64)> {
    seq![
        (24i64, 0i64),
        (22i64, 1i64),
        (24i64, 1i64),
        (12i64, 2i64),
        (13i64, 2i64),
        (20i64, 2i64),
        (21i64, 2i64),
        (34i64, 2i64),
        (35i64, 2i64),
        (11i64, 3i64),
        (15i64, 3i64),
        (20i64, 3i64),
        (21i64, 3i64),
        (34i64, 3i64),
        (35i64, 3i64),
        (0i64, 4i64),
        (1i64, 4i64),
        (10i64, 4i64),
        (16i64, 4i64),
        (20i64, 4i64),
        (21i64, 4i64),
        (0i64, 5i64),
        (1i64, 5i64),
        (10i64, 5i64),
        (14i64, 5i64),
        (16i64, 5i64),
        (17i64, 5i64),
        (22i64, 5i64),
        (24i64, 5i64),
        (10i64, 6i64),
        (16i64, 6i64),
        (24i64, 6i64),
        (11i64, 7i64),
        (15i64, 7i64),
        (12i64, 8i64),
        (13i64, 8i64),
    ]
}

/// The pentadecathlon, an oscillator of period 15.
pub open spec fn pentadecathlon_offsets() -> Seq<(i64, i64)> {
    seq![
        (0i64, 0i64),
        (1i64, 0i64),
        (2i64, 0i64),
        (3i64, 0i64),
        (1i64, -1i64),
        (1i64, 1i64),
        (4i64, -1i64),
        (4i64, 1i64),
        (5i64, 0i64),
        (6i64, 0i64),
        (7i64, 0i64),
        (8i64, 0i64),
    ]
}

impl GameOfLife {
    /// Seeds every offset of `offsets`, anchored at `(x, y)`, one
    /// `add_cell` at a time.
    fn seed_offsets(&mut self, x: i64, y: i64, offsets: &Vec<(i64, i64)>)
        requires
            old(self).wf(),
            anchor_in_range(offsets@, x as int, y as int),
        ensures
            final(self).wf(),
            final(self).live_set() == old(self).live_set().union(
                anchored_cells(offsets@, x as int, y as int),
            ),
            forall|q: Cell|
                anchored_cells(offsets@, x as int, y as int).contains(q) ==> final(self).age_of(q)
                    == 0,
            forall|q: Cell|
                old(self).live_set().contains(q) && !anchored_cells(
                    offsets@,
                    x as int,
                    y as int,
                ).contains(q) ==> final(self).age_of(q) == old(self).age_of(q),
            final(self).spec_generation() == old(self).spec_generation(),
            final(self).spec_width() == old(self).spec_width(),
            final(self).spec_height() == old(self).spec_height(),
            final(self).spec_mode() == old(self).spec_mode(),
    {
        let n = offsets.len();
        let mut k: usize = 0;
        #[verifier::loop_isolation(false)]
        while k < n
            invariant
                0 <= k <= n,
                self.wf(),
                forall|q: Cell|
                    self.live_set().contains(q) <==> old(self).live_set().contains(q) || (exists|
                        t: int,
                    |
                        0 <= t < k && q == (
                            x + #[trigger] offsets@[t].0,
                            y + offsets@[t].1,
                        )),
                forall|t: int|
                    0 <= t < k ==> self.age_of(
                        (x + #[trigger] offsets@[t].0, y + offsets@[t].1),
                    ) == 0,
                forall|q: Cell|
                    old(self).live_set().contains(q) && !(exists|t: int|
                        0 <= t < k && q == (x + #[trigger] offsets@[t].0, y + offsets@[t].1))
                        ==> self.age_of(q) == old(self).age_of(q),
                self.spec_generation() == old(self).spec_generation(),
                self.spec_width() == old(self).spec_width(),
                self.spec_height() == old(self).spec_height(),
                self.spec_mode() == old(self).spec_mode(),
            decreases n - k,
        {
            let (dx, dy) = offsets[k];
            proof {
                assert(cell_in_range((x + offsets@[k as int].0, y + offsets@[k as int].1)));
            }
            let ghost mid = *self;
            let cx = x + dx;
            let cy = y + dy;
            self.add_cell(cx, cy);
            proof {
                let c: Cell = (cx as int, cy as int);
                assert(c == (x + offsets@[k as int].0, y + offsets@[k as int].1));
                assert forall|q: Cell|
                    self.live_set().contains(q) <==> old(self).live_set().contains(q) || (exists|
                        t: int,
                    |
                        0 <= t < k + 1 && q == (
                            x + #[trigger] offsets@[t].0,
                            y + offsets@[t].1,
                        )) by {
                    if self.live_set().contains(q) {
                        if q == c {
                            assert(q == (x + offsets@[k as int].0, y + offsets@[k as int].1));
                        } else {
                            assert(mid.live_set().contains(q));
                            if !old(self).live_set().contains(q) {
                                let t0 = choose|t: int|
                                    0 <= t < k && q == (
                                        x + #[trigger] offsets@[t].0,
                                        y + offsets@[t].1,
                                    );
                                assert(q == (x + offsets@[t0].0, y + offsets@[t0].1));
                            }
                        }
                    }
                    if (exists|t: int|
                        0 <= t < k + 1 && q == (x + #[trigger] offsets@[t].0, y + offsets@[t].1)) {
                        let t = choose|t: int|
                            0 <= t < k + 1 && q == (x + #[trigger] offsets@[t].0, y + offsets@[t].1);
                        if t == k {
                            assert(q == c);
                        } else {
                            assert(0 <= t < k && q == (x + offsets@[t].0, y + offsets@[t].1));
                            assert(mid.live_set().contains(q));
                        }
                    }
                }
                assert forall|t: int| 0 <= t < k + 1 implies self.age_of(
                    (x + #[trigger] offsets@[t].0, y + offsets@[t].1),
                ) == 0 by {
                    let q: Cell = (x + offsets@[t].0, y + offsets@[t].1);
                    if t < k {
                        if q != c {
                            assert(mid.live_set().contains(q));
                            assert(mid.age_of(q) == 0);
                        }
                    }
                }
                assert forall|q: Cell|
                    old(self).live_set().contains(q) && !(exists|t: int|
                        0 <= t < k + 1 && q == (x + #[trigger] offsets@[t].0, y + offsets@[t].1))
                        implies self.age_of(q) == old(self).age_of(q) by {
                    assert(q != c) by {
                        if q == c {
                            assert(q == (x + offsets@[k as int].0, y + offsets@[k as int].1));
                        }
                    }
                    assert(!(exists|t: int|
                        0 <= t < k && q == (x + #[trigger] offsets@[t].0, y + offsets@[t].1)));
                    assert(mid.age_of(q) == old(self).age_of(q));
                    assert(mid.live_set().contains(q));
                }
            }
            k += 1;
        }
        proof {
            assert(self.live_set() =~= old(self).live_set().union(
                anchored_cells(offsets@, x as int, y as int),
            ));
            assert forall|q: Cell|
                anchored_cells(offsets@, x as int, y as int).contains(q) implies self.age_of(q)
                == 0 by {
                let t = choose|t: int|
                    0 <= t < offsets@.len() && q == (x + #[trigger] offsets@[t].0, y + offsets@[t].1);
                assert(self.age_of((x + offsets@[t].0, y + offsets@[t].1)) == 0);
            }
        }
    }
    /// Seeds a glider anchored at `(x, y)`.
    pub fn add_glider(&mut self, x: i64, y: i64)
        requires
            old(self).wf(),
            i64::MIN < x,
            x + 2 < i64::MAX,
            i64::MIN < y,
            y + 2 < i64::MAX,
        ensures
            final(self).wf(),
            final(self).live_set() == old(self).live_set().union(
                anchored_cells(glider_offsets(), x as int, y as int),
            ),
            forall|q: Cell|
                anchored_cells(glider_offsets(), x as int, y as int).contains(q) ==> final(self).age_of(
                    q,
                ) == 0,
            forall|q: Cell|
                old(self).live_set().contains(q) && !anchored_cells(
                    glider_offsets(),
                    x as int,
                    y as int,
                ).contains(q) ==> final(self).age_of(q) == old(self).age_of(q),
            final(self).spec_generation() == old(self).spec_generation(),
            final(self).spec_width() == old(self).spec_width(),
            final(self).spec_height() == old(self).spec_height(),
            final(self).spec_mode() == old(self).spec_mode(),
    {
        let mut offs: Vec<(i64, i64)> = Vec::new();
        offs.push((1, 0));
        offs.push((2, 1));
        offs.push((0, 2));
        offs.push((1, 2));
        offs.push((2, 2));
        proof {
            assert(offs@ =~= glider_offsets());
            assert forall|k: int| 0 <= k < offs@.len() implies cell_in_range(
                (x + #[trigger] offs@[k].0, y + offs@[k].1),
            ) by {
                assert(0 <= offs@[k].0 <= 2 && 0 <= offs@[k].1 <= 2);
            }
        }
        self.seed_offsets(x, y, &offs);
    }
    /// Seeds a blinker anchored at `(x, y)`.
    pub fn add_blinker(&mut self, x: i64, y: i64)
        requires
            old(self).wf(),
            i64::MIN < x,
            x + 2 < i64::MAX,
            i64::MIN < y,
            y < i64::MAX,
        ensures
            final(self).wf(),
            final(self).live_set() == old(self).live_set().union(
                anchored_cells(blinker_offsets(), x as int, y as int),
            ),
            forall|q: Cell|
                anchored_cells(blinker_offsets(), x as int, y as int).contains(q) ==> final(self).age_of(
                    q,
                ) == 0,
            forall|q: Cell|
                old(self).live_set().contains(q) && !anchored_cells(
                    blinker_offsets(),
                    x as int,
                    y as int,
                ).contains(q) ==> final(self).age_of(q) == old(self).age_of(q),
            final(self).spec_generation() == old(self).spec_generation(),
            final(self).spec_width() == old(self).spec_width(),
            final(self).spec_height() == old(self).spec_height(),
            final(self).spec_mode() == old(self).spec_mode(),
    {
        let mut offs: Vec<(i64, i64)> = Vec::new();
        offs.push((0, 0));
        offs.push((1, 0));
        offs.push((2, 0));
        proof {
            assert(offs@ =~= blinker_offsets());
            assert forall|k: int| 0 <= k < offs@.len() implies cell_in_range(
                (x + #[trigger] offs@[k].0, y + offs@[k].1),
            ) by {
                assert(0 <= offs@[k].0 <= 2 && 0 <= offs@[k].1 <= 0);
            }
        }
        self.seed_offsets(x, y, &offs);
    }

    /// Seeds a block anchored at `(x, y)`.
    pub fn add_block(&mut self, x: i64, y: i64)
        requires
            old(self).wf(),
            i64::MIN < x,
            x + 1 < i64::MAX,
            i64::MIN < y,
            y + 1 < i64::MAX,
        ensures
            final(self).wf(),
            final(self).live_set() == old(self).live_set().union(
                anchored_cells(block_offsets(), x as int, y as int),
            ),
            forall|q: Cell|
                anchored_cells(block_offsets(), x as int, y as int).contains(q) ==> final(self).age_of(
                    q,
                ) == 0,
            forall|q: Cell|
                old(self).live_set().contains(q) && !anchored_cells(
                    block_offsets(),
                    x as int,
                    y as int,
                ).contains(q) ==> final(self).age_of(q) == old(self).age_of(q),
            final(self).spec_generation() == old(self).spec_generation(),
            final(self).spec_width() == old(self).spec_width(),
            final(self).spec_height() == old(self).spec_height(),
            final(self).spec_mode() == old(self).spec_mode(),
    {
        let mut offs: Vec<(i64, i64)> = Vec::new();
        offs.push((0, 0));
        offs.push((1, 0));
        offs.push((0, 1));
        offs.push((1, 1));
        proof {
            assert(offs@ =~= block_offsets());
            assert forall|k: int| 0 <= k < offs@.len() implies cell_in_range(
                (x + #[trigger] offs@[k].0, y + offs@[k].1),
            ) by {
                assert(0 <= offs@[k].0 <= 1 && 0 <= offs@[k].1 <= 1);
            }
        }
        self.seed_offsets(x, y, &offs);
    }

    /// Seeds a beacon anchored at `(x, y)`.
    pub fn add_beacon(&mut self, x: i64, y: i64)
        requires
            old(self).wf(),
            i64::MIN < x,
            x + 3 < i64::MAX,
            i64::MIN < y,
            y + 3 < i64::MAX,
        ensures
            final(self).wf(),
            final(self).live_set() == old(self).live_set().union(
                anchored_cells(beacon_offsets(), x as int, y as int),
            ),
            forall|q: Cell|
                anchored_cells(beacon_offsets(), x as int, y as int).contains(q) ==> final(self).age_of(
                    q,
                ) == 0,
            forall|q: Cell|
                old(self).live_set().contains(q) && !anchored_cells(
                    beacon_offsets(),
                    x as int,
                    y as int,
                ).contains(q) ==> final(self).age_of(q) == old(self).age_of(q),
            final(self).spec_generation() == old(self).spec_generation(),
            final(self).spec_width() == old(self).spec_width(),
            final(self).spec_height() == old(self).spec_height(),
            final(self).spec_mode() == old(self).spec_mode(),
    {
        let mut offs: Vec<(i64, i64)> = Vec::new();
        offs.push((0, 0));
        offs.push((1, 0));
        offs.push((0, 1));
        offs.push((2, 3));
        offs.push((3, 2));
        offs.push((3, 3));
        proof {
            assert(offs@ =~= beacon_offsets());
            assert forall|k: int| 0 <= k < offs@.len() implies cell_in_range(
                (x + #[trigger] offs@[k].0, y + offs@[k].1),
            ) by {
                assert(0 <= offs@[k].0 <= 3 && 0 <= offs@[k].1 <= 3);
            }
        }
        self.seed_offsets(x, y, &offs);
    }

    /// Seeds an R-pentomino anchored at `(x, y)`.
    pub fn add_rpentomino(&mut self, x: i64, y: i64)
        requires
            old(self).wf(),
            i64::MIN < x,
            x + 2 < i64::MAX,
            i64::MIN < y,
            y + 2 < i64::MAX,
        ensures
            final(self).wf(),
            final(self).live_set() == old(self).live_set().union(
                anchored_cells(rpentomino_offsets(), x as int, y as int),
            ),
            forall|q: Cell|
                anchored_cells(rpentomino_offsets(), x as int, y as int).contains(q) ==> final(self).age_of(
                    q,
                ) == 0,
            forall|q: Cell|
                old(self).live_set().contains(q) && !anchored_cells(
                    rpentomino_offsets(),
                    x as int,
                    y as int,
                ).contains(q) ==> final(self).age_of(q) == old(self).age_of(q),
            final(self).spec_generation() == old(self).spec_generation(),
            final(self).spec_width() == old(self).spec_width(),
            final(self).spec_height() == old(self).spec_height(),
            final(self).spec_mode() == old(self).spec_mode(),
    {
        let mut offs: Vec<(i64, i64)> = Vec::new();
        offs.push((1, 0));
        offs.push((2, 0));
        offs.push((0, 1));
        offs.push((1, 1));
        offs.push((1, 2));
        proof {
            assert(offs@ =~= rpentomino_offsets());
            assert forall|k: int| 0 <= k < offs@.len() implies cell_in_range(
                (x + #[trigger] offs@[k].0, y + offs@[k].1),
            ) by {
                assert(0 <= offs@[k].0 <= 2 && 0 <= offs@[k].1 <= 2);
            }
        }
        self.seed_offsets(x, y, &offs);
    }

    /// Seeds an acorn anchored at `(x, y)`.
    pub fn add_acorn(&mut self, x: i64, y: i64)
        requires
            old(self).wf(),
            i64::MIN < x,
            x + 6 < i64::MAX,
            i64::MIN < y,
            y + 2 < i64::MAX,
        ensures
            final(self).wf(),
            final(self).live_set() == old(self).live_set().union(
                anchored_cells(acorn_offsets(), x as int, y as int),
            ),
            forall|q: Cell|
                anchored_cells(acorn_offsets(), x as int, y as int).contains(q) ==> final(self).age_of(
                    q,
                ) == 0,
            forall|q: Cell|
                old(self).live_set().contains(q) && !anchored_cells(
                    acorn_offsets(),
                    x as int,
                    y as int,
                ).contains(q) ==> final(self).age_of(q) == old(self).age_of(q),
            final(self).spec_generation() == old(self).spec_generation(),
            final(self).spec_width() == old(self).spec_width(),
            final(self).spec_height() == old(self).spec_height(),
            final(self).spec_mode() == old(self).spec_mode(),
    {
        let mut offs: Vec<(i64, i64)> = Vec::new();
        offs.push((1, 0));
        offs.push((3, 1));
        offs.push((0, 2));
        offs.push((1, 2));
        offs.push((4, 2));
        offs.push((5, 2));
        offs.push((6, 2));
        proof {
            assert(offs@ =~= acorn_offsets());
            assert forall|k: int| 0 <= k < offs@.len() implies cell_in_range(
                (x + #[trigger] offs@[k].0, y + offs@[k].1),
            ) by {
                assert(0 <= offs@[k].0 <= 6 && 0 <= offs@[k].1 <= 2);
            }
        }
        self.seed_offsets(x, y, &offs);
    }

    /// Seeds a diehard anchored at `(x, y)`.
    pub fn add_diehard(&mut self, x: i64, y: i64)
        requires
            old(self).wf(),
            i64::MIN < x,
            x + 7 < i64::MAX,
            i64::MIN < y,
            y + 2 < i64::MAX,
        ensures
            final(self).wf(),
            final(self).live_set() == old(self).live_set().union(
                anchored_cells(diehard_offsets(), x as int, y as int),
            ),
            forall|q: Cell|
                anchored_cells(diehard_offsets(), x as int, y as int).contains(q) ==> final(self).age_of(
                    q,
                ) == 0,
            forall|q: Cell|
                old(self).live_set().contains(q) && !anchored_cells(
                    diehard_offsets(),
                    x as int,
                    y as int,
                ).contains(q) ==> final(self).age_of(q) == old(self).age_of(q),
            final(self).spec_generation() == old(self).spec_generation(),
            final(self).spec_width() == old(self).spec_width(),
            final(self).spec_height() == old(self).spec_height(),
            final(self).spec_mode() == old(self).spec_mode(),
    {
        let mut offs: Vec<(i64, i64)> = Vec::new();
        offs.push((6, 0));
        offs.push((0, 1));
        offs.push((1, 1));
        offs.push((1, 2));
        offs.push((5, 2));
        offs.push((6, 2));
        offs.push((7, 2));
        proof {
            assert(offs@ =~= diehard_offsets());
            assert forall|k: int| 0 <= k < offs@.len() implies cell_in_range(
                (x + #[trigger] offs@[k].0, y + offs@[k].1),
            ) by {
                assert(0 <= offs@[k].0 <= 7 && 0 <= offs@[k].1 <= 2);
            }
        }
        self.seed_offsets(x, y, &offs);
    }

    /// Seeds a Gosper glider gun anchored at `(x, y)`.
    pub fn add_gosper_gun(&mut self, x: i64, y: i64)
        requires
            old(self).wf(),
            i64::MIN < x,
            x + 35 < i64::MAX,
            i64::MIN < y,
            y + 8 < i64::MAX,
        ensures
            final(self).wf(),
            final(self).live_set() == old(self).live_set().union(
                anchored_cells(gosper_gun_offsets(), x as int, y as int),
            ),
            forall|q: Cell|
                anchored_cells(gosper_gun_offsets(), x as int, y as int).contains(q) ==> final(self).age_of(
                    q,
                ) == 0,
            forall|q: Cell|
                old(self).live_set().contains(q) && !anchored_cells(
                    gosper_gun_offsets(),
                    x as int,
                    y as int,
                ).contains(q) ==> final(self).age_of(q) == old(self).age_of(q),
            final(self).spec_generation() == old(self).spec_generation(),
            final(self).spec_width() == old(self).spec_width(),
            final(self).spec_height() == old(self).spec_height(),
            final(self).spec_mode() == old(self).spec_mode(),
    {
        let mut offs: Vec<(i64, i64)> = Vec::new();
        offs.push((24, 0));
        offs.push((22, 1));
        offs.push((24, 1));
        offs.push((12, 2));
        offs.push((13, 2));
        offs.push((20, 2));
        offs.push((21, 2));
        offs.push((34, 2));
        offs.push((35, 2));
        offs.push((11, 3));
        offs.push((15, 3));
        offs.push((20, 3));
        offs.push((21, 3));
        offs.push((34, 3));
        offs.push((35, 3));
        offs.push((0, 4));
        offs.push((1, 4));
        offs.push((10, 4));
        offs.push((16, 4));
        offs.push((20, 4));
        offs.push((21, 4));
        offs.push((0, 5));
        offs.push((1, 5));
        offs.push((10, 5));
        offs.push((14, 5));
        offs.push((16, 5));
        offs.push((17, 5));
        offs.push((22, 5));
        offs.push((24, 5));
        offs.push((10, 6));
        offs.push((16, 6));
        offs.push((24, 6));
        offs.push((11, 7));
        offs.push((15, 7));
        offs.push((12, 8));
        offs.push((13, 8));
        proof {
            assert(offs@ =~= gosper_gun_offsets());
            assert forall|k: int| 0 <= k < offs@.len() implies cell_in_range(
                (x + #[trigger] offs@[k].0, y + offs@[k].1),
            ) by {
                assert(0 <= offs@[k].0 <= 35 && 0 <= offs@[k].1 <= 8);
            }
        }
        self.seed_offsets(x, y, &offs);
    }

    /// Seeds a pentadecathlon anchored at `(x, y)`.
    pub fn add_pentadecathlon(&mut self, x: i64, y: i64)
        requires
            old(self).wf(),
            i64::MIN < x,
            x + 8 < i64::MAX,
            i64::MIN + 1 < y,
            y + 1 < i64::MAX,
        ensures
            final(self).wf(),
            final(self).live_set() == old(self).live_set().union(
                anchored_cells(pentadecathlon_offsets(), x as int, y as int),
            ),
            forall|q: Cell|
                anchored_cells(pentadecathlon_offsets(), x as int, y as int).contains(q) ==> final(self).age_of(
                    q,
                ) == 0,
            forall|q: Cell|
                old(self).live_set().contains(q) && !anchored_cells(
                    pentadecathlon_offsets(),
                    x as int,
                    y as int,
                ).contains(q) ==> final(self).age_of(q) == old(self).age_of(q),
            final(self).spec_generation() == old(self).spec_generation(),
            final(self).spec_width() == old(self).spec_width(),
            final(self).spec_height() == old(self).spec_height(),
            final(self).spec_mode() == old(self).spec_mode(),
    {
        let mut offs: Vec<(i64, i64)> = Vec::new();
        offs.push((0, 0));
        offs.push((1, 0));
        offs.push((2, 0));
        offs.push((3, 0));
        offs.push((1, -1));
        offs.push((1, 1));
        offs.push((4, -1));
        offs.push((4, 1));
        offs.push((5, 0));
        offs.push((6, 0));
        offs.push((7, 0));
        offs.push((8, 0));
        proof {
            assert(offs@ =~= pentadecathlon_offsets());
            assert forall|k: int| 0 <= k < offs@.len() implies cell_in_range(
                (x + #[trigger] offs@[k].0, y + offs@[k].1),
            ) by {
                assert(0 <= offs@[k].0 <= 8 && -1 <= offs@[k].1 <= 1);
            }
        }
        self.seed_offsets(x, y, &offs);
    }
}

} // verus!
