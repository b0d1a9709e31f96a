//! Deterministic pseudo-random seeding.
//!
//! The seeding sweep walks the grid row by row, draws one state of a
//! multiplier-congruential generator per cell, and inserts the cell
//! when 16 decision bits of that state fall below a threshold. The
//! generator is part of the contract: given the same seed and
//! threshold, the sweep chooses the same cells on every run. A
//! caller that wants wall-clock randomness derives the seed outside
//! the engine and passes it in.

use vstd::prelude::*;

use crate::engine::GameOfLife;
use crate::rule::Cell;

verus! {

/// One step of the multiplier-congruential generator: the classic
/// constants 1103515245 and 12345, modulo 2^64.
#[verifier::opaque]
pub open spec fn lcg_next(s: u64) -> u64 {
    vstd::wrapping::u64_specs::wrapping_add(
        vstd::wrapping::u64_specs::wrapping_mul(s, 1103515245u64),
        12345u64,
    )
}

/// The generator state after `n` steps from `seed`.
#[verifier::opaque]
pub open spec fn lcg_state(seed: u64, n: nat) -> u64
    decreases n,
{
    if n == 0 {
        seed
    } else {
        lcg_next(lcg_state(seed, (n - 1) as nat))
    }
}

/// The 16 decision bits drawn from a generator state.
pub open spec fn lcg_bits(s: u64) -> u64 {
    (s >> 16) & 0xffff
}

/// Whether the sweep from `seed` over a `width` x `height` grid
/// chooses the cell `(cx, cy)`: the grid is walked row by row with
/// one generator step per cell, and a cell is chosen when its
/// decision bits fall below `threshold`.
#[verifier::opaque]
pub open spec fn cell_chosen(
    seed: u64,
    threshold: u32,
    width: int,
    height: int,
    cx: int,
    cy: int,
) -> bool {
    &&& 0 <= cx < width
    &&& 0 <= cy < height
    &&& lcg_bits(lcg_state(seed, (cy * width + cx + 1) as nat)) < threshold as u64
}

/// A chosen cell always lies on the grid.
proof fn lemma_chosen_on_grid(seed: u64, threshold: u32, w: int, h: int, cx: int, cy: int)
    ensures
        cell_chosen(seed, threshold, w, h, cx, cy) ==> 0 <= cx < w && 0 <= cy < h,
{
    reveal(cell_chosen);
}

/// One executable generator step.
fn lcg_step(s: u64) -> (r: u64)
    ensures
        r == lcg_next(s),
{
    let r = s.wrapping_mul(1103515245).wrapping_add(12345);
    proof {
        reveal(lcg_next);
    }
    r
}

impl GameOfLife {
    /// Draws one generator state and seeds the single cell `(x, y)`
    /// when its decision bits fall below `threshold`.
    fn sweep_cell(&mut self, s: &mut u64, x: i64, y: i64, threshold: u32, Ghost(seed): Ghost<u64>)
        requires
            old(self).wf(),
            0 <= x < old(self).spec_width(),
            0 <= y < old(self).spec_height(),
            *old(s) == lcg_state(seed, (y * old(self).spec_width() + x) as nat),
            y * old(self).spec_width() + x >= 0,
        ensures
            final(self).wf(),
            *final(s) == lcg_state(seed, (y * old(self).spec_width() + x + 1) as nat),
            forall|q: Cell|
                final(self).live_set().contains(q) <==> old(self).live_set().contains(q) || (q == (
                    x as int,
                    y as int,
                ) && cell_chosen(
                    seed,
                    threshold,
                    old(self).spec_width(),
                    old(self).spec_height(),
                    x as int,
                    y as int,
                )),
            cell_chosen(
                seed,
                threshold,
                old(self).spec_width(),
                old(self).spec_height(),
                x as int,
                y as int,
            ) ==> final(self).age_of((x as int, y as int)) == 0,
            forall|q: Cell|
                old(self).live_set().contains(q) && !(q == (x as int, y as int) && cell_chosen(
                    seed,
                    threshold,
                    old(self).spec_width(),
                    old(self).spec_height(),
                    x as int,
                    y as int,
                )) ==> final(self).age_of(q) == old(self).age_of(q),
            final(self).spec_generation() == old(self).spec_generation(),
            final(self).spec_width() == old(self).spec_width(),
            final(self).spec_height() == old(self).spec_height(),
            final(self).spec_mode() == old(self).spec_mode(),
    {
        let ghost w = old(self).spec_width();
        let ghost h = old(self).spec_height();
        let ghost n = (y * w + x) as nat;
        proof {
            old(self).lemma_wf_dims();
        }
        *s = lcg_step(*s);
        proof {
            assert(*s == lcg_state(seed, n + 1)) by {
                reveal(lcg_state);
            }
        }
        let bits = (*s >> 16) & 0xffff;
        let chosen = bits < threshold as u64;
        proof {
            assert(chosen == cell_chosen(seed, threshold, w, h, x as int, y as int)) by {
                reveal(cell_chosen);
            }
        }
        if chosen {
            self.add_cell(x, y);
        }
    }

    /// Sweeps one whole row `y` of the grid.
    fn sweep_row(&mut self, s: &mut u64, y: i64, threshold: u32, Ghost(seed): Ghost<u64>)
        requires
            old(self).wf(),
            0 <= y < old(self).spec_height(),
            *old(s) == lcg_state(seed, (y * old(self).spec_width()) as nat),
            y * old(self).spec_width() >= 0,
        ensures
            final(self).wf(),
            *final(s) == lcg_state(
                seed,
                (y * old(self).spec_width() + old(self).spec_width()) as nat,
            ),
            forall|q: Cell|
                final(self).live_set().contains(q) <==> old(self).live_set().contains(q) || (q.1
                    == y as int && cell_chosen(
                    seed,
                    threshold,
                    old(self).spec_width(),
                    old(self).spec_height(),
                    q.0,
                    q.1,
                )),
            forall|q: Cell|
                q.1 == y as int && cell_chosen(
                    seed,
                    threshold,
                    old(self).spec_width(),
                    old(self).spec_height(),
                    q.0,
                    q.1,
                ) ==> final(self).age_of(q) == 0,
            forall|q: Cell|
                old(self).live_set().contains(q) && !(q.1 == y as int && cell_chosen(
                    seed,
                    threshold,
                    old(self).spec_width(),
                    old(self).spec_height(),
                    q.0,
                    q.1,
                )) ==> final(self).age_of(q) == old(self).age_of(q),
            final(self).spec_generation() == old(self).spec_generation(),
            final(self).spec_width() == old(self).spec_width(),
            final(self).spec_height() == old(self).spec_height(),
            final(self).spec_mode() == old(self).spec_mode(),
    {
        let ghost w = old(self).spec_width();
        let ghost h = old(self).spec_height();
        proof {
            old(self).lemma_wf_dims();
        }
        let wid = self.width();
        proof {
            assert forall|q: Cell|
                !(q.1 == y as int && q.0 < 0 && cell_chosen(seed, threshold, w, h, q.0, q.1)) by {
                lemma_chosen_on_grid(seed, threshold, w, h, q.0, q.1);
            }
        }
        let mut x: i64 = 0;
        while x < wid
            invariant
                0 <= x <= wid,
                1 <= wid,
                wid as int == w,
                self.wf(),
                0 <= y < h,
                w == old(self).spec_width(),
                h == old(self).spec_height(),
                y * w >= 0,
                *s == lcg_state(seed, (y * w + x) as nat),
                forall|q: Cell|
                    self.live_set().contains(q) <==> old(self).live_set().contains(q) || (q.1 == y
                        as int && q.0 < x as int && cell_chosen(seed, threshold, w, h, q.0, q.1)),
                forall|q: Cell|
                    q.1 == y as int && q.0 < x as int && cell_chosen(seed, threshold, w, h, q.0, q.1)
                        ==> self.age_of(q) == 0,
                forall|q: Cell|
                    old(self).live_set().contains(q) && !(q.1 == y as int && q.0 < x as int
                        && cell_chosen(seed, threshold, w, h, q.0, q.1)) ==> self.age_of(q) == old(
                        self,
                    ).age_of(q),
                self.spec_generation() == old(self).spec_generation(),
                self.spec_width() == old(self).spec_width(),
                self.spec_height() == old(self).spec_height(),
                self.spec_mode() == old(self).spec_mode(),
            decreases wid - x,
        {
            let ghost mid = *self;
            let ghost c: Cell = (x as int, y as int);
            self.sweep_cell(s, x, y, threshold, Ghost(seed));
            proof {
                assert forall|q: Cell|
                    self.live_set().contains(q) <==> old(self).live_set().contains(q) || (q.1 == y
                        as int && q.0 < x as int + 1 && cell_chosen(
                        seed,
                        threshold,
                        w,
                        h,
                        q.0,
                        q.1,
                    )) by {
                    if q != c && q.1 == y as int && q.0 < x as int + 1 && cell_chosen(
                        seed,
                        threshold,
                        w,
                        h,
                        q.0,
                        q.1,
                    ) {
                        assert(q.0 < x as int);
                    }
                }
                assert forall|q: Cell|
                    q.1 == y as int && q.0 < x as int + 1 && cell_chosen(
                        seed,
                        threshold,
                        w,
                        h,
                        q.0,
                        q.1,
                    ) implies self.age_of(q) == 0 by {
                    if q == c {
                    } else {
                        assert(q.0 < x as int);
                        assert(mid.age_of(q) == 0);
                        assert(mid.live_set().contains(q));
                    }
                }
                assert forall|q: Cell|
                    old(self).live_set().contains(q) && !(q.1 == y as int && q.0 < x as int + 1
                        && cell_chosen(seed, threshold, w, h, q.0, q.1)) implies self.age_of(q)
                    == old(self).age_of(q) by {
                    assert(q != c || !cell_chosen(seed, threshold, w, h, q.0, q.1));
                    if q != c {
                        assert(mid.live_set().contains(q));
                        assert(mid.age_of(q) == old(self).age_of(q));
                    }
                }
            }
            x += 1;
        }
        proof {
            assert forall|q: Cell|
                (q.1 == y as int && q.0 < wid as int && cell_chosen(seed, threshold, w, h, q.0, q.1))
                    == (q.1 == y as int && cell_chosen(seed, threshold, w, h, q.0, q.1)) by {
                lemma_chosen_on_grid(seed, threshold, w, h, q.0, q.1);
            }
        }
    }

    /// Seeds every grid cell independently: cell `(cx, cy)` becomes
    /// live exactly when the deterministic sweep from `seed` chooses
    /// it, with probability `threshold` in 65536 for a uniform seed.
    /// A threshold of 0 chooses no cell; 65536 or more chooses every
    /// cell. Chosen cells get age 0; other live cells keep their age.
    pub fn randomize(&mut self, seed: u64, threshold: u32)
        requires
            old(self).wf(),
        ensures
            final(self).wf(),
            forall|q: Cell|
                final(self).live_set().contains(q) <==> old(self).live_set().contains(q)
                    || cell_chosen(
                    seed,
                    threshold,
                    old(self).spec_width(),
                    old(self).spec_height(),
                    q.0,
                    q.1,
                ),
            forall|q: Cell|
                cell_chosen(
                    seed,
                    threshold,
                    old(self).spec_width(),
                    old(self).spec_height(),
                    q.0,
                    q.1,
                ) ==> final(self).age_of(q) == 0,
            forall|q: Cell|
                old(self).live_set().contains(q) && !cell_chosen(
                    seed,
                    threshold,
                    old(self).spec_width(),
                    old(self).spec_height(),
                    q.0,
                    q.1,
                ) ==> final(self).age_of(q) == old(self).age_of(q),
            final(self).spec_generation() == old(self).spec_generation(),
            final(self).spec_width() == old(self).spec_width(),
            final(self).spec_height() == old(self).spec_height(),
            final(self).spec_mode() == old(self).spec_mode(),
    {
        let ghost w = old(self).spec_width();
        let ghost h = old(self).spec_height();
        proof {
            self.lemma_wf_dims();
        }
        let hei = self.height();
        proof {
            assert forall|q: Cell| !(q.1 < 0 && cell_chosen(seed, threshold, w, h, q.0, q.1)) by {
                lemma_chosen_on_grid(seed, threshold, w, h, q.0, q.1);
            }
            assert(seed == lcg_state(seed, 0)) by {
                reveal(lcg_state);
            }
        }
        let mut s = seed;
        let mut y: i64 = 0;
        while y < hei
            invariant
                0 <= y <= hei,
                1 <= hei,
                hei as int == h,
                self.wf(),
                1 <= w,
                w == old(self).spec_width(),
                h == old(self).spec_height(),
                s == lcg_state(seed, (y * w) as nat),
                y * w >= 0,
                forall|q: Cell|
                    self.live_set().contains(q) <==> old(self).live_set().contains(q) || (q.1 < y
                        as int && cell_chosen(seed, threshold, w, h, q.0, q.1)),
                forall|q: Cell|
                    q.1 < y as int && cell_chosen(seed, threshold, w, h, q.0, q.1)
                        ==> self.age_of(q) == 0,
                forall|q: Cell|
                    old(self).live_set().contains(q) && !(q.1 < y as int && cell_chosen(
                        seed,
                        threshold,
                        w,
                        h,
                        q.0,
                        q.1,
                    )) ==> self.age_of(q) == old(self).age_of(q),
                self.spec_generation() == old(self).spec_generation(),
                self.spec_width() == old(self).spec_width(),
                self.spec_height() == old(self).spec_height(),
                self.spec_mode() == old(self).spec_mode(),
            decreases hei - y,
        {
            let ghost mid = *self;
            self.sweep_row(&mut s, y, threshold, Ghost(seed));
            proof {
                assert(y * w + w == (y + 1) * w) by (nonlinear_arith);
                assert((y + 1) * w >= 0) by (nonlinear_arith)
                    requires
                        y + 1 >= 0,
                        w >= 1,
                ;
                assert forall|q: Cell|
                    self.live_set().contains(q) <==> old(self).live_set().contains(q) || (q.1 < y
                        as int + 1 && cell_chosen(seed, threshold, w, h, q.0, q.1)) by {
                    if q.1 != y as int && q.1 < y as int + 1 {
                        assert(q.1 < y as int);
                    }
                }
                assert forall|q: Cell|
                    q.1 < y as int + 1 && cell_chosen(seed, threshold, w, h, q.0, q.1) implies self.age_of(
                    q,
                ) == 0 by {
                    if q.1 == y as int {
                    } else {
                        assert(q.1 < y as int);
                        assert(mid.age_of(q) == 0);
                        assert(mid.live_set().contains(q));
                    }
                }
                assert forall|q: Cell|
                    old(self).live_set().contains(q) && !(q.1 < y as int + 1 && cell_chosen(
                        seed,
                        threshold,
                        w,
                        h,
                        q.0,
                        q.1,
                    )) implies self.age_of(q) == old(self).age_of(q) by {
                    assert(!(q.1 == y as int && cell_chosen(seed, threshold, w, h, q.0, q.1)));
                    assert(mid.live_set().contains(q));
                    assert(mid.age_of(q) == old(self).age_of(q));
                }
            }
            y += 1;
        }
        proof {
            assert forall|q: Cell|
                (q.1 < hei as int && cell_chosen(seed, threshold, w, h, q.0, q.1)) == cell_chosen(
                    seed,
                    threshold,
                    w,
                    h,
                    q.0,
                    q.1,
                ) by {
                lemma_chosen_on_grid(seed, threshold, w, h, q.0, q.1);
            }
        }
    }
}

} // verus!
