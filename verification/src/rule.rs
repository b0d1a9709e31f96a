//! The mathematical model of the automaton.
//!
//! A cell is a pair of unbounded integers; a world state is the set of
//! live cells. `next_alive` is the B3/S23 rule evaluated against one
//! stable state, and `step` is one synchronous generation on the whole
//! plane. The lemmas here are the general laws of the rule:
//! sufficiency of the live cells and their neighborhoods as birth
//! candidates, extinction of the empty state, and invariance of the
//! rule under translation.

use vstd::prelude::*;

verus! {

/// A cell position in the model: unbounded integer coordinates.
pub type Cell = (int, int);

/// Whether `a` is one of the eight Moore neighbors of `b`.
pub open spec fn is_neighbor(a: Cell, b: Cell) -> bool {
    &&& a != b
    &&& -1 <= a.0 - b.0 <= 1
    &&& -1 <= a.1 - b.1 <= 1
}

/// 1 when `p` is live in `s`, 0 otherwise.
pub open spec fn occupancy(s: Set<Cell>, p: Cell) -> int {
    if s.contains(p) {
        1
    } else {
        0
    }
}

/// The number of live cells among the eight Moore neighbors of `p`.
pub open spec fn neighbor_count(s: Set<Cell>, p: Cell) -> int {
    occupancy(s, (p.0 - 1, p.1 - 1)) + occupancy(s, (p.0 - 1, p.1)) + occupancy(
        s,
        (p.0 - 1, p.1 + 1),
    ) + occupancy(s, (p.0, p.1 - 1)) + occupancy(s, (p.0, p.1 + 1)) + occupancy(
        s,
        (p.0 + 1, p.1 - 1),
    ) + occupancy(s, (p.0 + 1, p.1)) + occupancy(s, (p.0 + 1, p.1 + 1))
}

/// The B3/S23 rule: whether `p` is live in the generation after `s`,
/// judged against the stable snapshot `s` alone.
pub open spec fn next_alive(s: Set<Cell>, p: Cell) -> bool {
    if s.contains(p) {
        neighbor_count(s, p) == 2 || neighbor_count(s, p) == 3
    } else {
        neighbor_count(s, p) == 3
    }
}

/// One synchronous generation on the unbounded plane.
pub open spec fn step(s: Set<Cell>) -> Set<Cell> {
    Set::new(|p: Cell| next_alive(s, p))
}

/// The cell reached from `p` by the displacement `(dx, dy)`.
pub open spec fn translate_cell(p: Cell, dx: int, dy: int) -> Cell {
    (p.0 + dx, p.1 + dy)
}

/// The whole state `s` displaced by `(dx, dy)`.
pub open spec fn translate_set(s: Set<Cell>, dx: int, dy: int) -> Set<Cell> {
    Set::new(|p: Cell| s.contains((p.0 - dx, p.1 - dy)))
}

/// The neighbor relation is symmetric.
pub proof fn lemma_neighbor_symmetric(a: Cell, b: Cell)
    ensures
        is_neighbor(a, b) == is_neighbor(b, a),
{
}

/// A Moore neighbor of `c` is one of exactly eight cells.
pub proof fn lemma_neighbor_is_one_of_eight(c: Cell, q: Cell)
    requires
        is_neighbor(q, c),
    ensures
        q == (c.0 - 1, c.1 - 1) || q == (c.0 - 1, c.1) || q == (c.0 - 1, c.1 + 1) || q == (
            c.0,
            c.1 - 1,
        ) || q == (c.0, c.1 + 1) || q == (c.0 + 1, c.1 - 1) || q == (c.0 + 1, c.1) || q == (
            c.0 + 1,
            c.1 + 1,
        ),
{
}

/// Candidate-set sufficiency: a cell that is dead and has no live
/// Moore neighbor stays dead, so no cell outside the union of the
/// live cells and their neighborhoods can be live in the next
/// generation.
pub proof fn lemma_candidate_sufficiency(s: Set<Cell>, p: Cell)
    requires
        !s.contains(p),
        forall|c: Cell| s.contains(c) ==> !is_neighbor(c, p),
    ensures
        !next_alive(s, p),
{
    assert(!s.contains((p.0 - 1, p.1 - 1)));
    assert(!s.contains((p.0 - 1, p.1)));
    assert(!s.contains((p.0 - 1, p.1 + 1)));
    assert(!s.contains((p.0, p.1 - 1)));
    assert(!s.contains((p.0, p.1 + 1)));
    assert(!s.contains((p.0 + 1, p.1 - 1)));
    assert(!s.contains((p.0 + 1, p.1)));
    assert(!s.contains((p.0 + 1, p.1 + 1)));
}

/// Extinction: no cell is live in the generation after the empty
/// state.
pub proof fn lemma_empty_next_alive(p: Cell)
    ensures
        !next_alive(Set::<Cell>::empty(), p),
{
}

/// Extinction, stated on whole states: the empty state steps to the
/// empty state.
pub proof fn lemma_step_of_empty()
    ensures
        step(Set::<Cell>::empty()) == Set::<Cell>::empty(),
{
    assert(step(Set::<Cell>::empty()) =~= Set::<Cell>::empty()) by {
        assert forall|p: Cell| !step(Set::<Cell>::empty()).contains(p) by {
            lemma_empty_next_alive(p);
        }
    }
}

/// The rule is invariant under translation: a cell's fate in the
/// displaced state equals the fate of its pre-image in the original
/// state.
pub proof fn lemma_translate_preserves_rule(s: Set<Cell>, dx: int, dy: int, p: Cell)
    ensures
        next_alive(translate_set(s, dx, dy), translate_cell(p, dx, dy)) == next_alive(s, p),
{
    let t = translate_set(s, dx, dy);
    let q = translate_cell(p, dx, dy);
    assert(t.contains(q) == s.contains(p));
    assert(t.contains((q.0 - 1, q.1 - 1)) == s.contains((p.0 - 1, p.1 - 1)));
    assert(t.contains((q.0 - 1, q.1)) == s.contains((p.0 - 1, p.1)));
    assert(t.contains((q.0 - 1, q.1 + 1)) == s.contains((p.0 - 1, p.1 + 1)));
    assert(t.contains((q.0, q.1 - 1)) == s.contains((p.0, p.1 - 1)));
    assert(t.contains((q.0, q.1 + 1)) == s.contains((p.0, p.1 + 1)));
    assert(t.contains((q.0 + 1, q.1 - 1)) == s.contains((p.0 + 1, p.1 - 1)));
    assert(t.contains((q.0 + 1, q.1)) == s.contains((p.0 + 1, p.1)));
    assert(t.contains((q.0 + 1, q.1 + 1)) == s.contains((p.0 + 1, p.1 + 1)));
}

/// Stepping commutes with translation: a displaced state steps to the
/// displaced image of the original step. Together with the engine's
/// determinism this is why a drifting pattern such as the glider keeps
/// repeating its motion: once it returns to a translate of itself, its
/// whole future is the translated future.
pub proof fn lemma_step_translation(s: Set<Cell>, dx: int, dy: int)
    ensures
        step(translate_set(s, dx, dy)) == translate_set(step(s), dx, dy),
{
    assert(step(translate_set(s, dx, dy)) =~= translate_set(step(s), dx, dy)) by {
        assert forall|p: Cell|
            step(translate_set(s, dx, dy)).contains(p) == translate_set(
                step(s),
                dx,
                dy,
            ).contains(p) by {
            let pre = (p.0 - dx, p.1 - dy);
            lemma_translate_preserves_rule(s, dx, dy, pre);
            assert(translate_cell(pre, dx, dy) == p);
        }
    }
}

} // verus!
