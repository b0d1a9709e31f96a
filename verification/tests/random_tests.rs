use life_engine::engine::{BoundsMode, GameOfLife, Position};

/// The documented seeding generator, reproduced independently: one
/// multiplier-congruential step per cell in row-major order, a cell
/// chosen when 16 decision bits of the state fall below the
/// threshold.
fn expected_cells(seed: u64, threshold: u32, width: i64, height: i64) -> Vec<(i64, i64)> {
    let mut s = seed;
    let mut chosen = Vec::new();
    for y in 0..height {
        for x in 0..width {
            s = s.wrapping_mul(1103515245).wrapping_add(12345);
            if (s >> 16) & 0xffff < threshold as u64 {
                chosen.push((x, y));
            }
        }
    }
    chosen
}

#[test]
fn randomize_is_deterministic_for_a_fixed_seed() {
    let mut a = GameOfLife::new(16, 12, BoundsMode::Unbounded);
    let mut b = GameOfLife::new(16, 12, BoundsMode::Unbounded);
    a.randomize(987654321, 20000);
    b.randomize(987654321, 20000);
    assert_eq!(a.population(), b.population());
    for p in a.live_cells() {
        assert!(b.is_alive(&p));
    }
}

#[test]
fn randomize_matches_the_documented_generator() {
    let (seed, threshold) = (42u64, 27000u32);
    let mut g = GameOfLife::new(9, 7, BoundsMode::Unbounded);
    g.randomize(seed, threshold);
    let expected = expected_cells(seed, threshold, 9, 7);
    assert_eq!(g.population(), expected.len());
    for (x, y) in expected {
        assert!(g.is_alive(&Position::new(x, y)));
    }
}

#[test]
fn randomize_with_seed_one_chooses_exact_cells() {
    let mut g = GameOfLife::new(4, 3, BoundsMode::Unbounded);
    g.randomize(1, 30000);
    assert_eq!(g.population(), 5);
    for (x, y) in [(0, 0), (2, 0), (1, 2), (2, 2), (3, 2)] {
        assert!(g.is_alive(&Position::new(x, y)));
    }
}

#[test]
fn randomize_threshold_zero_chooses_nothing() {
    let mut g = GameOfLife::new(8, 8, BoundsMode::Unbounded);
    g.randomize(123, 0);
    assert_eq!(g.population(), 0);
}

#[test]
fn randomize_threshold_full_chooses_every_grid_cell() {
    let mut g = GameOfLife::new(5, 4, BoundsMode::Unbounded);
    g.randomize(123, 65536);
    assert_eq!(g.population(), 20);
    for y in 0..4 {
        for x in 0..5 {
            assert!(g.is_alive(&Position::new(x, y)));
        }
    }
}

#[test]
fn randomize_keeps_cells_it_does_not_choose() {
    let mut g = GameOfLife::new(6, 6, BoundsMode::Unbounded);
    g.add_cell(-5, -5);
    g.randomize(7, 0);
    assert!(g.is_alive(&Position::new(-5, -5)));
    assert_eq!(g.population(), 1);
    assert_eq!(g.cell_age(&Position::new(-5, -5)), Some(0));
}

#[test]
fn randomize_resets_ages_of_chosen_cells() {
    let mut g = GameOfLife::new(4, 4, BoundsMode::Unbounded);
    g.add_block(0, 0);
    g.next_generation();
    g.next_generation();
    assert_eq!(g.cell_age(&Position::new(0, 0)), Some(2));
    g.randomize(55, 65536);
    assert_eq!(g.cell_age(&Position::new(0, 0)), Some(0));
    assert_eq!(g.cell_age(&Position::new(3, 3)), Some(0));
}
