use life_engine::engine::{BoundsMode, GameOfLife, Position, age_tier};

fn alive(g: &GameOfLife, x: i64, y: i64) -> bool {
    g.is_alive(&Position::new(x, y))
}

fn age(g: &GameOfLife, x: i64, y: i64) -> Option<u32> {
    g.cell_age(&Position::new(x, y))
}

#[test]
fn isolated_cell_dies() {
    let mut g = GameOfLife::new(10, 10, BoundsMode::Unbounded);
    g.add_cell(0, 0);
    assert!(alive(&g, 0, 0));
    assert_eq!(g.population(), 1);
    g.next_generation();
    assert_eq!(g.population(), 0);
    assert!(!alive(&g, 0, 0));
}

#[test]
fn block_is_stable_for_five_generations() {
    let mut g = GameOfLife::new(10, 10, BoundsMode::Unbounded);
    g.add_cell(0, 0);
    g.add_cell(1, 0);
    g.add_cell(0, 1);
    g.add_cell(1, 1);
    for _ in 0..5 {
        g.next_generation();
        assert_eq!(g.population(), 4);
        assert!(alive(&g, 0, 0));
        assert!(alive(&g, 1, 0));
        assert!(alive(&g, 0, 1));
        assert!(alive(&g, 1, 1));
    }
}

#[test]
fn blinker_oscillates_with_period_two() {
    let mut g = GameOfLife::new(10, 10, BoundsMode::Unbounded);
    g.add_cell(0, 0);
    g.add_cell(1, 0);
    g.add_cell(2, 0);
    g.next_generation();
    assert_eq!(g.population(), 3);
    assert!(alive(&g, 1, -1));
    assert!(alive(&g, 1, 0));
    assert!(alive(&g, 1, 1));
    g.next_generation();
    assert_eq!(g.population(), 3);
    assert!(alive(&g, 0, 0));
    assert!(alive(&g, 1, 0));
    assert!(alive(&g, 2, 0));
}

#[test]
fn next_generation_is_deterministic() {
    let mut a = GameOfLife::new(30, 30, BoundsMode::Unbounded);
    let mut b = GameOfLife::new(30, 30, BoundsMode::Unbounded);
    a.add_acorn(10, 10);
    b.add_acorn(10, 10);
    for _ in 0..10 {
        a.next_generation();
        b.next_generation();
    }
    assert_eq!(a.population(), b.population());
    for p in a.live_cells() {
        assert!(b.is_alive(&p));
    }
}

#[test]
fn add_cell_is_idempotent() {
    let mut g = GameOfLife::new(10, 10, BoundsMode::Unbounded);
    g.add_cell(3, 4);
    g.add_cell(3, 4);
    assert_eq!(g.population(), 1);
    assert!(alive(&g, 3, 4));
    let cells = g.live_cells();
    assert_eq!(cells.len(), 1);
    assert_eq!(cells[0], Position::new(3, 4));
}

#[test]
fn empty_world_stays_empty() {
    let mut g = GameOfLife::new(10, 10, BoundsMode::Unbounded);
    assert_eq!(g.population(), 0);
    g.next_generation();
    assert_eq!(g.population(), 0);
    g.next_generation();
    assert_eq!(g.population(), 0);
    assert_eq!(g.generation(), 2);
}

#[test]
fn generation_counter_counts_steps() {
    let mut g = GameOfLife::new(5, 5, BoundsMode::Bounded);
    assert_eq!(g.generation(), 0);
    g.add_cell(1, 1);
    assert_eq!(g.generation(), 0);
    g.next_generation();
    assert_eq!(g.generation(), 1);
    g.next_generation();
    assert_eq!(g.generation(), 2);
}

#[test]
fn survivor_age_grows_by_one_and_newborn_age_is_zero() {
    let mut g = GameOfLife::new(10, 10, BoundsMode::Unbounded);
    g.add_cell(0, 0);
    g.add_cell(1, 0);
    g.add_cell(2, 0);
    assert_eq!(age(&g, 1, 0), Some(0));
    g.next_generation();
    // The center cell survives; the two vertical cells are newborn.
    assert_eq!(age(&g, 1, 0), Some(1));
    assert_eq!(age(&g, 1, -1), Some(0));
    assert_eq!(age(&g, 1, 1), Some(0));
    g.next_generation();
    assert_eq!(age(&g, 1, 0), Some(2));
    assert_eq!(age(&g, 0, 0), Some(0));
    assert_eq!(age(&g, 2, 0), Some(0));
}

#[test]
fn reseeding_a_live_cell_resets_its_age() {
    let mut g = GameOfLife::new(10, 10, BoundsMode::Unbounded);
    g.add_cell(0, 0);
    g.add_cell(1, 0);
    g.add_cell(0, 1);
    g.add_cell(1, 1);
    g.next_generation();
    g.next_generation();
    assert_eq!(age(&g, 0, 0), Some(2));
    assert_eq!(age(&g, 1, 1), Some(2));
    g.add_cell(0, 0);
    assert_eq!(age(&g, 0, 0), Some(0));
    assert_eq!(age(&g, 1, 1), Some(2));
    assert_eq!(g.population(), 4);
}

#[test]
fn bounded_mode_discards_cells_off_the_grid() {
    let mut g = GameOfLife::new(3, 1, BoundsMode::Bounded);
    g.add_cell(0, 0);
    g.add_cell(1, 0);
    g.add_cell(2, 0);
    g.next_generation();
    // The vertical blinker phase is clipped to the single row.
    assert_eq!(g.population(), 1);
    assert!(alive(&g, 1, 0));
    g.next_generation();
    assert_eq!(g.population(), 0);
}

#[test]
fn unbounded_mode_lets_cells_drift_off_the_grid() {
    let mut g = GameOfLife::new(3, 1, BoundsMode::Unbounded);
    g.add_cell(0, 0);
    g.add_cell(1, 0);
    g.add_cell(2, 0);
    g.next_generation();
    assert_eq!(g.population(), 3);
    assert!(alive(&g, 1, -1));
    assert!(alive(&g, 1, 1));
}

#[test]
fn dead_cells_have_no_age() {
    let g = GameOfLife::new(10, 10, BoundsMode::Unbounded);
    assert!(!g.is_alive(&Position::new(5, 5)));
    assert_eq!(g.cell_age(&Position::new(5, 5)), None);
}

#[test]
fn seeding_is_unrestricted_by_grid_bounds() {
    let mut g = GameOfLife::new(4, 4, BoundsMode::Bounded);
    g.add_cell(-7, 100);
    assert!(alive(&g, -7, 100));
    assert_eq!(g.population(), 1);
}

#[test]
fn live_cells_lists_each_cell_once() {
    let mut g = GameOfLife::new(10, 10, BoundsMode::Unbounded);
    g.add_cell(2, 3);
    g.add_cell(-1, 0);
    g.add_cell(2, 3);
    let cells = g.live_cells();
    assert_eq!(cells.len(), 2);
    assert_eq!(cells.len(), g.population());
    for p in &cells {
        assert!(g.is_alive(p));
    }
}

#[test]
fn construction_reports_its_configuration() {
    let g = GameOfLife::new(40, 20, BoundsMode::Unbounded);
    assert_eq!(g.width(), 40);
    assert_eq!(g.height(), 20);
    assert_eq!(g.bounds_mode(), BoundsMode::Unbounded);
    assert_eq!(g.generation(), 0);
    assert_eq!(g.population(), 0);
}

#[test]
fn age_tier_bands_are_exact() {
    assert_eq!(age_tier(0), 0);
    assert_eq!(age_tier(1), 1);
    assert_eq!(age_tier(2), 1);
    assert_eq!(age_tier(3), 2);
    assert_eq!(age_tier(5), 2);
    assert_eq!(age_tier(6), 3);
    assert_eq!(age_tier(10), 3);
    assert_eq!(age_tier(11), 4);
    assert_eq!(age_tier(1000), 4);
}
