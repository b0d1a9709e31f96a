use life_engine::engine::{BoundsMode, GameOfLife, Position};

fn alive(g: &GameOfLife, x: i64, y: i64) -> bool {
    g.is_alive(&Position::new(x, y))
}

fn assert_cells(g: &GameOfLife, anchor: (i64, i64), offsets: &[(i64, i64)]) {
    assert_eq!(g.population(), offsets.len());
    for (dx, dy) in offsets {
        assert!(alive(g, anchor.0 + dx, anchor.1 + dy));
    }
}

#[test]
fn glider_seeds_its_five_cells() {
    let mut g = GameOfLife::new(20, 20, BoundsMode::Unbounded);
    g.add_glider(3, 4);
    assert_cells(&g, (3, 4), &[(1, 0), (2, 1), (0, 2), (1, 2), (2, 2)]);
}

#[test]
fn glider_translates_by_one_one_every_four_generations() {
    let mut g = GameOfLife::new(50, 50, BoundsMode::Unbounded);
    g.add_glider(0, 0);
    for _ in 0..4 {
        g.next_generation();
    }
    assert_cells(&g, (1, 1), &[(1, 0), (2, 1), (0, 2), (1, 2), (2, 2)]);
    for _ in 0..4 {
        g.next_generation();
    }
    assert_cells(&g, (2, 2), &[(1, 0), (2, 1), (0, 2), (1, 2), (2, 2)]);
    for _ in 0..4 {
        g.next_generation();
    }
    assert_cells(&g, (3, 3), &[(1, 0), (2, 1), (0, 2), (1, 2), (2, 2)]);
}

#[test]
fn blinker_seeds_its_three_cells() {
    let mut g = GameOfLife::new(20, 20, BoundsMode::Unbounded);
    g.add_blinker(5, 6);
    assert_cells(&g, (5, 6), &[(0, 0), (1, 0), (2, 0)]);
}

#[test]
fn block_seeds_its_four_cells() {
    let mut g = GameOfLife::new(20, 20, BoundsMode::Unbounded);
    g.add_block(2, 9);
    assert_cells(&g, (2, 9), &[(0, 0), (1, 0), (0, 1), (1, 1)]);
}

#[test]
fn beacon_seeds_its_six_cells() {
    let mut g = GameOfLife::new(20, 20, BoundsMode::Unbounded);
    g.add_beacon(1, 1);
    assert_cells(&g, (1, 1), &[(0, 0), (1, 0), (0, 1), (2, 3), (3, 2), (3, 3)]);
}

#[test]
fn beacon_oscillates_with_period_two() {
    let mut g = GameOfLife::new(20, 20, BoundsMode::Unbounded);
    g.add_beacon(0, 0);
    g.next_generation();
    assert_cells(
        &g,
        (0, 0),
        &[(0, 0), (1, 0), (0, 1), (1, 1), (2, 2), (3, 2), (2, 3), (3, 3)],
    );
    g.next_generation();
    assert_cells(&g, (0, 0), &[(0, 0), (1, 0), (0, 1), (2, 3), (3, 2), (3, 3)]);
}

#[test]
fn rpentomino_seeds_its_five_cells() {
    let mut g = GameOfLife::new(20, 20, BoundsMode::Unbounded);
    g.add_rpentomino(7, 7);
    assert_cells(&g, (7, 7), &[(1, 0), (2, 0), (0, 1), (1, 1), (1, 2)]);
}

#[test]
fn acorn_seeds_its_seven_cells() {
    let mut g = GameOfLife::new(20, 20, BoundsMode::Unbounded);
    g.add_acorn(4, 4);
    assert_cells(
        &g,
        (4, 4),
        &[(1, 0), (3, 1), (0, 2), (1, 2), (4, 2), (5, 2), (6, 2)],
    );
}

#[test]
fn diehard_seeds_its_seven_cells() {
    let mut g = GameOfLife::new(20, 20, BoundsMode::Unbounded);
    g.add_diehard(0, 0);
    assert_cells(
        &g,
        (0, 0),
        &[(6, 0), (0, 1), (1, 1), (1, 2), (5, 2), (6, 2), (7, 2)],
    );
}

#[test]
fn diehard_dies_out_after_130_generations() {
    let mut g = GameOfLife::new(100, 100, BoundsMode::Unbounded);
    g.add_diehard(0, 0);
    for _ in 0..129 {
        g.next_generation();
    }
    assert!(g.population() > 0);
    g.next_generation();
    assert_eq!(g.population(), 0);
}

#[test]
fn gosper_gun_seeds_its_thirty_six_cells() {
    let mut g = GameOfLife::new(60, 30, BoundsMode::Unbounded);
    g.add_gosper_gun(1, 1);
    assert_eq!(g.population(), 36);
    assert!(alive(&g, 1 + 24, 1 + 0));
    assert!(alive(&g, 1 + 0, 1 + 4));
    assert!(alive(&g, 1 + 1, 1 + 5));
    assert!(alive(&g, 1 + 35, 1 + 3));
    assert!(alive(&g, 1 + 12, 1 + 8));
    assert!(alive(&g, 1 + 13, 1 + 8));
}

#[test]
fn gosper_gun_has_emitted_a_glider_after_one_period() {
    let mut g = GameOfLife::new(60, 30, BoundsMode::Unbounded);
    g.add_gosper_gun(0, 0);
    for _ in 0..30 {
        g.next_generation();
    }
    // After one full period the gun itself has returned to 36 cells
    // and one glider of 5 cells is on its way.
    assert_eq!(g.population(), 41);
}

#[test]
fn pentadecathlon_seeds_its_twelve_cells() {
    let mut g = GameOfLife::new(30, 30, BoundsMode::Unbounded);
    g.add_pentadecathlon(10, 10);
    assert_cells(
        &g,
        (10, 10),
        &[
            (0, 0),
            (1, 0),
            (2, 0),
            (3, 0),
            (1, -1),
            (1, 1),
            (4, -1),
            (4, 1),
            (5, 0),
            (6, 0),
            (7, 0),
            (8, 0),
        ],
    );
}

#[test]
fn pentadecathlon_settles_into_a_stable_constellation() {
    let mut g = GameOfLife::new(30, 30, BoundsMode::Unbounded);
    g.add_pentadecathlon(10, 10);
    for _ in 0..21 {
        g.next_generation();
    }
    assert_eq!(g.population(), 38);
    let settled = g.live_cells();
    g.next_generation();
    assert_eq!(g.population(), settled.len());
    for p in &settled {
        assert!(g.is_alive(p));
    }
}

#[test]
fn patterns_accumulate_on_one_board() {
    let mut g = GameOfLife::new(40, 20, BoundsMode::Unbounded);
    g.add_glider(2, 2);
    g.add_blinker(35, 15);
    g.add_block(35, 2);
    g.add_beacon(2, 15);
    assert_eq!(g.population(), 5 + 3 + 4 + 6);
}
