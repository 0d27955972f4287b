use falling_sand::clock::TickClock;
use falling_sand::element::Element;
use falling_sand::grid::Grid;
use falling_sand::physics::{step, update_cell, update_pass, LAVA_PERIOD, SAND_SINK_PERIOD};
use falling_sand::random::draw_coins;

fn grid(w: usize, h: usize) -> Grid {
    Grid::new(w, h).unwrap()
}

fn coins(g: &Grid, value: bool) -> Vec<bool> {
    vec![value; g.width() * g.height()]
}

fn pass_with(g: &mut Grid, ticks: u64, value: bool) {
    let flips = coins(g, value);
    update_pass(g, ticks, &flips);
}

fn count(g: &Grid, m: Element) -> usize {
    g.cells.iter().filter(|e| **e == m).count()
}

#[test]
fn lone_sand_falls_one_row_per_pass() {
    let mut g = grid(5, 6);
    g.set(0, 2, Element::Sand);
    for frame in 1..6 {
        pass_with(&mut g, 1, false);
        assert_eq!(g.get(frame, 2), Ok(Element::Sand));
        assert_eq!(count(&g, Element::Sand), 1);
    }
    pass_with(&mut g, 1, false);
    assert_eq!(g.get(5, 2), Ok(Element::Sand));
}

#[test]
fn sand_on_stone_slides_down_left_first() {
    let mut g = grid(3, 2);
    g.set(0, 1, Element::Sand);
    g.set(1, 1, Element::Stone);
    update_cell(&mut g, 0, 1, 1, false);
    assert_eq!(g.get(1, 0), Ok(Element::Sand));
    assert_eq!(g.get(0, 1), Ok(Element::Air));
}

#[test]
fn sand_slides_right_when_left_is_blocked() {
    let mut g = grid(3, 2);
    g.set(0, 1, Element::Sand);
    g.set(1, 1, Element::Stone);
    g.set(1, 0, Element::Stone);
    update_cell(&mut g, 0, 1, 1, false);
    assert_eq!(g.get(1, 2), Ok(Element::Sand));
}

#[test]
fn sand_does_not_cut_a_stone_corner() {
    let mut g = grid(3, 2);
    g.set(0, 1, Element::Sand);
    g.set(1, 1, Element::Stone);
    g.set(0, 0, Element::Stone);
    g.set(0, 2, Element::Stone);
    pass_with(&mut g, 1, false);
    assert_eq!(g.get(1, 0), Ok(Element::Air));
    assert_eq!(g.get(1, 2), Ok(Element::Air));
    assert_eq!(g.get(0, 1), Ok(Element::Sand));
}

#[test]
fn sand_corner_blocked_on_left_goes_right() {
    let mut g = grid(3, 2);
    g.set(0, 1, Element::Sand);
    g.set(1, 1, Element::Stone);
    g.set(0, 0, Element::Stone);
    update_cell(&mut g, 0, 1, 1, false);
    assert_eq!(g.get(1, 0), Ok(Element::Air));
    assert_eq!(g.get(1, 2), Ok(Element::Sand));
}

#[test]
fn sand_sinks_through_water_only_on_period() {
    for ticks in [1u64, 19, 21, 39] {
        let mut g = grid(1, 2);
        g.set(0, 0, Element::Sand);
        g.set(1, 0, Element::Water);
        update_cell(&mut g, 0, 0, ticks, false);
        assert_eq!(g.get(0, 0), Ok(Element::Sand));
        assert_eq!(g.get(1, 0), Ok(Element::Water));
    }
    for ticks in [0u64, 20, 40] {
        let mut g = grid(1, 2);
        g.set(0, 0, Element::Sand);
        g.set(1, 0, Element::Water);
        update_cell(&mut g, 0, 0, ticks, false);
        assert_eq!(g.get(0, 0), Ok(Element::Water));
        assert_eq!(g.get(1, 0), Ok(Element::Sand));
    }
    assert_eq!(SAND_SINK_PERIOD, 20);
}

#[test]
fn sand_on_water_off_period_does_not_slide() {
    let mut g = grid(3, 2);
    g.set(0, 1, Element::Sand);
    g.set(1, 1, Element::Water);
    update_cell(&mut g, 0, 1, 7, false);
    assert_eq!(g.get(0, 1), Ok(Element::Sand));
    assert_eq!(g.get(1, 0), Ok(Element::Air));
}

#[test]
fn sand_sinks_through_lava_on_period() {
    let mut g = grid(1, 2);
    g.set(0, 0, Element::Sand);
    g.set(1, 0, Element::Lava);
    update_cell(&mut g, 0, 0, 40, false);
    assert_eq!(g.get(0, 0), Ok(Element::Lava));
    assert_eq!(g.get(1, 0), Ok(Element::Sand));
}

#[test]
fn water_falls_into_air() {
    let mut g = grid(1, 3);
    g.set(0, 0, Element::Water);
    pass_with(&mut g, 1, true);
    assert_eq!(g.get(1, 0), Ok(Element::Water));
    assert_eq!(g.get(0, 0), Ok(Element::Air));
}

#[test]
fn water_moves_to_the_side_the_coin_picks() {
    let mut g = grid(3, 1);
    g.set(0, 1, Element::Water);
    update_cell(&mut g, 0, 1, 1, true);
    assert_eq!(g.get(0, 2), Ok(Element::Water));
    let mut g = grid(3, 1);
    g.set(0, 1, Element::Water);
    update_cell(&mut g, 0, 1, 1, false);
    assert_eq!(g.get(0, 0), Ok(Element::Water));
}

#[test]
fn water_does_not_fall_back_to_other_side() {
    let mut g = grid(3, 1);
    g.set(0, 1, Element::Water);
    g.set(0, 2, Element::Stone);
    update_cell(&mut g, 0, 1, 1, true);
    assert_eq!(g.get(0, 1), Ok(Element::Water));
    assert_eq!(g.get(0, 0), Ok(Element::Air));
}

#[test]
fn water_at_left_edge_stays() {
    let mut g = grid(2, 1);
    g.set(0, 0, Element::Water);
    update_cell(&mut g, 0, 0, 1, false);
    assert_eq!(g.get(0, 0), Ok(Element::Water));
}

#[test]
fn water_moving_right_is_carried_along_the_row() {
    let mut g = grid(4, 1);
    g.set(0, 0, Element::Water);
    pass_with(&mut g, 1, true);
    assert_eq!(g.get(0, 3), Ok(Element::Water));
    assert_eq!(count(&g, Element::Water), 1);
}

#[test]
fn lava_moves_only_on_its_period() {
    assert_eq!(LAVA_PERIOD, 3);
    let mut g = grid(1, 2);
    g.set(0, 0, Element::Lava);
    update_cell(&mut g, 0, 0, 4, false);
    assert_eq!(g.get(0, 0), Ok(Element::Lava));
    update_cell(&mut g, 0, 0, 6, false);
    assert_eq!(g.get(1, 0), Ok(Element::Lava));
}

#[test]
fn water_next_to_lava_diagonally_turns_to_stone() {
    for (lr, lc) in [(0usize, 0usize), (0, 2), (2, 0), (2, 2)] {
        let mut g = grid(3, 3);
        g.set(1, 1, Element::Water);
        g.set(2, 1, Element::Stone);
        g.set(1, 0, Element::Stone);
        g.set(1, 2, Element::Stone);
        g.set(lr, lc, Element::Lava);
        update_cell(&mut g, 1, 1, 1, true);
        assert_eq!(g.get(1, 1), Ok(Element::Stone));
        assert_eq!(g.get(lr, lc), Ok(Element::Lava));
    }
}

#[test]
fn water_that_moved_still_leaves_stone_by_lava() {
    let mut g = grid(3, 3);
    g.set(1, 1, Element::Water);
    g.set(0, 0, Element::Lava);
    update_cell(&mut g, 1, 1, 1, true);
    assert_eq!(g.get(1, 1), Ok(Element::Stone));
    assert_eq!(g.get(2, 1), Ok(Element::Water));
}

#[test]
fn water_next_to_lava_orthogonally_stays_water() {
    let mut g = grid(3, 2);
    g.set(0, 1, Element::Water);
    g.set(1, 1, Element::Stone);
    g.set(0, 0, Element::Lava);
    g.set(0, 2, Element::Stone);
    update_cell(&mut g, 0, 1, 1, false);
    assert_eq!(g.get(0, 1), Ok(Element::Water));
    assert_eq!(g.get(0, 0), Ok(Element::Lava));
}

#[test]
fn inert_materials_do_not_move() {
    let mut g = grid(2, 2);
    g.set(0, 0, Element::Stone);
    g.set(0, 1, Element::Grass);
    g.set(1, 0, Element::Air);
    g.set(1, 1, Element::Air);
    let mut h = grid(2, 2);
    h.set(0, 0, Element::WinArea);
    let before_g = g.cells.clone();
    let before_h = h.cells.clone();
    pass_with(&mut g, 0, true);
    pass_with(&mut h, 0, false);
    assert_eq!(g.cells, before_g);
    assert_eq!(h.cells, before_h);
}

#[test]
fn cleared_grid_stays_air_after_a_pass() {
    let mut g = grid(6, 4);
    g.set(0, 0, Element::Sand);
    g.set(1, 3, Element::Lava);
    g.set(2, 2, Element::Water);
    g.clear();
    pass_with(&mut g, 0, true);
    assert_eq!(count(&g, Element::Air), 24);
    let clock = TickClock::new();
    step(&mut g, &clock);
    assert_eq!(count(&g, Element::Air), 24);
}

#[test]
fn passes_keep_material_counts() {
    let mut g = grid(8, 8);
    for c in 0..8 {
        g.set(0, c, Element::Sand);
        g.set(2, c, Element::Water);
    }
    g.set(5, 3, Element::Stone);
    g.set(4, 6, Element::Grass);
    let mut clock = TickClock::new();
    for _ in 0..50 {
        step(&mut g, &clock);
        clock.advance();
        assert_eq!(count(&g, Element::Sand), 8);
        assert_eq!(count(&g, Element::Water), 8);
        assert_eq!(count(&g, Element::Stone), 1);
        assert_eq!(count(&g, Element::Grass), 1);
        assert_eq!(count(&g, Element::Air), 46);
    }
}

#[test]
fn bottom_row_water_spreads_sideways() {
    let mut g = grid(3, 1);
    g.set(0, 1, Element::Water);
    pass_with(&mut g, 1, false);
    assert_eq!(g.get(0, 0), Ok(Element::Water));
}

#[test]
fn step_settles_a_column_of_sand() {
    let mut g = grid(1, 4);
    g.set(0, 0, Element::Sand);
    g.set(1, 0, Element::Sand);
    let clock = TickClock::new();
    step(&mut g, &clock);
    step(&mut g, &clock);
    step(&mut g, &clock);
    assert_eq!(g.get(3, 0), Ok(Element::Sand));
    assert_eq!(g.get(2, 0), Ok(Element::Sand));
    assert_eq!(g.get(0, 0), Ok(Element::Air));
}

#[test]
fn coins_show_both_faces() {
    let flips = draw_coins(2000);
    assert_eq!(flips.len(), 2000);
    assert!(flips.iter().any(|b| *b));
    assert!(flips.iter().any(|b| !*b));
}

#[test]
fn clock_counts_frames() {
    let mut clock = TickClock::new();
    assert_eq!(clock.ticks(), 0);
    clock.advance();
    clock.advance();
    assert_eq!(clock.ticks(), 2);
    let mut top = TickClock { count: u64::MAX };
    top.advance();
    assert_eq!(top.ticks(), u64::MAX);
}

#[test]
fn water_below_lava_is_stone_after_a_full_pass() {
    let mut g = grid(3, 3);
    g.set(1, 1, Element::Water);
    g.set(0, 2, Element::Lava);
    pass_with(&mut g, 0, true);
    assert_eq!(g.get(1, 1), Ok(Element::Stone));
    assert_eq!(g.get(2, 1), Ok(Element::Water));
    assert_eq!(count(&g, Element::Lava), 1);
}

#[test]
fn lava_below_may_move_away_before_the_water_turn() {
    let mut g = grid(3, 4);
    g.set(1, 1, Element::Water);
    g.set(2, 0, Element::Lava);
    pass_with(&mut g, 0, true);
    assert_eq!(g.get(3, 0), Ok(Element::Lava));
    assert_eq!(g.get(2, 1), Ok(Element::Water));
    assert_eq!(count(&g, Element::Stone), 0);
}
