use falling_sand::element::{color_for, Element};
use falling_sand::grid::{cell_matches, is_cell_empty, move_cell, Grid, GridError};

fn grid(w: usize, h: usize) -> Grid {
    Grid::new(w, h).unwrap()
}

#[test]
fn new_grid_is_all_air() {
    let g = grid(4, 3);
    assert_eq!(g.width(), 4);
    assert_eq!(g.height(), 3);
    assert_eq!(g.cells.len(), 12);
    for r in 0..3 {
        for c in 0..4 {
            assert_eq!(g.get(r, c), Ok(Element::Air));
        }
    }
}

#[test]
fn new_grid_rejects_empty_dimensions() {
    assert_eq!(Grid::new(0, 5).err(), Some(GridError::InvalidConfiguration));
    assert_eq!(Grid::new(5, 0).err(), Some(GridError::InvalidConfiguration));
    assert_eq!(Grid::new(0, 0).err(), Some(GridError::InvalidConfiguration));
}

#[test]
fn new_grid_rejects_overflowing_size() {
    assert_eq!(Grid::new(usize::MAX, 2).err(), Some(GridError::InvalidConfiguration));
}

#[test]
fn get_out_of_bounds_fails() {
    let g = grid(2, 2);
    assert_eq!(g.get(2, 0), Err(GridError::OutOfBounds));
    assert_eq!(g.get(0, 2), Err(GridError::OutOfBounds));
}

#[test]
fn set_writes_inside_and_drops_outside() {
    let mut g = grid(3, 2);
    g.set(1, 2, Element::Stone);
    assert_eq!(g.get(1, 2), Ok(Element::Stone));
    assert_eq!(g.cells[5], Element::Stone);
    let before = g.cells.clone();
    g.set(2, 0, Element::Sand);
    g.set(0, 3, Element::Sand);
    g.set(usize::MAX, usize::MAX, Element::Sand);
    assert_eq!(g.cells, before);
}

#[test]
fn swap_exchanges_two_cells() {
    let mut g = grid(3, 3);
    g.set(0, 0, Element::Sand);
    g.set(2, 1, Element::Water);
    g.swap(0, 0, 2, 1);
    assert_eq!(g.get(0, 0), Ok(Element::Water));
    assert_eq!(g.get(2, 1), Ok(Element::Sand));
}

#[test]
fn clear_resets_to_air() {
    let mut g = grid(3, 3);
    g.set(0, 0, Element::Sand);
    g.set(1, 1, Element::Lava);
    g.clear();
    assert!(g.cells.iter().all(|e| *e == Element::Air));
    assert_eq!(g.width(), 3);
    assert_eq!(g.height(), 3);
}

#[test]
fn move_cell_swaps_with_offset_target() {
    let mut g = grid(3, 3);
    g.set(1, 1, Element::Sand);
    g.set(2, 0, Element::Water);
    move_cell(&mut g, 1, 1, -1, 1);
    assert_eq!(g.get(2, 0), Ok(Element::Sand));
    assert_eq!(g.get(1, 1), Ok(Element::Water));
    move_cell(&mut g, 0, 2, 2, -2);
    assert_eq!(g.get(0, 2), Ok(Element::Sand));
    assert_eq!(g.get(2, 0), Ok(Element::Air));
}

#[test]
fn cell_matches_checks_membership_and_bounds() {
    let mut g = grid(2, 2);
    g.set(1, 0, Element::Water);
    assert!(cell_matches(&g, 0, 1, &[Element::Air, Element::Water]));
    assert!(!cell_matches(&g, 0, 1, &[Element::Air, Element::Lava]));
    assert!(!cell_matches(&g, 0, 1, &[]));
    assert!(!cell_matches(&g, 2, 0, &[Element::Air]));
    assert!(!cell_matches(&g, 0, 2, &[Element::Air]));
}

#[test]
fn is_cell_empty_only_for_air_inside() {
    let mut g = grid(2, 2);
    g.set(0, 1, Element::Grass);
    assert!(is_cell_empty(&g, 0, 0));
    assert!(!is_cell_empty(&g, 1, 0));
    assert!(!is_cell_empty(&g, 5, 0));
    assert!(!is_cell_empty(&g, 0, 5));
}

#[test]
fn palette_matches_reference_colours() {
    assert_eq!(color_for(Element::Sand), (159, 83, 0));
    assert_eq!(color_for(Element::WinArea), (255, 255, 0));
    assert_eq!(color_for(Element::Water), (0, 0, 255));
    assert_eq!(color_for(Element::Lava), (255, 0, 0));
    assert_eq!(color_for(Element::Grass), (0, 255, 85));
    assert_eq!(color_for(Element::Stone), (0, 0, 0));
    assert_eq!(color_for(Element::Air), (102, 102, 102));
}
