use falling_sand::brush::{apply_stroke, draw_square_terrain, draw_square_terrain_line};
use falling_sand::element::Element;
use falling_sand::grid::Grid;

fn grid(w: usize, h: usize) -> Grid {
    Grid::new(w, h).unwrap()
}

fn painted(g: &Grid, m: Element) -> Vec<(usize, usize)> {
    let mut out = Vec::new();
    for r in 0..g.height() {
        for c in 0..g.width() {
            if g.get(r, c) == Ok(m) {
                out.push((r, c));
            }
        }
    }
    out
}

#[test]
fn brush_of_one_paints_one_cell() {
    let mut g = grid(5, 5);
    draw_square_terrain(&mut g, Element::Stone, 1, 2, 3);
    assert_eq!(painted(&g, Element::Stone), vec![(2, 3)]);
}

#[test]
fn brush_of_three_is_centred() {
    let mut g = grid(5, 5);
    draw_square_terrain(&mut g, Element::Sand, 3, 2, 2);
    let mut want = Vec::new();
    for r in 1..4 {
        for c in 1..4 {
            want.push((r, c));
        }
    }
    assert_eq!(painted(&g, Element::Sand), want);
}

#[test]
fn even_brush_is_offset_up_left() {
    let mut g = grid(5, 5);
    draw_square_terrain(&mut g, Element::Sand, 2, 2, 2);
    assert_eq!(painted(&g, Element::Sand), vec![(1, 1), (1, 2), (2, 1), (2, 2)]);
}

#[test]
fn brush_of_zero_paints_nothing() {
    let mut g = grid(3, 3);
    draw_square_terrain(&mut g, Element::Sand, 0, 1, 1);
    assert!(painted(&g, Element::Sand).is_empty());
}

#[test]
fn brush_of_five_at_origin_is_clipped() {
    let mut g = grid(4, 4);
    draw_square_terrain(&mut g, Element::Lava, 5, 0, 0);
    let mut want = Vec::new();
    for r in 0..3 {
        for c in 0..3 {
            want.push((r, c));
        }
    }
    assert_eq!(painted(&g, Element::Lava), want);
    assert_eq!(g.cells.len(), 16);
    assert_eq!(g.width(), 4);
    assert_eq!(g.height(), 4);
}

#[test]
fn brush_far_outside_writes_nothing() {
    let mut g = grid(3, 3);
    draw_square_terrain(&mut g, Element::Sand, 3, 100, 100);
    draw_square_terrain(&mut g, Element::Sand, usize::MAX, usize::MAX, usize::MAX);
    assert!(painted(&g, Element::Sand).is_empty());
}

#[test]
fn huge_brush_fills_grid() {
    let mut g = grid(3, 2);
    draw_square_terrain(&mut g, Element::Water, usize::MAX, 1, 1);
    assert_eq!(painted(&g, Element::Water).len(), 6);
}

#[test]
fn horizontal_stroke_has_no_gap() {
    let mut g = grid(12, 3);
    draw_square_terrain_line(&mut g, Element::Sand, 1, 0, 0, 10, 0);
    let want: Vec<(usize, usize)> = (0..=10).map(|c| (0, c)).collect();
    assert_eq!(painted(&g, Element::Sand), want);
}

#[test]
fn stroke_along_a_row_marks_every_cell() {
    let mut g = grid(12, 12);
    apply_stroke(&mut g, Some((0, 0)), (0, 10), 1, Element::Stone);
    for c in 0..=10 {
        assert_eq!(g.get(0, c), Ok(Element::Stone));
    }
    assert_eq!(g.get(0, 11), Ok(Element::Air));
    assert_eq!(painted(&g, Element::Stone).len(), 11);
}

#[test]
fn vertical_stroke_upwards_has_no_gap() {
    let mut g = grid(3, 8);
    draw_square_terrain_line(&mut g, Element::Grass, 1, 1, 7, 1, 0);
    let want: Vec<(usize, usize)> = (0..8).map(|r| (r, 1)).collect();
    assert_eq!(painted(&g, Element::Grass), want);
}

#[test]
fn diagonal_stroke_visits_each_diagonal_cell() {
    let mut g = grid(5, 5);
    draw_square_terrain_line(&mut g, Element::Sand, 1, 0, 0, 4, 4);
    assert_eq!(painted(&g, Element::Sand), vec![(0, 0), (1, 1), (2, 2), (3, 3), (4, 4)]);
}

#[test]
fn shallow_stroke_follows_bresenham() {
    let mut g = grid(6, 3);
    draw_square_terrain_line(&mut g, Element::Sand, 1, 0, 0, 4, 2);
    assert_eq!(painted(&g, Element::Sand), vec![(0, 0), (1, 1), (1, 2), (2, 3), (2, 4)]);
}

#[test]
fn stroke_from_outside_is_clipped() {
    let mut g = grid(4, 4);
    draw_square_terrain_line(&mut g, Element::Sand, 1, -3, 1, 1, 1);
    assert_eq!(painted(&g, Element::Sand), vec![(1, 0), (1, 1)]);
}

#[test]
fn stroke_without_previous_sample_paints_one_point() {
    let mut g = grid(6, 6);
    apply_stroke(&mut g, None, (3, 4), 1, Element::Water);
    assert_eq!(painted(&g, Element::Water), vec![(3, 4)]);
}

#[test]
fn stroke_without_previous_sample_uses_brush_size() {
    let mut g = grid(6, 6);
    apply_stroke(&mut g, None, (0, 0), 5, Element::Water);
    assert_eq!(painted(&g, Element::Water).len(), 9);
}

#[test]
fn wide_brush_stroke_paints_a_band() {
    let mut g = grid(8, 5);
    apply_stroke(&mut g, Some((2, 1)), (2, 6), 3, Element::Stone);
    let mut want = Vec::new();
    for r in 1..4 {
        for c in 0..8 {
            want.push((r, c));
        }
    }
    assert_eq!(painted(&g, Element::Stone), want);
}

#[test]
fn brush_centred_below_the_grid_writes_nothing() {
    let mut g = grid(480, 360);
    draw_square_terrain_line(&mut g, Element::Sand, 3, 0, 400, 0, 400);
    assert!(painted(&g, Element::Sand).is_empty());
}

#[test]
fn brush_centred_above_the_grid_writes_nothing() {
    let mut g = grid(6, 6);
    draw_square_terrain_line(&mut g, Element::Sand, 3, 2, -50, 3, -50);
    apply_stroke(&mut g, None, (-50, 2), 3, Element::Sand);
    assert!(painted(&g, Element::Sand).is_empty());
}

#[test]
fn brush_just_off_the_edge_paints_its_overlap() {
    let mut g = grid(4, 4);
    draw_square_terrain_line(&mut g, Element::Stone, 3, 4, 1, 4, 1);
    assert_eq!(painted(&g, Element::Stone), vec![(0, 3), (1, 3), (2, 3)]);
    let mut g = grid(4, 4);
    apply_stroke(&mut g, None, (-1, 0), 3, Element::Stone);
    assert_eq!(painted(&g, Element::Stone), vec![(0, 0), (0, 1)]);
}

#[test]
fn stroke_entering_the_grid_paints_only_inside() {
    let mut g = grid(4, 4);
    apply_stroke(&mut g, Some((-3, 2)), (1, 2), 1, Element::Water);
    assert_eq!(painted(&g, Element::Water), vec![(0, 2), (1, 2)]);
}

#[test]
fn thin_stroke_paints_one_cell_per_major_step() {
    let mut g = grid(10, 10);
    draw_square_terrain_line(&mut g, Element::Sand, 1, 0, 0, 7, 3);
    let cells = painted(&g, Element::Sand);
    assert_eq!(cells.len(), 8);
    assert!(cells.contains(&(0, 0)));
    assert!(cells.contains(&(3, 7)));
    let mut g = grid(10, 10);
    draw_square_terrain_line(&mut g, Element::Sand, 1, 2, 9, 4, 1);
    assert_eq!(painted(&g, Element::Sand).len(), 9);
}

#[test]
fn split_row_stroke_paints_the_same_cells() {
    let mut whole = grid(12, 4);
    draw_square_terrain_line(&mut whole, Element::Water, 3, 1, 2, 10, 2);
    let mut split = grid(12, 4);
    draw_square_terrain_line(&mut split, Element::Water, 3, 1, 2, 6, 2);
    draw_square_terrain_line(&mut split, Element::Water, 3, 6, 2, 10, 2);
    assert_eq!(whole.cells, split.cells);
}

#[test]
fn split_column_stroke_paints_the_same_cells() {
    let mut whole = grid(4, 12);
    draw_square_terrain_line(&mut whole, Element::Grass, 2, 1, 11, 1, 0);
    let mut split = grid(4, 12);
    draw_square_terrain_line(&mut split, Element::Grass, 2, 1, 11, 1, 4);
    draw_square_terrain_line(&mut split, Element::Grass, 2, 1, 4, 1, 0);
    assert_eq!(whole.cells, split.cells);
}
