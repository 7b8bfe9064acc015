use gloomy::grid_flow::{grid_auto_place, GridItem};

fn flow(cs: usize, rs: usize) -> GridItem {
    GridItem { col: None, row: None, col_span: cs, row_span: rs }
}

fn at(c: usize, r: usize, cs: usize, rs: usize) -> GridItem {
    GridItem { col: Some(c), row: Some(r), col_span: cs, row_span: rs }
}

#[test]
fn flowing_items_fill_rows_in_order() {
    let (p, rows) = grid_auto_place(2, &vec![flow(1, 1), flow(1, 1), flow(1, 1)]);
    assert_eq!(p, vec![(0, 0), (1, 0), (0, 1)]);
    assert_eq!(rows, 2);
}

#[test]
fn explicit_cells_are_skipped_by_flow() {
    let (p, rows) = grid_auto_place(2, &vec![at(1, 0, 1, 1), flow(1, 1), flow(1, 1)]);
    assert_eq!(p, vec![(1, 0), (0, 0), (0, 1)]);
    assert_eq!(rows, 2);
}

#[test]
fn wide_items_wrap_when_they_do_not_fit() {
    let (p, rows) = grid_auto_place(3, &vec![flow(2, 1), flow(2, 1)]);
    assert_eq!(p, vec![(0, 0), (0, 1)]);
    assert_eq!(rows, 2);
}

#[test]
fn tall_items_block_cells_below() {
    let (p, rows) = grid_auto_place(2, &vec![flow(1, 2), flow(1, 1), flow(1, 1)]);
    assert_eq!(p, vec![(0, 0), (1, 0), (1, 1)]);
    assert_eq!(rows, 2);
}

#[test]
fn empty_spans_take_no_cell() {
    let (p, rows) = grid_auto_place(2, &vec![flow(0, 0), flow(1, 1)]);
    assert_eq!(p, vec![(0, 0), (0, 0)]);
    assert_eq!(rows, 1);
}

#[test]
fn explicit_rows_extend_the_grid() {
    let (p, rows) = grid_auto_place(2, &vec![at(0, 5, 1, 1)]);
    assert_eq!(p, vec![(0, 5)]);
    assert_eq!(rows, 6);
    let (p, rows) = grid_auto_place(2, &vec![at(0, 1, 2, 3), flow(1, 1)]);
    assert_eq!(p, vec![(0, 1), (0, 0)]);
    assert_eq!(rows, 4);
}

#[test]
fn no_columns_places_nothing() {
    let (p, rows) = grid_auto_place(0, &vec![flow(1, 1)]);
    assert!(p.is_empty());
    assert_eq!(rows, 0);
}
