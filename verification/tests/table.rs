use sghtmltopdf_core::layout::box_tree::{BoxContent, LayoutBox, TableCell, TableRow};
use sghtmltopdf_core::layout::table::{build_table_grid, GridCell};

fn grid_cell(colspan: usize, rowspan: usize) -> TableCell {
    TableCell {
        node: 0,
        colspan,
        rowspan,
        content: LayoutBox { node: None, content: BoxContent::Inline(Vec::new()) },
    }
}

fn grid_row(cells: Vec<TableCell>) -> TableRow {
    TableRow { node: 0, cells }
}

fn grid_spans(grid: &[Vec<GridCell>]) -> Vec<Vec<(usize, usize)>> {
    grid.iter().map(|row| row.iter().map(|gc| (gc.col_start, gc.col_end)).collect()).collect()
}

#[test]
fn build_table_grid_matches_the_naive_colspan_walk_when_rowspan_is_always_one() {
    let rows = vec![
        grid_row(vec![grid_cell(2, 1), grid_cell(1, 1)]),
        grid_row(vec![grid_cell(1, 1), grid_cell(1, 1), grid_cell(1, 1)]),
    ];
    let grid = build_table_grid(&rows, 3);
    assert_eq!(grid_spans(&grid), vec![vec![(0, 2), (2, 3)], vec![(0, 1), (1, 2), (2, 3)]]);
}

#[test]
fn build_table_grid_skips_columns_occupied_by_a_rowspan_cell() {
    let rows = vec![
        grid_row(vec![grid_cell(1, 2), grid_cell(1, 1)]),
        grid_row(vec![grid_cell(1, 1)]),
        grid_row(vec![grid_cell(1, 1), grid_cell(1, 1)]),
    ];
    let grid = build_table_grid(&rows, 2);
    assert_eq!(grid_spans(&grid), vec![vec![(0, 1), (1, 2)], vec![(1, 2)], vec![(0, 1), (1, 2)]]);
}

#[test]
fn build_table_grid_handles_rowspan_and_colspan_combined() {
    let rows = vec![grid_row(vec![grid_cell(2, 2), grid_cell(1, 1)]), grid_row(vec![grid_cell(1, 1)])];
    let grid = build_table_grid(&rows, 3);
    assert_eq!(grid_spans(&grid), vec![vec![(0, 2), (2, 3)], vec![(2, 3)]]);
}

#[test]
fn grid_cells_record_their_row_and_index() {
    let rows = vec![grid_row(vec![grid_cell(1, 1), grid_cell(2, 1)]), grid_row(vec![grid_cell(3, 1)])];
    let grid = build_table_grid(&rows, 3);
    assert_eq!(grid[0][1].row_index, 0);
    assert_eq!(grid[0][1].cell_index, 1);
    assert_eq!(grid[1][0].row_index, 1);
    assert_eq!(grid[1][0].cell_index, 0);
}

#[test]
fn cells_in_a_row_never_overlap_and_stay_inside_the_table() {
    let rows = vec![
        grid_row(vec![grid_cell(1, 3), grid_cell(2, 2), grid_cell(1, 1)]),
        grid_row(vec![grid_cell(1, 1), grid_cell(1, 1)]),
        grid_row(vec![grid_cell(2, 1)]),
    ];
    let grid = build_table_grid(&rows, 4);
    for row in &grid {
        for pair in row.windows(2) {
            assert!(pair[0].col_end <= pair[1].col_start);
        }
        for gc in row {
            assert!(gc.col_start <= gc.col_end && gc.col_end <= 4);
        }
    }
    // The second cell of the middle row finds no free column left: it gets
    // an empty range at the table's right edge.
    assert_eq!(grid_spans(&grid), vec![vec![(0, 1), (1, 3), (3, 4)], vec![(3, 4), (4, 4)], vec![(1, 3)]]);
}
