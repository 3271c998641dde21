//! Placement of table cells on the column grid (CSS 2.1 §17.2, simplified):
//! each row's cells take the next columns that are not still occupied by a
//! `rowspan` cell of an earlier row.
use vstd::prelude::*;
use super::box_tree::TableRow;

verus! {

/// A cell placed on the grid: its row, its index within that row, and the
/// columns `[col_start, col_end)` it covers.
#[derive(Clone, Copy, PartialEq, Eq, Structural, Debug)]
pub struct GridCell {
    pub row_index: usize,
    pub cell_index: usize,
    pub col_start: usize,
    pub col_end: usize,
}

/// The `colspan` and `rowspan` of each cell of each row.
pub open spec fn row_spans(rows: Seq<TableRow>) -> Seq<Seq<(usize, usize)>> {
    rows.map_values(|r: TableRow| r.cells@.map_values(|c: super::box_tree::TableCell| (c.colspan, c.rowspan)))
}

/// The first column at or after `col` that no earlier `rowspan` still
/// occupies (or the column count when there is none).
pub open spec fn next_free(occ: Seq<usize>, col: int) -> int
    decreases occ.len() - col,
{
    if col < 0 || col >= occ.len() || occ[col] == 0 {
        col
    } else {
        next_free(occ, col + 1)
    }
}

pub open spec fn min_int(a: int, b: int) -> int {
    if a <= b {
        a
    } else {
        b
    }
}

/// Marks columns `[start, end)` as occupied for `rowspan` rows.
pub open spec fn occupy(occ: Seq<usize>, start: int, end: int, rowspan: usize) -> Seq<usize> {
    Seq::new(occ.len(), |c: int| if start <= c < end { rowspan } else { occ[c] })
}

/// One row's bookkeeping after its first `k` cells: the column ranges
/// placed so far, the occupancy and the column cursor.
pub open spec fn place_cells(occ: Seq<usize>, cells: Seq<(usize, usize)>, k: int) -> (Seq<(int, int)>, Seq<usize>, int)
    decreases k,
{
    if k <= 0 || k > cells.len() {
        (Seq::empty(), occ, 0)
    } else {
        let prev = place_cells(occ, cells, k - 1);
        let start = next_free(prev.1, prev.2);
        let end = min_int(start + cells[k - 1].0, occ.len() as int);
        (prev.0.push((start, end)), occupy(prev.1, start, end, cells[k - 1].1), end)
    }
}

/// One row further down: every occupancy count drops by one.
pub open spec fn age(occ: Seq<usize>) -> Seq<usize> {
    Seq::new(occ.len(), |c: int| if occ[c] > 0 { (occ[c] - 1) as usize } else { 0usize })
}

/// The column ranges of the cells of the first `r` rows of a grid with
/// `column_count` columns, and the occupancy left for the next row.
pub open spec fn place_rows(rows: Seq<Seq<(usize, usize)>>, column_count: nat, r: int) -> (Seq<Seq<(int, int)>>, Seq<usize>)
    decreases r,
{
    if r <= 0 || r > rows.len() {
        (Seq::empty(), Seq::new(column_count, |c: int| 0usize))
    } else {
        let prev = place_rows(rows, column_count, r - 1);
        let row = place_cells(prev.1, rows[r - 1], rows[r - 1].len() as int);
        (prev.0.push(row.0), age(row.1))
    }
}

/// The column ranges of every cell of `rows` on a grid of `column_count`
/// columns.
pub open spec fn spec_grid(rows: Seq<TableRow>, column_count: nat) -> Seq<Seq<(int, int)>> {
    place_rows(row_spans(rows), column_count, rows.len() as int).0
}

/// The column ranges of a built grid.
pub open spec fn grid_ranges(grid: Seq<Vec<GridCell>>) -> Seq<Seq<(int, int)>> {
    grid.map_values(|row: Vec<GridCell>| row@.map_values(|g: GridCell| (g.col_start as int, g.col_end as int)))
}

proof fn lemma_next_free_bounds(occ: Seq<usize>, col: int)
    requires
        0 <= col <= occ.len(),
    ensures
        col <= next_free(occ, col) <= occ.len(),
        next_free(occ, col) < occ.len() ==> occ[next_free(occ, col)] == 0,
        forall|c: int| col <= c < next_free(occ, col) ==> occ[c] > 0,
    decreases occ.len() - col,
{
    if col < occ.len() && occ[col] != 0 {
        lemma_next_free_bounds(occ, col + 1);
    }
}


/// Column ranges within a row stay inside the grid and follow each other
/// left to right.
pub open spec fn ranges_ordered(ranges: Seq<(int, int)>, column_count: int) -> bool {
    &&& forall|k: int|
        0 <= k < ranges.len() ==> 0 <= (#[trigger] ranges[k]).0 <= ranges[k].1 <= column_count
    &&& forall|k: int| 0 <= k < ranges.len() - 1 ==> (#[trigger] ranges[k]).1 <= ranges[k + 1].0
}

proof fn lemma_place_cells_ordered(occ: Seq<usize>, cells: Seq<(usize, usize)>, k: int)
    requires
        0 <= k <= cells.len(),
    ensures
        ({
            let r = place_cells(occ, cells, k);
            &&& r.0.len() == k
            &&& r.1.len() == occ.len()
            &&& 0 <= r.2 <= occ.len()
            &&& ranges_ordered(r.0, occ.len() as int)
            &&& k > 0 ==> r.0[k - 1].1 == r.2
        }),
    decreases k,
{
    if k > 0 {
        lemma_place_cells_ordered(occ, cells, k - 1);
        let prev = place_cells(occ, cells, k - 1);
        lemma_next_free_bounds(prev.1, prev.2);
    }
}

proof fn lemma_place_rows_ordered(rows: Seq<Seq<(usize, usize)>>, column_count: nat, r: int)
    requires
        0 <= r <= rows.len(),
    ensures
        ({
            let p = place_rows(rows, column_count, r);
            &&& p.0.len() == r
            &&& p.1.len() == column_count
            &&& forall|i: int| 0 <= i < r ==> (#[trigger] p.0[i]).len() == rows[i].len()
            &&& forall|i: int| 0 <= i < r ==> ranges_ordered(#[trigger] p.0[i], column_count as int)
        }),
    decreases r,
{
    if r > 0 {
        lemma_place_rows_ordered(rows, column_count, r - 1);
        let prev = place_rows(rows, column_count, r - 1);
        lemma_place_cells_ordered(prev.1, rows[r - 1], rows[r - 1].len() as int);
    }
}

/// Every cell of a table grid covers columns inside the grid, and the cells
/// of a row follow each other from left to right without overlapping.
pub proof fn lemma_grid_cells_are_ordered(rows: Seq<TableRow>, column_count: nat)
    ensures
        spec_grid(rows, column_count).len() == rows.len(),
        forall|i: int|
            0 <= i < rows.len() ==> (#[trigger] spec_grid(rows, column_count)[i]).len() == rows[i].cells@.len(),
        forall|i: int|
            0 <= i < rows.len() ==> ranges_ordered(#[trigger] spec_grid(rows, column_count)[i], column_count as int),
{
    let spans = row_spans(rows);
    lemma_place_rows_ordered(spans, column_count, rows.len() as int);
    assert forall|i: int| 0 <= i < rows.len() implies (#[trigger] spec_grid(rows, column_count)[i]).len()
        == rows[i].cells@.len() by {
        assert(spans[i].len() == rows[i].cells@.len());
    }
}

/// The sum of the `colspan`s of the first `k` cells.
pub open spec fn colspan_prefix(cells: Seq<(usize, usize)>, k: int) -> int
    decreases k,
{
    if k <= 0 || k > cells.len() {
        0
    } else {
        colspan_prefix(cells, k - 1) + cells[k - 1].0
    }
}

/// Whether no cell spans more than one row.
pub open spec fn all_rowspans_one(rows: Seq<TableRow>) -> bool {
    forall|i: int, k: int|
        0 <= i < rows.len() && 0 <= k < rows[i].cells@.len() ==> (#[trigger] rows[i].cells@[k]).rowspan == 1
}

proof fn lemma_place_cells_naive(occ: Seq<usize>, cells: Seq<(usize, usize)>, k: int)
    requires
        0 <= k <= cells.len(),
        forall|c: int| 0 <= c < occ.len() ==> occ[c] == 0,
        forall|j: int| 0 <= j < cells.len() ==> (#[trigger] cells[j]).1 == 1,
    ensures
        ({
            let r = place_cells(occ, cells, k);
            &&& r.2 == min_int(colspan_prefix(cells, k), occ.len() as int)
            &&& forall|c: int| r.2 <= c < occ.len() ==> r.1[c] == 0
            &&& forall|c: int| 0 <= c < occ.len() ==> r.1[c] <= 1
            &&& r.1.len() == occ.len()
            &&& forall|j: int|
                0 <= j < k ==> #[trigger] r.0[j] == (
                    min_int(colspan_prefix(cells, j), occ.len() as int),
                    min_int(colspan_prefix(cells, j + 1), occ.len() as int),
                )
        }),
    decreases k,
{
    lemma_place_cells_ordered(occ, cells, k);
    if k > 0 {
        lemma_place_cells_naive(occ, cells, k - 1);
        let prev = place_cells(occ, cells, k - 1);
        lemma_place_cells_ordered(occ, cells, k - 1);
        lemma_next_free_bounds(prev.1, prev.2);
        assert(next_free(prev.1, prev.2) == prev.2);
        assert(colspan_prefix(cells, k) == colspan_prefix(cells, k - 1) + cells[k - 1].0);
    }
}

proof fn lemma_place_rows_naive(rows: Seq<Seq<(usize, usize)>>, column_count: nat, r: int)
    requires
        0 <= r <= rows.len(),
        forall|i: int, k: int| 0 <= i < rows.len() && 0 <= k < rows[i].len() ==> (#[trigger] rows[i][k]).1 == 1,
    ensures
        ({
            let p = place_rows(rows, column_count, r);
            &&& p.1.len() == column_count
            &&& forall|c: int| 0 <= c < column_count ==> p.1[c] == 0
            &&& p.0.len() == r
            &&& forall|i: int, k: int|
                0 <= i < r && 0 <= k < rows[i].len() ==> #[trigger] p.0[i][k] == (
                    min_int(colspan_prefix(rows[i], k), column_count as int),
                    min_int(colspan_prefix(rows[i], k + 1), column_count as int),
                )
        }),
    decreases r,
{
    if r > 0 {
        lemma_place_rows_naive(rows, column_count, r - 1);
        let prev = place_rows(rows, column_count, r - 1);
        assert forall|j: int| 0 <= j < rows[r - 1].len() implies (#[trigger] rows[r - 1][j]).1 == 1 by {}
        lemma_place_cells_naive(prev.1, rows[r - 1], rows[r - 1].len() as int);
    }
}

/// When no cell spans several rows, placing the cells on the grid is the
/// plain walk that advances a column cursor by each cell's `colspan`: a
/// cell covers the columns from the sum of the `colspan`s before it to that
/// sum plus its own, both cut at the column count.
pub proof fn lemma_grid_without_rowspans_is_the_colspan_walk(rows: Seq<TableRow>, column_count: nat)
    requires
        all_rowspans_one(rows),
    ensures
        forall|i: int, k: int|
            0 <= i < rows.len() && 0 <= k < rows[i].cells@.len() ==> #[trigger] spec_grid(rows, column_count)[i][k]
                == (
                min_int(colspan_prefix(row_spans(rows)[i], k), column_count as int),
                min_int(colspan_prefix(row_spans(rows)[i], k + 1), column_count as int),
            ),
{
    let spans = row_spans(rows);
    assert forall|i: int, k: int| 0 <= i < spans.len() && 0 <= k < spans[i].len() implies (
    #[trigger] spans[i][k]).1 == 1 by {
        assert(spans[i][k].1 == rows[i].cells@[k].rowspan);
    }
    lemma_place_rows_naive(spans, column_count, rows.len() as int);
    assert forall|i: int, k: int|
        0 <= i < rows.len() && 0 <= k < rows[i].cells@.len() implies #[trigger] spec_grid(rows, column_count)[i][k]
        == (
        min_int(colspan_prefix(spans[i], k), column_count as int),
        min_int(colspan_prefix(spans[i], k + 1), column_count as int),
    ) by {
        assert(spans[i].len() == rows[i].cells@.len());
    }
}

/// Places the cells of `rows` on a grid of `column_count` columns: each
/// cell starts at the first column not occupied by a `rowspan` cell of an
/// earlier row and covers `colspan` columns, cut at the last column.
pub fn build_table_grid(rows: &Vec<TableRow>, column_count: usize) -> (grid: Vec<Vec<GridCell>>)
    ensures
        grid_ranges(grid@) == spec_grid(rows@, column_count as nat),
        grid@.len() == rows@.len(),
        forall|i: int| 0 <= i < grid@.len() ==> (#[trigger] grid@[i])@.len() == rows@[i].cells@.len(),
        forall|i: int, k: int|
            0 <= i < grid@.len() && 0 <= k < grid@[i]@.len() ==> (#[trigger] grid@[i]@[k]).row_index == i
                && grid@[i]@[k].cell_index == k,
{
    let mut occupied: Vec<usize> = Vec::new();
    let mut c: usize = 0;
    while c < column_count
        invariant
            c <= column_count,
            occupied@ =~= Seq::new(c as nat, |j: int| 0usize),
        decreases column_count - c,
    {
        occupied.push(0);
        c = c + 1;
    }
    let ghost spans = row_spans(rows@);
    let mut grid: Vec<Vec<GridCell>> = Vec::new();
    let n = rows.len();
    let mut row_index: usize = 0;
    while row_index < n
        invariant
            n == rows@.len(),
            spans == row_spans(rows@),
            row_index <= n,
            occupied@.len() == column_count,
            grid@.len() == row_index,
            (grid_ranges(grid@), occupied@) == place_rows(spans, column_count as nat, row_index as int),
            forall|i: int| 0 <= i < row_index ==> (#[trigger] grid@[i])@.len() == rows@[i].cells@.len(),
            forall|i: int, k: int|
                0 <= i < row_index && 0 <= k < grid@[i]@.len() ==> (#[trigger] grid@[i]@[k]).row_index == i
                    && grid@[i]@[k].cell_index == k,
        decreases n - row_index,
    {
        let row = &rows[row_index];
        let ghost cells = spans[row_index as int];
        assert(cells == row.cells@.map_values(|c: super::box_tree::TableCell| (c.colspan, c.rowspan)));
        let ghost occ0 = occupied@;
        let ghost grid0 = grid@;
        let m = row.cells.len();
        let mut row_cells: Vec<GridCell> = Vec::new();
        let mut col: usize = 0;
        let mut k: usize = 0;
        assert(row_cells@.map_values(|g: GridCell| (g.col_start as int, g.col_end as int)) =~= Seq::<(int, int)>::empty());
        while k < m
            invariant
                m == row.cells@.len(),
                cells.len() == m,
                forall|j: int| 0 <= j < m ==> #[trigger] cells[j] == (row.cells@[j].colspan, row.cells@[j].rowspan),
                k <= m,
                occupied@.len() == column_count,
                occ0.len() == column_count,
                col <= column_count,
                row_cells@.len() == k,
                (row_cells@.map_values(|g: GridCell| (g.col_start as int, g.col_end as int)), occupied@, col as int)
                    == place_cells(occ0, cells, k as int),
                forall|j: int| 0 <= j < k ==> (#[trigger] row_cells@[j]).row_index == row_index && row_cells@[j].cell_index == j,
            decreases m - k,
        {
            let cell = &row.cells[k];
            assert(cells[k as int] == (cell.colspan, cell.rowspan));
            let ghost occ_k = occupied@;
            let ghost col0 = col as int;
            let ghost ranges_k = row_cells@.map_values(|g: GridCell| (g.col_start as int, g.col_end as int));
            while col < column_count && occupied[col] > 0
                invariant
                    occupied@ == occ_k,
                    occ_k.len() == column_count,
                    col0 <= col <= column_count,
                    next_free(occ_k, col as int) == next_free(occ_k, col0),
                decreases column_count - col,
            {
                col = col + 1;
            }
            let col_start = col;
            assert(col_start == next_free(occ_k, col0));
            let col_end = if cell.colspan >= column_count - col_start {
                column_count
            } else {
                col_start + cell.colspan
            };
            assert(col_end == min_int(col_start + cell.colspan, column_count as int));
            let mut s = col_start;
            while s < col_end
                invariant
                    col_start <= s <= col_end <= column_count,
                    occ_k.len() == column_count,
                    occupied@ == Seq::new(
                        column_count as nat,
                        |c: int| if col_start <= c < s { cell.rowspan } else { occ_k[c] },
                    ),
                decreases col_end - s,
            {
                occupied.set(s, cell.rowspan);
                s = s + 1;
                assert(occupied@ =~= Seq::new(
                    column_count as nat,
                    |c: int| if col_start <= c < s { cell.rowspan } else { occ_k[c] },
                ));
            }
            assert(occupied@ =~= occupy(occ_k, col_start as int, col_end as int, cell.rowspan));
            let g = GridCell { row_index, cell_index: k, col_start, col_end };
            row_cells.push(g);
            assert(row_cells@.map_values(|g: GridCell| (g.col_start as int, g.col_end as int)) =~= ranges_k.push(
                (col_start as int, col_end as int),
            ));
            col = col_end;
            k = k + 1;
        }
        let ghost placed = occupied@;
        let ghost ranges = row_cells@.map_values(|g: GridCell| (g.col_start as int, g.col_end as int));
        grid.push(row_cells);
        assert(grid_ranges(grid@) =~= grid_ranges(grid0).push(ranges));
        let mut c: usize = 0;
        while c < column_count
            invariant
                placed.len() == column_count,
                c <= column_count,
                occupied@ == Seq::new(
                    column_count as nat,
                    |j: int| if j < c { if placed[j] > 0 { (placed[j] - 1) as usize } else { 0usize } } else { placed[j] },
                ),
            decreases column_count - c,
        {
            if occupied[c] > 0 {
                occupied.set(c, occupied[c] - 1);
            }
            c = c + 1;
            assert(occupied@ =~= Seq::new(
                column_count as nat,
                |j: int| if j < c { if placed[j] > 0 { (placed[j] - 1) as usize } else { 0usize } } else { placed[j] },
            ));
        }
        assert(occupied@ =~= age(placed));
        row_index = row_index + 1;
    }
    grid
}

} // verus!
