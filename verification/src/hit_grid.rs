//! The uniform grid that narrows a pointer hit test to the entries whose bounds reach the pointer's cell.
//!
//! The grid holds, for each cell, the indices of the entries whose bounds reach into it. Measuring which cells a
//! rectangle covers is the caller's part, done in layout units; the grid keeps its cells exactly in step with the
//! spans it is given, so a query never misses an entry under the pointer and never lists one twice.
use vstd::prelude::*;

verus! {

/// The `CellSpan` struct is the block of grid cells a rectangle reaches: columns `first_col..=last_col` and rows
/// `first_row..=last_row`. The grid keeps only the part of it that lies inside the grid.
#[derive(Debug, Clone, Copy, PartialEq, Eq, Structural)]
pub struct CellSpan {
    pub first_col: usize,
    pub last_col: usize,
    pub first_row: usize,
    pub last_row: usize,
}

/// Whether `span` reaches the cell in column `col` and row `row`. An empty rectangle has no span and reaches no cell.
pub open spec fn covers(span: Option<CellSpan>, col: int, row: int) -> bool {
    match span {
        Some(s) => s.first_col <= col <= s.last_col && s.first_row <= row <= s.last_row,
        None => false,
    }
}

/// The entries listed in the cell in column `col` and row `row` of `cells`, which holds one row of cells per grid
/// row.
pub open spec fn grid_cell(cells: Seq<Vec<Vec<usize>>>, col: int, row: int) -> Seq<usize> {
    cells[row]@[col]@
}

/// Whether `cells` has a cell for every column and row of a `columns` by `rows` grid. Spare cells beyond it are
/// kept for a later, larger grid.
pub open spec fn sized(cells: Seq<Vec<Vec<usize>>>, columns: int, rows: int) -> bool {
    &&& cells.len() >= rows
    &&& forall|r: int| 0 <= r < rows ==> #[trigger] cells[r]@.len() >= columns
}

/// The end, exclusive, of the part of `first..=last` inside `0..count`.
fn clipped_end(last: usize, count: usize) -> (r: usize)
    ensures
        r <= count,
        r == if last < count { last + 1 } else { count as int },
{
    if last < count {
        last + 1
    } else {
        count
    }
}

/// Lists `entry` in every cell of the grid that `span` reaches.
fn add_to_cells(cells: &mut Vec<Vec<Vec<usize>>>, columns: usize, rows: usize, entry: usize, span: Option<CellSpan>)
    requires
        sized(old(cells)@, columns as int, rows as int),
    ensures
        sized(final(cells)@, columns as int, rows as int),
        final(cells)@.len() == old(cells)@.len(),
        forall|c: int, r: int|
            0 <= c < columns && 0 <= r < rows ==> #[trigger] grid_cell(final(cells)@, c, r) == if covers(span, c, r) {
                grid_cell(old(cells)@, c, r).push(entry)
            } else {
                grid_cell(old(cells)@, c, r)
            },
{
    let ghost before = cells@;
    match span {
        None => {},
        Some(s) => {
            let row_end = clipped_end(s.last_row, rows);
            let col_end = clipped_end(s.last_col, columns);
            let mut r = s.first_row;
            while r < row_end
                invariant
                    sized(cells@, columns as int, rows as int),
                    cells@.len() == before.len(),
                    row_end <= rows,
                    col_end <= columns,
                    row_end == if s.last_row < rows { s.last_row + 1 } else { rows as int },
                    col_end == if s.last_col < columns { s.last_col + 1 } else { columns as int },
                    s.first_row <= r,
                    r <= row_end || row_end <= s.first_row,
                    span == Some(s),
                    forall|c: int, r2: int|
                        0 <= c < columns && 0 <= r2 < rows ==> #[trigger] grid_cell(cells@, c, r2) == if covers(
                            span,
                            c,
                            r2,
                        ) && r2 < r {
                            grid_cell(before, c, r2).push(entry)
                        } else {
                            grid_cell(before, c, r2)
                        },
                decreases row_end - r,
            {
                let mut c = s.first_col;
                while c < col_end
                    invariant
                        sized(cells@, columns as int, rows as int),
                        cells@.len() == before.len(),
                        r < row_end <= rows,
                        col_end <= columns,
                        row_end == if s.last_row < rows { s.last_row + 1 } else { rows as int },
                        col_end == if s.last_col < columns { s.last_col + 1 } else { columns as int },
                        s.first_row <= r,
                        s.first_col <= c,
                        c <= col_end || col_end <= s.first_col,
                        span == Some(s),
                        forall|c2: int, r2: int|
                            0 <= c2 < columns && 0 <= r2 < rows ==> #[trigger] grid_cell(cells@, c2, r2) == if covers(
                                span,
                                c2,
                                r2,
                            ) && (r2 < r || (r2 == r && c2 < c)) {
                                grid_cell(before, c2, r2).push(entry)
                            } else {
                                grid_cell(before, c2, r2)
                            },
                    decreases col_end - c,
                {
                    let ghost prior = cells@;
                    assert(cells@[r as int]@.len() >= columns);
                    cells[r][c].push(entry);
                    proof {
                        assert forall|r2: int| 0 <= r2 < rows implies #[trigger] cells@[r2]@.len() >= columns by {
                            assert(prior[r2]@.len() >= columns);
                        }
                        assert forall|c2: int, r2: int| 0 <= c2 < columns && 0 <= r2 < rows implies #[trigger] grid_cell(
                            cells@,
                            c2,
                            r2,
                        ) == if covers(span, c2, r2) && (r2 < r || (r2 == r && c2 < c + 1)) {
                            grid_cell(before, c2, r2).push(entry)
                        } else {
                            grid_cell(before, c2, r2)
                        } by {
                            assert(grid_cell(prior, c2, r2) == grid_cell(prior, c2, r2));
                            if r2 != r || c2 != c {
                                assert(grid_cell(cells@, c2, r2) == grid_cell(prior, c2, r2));
                            }
                        }
                    }
                    c = c + 1;
                }
                r = r + 1;
            }
        },
    }
}

/// Whether the cell `after` lists what the cell `before` listed but `entry`, each once.
pub open spec fn lists_without(before: Seq<usize>, after: Seq<usize>, entry: usize) -> bool {
    &&& after.no_duplicates()
    &&& forall|x: usize| after.contains(x) <==> (before.contains(x) && x != entry)
}

/// Takes `entry` out of `bucket`, which lists it once.
fn remove_entry(bucket: &mut Vec<usize>, entry: usize)
    requires
        old(bucket)@.no_duplicates(),
        old(bucket)@.contains(entry),
    ensures
        lists_without(old(bucket)@, final(bucket)@, entry),
{
    let ghost before = bucket@;
    let mut j: usize = 0;
    while j < bucket.len() && bucket[j] != entry
        invariant
            j <= bucket@.len(),
            bucket@ == before,
            forall|k: int| 0 <= k < j ==> bucket@[k] != entry,
        decreases bucket@.len() - j,
    {
        j = j + 1;
    }
    proof {
        if j == bucket@.len() {
            let k = choose|k: int| 0 <= k < before.len() && before[k] == entry;
            assert(before[k] != entry);
        }
    }
    bucket.swap_remove(j);
    proof {
        let n = before.len();
        let after = bucket@;
        assert(after.len() == n - 1);
        assert forall|k: int| 0 <= k < n - 1 implies #[trigger] after[k] == if k == j { before[n - 1] } else { before[k] } by {}
        assert forall|x: usize| after.contains(x) <==> (before.contains(x) && x != entry) by {
            if after.contains(x) {
                let k = choose|k: int| 0 <= k < after.len() && after[k] == x;
                if k == j {
                    assert(before[n - 1] == x);
                    assert(n - 1 != j);
                } else {
                    assert(before[k] == x);
                }
            }
            if before.contains(x) && x != entry {
                let k = choose|k: int| 0 <= k < n && before[k] == x;
                assert(k != j);
                if k < n - 1 {
                    assert(after[k] == x);
                } else {
                    assert(after[j as int] == x);
                }
            }
        }
        assert forall|a: int, b: int| 0 <= a < after.len() && 0 <= b < after.len() && a != b implies after[a] != after[b] by {
            let ia = if a == j { n - 1 } else { a };
            let ib = if b == j { n - 1 } else { b };
            assert(after[a] == before[ia]);
            assert(after[b] == before[ib]);
        }
    }
}

/// Takes `entry` out of every cell of the grid that `span` reaches, each of which lists it once.
fn remove_from_cells(cells: &mut Vec<Vec<Vec<usize>>>, columns: usize, rows: usize, entry: usize, span: Option<CellSpan>)
    requires
        sized(old(cells)@, columns as int, rows as int),
        forall|c: int, r: int|
            0 <= c < columns && 0 <= r < rows && covers(span, c, r) ==> #[trigger] grid_cell(old(cells)@, c, r).contains(
                entry,
            ) && grid_cell(old(cells)@, c, r).no_duplicates(),
    ensures
        sized(final(cells)@, columns as int, rows as int),
        final(cells)@.len() == old(cells)@.len(),
        forall|c: int, r: int|
            0 <= c < columns && 0 <= r < rows ==> if covers(span, c, r) {
                lists_without(grid_cell(old(cells)@, c, r), #[trigger] grid_cell(final(cells)@, c, r), entry)
            } else {
                grid_cell(final(cells)@, c, r) == grid_cell(old(cells)@, c, r)
            },
{
    let ghost before = cells@;
    match span {
        None => {},
        Some(s) => {
            let row_end = clipped_end(s.last_row, rows);
            let col_end = clipped_end(s.last_col, columns);
            let mut r = s.first_row;
            while r < row_end
                invariant
                    sized(cells@, columns as int, rows as int),
                    cells@.len() == before.len(),
                    row_end <= rows,
                    col_end <= columns,
                    row_end == if s.last_row < rows { s.last_row + 1 } else { rows as int },
                    col_end == if s.last_col < columns { s.last_col + 1 } else { columns as int },
                    s.first_row <= r,
                    r <= row_end || row_end <= s.first_row,
                    span == Some(s),
                    forall|c: int, r2: int|
                        0 <= c < columns && 0 <= r2 < rows && covers(span, c, r2) ==> #[trigger] grid_cell(
                            before,
                            c,
                            r2,
                        ).contains(entry) && grid_cell(before, c, r2).no_duplicates(),
                    forall|c: int, r2: int|
                        0 <= c < columns && 0 <= r2 < rows ==> if covers(span, c, r2) && r2 < r {
                            lists_without(grid_cell(before, c, r2), #[trigger] grid_cell(cells@, c, r2), entry)
                        } else {
                            grid_cell(cells@, c, r2) == grid_cell(before, c, r2)
                        },
                decreases row_end - r,
            {
                let mut c = s.first_col;
                while c < col_end
                    invariant
                        sized(cells@, columns as int, rows as int),
                        cells@.len() == before.len(),
                        r < row_end <= rows,
                        col_end <= columns,
                        row_end == if s.last_row < rows { s.last_row + 1 } else { rows as int },
                        col_end == if s.last_col < columns { s.last_col + 1 } else { columns as int },
                        s.first_row <= r,
                        s.first_col <= c,
                        c <= col_end || col_end <= s.first_col,
                        span == Some(s),
                        forall|c2: int, r2: int|
                            0 <= c2 < columns && 0 <= r2 < rows && covers(span, c2, r2) ==> #[trigger] grid_cell(
                                before,
                                c2,
                                r2,
                            ).contains(entry) && grid_cell(before, c2, r2).no_duplicates(),
                        forall|c2: int, r2: int|
                            0 <= c2 < columns && 0 <= r2 < rows ==> if covers(span, c2, r2) && (r2 < r || (r2 == r
                                && c2 < c)) {
                                lists_without(grid_cell(before, c2, r2), #[trigger] grid_cell(cells@, c2, r2), entry)
                            } else {
                                grid_cell(cells@, c2, r2) == grid_cell(before, c2, r2)
                            },
                    decreases col_end - c,
                {
                    let ghost prior = cells@;
                    assert(cells@[r as int]@.len() >= columns);
                    assert(grid_cell(prior, c as int, r as int) == grid_cell(before, c as int, r as int));
                    assert(covers(span, c as int, r as int));
                    assert(grid_cell(before, c as int, r as int).contains(entry));
                    assert(grid_cell(before, c as int, r as int).no_duplicates());
                    assert(cells@[r as int]@[c as int]@.no_duplicates());
                    remove_entry(&mut cells[r][c], entry);
                    proof {
                        assert forall|r2: int| 0 <= r2 < rows implies #[trigger] cells@[r2]@.len() >= columns by {
                            assert(prior[r2]@.len() >= columns);
                        }
                        assert forall|c2: int, r2: int| 0 <= c2 < columns && 0 <= r2 < rows implies if covers(
                            span,
                            c2,
                            r2,
                        ) && (r2 < r || (r2 == r && c2 < c + 1)) {
                            lists_without(grid_cell(before, c2, r2), #[trigger] grid_cell(cells@, c2, r2), entry)
                        } else {
                            grid_cell(cells@, c2, r2) == grid_cell(before, c2, r2)
                        } by {
                            assert(grid_cell(prior, c2, r2) == grid_cell(prior, c2, r2));
                            if r2 != r || c2 != c {
                                assert(grid_cell(cells@, c2, r2) == grid_cell(prior, c2, r2));
                            }
                        }
                    }
                    c = c + 1;
                }
                r = r + 1;
            }
        },
    }
}

/// Whether `cell`, the cell in column `col` and row `row`, lists exactly the first `count` entries whose spans in
/// `spans` reach it, each once.
pub open spec fn lists_reaching(cell: Seq<usize>, spans: Seq<Option<CellSpan>>, count: int, col: int, row: int) -> bool {
    &&& cell.no_duplicates()
    &&& forall|x: usize| cell.contains(x) <==> (x < count && x < spans.len() && covers(spans[x as int], col, row))
}

/// The `HitGrid` struct indexes entries by the grid cells their bounds reach, so a pointer query tests only the
/// entries listed in the pointer's cell.
///
/// Entries are numbered in the order they were given. A moved entry is recorded by [`HitGrid::patch`] and listed
/// where it now lies by [`HitGrid::commit`]; a query between the two still finds it where it was.
pub struct HitGrid {
    columns: usize,
    rows: usize,
    /// One row of cells per grid row, each listing the entries it holds. Spare cells of a larger earlier grid are
    /// kept so a grid that shrinks and grows again needs no allocation.
    cells: Vec<Vec<Vec<usize>>>,
    /// The span each entry occupies.
    spans: Vec<Option<CellSpan>>,
    /// The span each entry is listed under, which differs from its span only while it waits in `moved`.
    indexed: Vec<Option<CellSpan>>,
    /// The entries patched since the last commit.
    moved: Vec<usize>,
}

impl HitGrid {
    /// The number of columns.
    pub closed spec fn columns_view(&self) -> nat {
        self.columns as nat
    }

    /// The number of rows.
    pub closed spec fn rows_view(&self) -> nat {
        self.rows as nat
    }

    /// The span each entry occupies.
    pub closed spec fn spans_view(&self) -> Seq<Option<CellSpan>> {
        self.spans@
    }

    /// The span each entry is listed under.
    pub closed spec fn indexed_view(&self) -> Seq<Option<CellSpan>> {
        self.indexed@
    }

    /// The entries patched since the last commit.
    pub closed spec fn pending_view(&self) -> Seq<usize> {
        self.moved@
    }

    /// The entries listed in the cell in column `col` and row `row`.
    pub closed spec fn cell_view(&self, col: int, row: int) -> Seq<usize> {
        grid_cell(self.cells@, col, row)
    }

    /// Every cell lists exactly the entries whose listed span reaches it, each once, and only pending entries are
    /// listed under a span other than their own.
    pub closed spec fn wf(&self) -> bool {
        &&& sized(self.cells@, self.columns as int, self.rows as int)
        &&& self.indexed@.len() == self.spans@.len()
        &&& forall|k: int| 0 <= k < self.moved@.len() ==> #[trigger] self.moved@[k] < self.spans@.len()
        &&& forall|i: int|
            0 <= i < self.spans@.len() && !self.moved@.contains(i as usize) ==> #[trigger] self.indexed@[i]
                == self.spans@[i]
        &&& forall|c: int, r: int|
            0 <= c < self.columns && 0 <= r < self.rows ==> lists_reaching(
                #[trigger] grid_cell(self.cells@, c, r),
                self.indexed@,
                self.indexed@.len() as int,
                c,
                r,
            )
    }

    /// Creates an empty grid with no cells and no entries.
    pub fn new() -> (g: Self)
        ensures
            g.wf(),
            g.columns_view() == 0,
            g.rows_view() == 0,
            g.spans_view().len() == 0,
            g.pending_view().len() == 0,
    {
        HitGrid { columns: 0, rows: 0, cells: Vec::new(), spans: Vec::new(), indexed: Vec::new(), moved: Vec::new() }
    }

    /// Lists every entry again, under the span it is listed under, in a grid whose cells are all present.
    fn refill_buckets(&mut self)
        requires
            sized(old(self).cells@, old(self).columns as int, old(self).rows as int),
        ensures
            sized(final(self).cells@, final(self).columns as int, final(self).rows as int),
            final(self).columns == old(self).columns,
            final(self).rows == old(self).rows,
            final(self).spans == old(self).spans,
            final(self).indexed == old(self).indexed,
            final(self).moved == old(self).moved,
            forall|c: int, r: int|
                0 <= c < final(self).columns && 0 <= r < final(self).rows ==> lists_reaching(
                    #[trigger] grid_cell(final(self).cells@, c, r),
                    final(self).indexed@,
                    final(self).indexed@.len() as int,
                    c,
                    r,
                ),
    {
        let columns = self.columns;
        let rows = self.rows;
        let mut r: usize = 0;
        while r < rows
            invariant
                columns == self.columns,
                rows == self.rows,
                r <= rows,
                sized(self.cells@, columns as int, rows as int),
                self.spans == old(self).spans,
                self.indexed == old(self).indexed,
                self.moved == old(self).moved,
                forall|c: int, r2: int| 0 <= c < columns && 0 <= r2 < r ==> #[trigger] grid_cell(self.cells@, c, r2).len() == 0,
            decreases rows - r,
        {
            let mut c: usize = 0;
            while c < columns
                invariant
                    columns == self.columns,
                    rows == self.rows,
                    r < rows,
                    c <= columns,
                    sized(self.cells@, columns as int, rows as int),
                    self.spans == old(self).spans,
                    self.indexed == old(self).indexed,
                    self.moved == old(self).moved,
                    forall|c2: int, r2: int|
                        0 <= c2 < columns && 0 <= r2 < rows && (r2 < r || (r2 == r && c2 < c)) ==> #[trigger] grid_cell(
                            self.cells@,
                            c2,
                            r2,
                        ).len() == 0,
                decreases columns - c,
            {
                let ghost prior = self.cells@;
                assert(self.cells@[r as int]@.len() >= columns);
                self.cells[r][c].clear();
                proof {
                    assert forall|r2: int| 0 <= r2 < rows implies #[trigger] self.cells@[r2]@.len() >= columns by {
                        assert(prior[r2]@.len() >= columns);
                    }
                    assert forall|c2: int, r2: int|
                        0 <= c2 < columns && 0 <= r2 < rows && (r2 < r || (r2 == r && c2 < c + 1)) implies #[trigger] grid_cell(
                            self.cells@,
                            c2,
                            r2,
                        ).len() == 0 by {
                        if r2 != r || c2 != c {
                            assert(grid_cell(self.cells@, c2, r2) == grid_cell(prior, c2, r2));
                        }
                    }
                }
                c = c + 1;
            }
            r = r + 1;
        }
        let mut i: usize = 0;
        while i < self.indexed.len()
            invariant
                columns == self.columns,
                rows == self.rows,
                i <= self.indexed@.len(),
                sized(self.cells@, columns as int, rows as int),
                self.spans == old(self).spans,
                self.indexed == old(self).indexed,
                self.moved == old(self).moved,
                forall|c: int, r2: int|
                    0 <= c < columns && 0 <= r2 < rows ==> lists_reaching(
                        #[trigger] grid_cell(self.cells@, c, r2),
                        self.indexed@,
                        i as int,
                        c,
                        r2,
                    ),
            decreases self.indexed@.len() - i,
        {
            let ghost prior = self.cells@;
            let span = self.indexed[i];
            add_to_cells(&mut self.cells, columns, rows, i, span);
            proof {
                assert forall|c: int, r2: int| 0 <= c < columns && 0 <= r2 < rows implies lists_reaching(
                    #[trigger] grid_cell(self.cells@, c, r2),
                    self.indexed@,
                    i + 1,
                    c,
                    r2,
                ) by {
                    let before = grid_cell(prior, c, r2);
                    assert(lists_reaching(before, self.indexed@, i as int, c, r2));
                    if covers(span, c, r2) {
                        assert(!before.contains(i));
                        assert(grid_cell(self.cells@, c, r2) == before.push(i));
                        assert forall|x: usize| before.push(i).contains(x) <==> (x < i + 1 && x < self.indexed@.len()
                            && covers(self.indexed@[x as int], c, r2)) by {
                            if before.push(i).contains(x) && x != i {
                                let k = choose|k: int| 0 <= k < before.len() + 1 && before.push(i)[k] == x;
                                assert(k < before.len());
                                assert(before[k] == x);
                                assert(before.contains(x));
                            }
                            if x < i && covers(self.indexed@[x as int], c, r2) {
                                assert(before.contains(x));
                                let k = choose|k: int| 0 <= k < before.len() && before[k] == x;
                                assert(before.push(i)[k] == x);
                            }
                            if x == i {
                                assert(before.push(i)[before.len() as int] == i);
                            }
                        }
                        assert forall|a: int, b: int|
                            0 <= a < before.len() + 1 && 0 <= b < before.len() + 1 && a != b implies before.push(i)[a]
                            != before.push(i)[b] by {
                            if a < before.len() && b < before.len() {
                                assert(before[a] != before[b]);
                            } else if a < before.len() {
                                assert(before.contains(before[a]));
                            } else {
                                assert(before.contains(before[b]));
                            }
                        }
                    }
                }
            }
            i = i + 1;
        }
    }
    /// Replaces the grid with one of `columns` by `rows` cells and lists the entries occupying `spans`, one for each
    /// entry in order. Cells of a larger earlier grid are kept for later.
    pub fn reset(&mut self, columns: usize, rows: usize, spans: Vec<Option<CellSpan>>)
        ensures
            final(self).wf(),
            final(self).columns_view() == columns,
            final(self).rows_view() == rows,
            final(self).spans_view() == spans@,
            final(self).pending_view().len() == 0,
    {
        while self.cells.len() < rows
            invariant
                forall|r: int| 0 <= r < self.cells@.len() ==> (#[trigger] self.cells@[r])@.len() >= 0,
            decreases rows - self.cells@.len(),
        {
            self.cells.push(Vec::new());
        }
        let mut r: usize = 0;
        while r < rows
            invariant
                r <= rows,
                self.cells@.len() >= rows,
                forall|r2: int| 0 <= r2 < r ==> #[trigger] self.cells@[r2]@.len() >= columns,
            decreases rows - r,
        {
            let ghost prior = self.cells@;
            while self.cells[r].len() < columns
                invariant
                    r < rows <= prior.len(),
                    self.cells@.len() == prior.len(),
                    forall|r2: int| 0 <= r2 < prior.len() && r2 != r ==> #[trigger] self.cells@[r2] == prior[r2],
                decreases columns - self.cells@[r as int]@.len(),
            {
                self.cells[r].push(Vec::new());
            }
            proof {
                assert forall|r2: int| 0 <= r2 < r + 1 implies #[trigger] self.cells@[r2]@.len() >= columns by {
                    if r2 != r {
                        assert(self.cells@[r2] == prior[r2]);
                    }
                }
            }
            r = r + 1;
        }
        let mut indexed: Vec<Option<CellSpan>> = Vec::new();
        let mut i: usize = 0;
        while i < spans.len()
            invariant
                i <= spans@.len(),
                indexed@ == spans@.take(i as int),
            decreases spans@.len() - i,
        {
            indexed.push(spans[i]);
            proof {
                assert(indexed@ =~= spans@.take(i + 1));
            }
            i = i + 1;
        }
        proof {
            assert(indexed@ =~= spans@);
        }
        self.columns = columns;
        self.rows = rows;
        self.spans = spans;
        self.indexed = indexed;
        self.moved.clear();
        self.refill_buckets();
    }

    /// Records that entry `offset` now occupies `span`; [`HitGrid::commit`] lists it there. Returns `false`, changing
    /// nothing, when there is no such entry.
    pub fn patch(&mut self, offset: usize, span: Option<CellSpan>) -> (r: bool)
        requires
            old(self).wf(),
        ensures
            final(self).wf(),
            r == (offset < old(self).spans_view().len()),
            final(self).columns_view() == old(self).columns_view(),
            final(self).rows_view() == old(self).rows_view(),
            final(self).indexed_view() == old(self).indexed_view(),
            forall|c: int, r2: int| #[trigger] final(self).cell_view(c, r2) == old(self).cell_view(c, r2),
            final(self).spans_view() == if r {
                old(self).spans_view().update(offset as int, span)
            } else {
                old(self).spans_view()
            },
            final(self).pending_view() == if r && old(self).spans_view()[offset as int] != span {
                old(self).pending_view().push(offset)
            } else {
                old(self).pending_view()
            },
    {
        if offset >= self.spans.len() {
            return false;
        }
        if self.spans[offset] != span {
            self.spans.set(offset, span);
            self.moved.push(offset);
            proof {
                assert forall|k: int| 0 <= k < self.moved@.len() implies #[trigger] self.moved@[k] < self.spans@.len() by {
                    if k < self.moved@.len() - 1 {
                        assert(self.moved@[k] == old(self).moved@[k]);
                    }
                }
                assert forall|i: int|
                    0 <= i < self.spans@.len() && !self.moved@.contains(i as usize) implies #[trigger] self.indexed@[i]
                    == self.spans@[i] by {
                    if i == offset {
                        assert(self.moved@[self.moved@.len() - 1] == offset);
                    } else {
                        if old(self).moved@.contains(i as usize) {
                            let k = choose|k: int| 0 <= k < old(self).moved@.len() && old(self).moved@[k] == i as usize;
                            assert(self.moved@[k] == i as usize);
                        }
                    }
                }
            }
        }
        true
    }
    /// Lists each patched entry where it now lies. When at least a quarter of the entries moved, every cell is
    /// refilled instead, which is then cheaper than moving each entry out of the cells it left.
    pub fn commit(&mut self)
        requires
            old(self).wf(),
        ensures
            final(self).wf(),
            final(self).pending_view().len() == 0,
            final(self).indexed_view() == final(self).spans_view(),
            final(self).spans_view() == old(self).spans_view(),
            final(self).columns_view() == old(self).columns_view(),
            final(self).rows_view() == old(self).rows_view(),
    {
        if self.moved.len() == 0 {
            proof {
                assert(self.indexed@ =~= self.spans@);
            }
            return;
        }
        let count = self.spans.len();
        if (self.moved.len() as u128) * 4 >= count as u128 {
            self.moved.clear();
            let mut i: usize = 0;
            while i < count
                invariant
                    count == self.spans@.len(),
                    self.indexed@.len() == count,
                    i <= count,
                    self.spans == old(self).spans,
                    self.columns == old(self).columns,
                    self.rows == old(self).rows,
                    self.cells == old(self).cells,
                    self.moved@.len() == 0,
                    forall|k: int| 0 <= k < i ==> #[trigger] self.indexed@[k] == self.spans@[k],
                decreases count - i,
            {
                let span = self.spans[i];
                self.indexed.set(i, span);
                i = i + 1;
            }
            proof {
                assert(self.indexed@ =~= self.spans@);
            }
            self.refill_buckets();
            return;
        }
        let columns = self.columns;
        let rows = self.rows;
        let mut k: usize = 0;
        proof {
            assert(self.moved@.subrange(0, self.moved@.len() as int) =~= self.moved@);
        }
        while k < self.moved.len()
            invariant
                columns == self.columns,
                rows == self.rows,
                k <= self.moved@.len(),
                count == self.spans@.len(),
                sized(self.cells@, columns as int, rows as int),
                self.indexed@.len() == count,
                self.spans == old(self).spans,
                self.moved == old(self).moved,
                forall|m: int| 0 <= m < self.moved@.len() ==> #[trigger] self.moved@[m] < count,
                forall|i: int|
                    0 <= i < count && !self.moved@.subrange(k as int, self.moved@.len() as int).contains(i as usize)
                        ==> #[trigger] self.indexed@[i] == self.spans@[i],
                forall|c: int, r: int|
                    0 <= c < columns && 0 <= r < rows ==> lists_reaching(
                        #[trigger] grid_cell(self.cells@, c, r),
                        self.indexed@,
                        count as int,
                        c,
                        r,
                    ),
            decreases self.moved@.len() - k,
        {
            let entry = self.moved[k];
            let previous = self.indexed[entry];
            let span = self.spans[entry];
            let ghost start = self.cells@;
            let ghost listed = self.indexed@;
            proof {
                assert forall|c: int, r: int|
                    0 <= c < columns && 0 <= r < rows && covers(previous, c, r) implies #[trigger] grid_cell(
                        self.cells@,
                        c,
                        r,
                    ).contains(entry) && grid_cell(self.cells@, c, r).no_duplicates() by {
                    assert(lists_reaching(grid_cell(self.cells@, c, r), listed, count as int, c, r));
                }
            }
            remove_from_cells(&mut self.cells, columns, rows, entry, previous);
            let ghost emptied = self.cells@;
            add_to_cells(&mut self.cells, columns, rows, entry, span);
            self.indexed.set(entry, span);
            proof {
                assert forall|c: int, r: int| 0 <= c < columns && 0 <= r < rows implies lists_reaching(
                    #[trigger] grid_cell(self.cells@, c, r),
                    self.indexed@,
                    count as int,
                    c,
                    r,
                ) by {
                    let before = grid_cell(start, c, r);
                    let mid = grid_cell(emptied, c, r);
                    assert(lists_reaching(before, listed, count as int, c, r));
                    // Without the moved entry, the cell lists exactly the others whose listed span reaches it.
                    assert(mid.no_duplicates());
                    assert forall|x: usize| mid.contains(x) <==> (x < count && x != entry && covers(listed[x as int], c, r)) by {
                        if !covers(previous, c, r) {
                            assert(mid == before);
                            if x == entry {
                                assert(!before.contains(entry));
                            }
                        }
                    }
                    let after = grid_cell(self.cells@, c, r);
                    if covers(span, c, r) {
                        assert(after == mid.push(entry));
                        assert forall|x: usize| after.contains(x) <==> (x < count && x < self.indexed@.len() && covers(
                            self.indexed@[x as int],
                            c,
                            r,
                        )) by {
                            if after.contains(x) && x != entry {
                                let j = choose|j: int| 0 <= j < after.len() && after[j] == x;
                                assert(j < mid.len());
                                assert(mid[j] == x);
                                assert(mid.contains(x));
                            }
                            if x != entry && x < count && covers(self.indexed@[x as int], c, r) {
                                assert(self.indexed@[x as int] == listed[x as int]);
                                assert(mid.contains(x));
                                let j = choose|j: int| 0 <= j < mid.len() && mid[j] == x;
                                assert(after[j] == x);
                            }
                            if x == entry {
                                assert(after[mid.len() as int] == entry);
                            }
                        }
                        assert forall|a: int, b: int| 0 <= a < after.len() && 0 <= b < after.len() && a != b implies after[a]
                            != after[b] by {
                            if a < mid.len() && b < mid.len() {
                                assert(mid[a] != mid[b]);
                            } else if a < mid.len() {
                                assert(mid.contains(mid[a]));
                            } else {
                                assert(mid.contains(mid[b]));
                            }
                        }
                    } else {
                        assert(after == mid);
                        assert forall|x: usize| after.contains(x) <==> (x < count && x < self.indexed@.len() && covers(
                            self.indexed@[x as int],
                            c,
                            r,
                        )) by {
                            if x != entry && x < count {
                                assert(self.indexed@[x as int] == listed[x as int]);
                            }
                        }
                    }
                }
                assert forall|i: int|
                    0 <= i < count && !self.moved@.subrange(k + 1, self.moved@.len() as int).contains(i as usize)
                        implies #[trigger] self.indexed@[i] == self.spans@[i] by {
                    if i != entry {
                        assert(self.indexed@[i] == listed[i]);
                        if self.moved@.subrange(k as int, self.moved@.len() as int).contains(i as usize) {
                            let j = choose|j: int|
                                0 <= j < self.moved@.len() - k && self.moved@.subrange(
                                    k as int,
                                    self.moved@.len() as int,
                                )[j] == i as usize;
                            assert(j != 0);
                            assert(self.moved@.subrange(k + 1, self.moved@.len() as int)[j - 1] == i as usize);
                        }
                    }
                }
            }
            k = k + 1;
        }
        self.moved.clear();
        proof {
            assert(self.indexed@ =~= self.spans@) by {
                assert forall|i: int| 0 <= i < count implies self.indexed@[i] == self.spans@[i] by {
                    assert(!old(self).moved@.subrange(k as int, old(self).moved@.len() as int).contains(i as usize));
                }
            }
        }
    }

    /// Returns the entries listed in the cell in column `col` and row `row`: every entry whose listed span reaches it,
    /// each once.
    pub fn candidates(&self, col: usize, row: usize) -> (r: &[usize])
        requires
            self.wf(),
            col < self.columns_view(),
            row < self.rows_view(),
        ensures
            r@ == self.cell_view(col as int, row as int),
    {
        self.cells[row][col].as_slice()
    }

    /// Returns the number of columns of the grid.
    pub fn columns(&self) -> (r: usize)
        ensures
            r == self.columns_view(),
    {
        self.columns
    }

    /// Returns the number of rows of the grid.
    pub fn rows(&self) -> (r: usize)
        ensures
            r == self.rows_view(),
    {
        self.rows
    }

    /// Returns the number of entries.
    pub fn len(&self) -> (r: usize)
        ensures
            r == self.spans_view().len(),
    {
        self.spans.len()
    }
    /// Returns the number of patches waiting for a commit.
    pub fn pending(&self) -> (r: usize)
        ensures
            r == self.pending_view().len(),
    {
        self.moved.len()
    }
}

/// A grid with no patch pending lists, in each of its cells, exactly the entries whose span reaches that cell, each
/// once: a query at the pointer's cell misses no entry under the pointer.
pub proof fn a_settled_grid_lists_each_entry_where_it_lies(grid: &HitGrid, col: int, row: int, entry: usize)
    requires
        grid.wf(),
        grid.pending_view().len() == 0,
        0 <= col < grid.columns_view(),
        0 <= row < grid.rows_view(),
    ensures
        grid.cell_view(col, row).no_duplicates(),
        grid.cell_view(col, row).contains(entry) <==> (entry < grid.spans_view().len() && covers(
            grid.spans_view()[entry as int],
            col,
            row,
        )),
{
    assert(lists_reaching(grid_cell(grid.cells@, col, row), grid.indexed@, grid.indexed@.len() as int, col, row));
    if entry < grid.spans@.len() {
        assert(grid.indexed@[entry as int] == grid.spans@[entry as int]);
    }
}

/// Listing patched entries where they now lie answers like building the grid anew: once no patch is pending, a grid
/// that was patched and committed and a grid reset with the same size and spans list, in every cell, the same
/// entries, each once.
pub proof fn a_committed_grid_lists_what_a_reset_grid_lists(patched: &HitGrid, rebuilt: &HitGrid, col: int, row: int)
    requires
        patched.wf(),
        rebuilt.wf(),
        patched.pending_view().len() == 0,
        rebuilt.pending_view().len() == 0,
        patched.columns_view() == rebuilt.columns_view(),
        patched.rows_view() == rebuilt.rows_view(),
        patched.spans_view() == rebuilt.spans_view(),
        0 <= col < patched.columns_view(),
        0 <= row < patched.rows_view(),
    ensures
        patched.cell_view(col, row).no_duplicates(),
        rebuilt.cell_view(col, row).no_duplicates(),
        patched.cell_view(col, row).to_set() == rebuilt.cell_view(col, row).to_set(),
{
    assert forall|entry: usize| #[trigger] patched.cell_view(col, row).contains(entry) == rebuilt.cell_view(
        col,
        row,
    ).contains(entry) by {
        a_settled_grid_lists_each_entry_where_it_lies(patched, col, row, entry);
        a_settled_grid_lists_each_entry_where_it_lies(rebuilt, col, row, entry);
    }
    a_settled_grid_lists_each_entry_where_it_lies(patched, col, row, 0);
    a_settled_grid_lists_each_entry_where_it_lies(rebuilt, col, row, 0);
    assert(patched.cell_view(col, row).to_set() =~= rebuilt.cell_view(col, row).to_set());
}

} // verus!
