use byte_engine::hit_grid::{CellSpan, HitGrid};

fn span(first_col: usize, last_col: usize, first_row: usize, last_row: usize) -> Option<CellSpan> {
    Some(CellSpan { first_col, last_col, first_row, last_row })
}

fn sorted(cell: &[usize]) -> Vec<usize> {
    let mut cell = cell.to_vec();
    cell.sort();
    cell
}

#[test]
fn each_cell_lists_the_entries_reaching_it() {
    let mut grid = HitGrid::new();
    assert_eq!((grid.columns(), grid.rows(), grid.len()), (0, 0, 0));
    // A wide entry across the top row, a small one in the corner, an empty one, and one reaching past the grid.
    grid.reset(4, 3, vec![span(0, 3, 0, 0), span(3, 3, 2, 2), None, span(2, 9, 1, 9)]);
    assert_eq!((grid.columns(), grid.rows(), grid.len()), (4, 3, 4));
    assert_eq!(grid.candidates(0, 0), [0]);
    assert_eq!(grid.candidates(3, 0), [0]);
    assert!(grid.candidates(0, 1).is_empty());
    assert_eq!(sorted(grid.candidates(3, 2)), [1, 3]);
    // The part of an entry past the grid is clipped away, not lost.
    assert_eq!(grid.candidates(2, 1), [3]);
    assert_eq!(grid.candidates(3, 1), [3]);
}

#[test]
fn a_moved_entry_is_found_where_it_was_until_the_commit() {
    let mut grid = HitGrid::new();
    let spans = (0..8).map(|index| span(index % 4, index % 4, index / 4, index / 4)).collect();
    grid.reset(4, 2, spans);
    assert_eq!(grid.candidates(1, 0), [1]);

    // One move in eight re-indexes just that entry.
    assert!(grid.patch(1, span(2, 3, 1, 1)));
    assert_eq!(grid.candidates(1, 0), [1]);
    assert_eq!(grid.candidates(3, 1), [7]);
    grid.commit();
    assert!(grid.candidates(1, 0).is_empty());
    assert_eq!(sorted(grid.candidates(2, 1)), [1, 6]);
    assert_eq!(sorted(grid.candidates(3, 1)), [1, 7]);

    // Patching an entry that does not exist changes nothing.
    assert!(!grid.patch(8, span(0, 0, 0, 0)));

    // Moving an entry twice before the commit leaves it only where it ended.
    assert!(grid.patch(0, span(1, 1, 0, 0)));
    assert!(grid.patch(0, span(0, 0, 1, 1)));
    grid.commit();
    assert!(grid.candidates(0, 0).is_empty());
    assert!(grid.candidates(1, 0).is_empty());
    assert_eq!(sorted(grid.candidates(0, 1)), [0, 4]);
}

#[test]
fn many_moves_refill_every_cell() {
    let mut grid = HitGrid::new();
    grid.reset(2, 1, vec![span(0, 0, 0, 0), span(1, 1, 0, 0)]);
    // Half the entries move, so the commit refills every cell.
    assert!(grid.patch(0, span(1, 1, 0, 0)));
    assert!(grid.patch(1, None));
    grid.commit();
    assert!(grid.candidates(0, 0).is_empty());
    assert_eq!(grid.candidates(1, 0), [0]);

    // A smaller grid afterwards lists only its own cells.
    grid.reset(1, 1, vec![span(0, 5, 0, 5)]);
    assert_eq!(grid.candidates(0, 0), [0]);
}

#[test]
fn a_committed_grid_lists_what_a_rebuilt_grid_lists() {
    let spans: Vec<Option<CellSpan>> = (0..8).map(|index| span(index % 4, index % 4, index / 4, index / 4)).collect();
    let mut patched = HitGrid::new();
    patched.reset(4, 2, spans.clone());
    // One move re-indexes in place; three more cross the quarter and refill every cell.
    assert!(patched.patch(1, span(2, 3, 1, 1)));
    patched.commit();
    assert!(patched.patch(4, span(0, 1, 0, 0)));
    assert!(patched.patch(6, None));
    assert!(patched.patch(0, span(3, 3, 0, 1)));
    patched.commit();

    let mut moved = spans;
    moved[1] = span(2, 3, 1, 1);
    moved[4] = span(0, 1, 0, 0);
    moved[6] = None;
    moved[0] = span(3, 3, 0, 1);
    let mut rebuilt = HitGrid::new();
    rebuilt.reset(4, 2, moved);
    for col in 0..4 {
        for row in 0..2 {
            assert_eq!(sorted(patched.candidates(col, row)), sorted(rebuilt.candidates(col, row)));
        }
    }
}
