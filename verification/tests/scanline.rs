use sokoban_kernel::kernel::{SokobanKernel, Tile};
use sokoban_kernel::table::Table;

fn marked(width: usize, height: usize, cells: &[(usize, usize)]) -> Table<bool> {
    let mut t = Table::new_filled(width, height);
    for &(x, y) in cells {
        t.set(x, y, true);
    }
    t
}

fn rectangle_boundary(x0: usize, y0: usize, x1: usize, y1: usize) -> Vec<(usize, usize)> {
    let mut v = Vec::new();
    for x in x0..=x1 {
        v.push((x, y0));
        v.push((x, y1));
    }
    for y in y0..=y1 {
        v.push((x0, y));
        v.push((x1, y));
    }
    v
}

fn vertical_sides(x0: usize, x1: usize, y0: usize, y1: usize) -> Vec<(usize, usize)> {
    let mut v = Vec::new();
    for y in y0..=y1 {
        v.push((x0, y));
        v.push((x1, y));
    }
    v
}

#[test]
fn empty_table_detects_nothing() {
    let t = marked(6, 6, &[]);
    assert!(!SokobanKernel::even_odd_check(&t));
}

#[test]
fn proper_crossings_are_even() {
    // Two vertical strokes: every marked row has two rising edges and does
    // not end marked — an even crossing count everywhere, nothing flagged.
    let t = marked(6, 6, &vertical_sides(1, 4, 1, 4));
    assert!(!SokobanKernel::even_odd_check(&t));
}

#[test]
fn tangent_rows_of_a_rectangle_are_flagged() {
    // A 4x4 boundary loop: its top and bottom rows run along the curve, a
    // single rising edge each — an odd count, so the scan reports them.
    let t = marked(6, 6, &rectangle_boundary(1, 1, 4, 4));
    assert!(SokobanKernel::even_odd_check(&t));
}

#[test]
fn open_strokes_are_flagged() {
    // A horizontal stroke: one rising edge in its row.
    let t = marked(6, 6, &[(1, 2), (2, 2), (3, 2)]);
    assert!(SokobanKernel::even_odd_check(&t));
    // A vertical stroke: one rising edge in each of its rows.
    let t = marked(6, 6, &[(2, 1), (2, 2), (2, 3)]);
    assert!(SokobanKernel::even_odd_check(&t));
    // A single cell.
    let t = marked(6, 6, &[(3, 3)]);
    assert!(SokobanKernel::even_odd_check(&t));
}

#[test]
fn exact_change_counts_on_one_row() {
    // Row X...: one rising edge and a clear end give 1 — odd and touched,
    // so the row is flagged.
    let t = marked(4, 1, &[(0, 0)]);
    assert!(SokobanKernel::even_odd_check(&t));
    // Row X..X: two rising edges plus one for the marked row end gives 3 —
    // odd and touched, so the row is flagged.
    let t = marked(4, 1, &[(0, 0), (3, 0)]);
    assert!(SokobanKernel::even_odd_check(&t));
    // A fully marked row: one rising edge plus the end bonus gives 2.
    let t = marked(4, 1, &[(0, 0), (1, 0), (2, 0), (3, 0)]);
    assert!(!SokobanKernel::even_odd_check(&t));
    // Row .X.X.: two rising edges and a clear end give 2.
    let t = marked(5, 1, &[(1, 0), (3, 0)]);
    assert!(!SokobanKernel::even_odd_check(&t));
}

#[test]
fn check_cycle_marks_and_scans() {
    let k = SokobanKernel::from_map(6, 6, vec![Tile::Floor; 36], vec![]);
    // The full boundary has tangent rows, so it is reported.
    assert!(k.check_cycle(&rectangle_boundary(0, 0, 3, 3)));
    // The two sides alone cross every scanline evenly.
    assert!(!k.check_cycle(&vertical_sides(1, 4, 1, 2)));
    // Cells off the grid are ignored rather than marked.
    assert!(!k.check_cycle(&vec![(7, 7), (8, 8)]));
    // Revisiting a cell does not change the bitmap or the verdict.
    let mut touched = vertical_sides(1, 4, 1, 2);
    touched.push((1, 1));
    assert!(!k.check_cycle(&touched));
}
