use word_unscrambler::grid::{Direction, Grid, GridError};

fn three_by_three() -> Grid {
    Grid::new(&[&['a', 'b', 'c'], &['d', 'e', 'f'], &['g', 'h', 'i']]).unwrap()
}

fn letter_at_index(grid: &Grid, index: usize) -> char {
    grid.get_letter(grid.get_point_from_index(index))
}

#[test]
fn test_grid_new() {
    let grid = Grid::new(&[&['c', 'b', 'c'], &['a', 'e', 'e'], &['t', 't', 'l']]).unwrap();

    assert_eq!(letter_at_index(&grid, 0), 'c');
    assert_eq!(letter_at_index(&grid, 3), 'a');
    assert_eq!(letter_at_index(&grid, 4), 'e');
    assert_eq!(letter_at_index(&grid, 8), 'l');
}

#[test]
fn test_grid_new_panics_for_uneven_matrix() {
    let r = Grid::new(&[&['a', 'b'], &['d', 'e', 'f'], &['g', 'h', 'i']]);
    assert!(matches!(r, Err(GridError::RowsSizeMismatch)));
}

#[test]
fn test_grid_get_cell() {
    let grid = three_by_three();

    assert_eq!(grid.get_cell((0, 0)).unwrap().letter, 'a');
    assert_eq!(grid.get_cell((2, 2)).unwrap().letter, 'i');
}

#[test]
fn test_grid_next() {
    let grid = three_by_three();

    assert_eq!(grid.next((0, 0), &Direction::Down).unwrap(), (1, 0));
    assert_eq!(grid.next((0, 1), &Direction::Left).unwrap(), (0, 0));
    assert_eq!(grid.next((2, 2), &Direction::Right), None);
    assert_eq!(grid.next((1, 1), &Direction::Up).unwrap(), (0, 1));
}

#[test]
fn test_grid_get_point_from_index() {
    let grid = three_by_three();

    assert_eq!(grid.get_point_from_index(5), (1, 2));
    assert_eq!(grid.get_point_from_index(7), (2, 1));
    assert_eq!(grid.get_point_from_index(0), (0, 0));
    assert_eq!(grid.get_point_from_index(8), (2, 2));
}

#[test]
fn test_new_matrix() {
    let matrix = Grid::new(&[&['c', 'b', 'c'], &['a', 'e', 'e'], &['t', 't', 'l']]).unwrap();

    assert_eq!(letter_at_index(&matrix, 0), 'c');
    assert_eq!(letter_at_index(&matrix, 3), 'a');
    assert_eq!(letter_at_index(&matrix, 4), 'e');
    assert_eq!(letter_at_index(&matrix, 8), 'l');
}

#[test]
fn test_new_matrix_panics_for_uneven_matrix() {
    let r = Grid::new(&[&['a', 'b'], &['d', 'e', 'f'], &['g', 'h', 'i']]);
    assert!(matches!(r, Err(GridError::RowsSizeMismatch)));
}

#[test]
fn test_get_matrix_element() {
    let matrix = three_by_three();

    assert_eq!(matrix.get_cell((0, 0)).unwrap().letter, 'a');
    assert_eq!(matrix.get_cell((2, 2)).unwrap().letter, 'i');
}

#[test]
fn test_matrix_next() {
    let matrix = three_by_three();

    assert_eq!(matrix.next((0, 0), &Direction::Down).unwrap(), (1, 0));
    assert_eq!(matrix.next((0, 1), &Direction::Left).unwrap(), (0, 0));
    assert_eq!(matrix.next((2, 2), &Direction::Right), None);
    assert_eq!(matrix.next((1, 1), &Direction::Up).unwrap(), (0, 1));
}

#[test]
fn test_get_point_from_index() {
    let matrix = three_by_three();

    assert_eq!(matrix.get_point_from_index(5), (1, 2));
    assert_eq!(matrix.get_point_from_index(7), (2, 1));
    assert_eq!(matrix.get_point_from_index(0), (0, 0));
    assert_eq!(matrix.get_point_from_index(8), (2, 2));
}

#[test]
fn jagged_rows_are_refused() {
    let r = Grid::new(&[&['a', 'b'], &['c']]);
    assert!(matches!(r, Err(GridError::RowsSizeMismatch)));
}

#[test]
fn no_rows_are_refused() {
    let rows: &[&[char]] = &[];
    assert!(matches!(Grid::new(rows), Err(GridError::NoRows)));
}

#[test]
fn next_stops_at_every_edge() {
    let grid = three_by_three();
    let all = [
        Direction::Up,
        Direction::UpperLeft,
        Direction::UpperRight,
        Direction::Down,
        Direction::LowerLeft,
        Direction::LowerRight,
        Direction::Left,
        Direction::Right,
    ];
    let deltas: [(i64, i64); 8] = [(-1, 0), (-1, -1), (-1, 1), (1, 0), (1, -1), (1, 1), (0, -1), (0, 1)];
    for r in 0..3usize {
        for c in 0..3usize {
            for (d, (dr, dc)) in all.iter().zip(deltas.iter()) {
                let nr = r as i64 + dr;
                let nc = c as i64 + dc;
                let inside = (0..3).contains(&nr) && (0..3).contains(&nc);
                let got = grid.next((r, c), d);
                if inside {
                    assert_eq!(got, Some((nr as usize, nc as usize)));
                } else {
                    assert_eq!(got, None);
                }
            }
        }
    }
}

#[test]
fn next_from_far_corner_of_wide_grid() {
    let grid = Grid::new(&[&['a', 'b', 'c', 'd'], &['e', 'f', 'g', 'h']]).unwrap();
    assert_eq!(grid.get_capacity(), 8);
    assert_eq!(grid.next((1, 3), &Direction::UpperLeft), Some((0, 2)));
    assert_eq!(grid.next((1, 3), &Direction::LowerRight), None);
    assert_eq!(grid.next((0, 0), &Direction::UpperLeft), None);
    assert_eq!(grid.get_letter((1, 3)), 'h');
    assert_eq!(grid.get_point_from_index(5), (1, 1));
    assert!(grid.get_cell((2, 0)).is_none());
    assert!(grid.get_cell((0, 4)).is_none());
}

#[test]
fn letters_only_check() {
    assert!(three_by_three().has_only_letters());
    let grid = Grid::new(&[&['a', '1']]).unwrap();
    assert!(!grid.has_only_letters());
}
