//! The arrays, through the outside crate that holds them.

use johnnybt_engine::grid::Grid;

#[test]
fn a_grid_starts_filled_and_reads_back_what_is_written() {
    let mut grid = Grid::new(&[2, 3], 7).expect("fits");
    assert_eq!(grid.get(&[0, 0]), Some(7));
    assert_eq!(grid.get(&[1, 2]), Some(7));
    assert!(grid.set(&[1, 2], 42));
    assert_eq!(grid.get(&[1, 2]), Some(42));
    assert_eq!(grid.get(&[1, 1]), Some(7));
    assert_eq!(grid.get(&[0, 2]), Some(7));
}

#[test]
fn every_cell_is_its_own() {
    let mut grid = Grid::new(&[3, 4, 5, 2], 0).expect("fits");
    let mut word = 1;
    for a in 0..3 {
        for b in 0..4 {
            for c in 0..5 {
                for d in 0..2 {
                    assert!(grid.set(&[a, b, c, d], word));
                    word += 1;
                }
            }
        }
    }
    let mut word = 1;
    for a in 0..3 {
        for b in 0..4 {
            for c in 0..5 {
                for d in 0..2 {
                    assert_eq!(grid.get(&[a, b, c, d]), Some(word));
                    word += 1;
                }
            }
        }
    }
}

#[test]
fn outside_the_grid_there_is_nothing() {
    let mut grid = Grid::new(&[2, 3], 7).expect("fits");
    assert_eq!(grid.get(&[2, 0]), None);
    assert_eq!(grid.get(&[0, 3]), None);
    assert_eq!(grid.get(&[0]), None);
    assert_eq!(grid.get(&[0, 0, 0]), None);
    assert!(!grid.set(&[2, 0], 1));
    assert_eq!(grid.get(&[0, 0]), Some(7));
}

#[test]
fn a_grid_may_be_empty_along_an_axis() {
    let grid = Grid::new(&[0, 3], 7).expect("fits");
    assert_eq!(grid.get(&[0, 0]), None);
    let point = Grid::new(&[], 9).expect("fits");
    assert_eq!(point.get(&[]), Some(9));
}

#[test]
fn a_grid_too_large_to_lay_out_is_refused() {
    assert!(Grid::new(&[usize::MAX, 2], 0).is_none());
    assert!(Grid::new(&[1 << 40, 1 << 40, 0], 0).is_none());
}
