use comfy_wars::grid::Grid;
use comfy_wars::pos::{Button, Pos};

#[test]
fn grid_new_fills_every_cell() {
    let grid = Grid::new(4, 3, 7);
    assert_eq!(4, grid.width());
    assert_eq!(3, grid.height());
    for y in 0..3 {
        for x in 0..4 {
            assert_eq!(7, *grid.get(x, y));
        }
    }
    assert_eq!(12, grid.iter().len());
}

#[test]
fn grid_empty_shapes() {
    let grid: Grid<i32> = Grid::new(0, 5, 1);
    assert_eq!(0, grid.iter().len());
    assert!(!grid.in_bounds(0, 0));
    let grid: Grid<i32> = Grid::new(5, 0, 1);
    assert_eq!(0, grid.iter_coords().len());
}

#[test]
fn grid_get_mut_writes_one_cell() {
    let mut grid = Grid::new(3, 2, 0);
    *grid.get_mut(2, 1) = 9;
    assert_eq!(9, *grid.get(2, 1));
    let cells = grid.iter();
    assert_eq!((2, 1, 9), cells[1 * 3 + 2]);
    let others: Vec<_> = cells.iter().filter(|c| c.2 == 0).collect();
    assert_eq!(5, others.len());
}

#[test]
fn grid_rows_are_stored_one_after_another() {
    let mut grid = Grid::new(3, 2, 0);
    let mut n = 0;
    for y in 0..2 {
        for x in 0..3 {
            grid.set(Pos::new(x, y), n);
            n += 1;
        }
    }
    let cells = grid.iter();
    for (i, cell) in cells.iter().enumerate() {
        assert_eq!(i as i32, cell.2);
        assert_eq!((i % 3) as i32, cell.0);
        assert_eq!((i / 3) as i32, cell.1);
    }
    let coords = grid.iter_coords();
    assert_eq!((Pos::new(1, 1), 4), coords[4]);
}

#[test]
fn grid_clamped_access_moves_to_nearest_cell() {
    let mut grid = Grid::new(3, 3, 0);
    *grid.get_mut(0, 0) = 1;
    *grid.get_mut(2, 0) = 2;
    *grid.get_mut(0, 2) = 3;
    *grid.get_mut(2, 2) = 4;
    *grid.get_mut(1, 2) = 5;
    assert_eq!(1, *grid.get_clamped(-5, -1));
    assert_eq!(2, *grid.get_clamped(3, -100));
    assert_eq!(3, *grid.get_clamped(i32::MIN, i32::MAX));
    assert_eq!(4, *grid.get_clamped(7, 7));
    assert_eq!(5, *grid.get_clamped(1, 99));
    assert_eq!(5, *grid.get_clamped_v(Pos::new(1, 3)));
    assert_eq!(0, *grid.get_clamped(1, 1));
    *grid.get_clamped_mut(10, 1) = 8;
    assert_eq!(8, *grid.get(2, 1));
}

#[test]
fn grid_clamp_values_bounds_each_value() {
    let mut grid = Grid::new(4, 1, 0);
    *grid.get_mut(0, 0) = -3;
    *grid.get_mut(1, 0) = 0;
    *grid.get_mut(2, 0) = 1;
    *grid.get_mut(3, 0) = 9;
    grid.clamp_values(0, 1);
    assert_eq!(0, *grid.get(0, 0));
    assert_eq!(0, *grid.get(1, 0));
    assert_eq!(1, *grid.get(2, 0));
    assert_eq!(1, *grid.get(3, 0));
}

#[test]
fn grid_mul_inplace_multiplies_cell_by_cell() {
    let mut a = Grid::new(2, 2, 3);
    *a.get_mut(1, 1) = -4;
    let mut b = Grid::new(2, 2, 1);
    *b.get_mut(0, 0) = 0;
    *b.get_mut(1, 1) = 5;
    a.mul_inplace(&b);
    assert_eq!(0, *a.get(0, 0));
    assert_eq!(3, *a.get(1, 0));
    assert_eq!(3, *a.get(0, 1));
    assert_eq!(-20, *a.get(1, 1));
}

#[test]
fn grid_from_vec_wants_one_value_per_cell() {
    assert!(Grid::from_vec(2, 2, vec![1, 2, 3]).is_none());
    assert!(Grid::from_vec(2, 2, vec![1, 2, 3, 4, 5]).is_none());
    let grid = Grid::from_vec(2, 2, vec![1, 2, 3, 4]).unwrap();
    assert_eq!(3, *grid.get(0, 1));
    assert_eq!(2, *grid.get(1, 0));
}

#[test]
fn grid_from_fn_asks_for_every_cell() {
    let grid = Grid::from_fn(3, 2, |p: Pos| p.x * 10 + p.y);
    assert_eq!(0, *grid.get(0, 0));
    assert_eq!(20, *grid.get(2, 0));
    assert_eq!(11, *grid.get(1, 1));
}

#[test]
fn grid_clone_is_independent() {
    let mut a = Grid::new(2, 1, 1);
    let b = a.clone();
    *a.get_mut(0, 0) = 5;
    assert_eq!(1, *b.get(0, 0));
    assert_eq!(5, *a.get(0, 0));
    assert_eq!(2, b.width());
}

#[test]
fn pos_new_and_difference() {
    let p = Pos::new(3, -4);
    assert_eq!(3, p.x);
    assert_eq!(-4, p.y);
    assert_eq!((2, -6), p - Pos::new(1, 2));
    assert_eq!(Pos { x: 3, y: -4 }, p);
}

#[test]
fn buttons_differ() {
    assert_ne!(Button::MouseLeft, Button::MouseRight);
    assert_ne!(Button::MouseLeft, Button::MouseMiddle);
}
