use comfy_wars::dijkstra::{dijkstra, get_neighbors};
use comfy_wars::grid::Grid;
use comfy_wars::pos::Pos;

#[test]
fn get_neighbors_test() {
    let grid = Grid::new(10, 10, 0);
    let neighbors = get_neighbors(Pos::new(1, 1), &grid);
    assert_eq!(4, neighbors.len());
    assert!(neighbors.contains(&Pos::new(0, 1)));
    assert!(neighbors.contains(&Pos::new(2, 1)));
    assert!(neighbors.contains(&Pos::new(1, 0)));
    assert!(neighbors.contains(&Pos::new(1, 2)));

    let neighbors = get_neighbors(Pos::new(0, 0), &grid);
    assert_eq!(2, neighbors.len());
    assert!(neighbors.contains(&Pos::new(0, 1)));
    assert!(neighbors.contains(&Pos::new(1, 0)));
}

#[test]
fn dijkstra_map_test() {
    // basic
    let mut grid = Grid::new(10, 10, 0);
    let pos = Pos::new(5, 5);
    *grid.get_clamped_mut(pos.x, pos.y) = 5;
    dijkstra(&mut grid, &[pos], |_| 1);
    assert_eq!(2, *grid.get(2, 5));

    // higher cost
    let mut grid = Grid::new(10, 10, 0);
    let pos = Pos::new(5, 5);
    *grid.get_clamped_mut(pos.x, pos.y) = 5;
    dijkstra(&mut grid, &[pos], |_| 2);
    assert_eq!(0, *grid.get(2, 5));
    assert_eq!(1, *grid.get(3, 5));

    // multiple seeds
    let mut grid = Grid::new(10, 10, 0);
    let pos = Pos::new(5, 5);
    *grid.get_clamped_mut(pos.x, pos.y) = 5;
    let pos2 = Pos::new(1, 4);
    *grid.get_clamped_mut(pos2.x, pos2.y) = 5;
    dijkstra(&mut grid, &[pos, pos2], |_| 1);
    assert_eq!(3, *grid.get(2, 5));
}
