use comfy_wars::dijkstra::{dijkstra, dijkstra_path, get_neighbors, relax};
use comfy_wars::grid::Grid;
use comfy_wars::pos::Pos;

fn seeded(width: i32, height: i32, seeds: &[(i32, i32, i32)]) -> Grid<i32> {
    let mut grid = Grid::new(width, height, 0);
    for (x, y, v) in seeds {
        *grid.get_mut(*x, *y) = *v;
    }
    grid
}

fn manhattan(a: Pos, b: Pos) -> i32 {
    (a.x - b.x).abs() + (a.y - b.y).abs()
}

#[test]
fn neighbors_come_left_right_below_above() {
    let grid = Grid::new(3, 3, 0);
    assert_eq!(
        vec![Pos::new(0, 1), Pos::new(2, 1), Pos::new(1, 2), Pos::new(1, 0)],
        get_neighbors(Pos::new(1, 1), &grid)
    );
    assert_eq!(vec![Pos::new(1, 0), Pos::new(0, 1)], get_neighbors(Pos::new(0, 0), &grid));
    assert_eq!(vec![Pos::new(1, 2), Pos::new(2, 1)], get_neighbors(Pos::new(2, 2), &grid));
}

#[test]
fn neighbors_of_cells_off_the_grid() {
    let grid = Grid::new(3, 3, 0);
    assert_eq!(vec![Pos::new(0, 1)], get_neighbors(Pos::new(-1, 1), &grid));
    assert_eq!(vec![Pos::new(2, 2)], get_neighbors(Pos::new(2, 3), &grid));
    assert!(get_neighbors(Pos::new(-1, -1), &grid).is_empty());
    assert!(get_neighbors(Pos::new(5, 1), &grid).is_empty());
    assert!(get_neighbors(Pos::new(i32::MAX, i32::MIN), &grid).is_empty());
    assert!(get_neighbors(Pos::new(i32::MIN, i32::MAX), &grid).is_empty());
    let single = Grid::new(1, 1, 0);
    assert!(get_neighbors(Pos::new(0, 0), &single).is_empty());
    let none: Grid<i32> = Grid::new(0, 0, 0);
    assert!(get_neighbors(Pos::new(0, 0), &none).is_empty());
}

#[test]
fn relaxation_single_seed_falls_off_with_distance() {
    let seed = Pos::new(5, 5);
    let mut grid = seeded(10, 10, &[(5, 5, 5)]);
    dijkstra(&mut grid, &[seed], |_| 1);
    for (p, v) in grid.iter_coords() {
        assert_eq!((5 - manhattan(p, seed)).max(0), v, "at {:?}", p);
    }
}

#[test]
fn relaxation_higher_cost_falls_off_faster() {
    let seed = Pos::new(5, 5);
    let mut grid = seeded(10, 10, &[(5, 5, 5)]);
    dijkstra(&mut grid, &[seed], |_| 2);
    assert_eq!(0, *grid.get(2, 5));
    assert_eq!(1, *grid.get(3, 5));
    assert_eq!(3, *grid.get(4, 5));
    assert_eq!(5, *grid.get(5, 5));
    for (p, v) in grid.iter_coords() {
        assert_eq!((5 - 2 * manhattan(p, seed)).max(0), v, "at {:?}", p);
    }
}

#[test]
fn relaxation_two_seeds_take_the_better_offer() {
    let a = Pos::new(5, 5);
    let b = Pos::new(1, 4);
    let mut grid = seeded(10, 10, &[(5, 5, 5), (1, 4, 5)]);
    dijkstra(&mut grid, &[a, b], |_| 1);
    assert_eq!(3, *grid.get(2, 5));
    for (p, v) in grid.iter_coords() {
        let best = (5 - manhattan(p, a)).max(5 - manhattan(p, b)).max(0);
        assert_eq!(best, v, "at {:?}", p);
    }
}

#[test]
fn relaxation_with_a_table_of_costs() {
    // a wall of high cost with one gap
    let mut costs = Grid::new(5, 3, 1);
    *costs.get_mut(2, 0) = 100;
    *costs.get_mut(2, 1) = 100;
    let mut grid = seeded(5, 3, &[(0, 0, 10)]);
    relax(&mut grid, &[Pos::new(0, 0)], &costs);
    assert_eq!(10, *grid.get(0, 0));
    assert_eq!(9, *grid.get(1, 0));
    assert_eq!(0, *grid.get(2, 0));
    assert_eq!(0, *grid.get(2, 1));
    // around the wall: (1,0) (1,1) (1,2) (2,2) (3,2) (3,1) (3,0)
    assert_eq!(7, *grid.get(1, 2));
    assert_eq!(6, *grid.get(2, 2));
    assert_eq!(5, *grid.get(3, 2));
    assert_eq!(4, *grid.get(3, 1));
    assert_eq!(3, *grid.get(3, 0));
    assert_eq!(2, *grid.get(4, 0));
}

#[test]
fn relaxation_never_lowers_and_never_tops_the_start() {
    let mut grid = seeded(6, 6, &[(1, 1, 8), (4, 4, -7), (0, 5, 3)]);
    let before = grid.clone();
    relax(&mut grid, &[Pos::new(1, 1), Pos::new(4, 4)], &Grid::new(6, 6, 2));
    for ((_, old), (_, new)) in before.iter_coords().into_iter().zip(grid.iter_coords()) {
        assert!(old <= new);
        assert!(new <= 8);
    }
    // the cell that lay below its neighbours was lifted
    assert!(*grid.get(4, 4) > -7);
}

#[test]
fn relaxation_leaves_cells_away_from_the_seeds_alone() {
    // a step in the field far from the seed stays as it is
    let mut grid = seeded(9, 1, &[(0, 0, 3), (7, 0, 50)]);
    relax(&mut grid, &[Pos::new(0, 0)], &Grid::new(9, 1, 1));
    assert_eq!(2, *grid.get(1, 0));
    assert_eq!(1, *grid.get(2, 0));
    assert_eq!(0, *grid.get(3, 0));
    assert_eq!(0, *grid.get(6, 0));
    assert_eq!(50, *grid.get(7, 0));
    assert_eq!(0, *grid.get(8, 0));
}

#[test]
fn relaxation_with_zero_cost_floods_the_grid() {
    let mut grid = seeded(4, 4, &[(2, 2, 6)]);
    dijkstra(&mut grid, &[Pos::new(2, 2)], |_| 0);
    for (_, v) in grid.iter_coords() {
        assert_eq!(6, v);
    }
}

#[test]
fn relaxation_seed_off_the_grid_changes_nothing_by_itself() {
    let mut grid = seeded(3, 3, &[(0, 1, 4)]);
    dijkstra(&mut grid, &[Pos::new(-1, 1)], |_| 1);
    // only the neighbour of the seed was looked at, and it was settled
    assert_eq!(4, *grid.get(0, 1));
    assert_eq!(0, *grid.get(1, 1));
    let mut grid = seeded(3, 3, &[(0, 1, 4)]);
    dijkstra(&mut grid, &[], |_| 1);
    assert_eq!(0, *grid.get(1, 1));
}

#[test]
fn path_climbs_to_the_seed() {
    let mut grid = seeded(10, 10, &[(5, 5, 9)]);
    dijkstra(&mut grid, &[Pos::new(5, 5)], |_| 1);
    let path = dijkstra_path(&grid, Pos::new(2, 5));
    assert_eq!(
        vec![Pos::new(2, 5), Pos::new(3, 5), Pos::new(4, 5), Pos::new(5, 5)],
        path
    );
}

#[test]
fn path_is_empty_off_the_grid_and_on_low_ground() {
    let mut grid = seeded(4, 4, &[(3, 3, 5)]);
    dijkstra(&mut grid, &[Pos::new(3, 3)], |_| 1);
    assert!(dijkstra_path(&grid, Pos::new(-1, 0)).is_empty());
    assert!(dijkstra_path(&grid, Pos::new(0, 4)).is_empty());
    assert!(dijkstra_path(&grid, Pos::new(4, 0)).is_empty());
    assert!(dijkstra_path(&grid, Pos::new(0, -1)).is_empty());
    // value 0 is not positive
    assert_eq!(0, *grid.get(0, 0));
    assert!(dijkstra_path(&grid, Pos::new(0, 0)).is_empty());
    let low = seeded(2, 1, &[(0, 0, -1), (1, 0, 5)]);
    assert!(dijkstra_path(&low, Pos::new(0, 0)).is_empty());
}

#[test]
fn path_starts_in_the_top_row_too() {
    let grid = seeded(3, 1, &[(0, 0, 1), (1, 0, 2), (2, 0, 3)]);
    assert_eq!(
        vec![Pos::new(0, 0), Pos::new(1, 0), Pos::new(2, 0)],
        dijkstra_path(&grid, Pos::new(0, 0))
    );
}

#[test]
fn path_on_a_peak_is_the_peak() {
    let grid = seeded(3, 3, &[(1, 1, 4)]);
    assert_eq!(vec![Pos::new(1, 1)], dijkstra_path(&grid, Pos::new(1, 1)));
    let single = seeded(1, 1, &[(0, 0, 4)]);
    assert_eq!(vec![Pos::new(0, 0)], dijkstra_path(&single, Pos::new(0, 0)));
    // a plateau is a peak: no neighbour is higher
    let flat = Grid::new(3, 3, 2);
    assert_eq!(vec![Pos::new(1, 1)], dijkstra_path(&flat, Pos::new(1, 1)));
}

#[test]
fn path_takes_the_last_of_equal_neighbours() {
    // all four neighbours equal: above comes last
    let grid = seeded(3, 3, &[(1, 1, 1), (0, 1, 5), (2, 1, 5), (1, 2, 5), (1, 0, 5)]);
    assert_eq!(vec![Pos::new(1, 1), Pos::new(1, 0)], dijkstra_path(&grid, Pos::new(1, 1)));
    // left and right and below equal: below comes last of these
    let grid = seeded(3, 3, &[(1, 1, 1), (0, 1, 5), (2, 1, 5), (1, 2, 5), (1, 0, 2)]);
    assert_eq!(vec![Pos::new(1, 1), Pos::new(1, 2)], dijkstra_path(&grid, Pos::new(1, 1)));
    // left and right equal: right comes last
    let grid = seeded(3, 3, &[(1, 1, 1), (0, 1, 5), (2, 1, 5)]);
    assert_eq!(vec![Pos::new(1, 1), Pos::new(2, 1)], dijkstra_path(&grid, Pos::new(1, 1)));
}

#[test]
fn path_never_visits_a_cell_twice_and_climbs_all_the_way() {
    let mut grid = seeded(8, 6, &[(6, 1, 12), (1, 4, 7)]);
    dijkstra(&mut grid, &[Pos::new(6, 1), Pos::new(1, 4)], |p: Pos| 1 + (p.x + p.y) % 2);
    for (start, value) in grid.iter_coords() {
        let path = dijkstra_path(&grid, start);
        if value <= 0 {
            assert!(path.is_empty());
            continue;
        }
        assert_eq!(start, path[0]);
        assert!(path.len() - 1 <= (8 + 6) as usize);
        for i in 1..path.len() {
            assert_eq!(1, manhattan(path[i - 1], path[i]));
            assert!(grid.get(path[i].x, path[i].y) > grid.get(path[i - 1].x, path[i - 1].y));
        }
        for i in 0..path.len() {
            for j in (i + 1)..path.len() {
                assert_ne!(path[i], path[j]);
            }
        }
        let last = *path.last().unwrap();
        for n in get_neighbors(last, &grid) {
            assert!(grid.get(n.x, n.y) <= grid.get(last.x, last.y));
        }
    }
}

#[test]
fn path_may_wind_through_more_steps_than_width_plus_height() {
    // values rise along a snake through a 3 by 7 grid
    let mut grid = Grid::new(3, 7, 0);
    let mut snake = Vec::new();
    for y in 0..7 {
        if y % 2 == 0 {
            let xs: Vec<i32> = if y % 4 == 0 { vec![0, 1, 2] } else { vec![2, 1, 0] };
            for x in xs {
                snake.push(Pos::new(x, y));
            }
        } else {
            snake.push(Pos::new(if y % 4 == 1 { 2 } else { 0 }, y));
        }
    }
    for (i, p) in snake.iter().enumerate() {
        *grid.get_mut(p.x, p.y) = 1 + i as i32;
    }
    let path = dijkstra_path(&grid, snake[0]);
    assert_eq!(snake, path);
    assert!(path.len() - 1 > 3 + 7);
    assert!(path.len() <= 3 * 7);
}
